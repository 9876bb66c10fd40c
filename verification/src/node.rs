//! The nodes of the radix tree: what a subtree maps, when it is well
//! formed, and how a key is found in it, put into it and taken out of it.

use crate::bytes::{
    common_prefix, is_prefix, lemma_common_prefix_len,
    lemma_common_prefix_whole, lemma_is_prefix_push, lemma_is_prefix_split, lemma_prefix_and_rest,
};
use vstd::prelude::*;
use vstd::slice::{slice_subrange, slice_to_vec};

verus! {

/// One node of the tree. Entering the node consumes `fragment`; if the key
/// ends there, `value` is what it maps to; otherwise the next byte selects
/// one of the children by its label, and the rest of the key is looked up
/// in that child. A node without children is a leaf.
#[allow(non_camel_case_types)]
pub struct raxNode<V> {
    pub(crate) fragment: Vec<u8>,
    pub(crate) value: Option<V>,
    pub(crate) labels: Vec<u8>,
    pub(crate) children: Vec<raxNode<V>>,
}

/// The labels of a node are strictly increasing.
pub open spec fn increasing(labels: Seq<u8>) -> bool {
    forall|i: int, j: int| 0 <= i < j < labels.len() ==> #[trigger] labels[i] < #[trigger] labels[j]
}

/// The child that the byte `b` selects, if any.
pub open spec fn route<V>(labels: Seq<u8>, children: Seq<raxNode<V>>, b: u8) -> Option<raxNode<V>> {
    let i = labels.index_of(b);
    if labels.contains(b) && 0 <= i < children.len() {
        Some(children[i])
    } else {
        None
    }
}

/// Each label selects the child at its own place.
pub proof fn lemma_route_at<V>(labels: Seq<u8>, children: Seq<raxNode<V>>, i: int)
    requires
        increasing(labels),
        labels.len() == children.len(),
        0 <= i < labels.len(),
    ensures
        route(labels, children, labels[i]) == Some(children[i]),
{
    let c = labels.index_of(labels[i]);
    if c < i {
        assert(labels[c] < labels[i]);
    } else if c > i {
        assert(labels[i] < labels[c]);
    }
}

/// Replacing the child at place `i` changes what the label at `i` selects
/// and nothing else.
pub proof fn lemma_route_update<V>(
    labels: Seq<u8>,
    children: Seq<raxNode<V>>,
    i: int,
    c: raxNode<V>,
    x: u8,
)
    requires
        increasing(labels),
        labels.len() == children.len(),
        0 <= i < labels.len(),
    ensures
        route(labels, children.update(i, c), x) == if x == labels[i] {
            Some(c)
        } else {
            route(labels, children, x)
        },
{
    if x == labels[i] {
        lemma_route_at(labels, children.update(i, c), i);
    }
}

/// A new label put at its place among the others selects the new child,
/// and the other labels select what they selected.
pub proof fn lemma_route_insert<V>(
    labels: Seq<u8>,
    children: Seq<raxNode<V>>,
    at: int,
    b: u8,
    c: raxNode<V>,
    x: u8,
)
    requires
        increasing(labels),
        labels.len() == children.len(),
        0 <= at <= labels.len(),
        forall|j: int| 0 <= j < at ==> labels[j] < b,
        forall|j: int| at <= j < labels.len() ==> labels[j] > b,
    ensures
        increasing(labels.insert(at, b)),
        route(labels.insert(at, b), children.insert(at, c), x) == if x == b {
            Some(c)
        } else {
            route(labels, children, x)
        },
{
    let l2 = labels.insert(at, b);
    let c2 = children.insert(at, c);
    labels.insert_ensures(at, b);
    children.insert_ensures(at, c);
    assert forall|i: int, j: int| 0 <= i < j < l2.len() implies #[trigger] l2[i] < #[trigger] l2[j] by {
        if i < at {
            assert(l2[i] == labels[i]);
        } else if i > at {
            assert(l2[i] == labels[i - 1]);
        }
        if j < at {
            assert(l2[j] == labels[j]);
        } else if j > at {
            assert(l2[j] == labels[j - 1]);
        }
    }
    if x == b {
        lemma_route_at(l2, c2, at);
    } else if labels.contains(x) {
        let i = labels.index_of(x);
        let i2 = if i < at { i } else { i + 1 };
        assert(l2[i2] == x);
        lemma_route_at(l2, c2, i2);
        lemma_route_at(labels, children, i);
    } else if l2.contains(x) {
        let i2 = l2.index_of(x);
        let i = if i2 < at { i2 } else { i2 - 1 };
        assert(labels[i] == x);
    }
}

/// Taking the label at place `at` out, with its child, leaves it selecting
/// nothing, and the other labels selecting what they selected.
pub proof fn lemma_route_remove<V>(
    labels: Seq<u8>,
    children: Seq<raxNode<V>>,
    at: int,
    x: u8,
)
    requires
        increasing(labels),
        labels.len() == children.len(),
        0 <= at < labels.len(),
    ensures
        increasing(labels.remove(at)),
        route(labels.remove(at), children.remove(at), x) == if x == labels[at] {
            None
        } else {
            route(labels, children, x)
        },
{
    let l2 = labels.remove(at);
    let c2 = children.remove(at);
    labels.remove_ensures(at);
    children.remove_ensures(at);
    assert forall|i: int, j: int| 0 <= i < j < l2.len() implies #[trigger] l2[i] < #[trigger] l2[j] by {
        let i0 = if i < at { i } else { i + 1 };
        let j0 = if j < at { j } else { j + 1 };
        assert(l2[i] == labels[i0]);
        assert(l2[j] == labels[j0]);
    }
    if l2.contains(x) {
        let i2 = l2.index_of(x);
        let i = if i2 < at { i2 } else { i2 + 1 };
        assert(labels[i] == x);
        if i < at {
            assert(labels[i] < labels[at]);
        } else {
            assert(labels[at] < labels[i]);
        }
        lemma_route_at(l2, c2, i2);
        lemma_route_at(labels, children, i);
    } else if labels.contains(x) && x != labels[at] {
        let i = labels.index_of(x);
        let i2 = if i < at { i } else { i - 1 };
        assert(l2[i2] == x);
    }
}

impl<V> raxNode<V> {
    /// The value that the subtree holds for `key`, a key taken from the
    /// point where this node is entered.
    pub closed spec fn lookup(self, key: Seq<u8>) -> Option<V>
        decreases self,
    {
        let f = self.fragment@;
        if !is_prefix(f, key) {
            None
        } else if key.len() == f.len() {
            self.value
        } else {
            let b = key[f.len() as int];
            let i = self.labels@.index_of(b);
            if self.labels@.contains(b) && 0 <= i < self.children@.len() {
                self.children@[i].lookup(key.skip(f.len() as int + 1))
            } else {
                None
            }
        }
    }

    /// `lookup`, with the choice of the child written as `route`.
    pub(crate) proof fn lemma_lookup(self, key: Seq<u8>)
        ensures
            self.lookup(key) == if !is_prefix(self.fragment@, key) {
                None
            } else if key.len() == self.fragment@.len() {
                self.value
            } else {
                match route(self.labels@, self.children@, key[self.fragment@.len() as int]) {
                    Some(c) => c.lookup(key.skip(self.fragment@.len() as int + 1)),
                    None => None,
                }
            },
    {
    }

    /// A node whose fragment is cut after `m + 1` bytes maps what the
    /// node with the rest of the fragment maps, behind those bytes.
    pub(crate) proof fn lemma_lookup_split(self, rest: Self, m: int, key: Seq<u8>)
        requires
            0 <= m < self.fragment@.len(),
            rest.fragment@ == self.fragment@.skip(m + 1),
            rest.value == self.value,
            rest.labels@ == self.labels@,
            rest.children@ == self.children@,
        ensures
            self.lookup(key) == if is_prefix(self.fragment@.subrange(0, m + 1), key) {
                rest.lookup(key.skip(m + 1))
            } else {
                None
            },
    {
        let f = self.fragment@;
        lemma_is_prefix_split(f, key, m + 1);
        self.lemma_lookup(key);
        rest.lemma_lookup(key.skip(m + 1));
        if is_prefix(f, key) && key.len() > f.len() {
            assert(key.skip(m + 1).skip(f.len() - m - 1 + 1) =~= key.skip(f.len() as int + 1));
        }
    }

    /// The subtree as a map from keys to values.
    pub closed spec fn as_map(self) -> Map<Seq<u8>, V> {
        Map::new(|k: Seq<u8>| self.lookup(k).is_some(), |k: Seq<u8>| self.lookup(k).unwrap())
    }

    /// What `as_map` holds, said with `lookup`.
    pub(crate) proof fn lemma_as_map(self, key: Seq<u8>)
        ensures
            self.as_map().dom().contains(key) == self.lookup(key).is_some(),
            self.lookup(key).is_some() ==> self.as_map()[key] == self.lookup(key).unwrap(),
    {
    }

    /// A subtree that maps `key` to `value`, and every other key as
    /// `before` does, is `before` with `key` mapped to `value`.
    pub(crate) proof fn lemma_as_map_insert(self, before: Self, key: Seq<u8>, value: V)
        requires
            forall|k: Seq<u8>|
                #[trigger] self.lookup(k) == if k == key {
                    Some(value)
                } else {
                    before.lookup(k)
                },
        ensures
            self.as_map() == before.as_map().insert(key, value),
    {
        assert forall|k: Seq<u8>| #[trigger]
            self.as_map().dom().contains(k) == before.as_map().insert(key, value).dom().contains(k) by {
            assert(self.lookup(k).is_some() == (k == key || before.lookup(k).is_some()));
        }
        assert forall|k: Seq<u8>| #[trigger] self.as_map().dom().contains(k) implies self.as_map()[k]
            == before.as_map().insert(key, value)[k] by {
            assert(self.lookup(k) == if k == key {
                Some(value)
            } else {
                before.lookup(k)
            });
        }
        assert(self.as_map() =~= before.as_map().insert(key, value));
    }

    /// A subtree that maps `key` to nothing, and every other key as
    /// `before` does, is `before` without `key`.
    pub(crate) proof fn lemma_as_map_remove(self, before: Self, key: Seq<u8>)
        requires
            forall|k: Seq<u8>|
                #[trigger] self.lookup(k) == if k == key {
                    None
                } else {
                    before.lookup(k)
                },
        ensures
            self.as_map() == before.as_map().remove(key),
    {
        assert forall|k: Seq<u8>| #[trigger]
            self.as_map().dom().contains(k) == before.as_map().remove(key).dom().contains(k) by {
            assert(self.lookup(k).is_some() == (k != key && before.lookup(k).is_some()));
        }
        assert forall|k: Seq<u8>| #[trigger] self.as_map().dom().contains(k) implies self.as_map()[k]
            == before.as_map().remove(key)[k] by {
            assert(self.lookup(k) == before.lookup(k));
        }
        assert(self.as_map() =~= before.as_map().remove(key));
    }

    /// The node holds nothing: no value and no children.
    pub closed spec fn is_vacant(self) -> bool {
        self.value.is_none() && self.children@.len() == 0 && self.labels@.len() == 0
    }

    /// The shape that every node below the root has: one label per child,
    /// labels strictly increasing, and paths compressed, so that a node
    /// without a value has at least two children.
    pub closed spec fn wf(self) -> bool
        decreases self,
    {
        &&& self.labels@.len() == self.children@.len()
        &&& increasing(self.labels@)
        &&& forall|i: int|
            0 <= i < self.children@.len() ==> (#[trigger] self.children@[i]).wf()
        &&& (self.value.is_none() ==> self.children@.len() >= 2)
    }

    /// The shape of a root: that of any node, or vacant.
    pub closed spec fn wf_root(self) -> bool {
        self.wf() || self.is_vacant()
    }

    /// What `wf` says of the node itself.
    pub(crate) proof fn lemma_shape(self)
        requires
            self.wf(),
        ensures
            self.labels@.len() == self.children@.len(),
            increasing(self.labels@),
            forall|i: int| 0 <= i < self.children@.len() ==> (#[trigger] self.children@[i]).wf(),
            self.value.is_none() ==> self.children@.len() >= 2,
            self.wf_root(),
            !self.is_vacant(),
    {
    }

    /// A vacant node maps nothing.
    pub(crate) proof fn lemma_vacant_lookup(self, key: Seq<u8>)
        requires
            self.is_vacant(),
        ensures
            self.lookup(key).is_none(),
    {
    }

    /// A node that holds nothing.
    pub(crate) fn vacant() -> (node: Self)
        ensures
            node.wf_root(),
            node.is_vacant(),
            forall|k: Seq<u8>| node.lookup(k).is_none(),
    {
        let node = raxNode {
            fragment: Vec::new(),
            value: None,
            labels: Vec::new(),
            children: Vec::new(),
        };
        proof {
            assert forall|k: Seq<u8>| node.lookup(k).is_none() by {
                node.lemma_vacant_lookup(k);
            }
        }
        node
    }

    /// A leaf that maps the rest of `key` from `pos` on to `value`.
    fn leaf(key: &[u8], pos: usize, value: V) -> (node: Self)
        requires
            pos <= key.len(),
        ensures
            node.wf(),
            node.fragment@ == key@.skip(pos as int),
            node.value == Some(value),
            node.children@.len() == 0,
            node.labels@.len() == 0,
    {
        let fragment = slice_to_vec(slice_subrange(key, pos, key.len()));
        assert(fragment@ =~= key@.skip(pos as int));
        raxNode { fragment, value: Some(value), labels: Vec::new(), children: Vec::new() }
    }

    /// Where `b` stands among the labels: the number of labels below `b`,
    /// and whether the label at that place is `b`.
    pub(crate) fn find_edge(&self, b: u8) -> (r: (bool, usize))
        requires
            self.wf_root(),
        ensures
            r.1 <= self.labels.len(),
            forall|j: int| 0 <= j < r.1 ==> self.labels@[j] < b,
            forall|j: int| r.1 <= j < self.labels@.len() ==> self.labels@[j] >= b,
            r.0 == (r.1 < self.labels@.len() && self.labels@[r.1 as int] == b),
            r.0 == self.labels@.contains(b),
            r.0 ==> self.labels@.index_of(b) == r.1,
    {
        let mut i: usize = 0;
        while i < self.labels.len() && self.labels[i] < b
            invariant
                i <= self.labels@.len(),
                forall|j: int| 0 <= j < i ==> self.labels@[j] < b,
            decreases self.labels@.len() - i,
        {
            i += 1;
        }
        let found = i < self.labels.len() && self.labels[i] == b;
        proof {
            assert forall|j: int| i <= j < self.labels@.len() implies self.labels@[j] >= b by {
                if j > i {
                    assert(self.labels@[i as int] < self.labels@[j]);
                }
            }
            if found {
                assert(self.labels@[i as int] == b);
                let c = self.labels@.index_of(b);
                assert(0 <= c < self.labels@.len() && self.labels@[c] == b);
                if c < i {
                    assert(self.labels@[c] < self.labels@[i as int]);
                } else if c > i {
                    assert(self.labels@[i as int] < self.labels@[c]);
                }
            }
        }
        (found, i)
    }

    /// What a node without children maps: its fragment to its value.
    pub(crate) proof fn lemma_lookup_leaf(self, key: Seq<u8>)
        requires
            self.children@.len() == 0,
        ensures
            self.lookup(key) == if key == self.fragment@ {
                self.value
            } else {
                None
            },
    {
        self.lemma_lookup(key);
        let f = self.fragment@;
        if is_prefix(f, key) && key.len() == f.len() {
            assert(key =~= f);
        }
        if key == f {
            assert(f.subrange(0, f.len() as int) =~= f);
        }
    }

    /// Two nodes that differ in their value alone differ in what they
    /// map their fragment to, and in nothing else.
    pub(crate) proof fn lemma_lookup_value(self, before: Self, key: Seq<u8>)
        requires
            self.fragment@ == before.fragment@,
            self.labels@ == before.labels@,
            self.children@ == before.children@,
        ensures
            self.lookup(key) == if key == self.fragment@ {
                self.value
            } else {
                before.lookup(key)
            },
            before.lookup(self.fragment@) == before.value,
    {
        self.lemma_lookup(key);
        before.lemma_lookup(key);
        before.lemma_lookup(self.fragment@);
        let f = self.fragment@;
        assert(f.subrange(0, f.len() as int) =~= f);
        if is_prefix(f, key) && key.len() == f.len() {
            assert(key =~= f);
        }
    }

    /// Two nodes that differ in what one label selects differ in what
    /// they map behind that label, and in nothing else.
    pub(crate) proof fn lemma_lookup_edge(self, before: Self, b: u8, key: Seq<u8>)
        requires
            self.fragment@ == before.fragment@,
            self.value == before.value,
            forall|x: u8|
                x != b ==> route(self.labels@, self.children@, x) == route(
                    before.labels@,
                    before.children@,
                    x,
                ),
        ensures
            self.lookup(key) == if is_prefix(self.fragment@.push(b), key) {
                match route(self.labels@, self.children@, b) {
                    Some(c) => c.lookup(key.skip(self.fragment@.len() as int + 1)),
                    None => None,
                }
            } else {
                before.lookup(key)
            },
            before.lookup(key) == if is_prefix(self.fragment@.push(b), key) {
                match route(before.labels@, before.children@, b) {
                    Some(c) => c.lookup(key.skip(self.fragment@.len() as int + 1)),
                    None => None,
                }
            } else {
                before.lookup(key)
            },
    {
        self.lemma_lookup(key);
        before.lemma_lookup(key);
        lemma_is_prefix_push(self.fragment@, b, key);
    }

    /// Cuts the fragment after `m` bytes: this node keeps the first `m`
    /// bytes and nothing else, and what it held moves to the node that is
    /// returned with the label that leads to it.
    fn split(&mut self, m: usize) -> (r: (u8, Self))
        requires
            old(self).wf(),
            m < old(self).fragment.len(),
        ensures
            r.0 == old(self).fragment@[m as int],
            r.1.wf(),
            r.1.fragment@ == old(self).fragment@.skip(m + 1),
            r.1.value == old(self).value,
            r.1.labels@ == old(self).labels@,
            r.1.children@ == old(self).children@,
            final(self).fragment@ == old(self).fragment@.subrange(0, m as int),
            final(self).value.is_none(),
            final(self).labels@.len() == 0,
            final(self).children@.len() == 0,
            forall|k: Seq<u8>|
                #[trigger] old(self).lookup(k) == if is_prefix(final(self).fragment@.push(r.0), k) {
                    r.1.lookup(k.skip(m + 1))
                } else {
                    None
                },
    {
        let tail = self.fragment.split_off(m + 1);
        let label = self.fragment.pop().unwrap();
        let mut labels: Vec<u8> = Vec::new();
        let mut children: Vec<raxNode<V>> = Vec::new();
        std::mem::swap(&mut labels, &mut self.labels);
        std::mem::swap(&mut children, &mut self.children);
        let value = self.value.take();
        let below = raxNode { fragment: tail, value, labels, children };
        proof {
            assert(tail@ =~= old(self).fragment@.skip(m + 1));
            assert(self.fragment@ =~= old(self).fragment@.subrange(0, m as int));
            assert(old(self).fragment@.subrange(0, m + 1) =~= self.fragment@.push(label));
            assert forall|k: Seq<u8>|
                #[trigger] old(self).lookup(k) == if is_prefix(self.fragment@.push(label), k) {
                    below.lookup(k.skip(m + 1))
                } else {
                    None
                } by {
                old(self).lemma_lookup_split(below, m as int, k);
            }
        }
        (label, below)
    }

    /// Puts `child` under `label`, which is not among the labels yet, at
    /// the place `at` where it keeps them increasing.
    fn add_child(&mut self, at: usize, label: u8, child: Self)
        requires
            old(self).labels@.len() == old(self).children@.len(),
            increasing(old(self).labels@),
            forall|i: int| 0 <= i < old(self).children@.len() ==> (#[trigger] old(self).children@[i]).wf(),
            child.wf(),
            at <= old(self).labels@.len(),
            forall|j: int| 0 <= j < at ==> old(self).labels@[j] < label,
            forall|j: int| at <= j < old(self).labels@.len() ==> old(self).labels@[j] > label,
        ensures
            final(self).fragment@ == old(self).fragment@,
            final(self).value == old(self).value,
            final(self).labels@ == old(self).labels@.insert(at as int, label),
            final(self).children@ == old(self).children@.insert(at as int, child),
            final(self).labels@.len() == final(self).children@.len(),
            final(self).children@.len() == old(self).children@.len() + 1,
            increasing(final(self).labels@),
            forall|i: int|
                0 <= i < final(self).children@.len() ==> (#[trigger] final(self).children@[i]).wf(),
            forall|k: Seq<u8>|
                #[trigger] final(self).lookup(k) == if is_prefix(old(self).fragment@.push(label), k) {
                    child.lookup(k.skip(old(self).fragment@.len() as int + 1))
                } else {
                    old(self).lookup(k)
                },
    {
        let ghost before = *self;
        self.labels.insert(at, label);
        self.children.insert(at, child);
        proof {
            before.children@.insert_ensures(at as int, child);
            assert forall|i: int| 0 <= i < self.children@.len() implies (
            #[trigger] self.children@[i]).wf() by {
                if i < at {
                    assert(self.children@[i] == before.children@[i]);
                } else if i > at {
                    assert(self.children@[i] == before.children@[i - 1]);
                }
            }
            lemma_route_insert(before.labels@, before.children@, at as int, label, child, label);
            assert forall|x: u8| x != label implies route(self.labels@, self.children@, x) == route(
                before.labels@,
                before.children@,
                x,
            ) by {
                lemma_route_insert(before.labels@, before.children@, at as int, label, child, x);
            }
            assert forall|k: Seq<u8>|
                #[trigger] self.lookup(k) == if is_prefix(before.fragment@.push(label), k) {
                    child.lookup(k.skip(before.fragment@.len() as int + 1))
                } else {
                    before.lookup(k)
                } by {
                self.lemma_lookup_edge(before, label, k);
            }
        }
    }

    /// The rest `rest` of a key leads on from this node into one of its
    /// children.
    pub(crate) open spec fn leads_on(self, rest: Seq<u8>) -> bool {
        &&& is_prefix(self.fragment@, rest)
        &&& rest.len() > self.fragment@.len()
        &&& self.labels@.contains(rest[self.fragment@.len() as int])
    }

    /// Two nodes that differ in one child, which differs in what it maps
    /// the rest of a key to, differ in what they map the key to, and in
    /// nothing else.
    pub(crate) proof fn lemma_child_changed(
        self,
        before: Self,
        at: int,
        rest: Seq<u8>,
        held: Option<V>,
    )
        requires
            before.wf(),
            0 <= at < before.children@.len(),
            self.fragment@ == before.fragment@,
            self.value == before.value,
            self.labels@ == before.labels@,
            self.children@ == before.children@.update(at, self.children@[at]),
            is_prefix(before.fragment@.push(before.labels@[at]), rest),
            self.children@[at].wf(),
            forall|k: Seq<u8>|
                #[trigger] self.children@[at].lookup(k) == if k == rest.skip(
                    before.fragment@.len() as int + 1,
                ) {
                    held
                } else {
                    before.children@[at].lookup(k)
                },
        ensures
            self.wf(),
            forall|k: Seq<u8>|
                #[trigger] self.lookup(k) == if k == rest {
                    held
                } else {
                    before.lookup(k)
                },
            before.lookup(rest) == before.children@[at].lookup(
                rest.skip(before.fragment@.len() as int + 1),
            ),
    {
        let b = before.labels@[at];
        let child = self.children@[at];
        let m = before.fragment@.len() as int;
        let tail = rest.skip(m + 1);
        lemma_route_at(before.labels@, before.children@, at);
        assert forall|i: int| 0 <= i < self.children@.len() implies (#[trigger] self.children@[i]).wf() by {
            if i != at {
                assert(self.children@[i] == before.children@[i]);
            }
        }
        lemma_route_update(before.labels@, before.children@, at, child, b);
        assert forall|x: u8| x != b implies route(self.labels@, self.children@, x) == route(
            before.labels@,
            before.children@,
            x,
        ) by {
            lemma_route_update(before.labels@, before.children@, at, child, x);
        }
        assert forall|k: Seq<u8>|
            #[trigger] self.lookup(k) == if k == rest {
                held
            } else {
                before.lookup(k)
            } by {
            self.lemma_lookup_edge(before, b, k);
            if is_prefix(self.fragment@.push(b), k) && k.skip(m + 1) == tail {
                lemma_prefix_and_rest(self.fragment@.push(b), k, rest);
            }
        }
        self.lemma_lookup_edge(before, b, rest);
    }

    /// Maps the rest of `key` from `pos` on to `value` at this node, from
    /// which the rest of the key does not lead on, and returns what it
    /// was mapped to before.
    fn insert_here(&mut self, key: &[u8], pos: usize, value: V) -> (prev: Option<V>)
        requires
            pos <= key.len(),
            old(self).wf_root(),
            !old(self).leads_on(key@.skip(pos as int)),
        ensures
            final(self).wf(),
            prev == old(self).lookup(key@.skip(pos as int)),
            forall|k: Seq<u8>|
                #[trigger] final(self).lookup(k) == if k == key@.skip(pos as int) {
                    Some(value)
                } else {
                    old(self).lookup(k)
                },
    {
        let ghost before = *self;
        let ghost rest = key@.skip(pos as int);
        if self.value.is_none() && self.children.len() == 0 {
            self.fragment = slice_to_vec(slice_subrange(key, pos, key.len()));
            self.value = Some(value);
            proof {
                assert(self.fragment@ =~= rest);
                assert forall|k: Seq<u8>|
                    #[trigger] self.lookup(k) == if k == rest {
                        Some(value)
                    } else {
                        before.lookup(k)
                    } by {
                    before.lemma_vacant_lookup(k);
                    self.lemma_lookup_leaf(k);
                }
                before.lemma_vacant_lookup(rest);
            }
            return None;
        }
        let m = common_prefix(self.fragment.as_slice(), key, pos);
        proof {
            lemma_common_prefix_len(self.fragment@, rest);
            lemma_common_prefix_whole(self.fragment@, rest);
        }
        if m == self.fragment.len() {
            if pos + m == key.len() {
                let mut slot = Some(value);
                std::mem::swap(&mut slot, &mut self.value);
                proof {
                    assert(rest =~= self.fragment@);
                    assert forall|k: Seq<u8>|
                        #[trigger] self.lookup(k) == if k == rest {
                            Some(value)
                        } else {
                            before.lookup(k)
                        } by {
                        self.lemma_lookup_value(before, k);
                    }
                    self.lemma_lookup_value(before, rest);
                }
                return slot;
            }
            let b = key[pos + m];
            let (found, at) = self.find_edge(b);
            let ghost tail = key@.skip(pos + m + 1);
            proof {
                assert(rest[m as int] == b);
                assert(rest.skip(m + 1) =~= tail);
                lemma_is_prefix_push(self.fragment@, b, rest);
            }
            let leaf = Self::leaf(key, pos + m + 1, value);
            self.add_child(at, b, leaf);
            proof {
                assert forall|k: Seq<u8>|
                    #[trigger] self.lookup(k) == if k == rest {
                        Some(value)
                    } else {
                        before.lookup(k)
                    } by {
                    leaf.lemma_lookup_leaf(k.skip(m + 1));
                    before.lemma_lookup(k);
                    lemma_is_prefix_push(before.fragment@, b, k);
                    if is_prefix(self.fragment@.push(b), k) && k.skip(m + 1) == tail {
                        lemma_prefix_and_rest(self.fragment@.push(b), k, rest);
                    }
                }
                before.lemma_lookup(rest);
            }
            return None;
        }
        let (old_label, below) = self.split(m);
        let ghost head = self.fragment@;
        proof {
            assert(rest.subrange(0, m as int) =~= head);
            lemma_is_prefix_push(head, old_label, rest);
        }
        if pos + m == key.len() {
            self.value = Some(value);
            let ghost bare = *self;
            self.add_child(0, old_label, below);
            proof {
                assert(rest =~= head);
                assert forall|k: Seq<u8>|
                    #[trigger] self.lookup(k) == if k == rest {
                        Some(value)
                    } else {
                        before.lookup(k)
                    } by {
                    bare.lemma_lookup_leaf(k);
                    lemma_is_prefix_push(head, old_label, k);
                }
            }
            return None;
        }
        let b = key[pos + m];
        let leaf = Self::leaf(key, pos + m + 1, value);
        let ghost tail = key@.skip(pos + m + 1);
        proof {
            assert(rest[m as int] == b);
            assert(rest.skip(m + 1) =~= tail);
            lemma_is_prefix_push(head, b, rest);
        }
        let ghost bare = *self;
        self.add_child(0, old_label, below);
        let ghost one = *self;
        self.add_child(if b < old_label { 0 } else { 1 }, b, leaf);
        proof {
            assert forall|k: Seq<u8>|
                #[trigger] self.lookup(k) == if k == rest {
                    Some(value)
                } else {
                    before.lookup(k)
                } by {
                bare.lemma_lookup_leaf(k);
                leaf.lemma_lookup_leaf(k.skip(m + 1));
                lemma_is_prefix_push(head, old_label, k);
                lemma_is_prefix_push(head, b, k);
                assert(one.lookup(k) == if is_prefix(head.push(old_label), k) {
                    below.lookup(k.skip(m + 1))
                } else {
                    bare.lookup(k)
                });
                if is_prefix(head.push(b), k) && k.skip(m + 1) == tail {
                    lemma_prefix_and_rest(head.push(b), k, rest);
                }
            }
        }
        None
    }

    /// Maps `key` to `value` in the tree with the root `start`, and
    /// returns the tree with what the key was mapped to before. The way
    /// down to the node of the key is walked in a loop.
    pub(crate) fn insert_into(start: Self, key: &[u8], value: V) -> (r: (Self, Option<V>))
        requires
            start.wf_root(),
        ensures
            r.0.wf(),
            r.1 == start.lookup(key@),
            forall|k: Seq<u8>|
                #[trigger] r.0.lookup(k) == if k == key@ {
                    Some(value)
                } else {
                    start.lookup(k)
                },
    {
        let mut root = start;
        let ghost root0 = root;
        let mut pos: usize = 0;
        let mut cur = &mut root;
        proof {
            assert(key@.skip(0) =~= key@);
        }
        loop
            invariant
                root0 == start,
                pos <= key.len(),
                cur.wf_root(),
                root0.lookup(key@) == cur.lookup(key@.skip(pos as int)),
                (final(cur).wf() && forall|k: Seq<u8>|
                    #[trigger] final(cur).lookup(k) == if k == key@.skip(pos as int) {
                        Some(value)
                    } else {
                        cur.lookup(k)
                    }) ==> (after_borrow(root).wf() && forall|k: Seq<u8>|
                    #[trigger] after_borrow(root).lookup(k) == if k == key@ {
                        Some(value)
                    } else {
                        root0.lookup(k)
                    }),
            decreases key.len() - pos,
        {
            let ghost rest = key@.skip(pos as int);
            let m = common_prefix(cur.fragment.as_slice(), key, pos);
            proof {
                lemma_common_prefix_whole(cur.fragment@, rest);
            }
            if m == cur.fragment.len() && pos + m < key.len() {
                let b = key[pos + m];
                let (found, at) = cur.find_edge(b);
                proof {
                    assert(rest[m as int] == b);
                }
                if found {
                    let ghost parent = *cur;
                    let ghost grown = *final(cur);
                    proof {
                        if parent.is_vacant() {
                            assert(!parent.labels@.contains(b));
                        }
                        lemma_is_prefix_push(parent.fragment@, b, rest);
                    }
                    cur = &mut cur.children[at];
                    proof {
                        let tail = key@.skip(pos + m + 1);
                        assert(rest.skip(m + 1) =~= tail);
                        let child = *final(cur);
                        if child.wf() && forall|k: Seq<u8>|
                            #[trigger] child.lookup(k) == if k == tail {
                                Some(value)
                            } else {
                                cur.lookup(k)
                            } {
                            grown.lemma_child_changed(parent, at as int, rest, Some(value));
                        }
                        parent.lemma_lookup(rest);
                        lemma_route_at(parent.labels@, parent.children@, at as int);
                    }
                    pos = pos + m + 1;
                    continue ;
                }
            }
            let prev = cur.insert_here(key, pos, value);
            return (root, prev);
        }
    }

    /// Takes the child at place `at` out, with its label.
    fn remove_child(&mut self, at: usize) -> (child: Self)
        requires
            old(self).labels@.len() == old(self).children@.len(),
            increasing(old(self).labels@),
            forall|i: int| 0 <= i < old(self).children@.len() ==> (#[trigger] old(self).children@[i]).wf_root(),
            at < old(self).labels@.len(),
        ensures
            child == old(self).children@[at as int],
            final(self).fragment@ == old(self).fragment@,
            final(self).value == old(self).value,
            final(self).labels@ == old(self).labels@.remove(at as int),
            final(self).children@ == old(self).children@.remove(at as int),
            final(self).labels@.len() == final(self).children@.len(),
            final(self).children@.len() == old(self).children@.len() - 1,
            increasing(final(self).labels@),
            forall|i: int|
                0 <= i < final(self).children@.len() && i != at ==> (
                #[trigger] final(self).children@[i]) == old(self).children@[if i < at { i } else { i + 1 }],
            forall|k: Seq<u8>|
                #[trigger] final(self).lookup(k) == if is_prefix(
                    old(self).fragment@.push(old(self).labels@[at as int]),
                    k,
                ) {
                    None
                } else {
                    old(self).lookup(k)
                },
    {
        let ghost before = *self;
        let ghost label = self.labels@[at as int];
        self.labels.remove(at);
        let child = self.children.remove(at);
        proof {
            before.children@.remove_ensures(at as int);
            lemma_route_remove(before.labels@, before.children@, at as int, label);
            assert forall|x: u8| x != label implies route(self.labels@, self.children@, x) == route(
                before.labels@,
                before.children@,
                x,
            ) by {
                lemma_route_remove(before.labels@, before.children@, at as int, x);
            }
            assert forall|k: Seq<u8>|
                #[trigger] self.lookup(k) == if is_prefix(before.fragment@.push(label), k) {
                    None
                } else {
                    before.lookup(k)
                } by {
                self.lemma_lookup_edge(before, label, k);
            }
        }
        child
    }

    /// Joins a node that has no value and one child with that child, so
    /// that one node stands for the two.
    fn merge(&mut self)
        requires
            old(self).value.is_none(),
            old(self).children@.len() == 1,
            old(self).labels@.len() == 1,
            old(self).children@[0].wf(),
        ensures
            final(self).wf(),
            forall|k: Seq<u8>| #[trigger] final(self).lookup(k) == old(self).lookup(k),
    {
        let ghost before = *self;
        let child = self.children.pop().unwrap();
        let label = self.labels.pop().unwrap();
        let raxNode { fragment, value, labels, children } = child;
        let mut fragment = fragment;
        self.fragment.push(label);
        self.fragment.append(&mut fragment);
        self.value = value;
        self.labels = labels;
        self.children = children;
        proof {
            let m = before.fragment@.len() as int;
            assert(self.fragment@.skip(m + 1) =~= child.fragment@);
            assert(self.fragment@.subrange(0, m + 1) =~= before.fragment@.push(label));
            assert(before.labels@ =~= seq![label]);
            assert(before.labels@.contains(label)) by {
                assert(before.labels@[0] == label);
            }
            assert forall|k: Seq<u8>| #[trigger] self.lookup(k) == before.lookup(k) by {
                self.lemma_lookup_split(child, m, k);
                before.lemma_lookup(k);
                lemma_is_prefix_push(before.fragment@, label, k);
                if is_prefix(before.fragment@, k) && k.len() > m && k[m] != label {
                    assert(!before.labels@.contains(k[m]));
                }
            }
        }
    }

    /// Tells whether the node holds nothing.
    pub(crate) fn vacant_now(&self) -> (r: bool)
        requires
            self.wf_root(),
        ensures
            r == self.is_vacant(),
            !r ==> self.wf(),
    {
        self.value.is_none() && self.children.len() == 0
    }

    /// Takes the value of this node, and joins the node with its child
    /// where it is left with one child alone.
    fn take_value(&mut self) -> (prev: Option<V>)
        requires
            old(self).wf_root(),
        ensures
            final(self).wf_root(),
            old(self).children@.len() > 0 ==> final(self).wf(),
            prev == old(self).value,
            prev == old(self).lookup(old(self).fragment@),
            forall|k: Seq<u8>|
                #[trigger] final(self).lookup(k) == if k == old(self).fragment@ {
                    None
                } else {
                    old(self).lookup(k)
                },
    {
        let ghost before = *self;
        let prev = self.value.take();
        proof {
            assert forall|k: Seq<u8>|
                #[trigger] self.lookup(k) == if k == before.fragment@ {
                    None
                } else {
                    before.lookup(k)
                } by {
                self.lemma_lookup_value(before, k);
            }
            self.lemma_lookup_value(before, before.fragment@);
        }
        if prev.is_some() && self.children.len() == 1 {
            self.merge();
        }
        prev
    }

    /// Takes the child at place `at` out, which has no children, gives
    /// its value, and joins the node with its child where it is left
    /// with no value and one child alone.
    fn prune(&mut self, at: usize) -> (prev: Option<V>)
        requires
            old(self).wf(),
            at < old(self).children@.len(),
            old(self).children@[at as int].children@.len() == 0,
        ensures
            final(self).wf(),
            prev == old(self).lookup(
                old(self).fragment@.push(old(self).labels@[at as int]) + old(
                    self,
                ).children@[at as int].fragment@,
            ),
            forall|k: Seq<u8>|
                #[trigger] final(self).lookup(k) == if k == old(self).fragment@.push(
                    old(self).labels@[at as int],
                ) + old(self).children@[at as int].fragment@ {
                    None
                } else {
                    old(self).lookup(k)
                },
    {
        let ghost before = *self;
        let ghost label = self.labels@[at as int];
        let ghost leaf = self.children@[at as int];
        let ghost gone = before.fragment@.push(label) + leaf.fragment@;
        let ghost m = before.fragment@.len() as int;
        proof {
            lemma_route_at(before.labels@, before.children@, at as int);
        }
        let child = self.remove_child(at);
        proof {
            assert(is_prefix(before.fragment@.push(label), gone)) by {
                assert(gone.subrange(0, m + 1) =~= before.fragment@.push(label));
            }
            assert(gone.skip(m + 1) =~= leaf.fragment@);
            before.lemma_lookup_edge(before, label, gone);
            leaf.lemma_lookup_leaf(leaf.fragment@);
            assert forall|k: Seq<u8>|
                #[trigger] self.lookup(k) == if k == gone {
                    None
                } else {
                    before.lookup(k)
                } by {
                before.lemma_lookup_edge(before, label, k);
                leaf.lemma_lookup_leaf(k.skip(m + 1));
                if is_prefix(before.fragment@.push(label), k) && k.skip(m + 1) == leaf.fragment@ {
                    lemma_prefix_and_rest(before.fragment@.push(label), k, gone);
                }
            }
            assert forall|i: int| 0 <= i < self.children@.len() implies (
            #[trigger] self.children@[i]).wf() by {
                let i0 = if i < at { i } else { i + 1 };
                assert(self.children@[i] == before.children@[i0]);
            }
        }
        if self.value.is_none() && self.children.len() == 1 {
            self.merge();
        }
        child.value
    }

    /// Takes `key` out of the tree with the root `start`, and returns
    /// the tree with what the key was mapped to. The way down to the node
    /// of the key is walked in a loop; a node that the key leaves without
    /// a value and without children is taken out of its parent, and a
    /// node that is left without a value and with one child is joined
    /// with that child.
    pub(crate) fn remove_from(start: Self, key: &[u8]) -> (r: (Self, Option<V>))
        requires
            start.wf_root(),
        ensures
            r.0.wf_root(),
            r.1 == start.lookup(key@),
            forall|k: Seq<u8>|
                #[trigger] r.0.lookup(k) == if k == key@ {
                    None
                } else {
                    start.lookup(k)
                },
    {
        let mut root = start;
        let ghost root0 = root;
        let mut pos: usize = 0;
        let mut cur = &mut root;
        let ghost mut at_root = true;
        proof {
            assert(key@.skip(0) =~= key@);
        }
        loop
            invariant
                root0 == start,
                pos <= key.len(),
                cur.wf_root(),
                !at_root ==> cur.wf(),
                !at_root ==> !(cur.children@.len() == 0 && cur.fragment@ == key@.skip(pos as int)),
                root0.lookup(key@) == cur.lookup(key@.skip(pos as int)),
                (final(cur).wf_root() && (!at_root ==> final(cur).wf()) && forall|k: Seq<u8>|
                    #[trigger] final(cur).lookup(k) == if k == key@.skip(pos as int) {
                        None
                    } else {
                        cur.lookup(k)
                    }) ==> (after_borrow(root).wf_root() && forall|k: Seq<u8>|
                    #[trigger] after_borrow(root).lookup(k) == if k == key@ {
                        None
                    } else {
                        root0.lookup(k)
                    }),
            decreases key.len() - pos,
        {
            let ghost rest = key@.skip(pos as int);
            let ghost here = *cur;
            let m = common_prefix(cur.fragment.as_slice(), key, pos);
            proof {
                lemma_common_prefix_whole(cur.fragment@, rest);
                here.lemma_lookup(rest);
            }
            if m < cur.fragment.len() {
                return (root, None);
            }
            if pos + m == key.len() {
                proof {
                    assert(rest =~= cur.fragment@);
                }
                let prev = cur.take_value();
                return (root, prev);
            }
            let b = key[pos + m];
            let (found, at) = cur.find_edge(b);
            proof {
                assert(rest[m as int] == b);
                if here.is_vacant() {
                    assert(!here.labels@.contains(b));
                }
            }
            if !found {
                return (root, None);
            }
            let ghost tail = key@.skip(pos + m + 1);
            proof {
                assert(rest.skip(m + 1) =~= tail);
                here.lemma_shape();
                lemma_is_prefix_push(here.fragment@, b, rest);
                lemma_route_at(here.labels@, here.children@, at as int);
            }
            let inner = common_prefix(cur.children[at].fragment.as_slice(), key, pos + m + 1);
            let fits = inner == cur.children[at].fragment.len() && pos + m + 1 + inner == key.len();
            proof {
                lemma_common_prefix_whole(here.children@[at as int].fragment@, tail);
                assert(tail.subrange(0, tail.len() as int) =~= tail);
                if fits {
                    assert(tail =~= here.children@[at as int].fragment@);
                }
                assert(fits == (here.children@[at as int].fragment@ == tail));
            }
            if fits && cur.children[at].children.len() == 0 {
                proof {
                    let whole = here.fragment@.push(b) + here.children@[at as int].fragment@;
                    assert(whole.subrange(0, m + 1) =~= here.fragment@.push(b));
                    assert(whole.skip(m + 1) =~= here.children@[at as int].fragment@);
                    lemma_prefix_and_rest(here.fragment@.push(b), rest, whole);
                }
                let prev = cur.prune(at);
                return (root, prev);
            }
            let ghost grown = *final(cur);
            cur = &mut cur.children[at];
            proof {
                let child = *final(cur);
                if child.wf() && forall|k: Seq<u8>|
                    #[trigger] child.lookup(k) == if k == tail {
                        None
                    } else {
                        cur.lookup(k)
                    } {
                    grown.lemma_child_changed(here, at as int, rest, None);
                    grown.lemma_shape();
                }
                at_root = false;
            }
            pos = pos + m + 1;
        }
    }

    /// Looks `key` up in the subtree.
    pub(crate) fn find(&self, key: &[u8]) -> (r: Option<&V>)
        requires
            self.wf_root(),
        ensures
            r.is_some() == self.lookup(key@).is_some(),
            r.is_some() ==> *r.unwrap() == self.lookup(key@).unwrap(),
    {
        let mut node = self;
        let mut pos: usize = 0;
        proof {
            assert(key@.skip(0) =~= key@);
        }
        loop
            invariant
                pos <= key.len(),
                node.wf_root(),
                self.lookup(key@) == node.lookup(key@.skip(pos as int)),
            decreases key.len() - pos,
        {
            let ghost rest = key@.skip(pos as int);
            let m = common_prefix(node.fragment.as_slice(), key, pos);
            proof {
                lemma_common_prefix_whole(node.fragment@, rest);
            }
            if m < node.fragment.len() {
                return None;
            }
            if pos + m == key.len() {
                return node.value.as_ref();
            }
            let b = key[pos + m];
            let (found, i) = node.find_edge(b);
            if !found {
                return None;
            }
            proof {
                assert(rest[m as int] == b);
                assert(rest.skip(m + 1) =~= key@.skip(pos + m + 1));
            }
            node = &node.children[i];
            pos = pos + m + 1;
        }
    }
}

} // verus!

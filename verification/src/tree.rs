//! The radix tree as a map from byte strings to values.

use crate::bytes::{above, below, lemma_lex_lt_total, lex_le, lex_lt};
use crate::error::RedError;
use crate::node::raxNode;
use crate::walk::{seek_backward, seek_first, seek_forward, seek_last};
use vstd::prelude::*;

verus! {

/// `k` is the first of `keys`.
pub open spec fn is_least(keys: Set<Seq<u8>>, k: Seq<u8>) -> bool {
    keys.contains(k) && forall|j: Seq<u8>| #[trigger] keys.contains(j) ==> lex_le(k, j)
}

/// `k` is the last of `keys`.
pub open spec fn is_greatest(keys: Set<Seq<u8>>, k: Seq<u8>) -> bool {
    keys.contains(k) && forall|j: Seq<u8>| #[trigger] keys.contains(j) ==> lex_le(j, k)
}

/// Those of `keys` that lie above `t`.
pub open spec fn keys_above(keys: Set<Seq<u8>>, t: Seq<u8>, inclusive: bool) -> Set<Seq<u8>> {
    keys.filter(|k: Seq<u8>| above(k, t, inclusive))
}

/// Those of `keys` that lie below `t`.
pub open spec fn keys_below(keys: Set<Seq<u8>>, t: Seq<u8>, inclusive: bool) -> Set<Seq<u8>> {
    keys.filter(|k: Seq<u8>| below(k, t, inclusive))
}

/// A set of keys has one first key at most.
pub proof fn lemma_least_unique(keys: Set<Seq<u8>>, a: Seq<u8>, b: Seq<u8>)
    requires
        is_least(keys, a),
        is_least(keys, b),
    ensures
        a == b,
{
    lemma_lex_lt_total(a, b);
}

/// A set of keys has one last key at most.
pub proof fn lemma_greatest_unique(keys: Set<Seq<u8>>, a: Seq<u8>, b: Seq<u8>)
    requires
        is_greatest(keys, a),
        is_greatest(keys, b),
    ensures
        a == b,
{
    lemma_lex_lt_total(a, b);
}

/// The first key after `k` lies after `k`, and no key lies between the
/// two: a step forward skips nothing.
pub proof fn lemma_step_forward(keys: Set<Seq<u8>>, k: Seq<u8>, n: Seq<u8>)
    requires
        is_least(keys_above(keys, k, false), n),
    ensures
        keys.contains(n),
        lex_lt(k, n),
        forall|j: Seq<u8>| keys.contains(j) ==> !(lex_lt(k, j) && lex_lt(j, n)),
{
    assert forall|j: Seq<u8>| keys.contains(j) implies !(lex_lt(k, j) && lex_lt(j, n)) by {
        if lex_lt(k, j) && lex_lt(j, n) {
            assert(keys_above(keys, k, false).contains(j));
            lemma_lex_lt_total(j, n);
        }
    }
}

/// The last key before `k` lies before `k`, and no key lies between the
/// two: a step backward skips nothing.
pub proof fn lemma_step_backward(keys: Set<Seq<u8>>, k: Seq<u8>, p: Seq<u8>)
    requires
        is_greatest(keys_below(keys, k, false), p),
    ensures
        keys.contains(p),
        lex_lt(p, k),
        forall|j: Seq<u8>| keys.contains(j) ==> !(lex_lt(p, j) && lex_lt(j, k)),
{
    assert forall|j: Seq<u8>| keys.contains(j) implies !(lex_lt(p, j) && lex_lt(j, k)) by {
        if lex_lt(p, j) && lex_lt(j, k) {
            assert(keys_below(keys, k, false).contains(j));
            lemma_lex_lt_total(j, p);
        }
    }
}

/// A step forward from a key and then a step backward lead to that key
/// again.
pub proof fn lemma_forward_then_backward(keys: Set<Seq<u8>>, k: Seq<u8>, n: Seq<u8>)
    requires
        keys.contains(k),
        is_least(keys_above(keys, k, false), n),
    ensures
        is_greatest(keys_below(keys, n, false), k),
{
    lemma_step_forward(keys, k, n);
    assert(keys_below(keys, n, false).contains(k));
    assert forall|j: Seq<u8>| #[trigger] keys_below(keys, n, false).contains(j) implies lex_le(
        j,
        k,
    ) by {
        lemma_lex_lt_total(j, k);
    }
}

/// A step backward from a key and then a step forward lead to that key
/// again.
pub proof fn lemma_backward_then_forward(keys: Set<Seq<u8>>, k: Seq<u8>, p: Seq<u8>)
    requires
        keys.contains(k),
        is_greatest(keys_below(keys, k, false), p),
    ensures
        is_least(keys_above(keys, p, false), k),
{
    lemma_step_backward(keys, k, p);
    assert(keys_above(keys, p, false).contains(k));
    assert forall|j: Seq<u8>| #[trigger] keys_above(keys, p, false).contains(j) implies lex_le(
        k,
        j,
    ) by {
        lemma_lex_lt_total(k, j);
    }
}

/// What a map holds after a key was put into it: the new value under
/// that key, what it held under every other key, and one key more if
/// the key is new.
pub proof fn lemma_insert_then_find<V>(m: Map<Seq<u8>, V>, k: Seq<u8>, v: V)
    ensures
        m.insert(k, v).contains_key(k),
        m.insert(k, v)[k] == v,
        forall|j: Seq<u8>|
            j != k ==> m.insert(k, v).contains_key(j) == m.contains_key(j) && (m.contains_key(j)
                ==> m.insert(k, v)[j] == m[j]),
        m.dom().finite() ==> m.insert(k, v).dom().len() == m.dom().len() + if m.contains_key(k) {
            0int
        } else {
            1int
        },
{
    if m.dom().finite() && m.contains_key(k) {
        assert(m.insert(k, v).dom() =~= m.dom());
    }
}

/// What a map holds after a key was taken out of it: nothing under that
/// key, what it held under every other key, and one key less if the key
/// was held.
pub proof fn lemma_remove_then_find<V>(m: Map<Seq<u8>, V>, k: Seq<u8>)
    ensures
        !m.remove(k).contains_key(k),
        forall|j: Seq<u8>|
            j != k ==> m.remove(k).contains_key(j) == m.contains_key(j) && (m.contains_key(j)
                ==> m.remove(k)[j] == m[j]),
        m.dom().finite() ==> m.remove(k).dom().len() == m.dom().len() - if m.contains_key(k) {
            1int
        } else {
            0int
        },
        !m.contains_key(k) ==> m.remove(k) == m,
{
    if !m.contains_key(k) {
        assert(m.remove(k) =~= m);
    }
}

/// A vacant node has no key.
pub(crate) proof fn lemma_node_vacant<V>(root: raxNode<V>)
    requires
        root.is_vacant(),
    ensures
        root.as_map().dom() == Set::<Seq<u8>>::empty(),
{
    assert forall|k: Seq<u8>| !root.as_map().dom().contains(k) by {
        root.lemma_as_map(k);
        root.lemma_vacant_lookup(k);
    }
    assert(root.as_map().dom() =~= Set::<Seq<u8>>::empty());
}

/// The first key of a subtree is the first of its keys.
pub(crate) proof fn lemma_node_least<V>(root: raxNode<V>, k: Seq<u8>)
    requires
        root.least(k),
    ensures
        is_least(root.as_map().dom(), k),
{
    root.lemma_as_map(k);
    assert forall|j: Seq<u8>| #[trigger] root.as_map().dom().contains(j) implies lex_le(k, j) by {
        root.lemma_as_map(j);
        assert(root.holds(j));
    }
}

/// The last key of a subtree is the last of its keys.
pub(crate) proof fn lemma_node_greatest<V>(root: raxNode<V>, k: Seq<u8>)
    requires
        root.greatest(k),
    ensures
        is_greatest(root.as_map().dom(), k),
{
    root.lemma_as_map(k);
    assert forall|j: Seq<u8>| #[trigger] root.as_map().dom().contains(j) implies lex_le(j, k) by {
        root.lemma_as_map(j);
        assert(root.holds(j));
    }
}

/// The first key of a subtree above a target is the first of its keys
/// above the target.
pub(crate) proof fn lemma_node_above<V>(root: raxNode<V>, t: Seq<u8>, inclusive: bool, k: Seq<u8>)
    requires
        root.least_above(t, inclusive, k),
    ensures
        is_least(keys_above(root.as_map().dom(), t, inclusive), k),
{
    let keys = keys_above(root.as_map().dom(), t, inclusive);
    root.lemma_as_map(k);
    assert forall|j: Seq<u8>| #[trigger] keys.contains(j) implies lex_le(k, j) by {
        root.lemma_as_map(j);
        assert(root.holds(j));
    }
}

/// A subtree with no key above a target has an empty set of keys above
/// the target.
pub(crate) proof fn lemma_node_none_above<V>(root: raxNode<V>, t: Seq<u8>, inclusive: bool)
    requires
        root.none_above(t, inclusive),
    ensures
        keys_above(root.as_map().dom(), t, inclusive) == Set::<Seq<u8>>::empty(),
{
    let keys = keys_above(root.as_map().dom(), t, inclusive);
    assert forall|j: Seq<u8>| !keys.contains(j) by {
        root.lemma_as_map(j);
        if keys.contains(j) {
            assert(root.holds(j));
        }
    }
    assert(keys =~= Set::<Seq<u8>>::empty());
}

/// The last key of a subtree below a target is the last of its keys
/// below the target.
pub(crate) proof fn lemma_node_below<V>(root: raxNode<V>, t: Seq<u8>, inclusive: bool, k: Seq<u8>)
    requires
        root.greatest_below(t, inclusive, k),
    ensures
        is_greatest(keys_below(root.as_map().dom(), t, inclusive), k),
{
    let keys = keys_below(root.as_map().dom(), t, inclusive);
    root.lemma_as_map(k);
    assert forall|j: Seq<u8>| #[trigger] keys.contains(j) implies lex_le(j, k) by {
        root.lemma_as_map(j);
        assert(root.holds(j));
    }
}

/// A subtree with no key below a target has an empty set of keys below
/// the target.
pub(crate) proof fn lemma_node_none_below<V>(root: raxNode<V>, t: Seq<u8>, inclusive: bool)
    requires
        root.none_below(t, inclusive),
    ensures
        keys_below(root.as_map().dom(), t, inclusive) == Set::<Seq<u8>>::empty(),
{
    let keys = keys_below(root.as_map().dom(), t, inclusive);
    assert forall|j: Seq<u8>| !keys.contains(j) by {
        root.lemma_as_map(j);
        if keys.contains(j) {
            assert(root.holds(j));
        }
    }
    assert(keys =~= Set::<Seq<u8>>::empty());
}

/// A radix tree that maps byte strings to values of type `V`. Its view is
/// the map that it stands for.
#[allow(non_camel_case_types)]
pub struct rax<V> {
    root: raxNode<V>,
    numele: u64,
}

impl<V> View for rax<V> {
    type V = Map<Seq<u8>, V>;

    closed spec fn view(&self) -> Map<Seq<u8>, V> {
        self.root.as_map()
    }
}

impl<V> rax<V> {
    #[verifier::type_invariant]
    spec fn inv(self) -> bool {
        &&& self.root.wf_root()
        &&& self@.dom().finite()
        &&& self@.dom().len() == self.numele
    }

    /// The shape of the tree is sound: below each node the labels of the
    /// children are strictly increasing, and the paths are compressed,
    /// so that a node without a value has two children at least.
    pub closed spec fn compressed(self) -> bool {
        self.root.wf_root()
    }

    /// The root of the tree.
    pub(crate) closed spec fn root_node(self) -> raxNode<V> {
        self.root
    }

    /// The root of the tree, which maps what the tree maps.
    pub(crate) fn root(&self) -> (r: &raxNode<V>)
        ensures
            *r == self.root_node(),
            r.wf_root(),
            r.as_map() == self@,
    {
        proof {
            use_type_invariant(self);
        }
        &self.root
    }

    /// An empty tree.
    pub fn new() -> (tree: Self)
        ensures
            tree@ == Map::<Seq<u8>, V>::empty(),
            tree.compressed(),
    {
        let root = raxNode::vacant();
        proof {
            assert forall|k: Seq<u8>| !root.as_map().dom().contains(k) by {
                root.lemma_as_map(k);
            }
            assert(root.as_map() =~= Map::<Seq<u8>, V>::empty());
        }
        rax { root, numele: 0 }
    }

    /// The number of keys in the tree.
    pub fn size(&self) -> (n: u64)
        ensures
            self@.dom().finite(),
            n == self@.dom().len(),
    {
        proof {
            use_type_invariant(self);
        }
        self.numele
    }

    /// The value that `key` is mapped to, if any.
    pub fn find(&self, key: &[u8]) -> (r: Option<&V>)
        ensures
            r.is_some() == self@.contains_key(key@),
            r.is_some() ==> *r.unwrap() == self@[key@],
    {
        proof {
            use_type_invariant(self);
            self.root.lemma_as_map(key@);
        }
        self.root.find(key)
    }

    /// Maps `key` to `value`, and returns what `key` was mapped to before.
    /// A tree that holds `u64::MAX` keys takes no further key: it then
    /// stays as it is and the call fails.
    pub fn insert(&mut self, key: &[u8], value: V) -> (r: Result<Option<V>, RedError>)
        ensures
            final(self).compressed(),
            r.is_ok() == (old(self)@.contains_key(key@) || old(self)@.dom().len() < u64::MAX),
            r.is_ok() ==> final(self)@ == old(self)@.insert(key@, value),
            r.is_err() ==> final(self)@ == old(self)@,
            r matches Err(e) ==> (e matches RedError::Generic(g) && g.message()
                == "the tree is full"@),
            r matches Ok(prev) ==> prev == if old(self)@.contains_key(key@) {
                Some(old(self)@[key@])
            } else {
                None
            },
    {
        proof {
            use_type_invariant(&*self);
            self.root.lemma_as_map(key@);
        }
        if self.numele == u64::MAX && self.root.find(key).is_none() {
            return Err(RedError::generic("the tree is full"));
        }
        let mut taken = rax::new();
        std::mem::swap(self, &mut taken);
        let rax { root, numele } = taken;
        let ghost before = root;
        let (root, prev) = raxNode::insert_into(root, key, value);
        let count = if prev.is_some() {
            numele
        } else {
            numele + 1
        };
        proof {
            root.lemma_as_map_insert(before, key@, value);
            before.lemma_as_map(key@);
            root.lemma_shape();
        }
        *self = rax { root, numele: count };
        Ok(prev)
    }

    /// Takes `key` out of the tree, and returns what it was mapped to.
    pub fn remove(&mut self, key: &[u8]) -> (prev: Option<V>)
        ensures
            final(self).compressed(),
            final(self)@ == old(self)@.remove(key@),
            prev == if old(self)@.contains_key(key@) {
                Some(old(self)@[key@])
            } else {
                None
            },
    {
        proof {
            use_type_invariant(&*self);
            self.root.lemma_as_map(key@);
        }
        let mut taken = rax::new();
        std::mem::swap(self, &mut taken);
        let rax { root, numele } = taken;
        let ghost before = root;
        let (root, prev) = raxNode::remove_from(root, key);
        let count = if prev.is_some() {
            numele - 1
        } else {
            numele
        };
        proof {
            root.lemma_as_map_remove(before, key@);
            before.lemma_as_map(key@);
        }
        *self = rax { root, numele: count };
        prev
    }

    /// The first key of the tree, if it has any.
    pub fn first_key(&self) -> (r: Option<Vec<u8>>)
        ensures
            match r {
                Some(k) => is_least(self@.dom(), k@),
                None => self@.dom() == Set::<Seq<u8>>::empty(),
            },
    {
        proof {
            use_type_invariant(self);
        }
        if self.root.vacant_now() {
            proof {
                lemma_node_vacant(self.root);
            }
            return None;
        }
        let mut nodes: Vec<&raxNode<V>> = Vec::new();
        let mut picks: Vec<usize> = Vec::new();
        let mut key: Vec<u8> = Vec::new();
        seek_first(&self.root, &mut nodes, &mut picks, &mut key);
        proof {
            lemma_node_least(self.root, key@);
        }
        Some(key)
    }

    /// The last key of the tree, if it has any.
    pub fn last_key(&self) -> (r: Option<Vec<u8>>)
        ensures
            match r {
                Some(k) => is_greatest(self@.dom(), k@),
                None => self@.dom() == Set::<Seq<u8>>::empty(),
            },
    {
        proof {
            use_type_invariant(self);
        }
        if self.root.vacant_now() {
            proof {
                lemma_node_vacant(self.root);
            }
            return None;
        }
        let mut nodes: Vec<&raxNode<V>> = Vec::new();
        let mut picks: Vec<usize> = Vec::new();
        let mut key: Vec<u8> = Vec::new();
        seek_last(&self.root, &mut nodes, &mut picks, &mut key);
        proof {
            lemma_node_greatest(self.root, key@);
        }
        Some(key)
    }

    /// The first key of the tree that lies above `target`, if there is
    /// one: after it, or on it where `inclusive`.
    pub fn key_above(&self, target: &[u8], inclusive: bool) -> (r: Option<Vec<u8>>)
        ensures
            match r {
                Some(k) => is_least(keys_above(self@.dom(), target@, inclusive), k@),
                None => keys_above(self@.dom(), target@, inclusive) == Set::<Seq<u8>>::empty(),
            },
    {
        proof {
            use_type_invariant(self);
        }
        if self.root.vacant_now() {
            proof {
                lemma_node_vacant(self.root);
                assert(keys_above(self@.dom(), target@, inclusive) =~= Set::<Seq<u8>>::empty());
            }
            return None;
        }
        let mut nodes: Vec<&raxNode<V>> = Vec::new();
        let mut picks: Vec<usize> = Vec::new();
        let mut key: Vec<u8> = Vec::new();
        let found = seek_forward(&self.root, target, inclusive, &mut nodes, &mut picks, &mut key);
        proof {
            if found {
                lemma_node_above(self.root, target@, inclusive, key@);
            } else {
                lemma_node_none_above(self.root, target@, inclusive);
            }
        }
        if found {
            Some(key)
        } else {
            None
        }
    }

    /// The last key of the tree that lies below `target`, if there is
    /// one: before it, or on it where `inclusive`.
    pub fn key_below(&self, target: &[u8], inclusive: bool) -> (r: Option<Vec<u8>>)
        ensures
            match r {
                Some(k) => is_greatest(keys_below(self@.dom(), target@, inclusive), k@),
                None => keys_below(self@.dom(), target@, inclusive) == Set::<Seq<u8>>::empty(),
            },
    {
        proof {
            use_type_invariant(self);
        }
        if self.root.vacant_now() {
            proof {
                lemma_node_vacant(self.root);
                assert(keys_below(self@.dom(), target@, inclusive) =~= Set::<Seq<u8>>::empty());
            }
            return None;
        }
        let mut nodes: Vec<&raxNode<V>> = Vec::new();
        let mut picks: Vec<usize> = Vec::new();
        let mut key: Vec<u8> = Vec::new();
        let found = seek_backward(&self.root, target, inclusive, &mut nodes, &mut picks, &mut key);
        proof {
            if found {
                lemma_node_below(self.root, target@, inclusive, key@);
            } else {
                lemma_node_none_below(self.root, target@, inclusive);
            }
        }
        if found {
            Some(key)
        } else {
            None
        }
    }
}

} // verus!

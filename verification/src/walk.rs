//! Paths in a tree: the stack of nodes from the root down to the node of
//! a key, and the steps from the path of one key to that of the next.

use crate::bytes::{
    append_bytes, common_prefix, is_prefix, lemma_common_prefix_len, lemma_common_prefix_whole,
    lemma_is_prefix_push,
};
use crate::node::raxNode;
use vstd::prelude::*;

verus! {

/// The nodes `nodes` lead from one to the next by the children that
/// `picks` names, and all of them are well formed.
pub(crate) open spec fn path_ok<V>(nodes: Seq<&raxNode<V>>, picks: Seq<usize>) -> bool {
    &&& nodes.len() == picks.len() + 1
    &&& forall|i: int| 0 <= i < nodes.len() ==> (#[trigger] nodes[i]).wf()
    &&& forall|i: int|
        0 <= i < picks.len() ==> (#[trigger] picks[i]) < nodes[i].children@.len() && *nodes[i + 1]
            == nodes[i].children@[picks[i] as int]
}

/// The bytes that the path consumes before it enters the node at depth
/// `d`.
pub(crate) open spec fn entry_bytes<V>(nodes: Seq<&raxNode<V>>, picks: Seq<usize>, d: int) -> Seq<u8>
    decreases d,
{
    if d <= 0 {
        Seq::empty()
    } else {
        entry_bytes(nodes, picks, d - 1) + nodes[d - 1].fragment@.push(
            nodes[d - 1].labels@[picks[d - 1] as int],
        )
    }
}

/// The bytes that the path consumes up to the node at depth `d`, with the
/// fragment of that node: the key of the node.
pub(crate) open spec fn path_bytes<V>(nodes: Seq<&raxNode<V>>, picks: Seq<usize>, d: int) -> Seq<u8> {
    entry_bytes(nodes, picks, d) + nodes[d].fragment@
}

/// A byte string is its first bytes and what follows them.
pub(crate) proof fn lemma_split_at(p: Seq<u8>, s: Seq<u8>)
    requires
        is_prefix(p, s),
    ensures
        s == p + s.skip(p.len() as int),
{
    assert(s =~= s.subrange(0, p.len() as int) + s.skip(p.len() as int));
}

/// Where a byte string starts with two parts, one behind the other, it
/// starts with the first, and goes on with the second.
pub(crate) proof fn lemma_prefix_parts(a: Seq<u8>, b: Seq<u8>, s: Seq<u8>)
    requires
        is_prefix(a + b, s),
    ensures
        is_prefix(a, s),
        is_prefix(b, s.skip(a.len() as int)),
        s.skip(a.len() as int).skip(b.len() as int) == s.skip((a + b).len() as int),
{
    let whole = s.subrange(0, (a + b).len() as int);
    assert((a + b).subrange(0, a.len() as int) =~= a);
    assert(s.subrange(0, a.len() as int) =~= whole.subrange(0, a.len() as int));
    assert(s.skip(a.len() as int).subrange(0, b.len() as int) =~= whole.skip(a.len() as int));
    assert((a + b).skip(a.len() as int) =~= b);
    assert(s.skip(a.len() as int).skip(b.len() as int) =~= s.skip((a + b).len() as int));
}

/// What lies before a node on a path lies before the nodes below it.
pub(crate) proof fn lemma_entry_prefix<V>(nodes: Seq<&raxNode<V>>, picks: Seq<usize>, a: int, d: int)
    requires
        0 <= a <= d,
    ensures
        is_prefix(entry_bytes(nodes, picks, a), entry_bytes(nodes, picks, d)),
    decreases d - a,
{
    let ea = entry_bytes(nodes, picks, a);
    if a == d {
        assert(ea.subrange(0, ea.len() as int) =~= ea);
    } else {
        lemma_entry_prefix(nodes, picks, a, d - 1);
        let mid = entry_bytes(nodes, picks, d - 1);
        let ed = entry_bytes(nodes, picks, d);
        assert(ed.subrange(0, ea.len() as int) =~= mid.subrange(0, ea.len() as int));
    }
}

/// The entry bytes of a path depend on the frames above the depth alone.
pub(crate) proof fn lemma_entry_frames<V>(
    nodes: Seq<&raxNode<V>>,
    picks: Seq<usize>,
    nodes2: Seq<&raxNode<V>>,
    picks2: Seq<usize>,
    d: int,
)
    requires
        0 <= d <= picks.len(),
        d <= picks2.len(),
        d <= nodes.len(),
        d <= nodes2.len(),
        forall|i: int| 0 <= i < d ==> #[trigger] nodes[i] == nodes2[i],
        forall|i: int| 0 <= i < d ==> #[trigger] picks[i] == picks2[i],
    ensures
        entry_bytes(nodes, picks, d) == entry_bytes(nodes2, picks2, d),
    decreases d,
{
    if d > 0 {
        lemma_entry_frames(nodes, picks, nodes2, picks2, d - 1);
    }
}

/// A key that is first above a target in the node at depth `d`, behind
/// the bytes before that node, is first above the target in the root.
pub(crate) proof fn lemma_lift_above<V>(
    nodes: Seq<&raxNode<V>>,
    picks: Seq<usize>,
    d: int,
    target: Seq<u8>,
    inclusive: bool,
    k: Seq<u8>,
)
    requires
        path_ok(nodes, picks),
        0 <= d < nodes.len(),
        is_prefix(entry_bytes(nodes, picks, d), target),
        nodes[d].least_above(target.skip(entry_bytes(nodes, picks, d).len() as int), inclusive, k),
    ensures
        nodes[0].least_above(target, inclusive, entry_bytes(nodes, picks, d) + k),
    decreases d,
{
    let e = entry_bytes(nodes, picks, d);
    if d == 0 {
        assert(target.skip(0) =~= target);
        assert(e + k =~= k);
    } else {
        let p = nodes[d - 1];
        let at = picks[d - 1] as int;
        let up = entry_bytes(nodes, picks, d - 1);
        let edge = p.fragment@.push(p.labels@[at]);
        let t = target.skip(up.len() as int);
        lemma_entry_prefix(nodes, picks, d - 1, d);
        assert(is_prefix(up, target)) by {
            assert(target.subrange(0, up.len() as int) =~= target.subrange(
                0,
                e.len() as int,
            ).subrange(0, up.len() as int));
        }
        assert(is_prefix(edge, t)) by {
            assert(t.subrange(0, edge.len() as int) =~= target.subrange(0, e.len() as int).skip(
                up.len() as int,
            ));
            assert(e.skip(up.len() as int) =~= edge);
        }
        assert(t.skip(p.fragment@.len() as int + 1) =~= target.skip(e.len() as int));
        p.lemma_above_in_child(t, inclusive, at, k);
        assert(p.under(at, k) =~= edge + k);
        lemma_lift_above(nodes, picks, d - 1, target, inclusive, edge + k);
        assert(up + (edge + k) =~= e + k);
    }
}

/// A key that is last below a target in the node at depth `d`, behind
/// the bytes before that node, is last below the target in the root.
pub(crate) proof fn lemma_lift_below<V>(
    nodes: Seq<&raxNode<V>>,
    picks: Seq<usize>,
    d: int,
    target: Seq<u8>,
    inclusive: bool,
    k: Seq<u8>,
)
    requires
        path_ok(nodes, picks),
        0 <= d < nodes.len(),
        is_prefix(entry_bytes(nodes, picks, d), target),
        nodes[d].greatest_below(target.skip(entry_bytes(nodes, picks, d).len() as int), inclusive, k),
    ensures
        nodes[0].greatest_below(target, inclusive, entry_bytes(nodes, picks, d) + k),
    decreases d,
{
    let e = entry_bytes(nodes, picks, d);
    if d == 0 {
        assert(target.skip(0) =~= target);
        assert(e + k =~= k);
    } else {
        let p = nodes[d - 1];
        let at = picks[d - 1] as int;
        let up = entry_bytes(nodes, picks, d - 1);
        let edge = p.fragment@.push(p.labels@[at]);
        let t = target.skip(up.len() as int);
        lemma_entry_prefix(nodes, picks, d - 1, d);
        assert(is_prefix(up, target)) by {
            assert(target.subrange(0, up.len() as int) =~= target.subrange(
                0,
                e.len() as int,
            ).subrange(0, up.len() as int));
        }
        assert(is_prefix(edge, t)) by {
            assert(t.subrange(0, edge.len() as int) =~= target.subrange(0, e.len() as int).skip(
                up.len() as int,
            ));
            assert(e.skip(up.len() as int) =~= edge);
        }
        assert(t.skip(p.fragment@.len() as int + 1) =~= target.skip(e.len() as int));
        p.lemma_below_in_child(t, inclusive, at, k);
        assert(p.under(at, k) =~= edge + k);
        lemma_lift_below(nodes, picks, d - 1, target, inclusive, edge + k);
        assert(up + (edge + k) =~= e + k);
    }
}

/// The path ends at a node whose key the bytes `key` are.
pub(crate) open spec fn at_node<V>(nodes: Seq<&raxNode<V>>, picks: Seq<usize>, key: Seq<u8>) -> bool {
    path_ok(nodes, picks) && key == path_bytes(nodes, picks, nodes.len() - 1)
}

/// The path ends at a node that holds a value under the bytes `key`.
pub(crate) open spec fn on_key<V>(nodes: Seq<&raxNode<V>>, picks: Seq<usize>, key: Seq<u8>) -> bool {
    at_node(nodes, picks, key) && nodes[nodes.len() - 1].value.is_some()
}

/// The frames of `nodes` and `picks` above the depth `d` are those of
/// `nodes2` and `picks2`.
pub(crate) open spec fn same_frames<V>(
    nodes: Seq<&raxNode<V>>,
    picks: Seq<usize>,
    nodes2: Seq<&raxNode<V>>,
    picks2: Seq<usize>,
    d: int,
) -> bool {
    &&& d < nodes.len()
    &&& d < nodes2.len()
    &&& d <= picks.len()
    &&& d <= picks2.len()
    &&& forall|i: int| 0 <= i <= d ==> #[trigger] nodes[i] == nodes2[i]
    &&& forall|i: int| 0 <= i < d ==> #[trigger] picks[i] == picks2[i]
}

/// Below a node that leads by first children through nodes without a
/// value to a node with a value, the key of that node is the first.
pub(crate) proof fn lemma_least_chain<V>(nodes: Seq<&raxNode<V>>, picks: Seq<usize>, d: int)
    requires
        path_ok(nodes, picks),
        0 <= d < nodes.len(),
        forall|i: int| d <= i < nodes.len() - 1 ==> (#[trigger] nodes[i]).value.is_none(),
        forall|i: int| d <= i < nodes.len() - 1 ==> #[trigger] picks[i] == 0,
        nodes[nodes.len() - 1].value.is_some(),
    ensures
        is_prefix(entry_bytes(nodes, picks, d), path_bytes(nodes, picks, nodes.len() - 1)),
        nodes[d].least(
            path_bytes(nodes, picks, nodes.len() - 1).skip(entry_bytes(nodes, picks, d).len() as int),
        ),
    decreases nodes.len() - d,
{
    let e = nodes.len() - 1;
    let whole = path_bytes(nodes, picks, e);
    let here = entry_bytes(nodes, picks, d);
    lemma_entry_prefix(nodes, picks, d, e);
    assert(is_prefix(here, whole)) by {
        assert(whole.subrange(0, here.len() as int) =~= entry_bytes(nodes, picks, e).subrange(
            0,
            here.len() as int,
        ));
    }
    if d == e {
        nodes[d].lemma_least_own();
        assert(whole.skip(here.len() as int) =~= nodes[d].fragment@);
    } else {
        lemma_least_chain(nodes, picks, d + 1);
        let below = entry_bytes(nodes, picks, d + 1);
        let kc = whole.skip(below.len() as int);
        assert(nodes[d].value.is_none());
        assert(picks[d] == 0);
        nodes[d].lemma_shape();
        nodes[d].lemma_least_child(kc);
        assert(whole.skip(here.len() as int) =~= nodes[d].under(0, kc)) by {
            assert(whole =~= below + kc) by {
                assert(whole =~= whole.subrange(0, below.len() as int) + whole.skip(
                    below.len() as int,
                ));
            }
        }
    }
}

/// Below a node that leads by last children to a node without children,
/// the key of that node is the last.
pub(crate) proof fn lemma_greatest_chain<V>(nodes: Seq<&raxNode<V>>, picks: Seq<usize>, d: int)
    requires
        path_ok(nodes, picks),
        0 <= d < nodes.len(),
        forall|i: int| d <= i < nodes.len() - 1 ==> #[trigger] picks[i] == nodes[i].children@.len() - 1,
        nodes[nodes.len() - 1].children@.len() == 0,
    ensures
        is_prefix(entry_bytes(nodes, picks, d), path_bytes(nodes, picks, nodes.len() - 1)),
        nodes[d].greatest(
            path_bytes(nodes, picks, nodes.len() - 1).skip(entry_bytes(nodes, picks, d).len() as int),
        ),
        nodes[nodes.len() - 1].value.is_some(),
    decreases nodes.len() - d,
{
    let e = nodes.len() - 1;
    let whole = path_bytes(nodes, picks, e);
    let here = entry_bytes(nodes, picks, d);
    lemma_entry_prefix(nodes, picks, d, e);
    nodes[e].lemma_shape();
    assert(is_prefix(here, whole)) by {
        assert(whole.subrange(0, here.len() as int) =~= entry_bytes(nodes, picks, e).subrange(
            0,
            here.len() as int,
        ));
    }
    if d == e {
        nodes[d].lemma_greatest_own();
        assert(whole.skip(here.len() as int) =~= nodes[d].fragment@);
    } else {
        lemma_greatest_chain(nodes, picks, d + 1);
        let below = entry_bytes(nodes, picks, d + 1);
        let kc = whole.skip(below.len() as int);
        assert(picks[d] == nodes[d].children@.len() - 1);
        nodes[d].lemma_shape();
        nodes[d].lemma_greatest_child(kc);
        assert(whole.skip(here.len() as int) =~= nodes[d].under(picks[d] as int, kc)) by {
            assert(whole =~= below + kc) by {
                assert(whole =~= whole.subrange(0, below.len() as int) + whole.skip(
                    below.len() as int,
                ));
            }
        }
    }
}

/// The root maps the key of a node on a path to the value of that node.
pub(crate) proof fn lemma_path_value<V>(nodes: Seq<&raxNode<V>>, picks: Seq<usize>, j: int)
    requires
        path_ok(nodes, picks),
        0 <= j < nodes.len(),
    ensures
        is_prefix(entry_bytes(nodes, picks, j), path_bytes(nodes, picks, nodes.len() - 1)),
        nodes[j].lookup(
            path_bytes(nodes, picks, nodes.len() - 1).skip(entry_bytes(nodes, picks, j).len() as int),
        ) == nodes[nodes.len() - 1].value,
    decreases nodes.len() - j,
{
    let e = nodes.len() - 1;
    let whole = path_bytes(nodes, picks, e);
    let here = entry_bytes(nodes, picks, j);
    lemma_entry_prefix(nodes, picks, j, e);
    assert(is_prefix(here, whole)) by {
        assert(whole.subrange(0, here.len() as int) =~= entry_bytes(nodes, picks, e).subrange(
            0,
            here.len() as int,
        ));
    }
    if j == e {
        let f = nodes[j].fragment@;
        assert(whole.skip(here.len() as int) =~= f);
        nodes[j].lemma_lookup(f);
        assert(f.subrange(0, f.len() as int) =~= f);
    } else {
        lemma_path_value(nodes, picks, j + 1);
        let below = entry_bytes(nodes, picks, j + 1);
        let kc = whole.skip(below.len() as int);
        nodes[j].lemma_under(picks[j] as int, kc);
        assert(whole.skip(here.len() as int) =~= nodes[j].under(picks[j] as int, kc)) by {
            assert(whole =~= below + kc) by {
                assert(whole =~= whole.subrange(0, below.len() as int) + whole.skip(
                    below.len() as int,
                ));
            }
        }
    }
}

/// Goes on from the node at the end of the path, by first children, to
/// the first node that holds a value.
pub(crate) fn descend_first<'a, V>(
    nodes: &mut Vec<&'a raxNode<V>>,
    picks: &mut Vec<usize>,
    key: &mut Vec<u8>,
)
    requires
        at_node(old(nodes)@, old(picks)@, old(key)@),
    ensures
        on_key(final(nodes)@, final(picks)@, final(key)@),
        same_frames(final(nodes)@, final(picks)@, old(nodes)@, old(picks)@, old(nodes)@.len() - 1),
        is_prefix(
            entry_bytes(old(nodes)@, old(picks)@, old(nodes)@.len() - 1),
            final(key)@,
        ),
        old(nodes)@[old(nodes)@.len() - 1].least(
            final(key)@.skip(
                entry_bytes(old(nodes)@, old(picks)@, old(nodes)@.len() - 1).len() as int,
            ),
        ),
{
    let ghost d = nodes@.len() - 1;
    loop
        invariant
            at_node(nodes@, picks@, key@),
            same_frames(nodes@, picks@, old(nodes)@, old(picks)@, d),
            d == old(nodes)@.len() - 1,
            0 <= d,
            forall|i: int| d <= i < nodes@.len() - 1 ==> (#[trigger] nodes@[i]).value.is_none(),
            forall|i: int| d <= i < nodes@.len() - 1 ==> #[trigger] picks@[i] == 0,
        decreases *nodes@[nodes@.len() - 1],
    {
        let top = nodes[nodes.len() - 1];
        if top.value.is_some() {
            proof {
                lemma_least_chain(nodes@, picks@, d);
                lemma_entry_frames(nodes@, picks@, old(nodes)@, old(picks)@, d);
            }
            return ;
        }
        proof {
            top.lemma_shape();
        }
        let ghost nodes0 = nodes@;
        let ghost picks0 = picks@;
        let ghost key0 = key@;
        let child = &top.children[0];
        picks.push(0);
        key.push(top.labels[0]);
        nodes.push(child);
        append_bytes(key, child.fragment.as_slice());
        proof {
            let e = nodes0.len() as int;
            lemma_entry_frames(nodes@, picks@, nodes0, picks0, e - 1);
            assert(entry_bytes(nodes@, picks@, e) =~= key0.push(top.labels@[0]));
            assert(key@ =~= path_bytes(nodes@, picks@, e));
        }
    }
}

/// Goes on from the node at the end of the path, by last children, to
/// the node without children that ends the way.
pub(crate) fn descend_last<'a, V>(
    nodes: &mut Vec<&'a raxNode<V>>,
    picks: &mut Vec<usize>,
    key: &mut Vec<u8>,
)
    requires
        at_node(old(nodes)@, old(picks)@, old(key)@),
    ensures
        on_key(final(nodes)@, final(picks)@, final(key)@),
        same_frames(final(nodes)@, final(picks)@, old(nodes)@, old(picks)@, old(nodes)@.len() - 1),
        is_prefix(
            entry_bytes(old(nodes)@, old(picks)@, old(nodes)@.len() - 1),
            final(key)@,
        ),
        old(nodes)@[old(nodes)@.len() - 1].greatest(
            final(key)@.skip(
                entry_bytes(old(nodes)@, old(picks)@, old(nodes)@.len() - 1).len() as int,
            ),
        ),
{
    let ghost d = nodes@.len() - 1;
    loop
        invariant
            at_node(nodes@, picks@, key@),
            same_frames(nodes@, picks@, old(nodes)@, old(picks)@, d),
            d == old(nodes)@.len() - 1,
            0 <= d,
            forall|i: int|
                d <= i < nodes@.len() - 1 ==> #[trigger] picks@[i] == nodes@[i].children@.len() - 1,
        decreases *nodes@[nodes@.len() - 1],
    {
        let top = nodes[nodes.len() - 1];
        let n = top.children.len();
        if n == 0 {
            proof {
                lemma_greatest_chain(nodes@, picks@, d);
                lemma_entry_frames(nodes@, picks@, old(nodes)@, old(picks)@, d);
            }
            return ;
        }
        proof {
            top.lemma_shape();
        }
        let ghost nodes0 = nodes@;
        let ghost picks0 = picks@;
        let ghost key0 = key@;
        let child = &top.children[n - 1];
        picks.push(n - 1);
        key.push(top.labels[n - 1]);
        nodes.push(child);
        append_bytes(key, child.fragment.as_slice());
        proof {
            let e = nodes0.len() as int;
            lemma_entry_frames(nodes@, picks@, nodes0, picks0, e - 1);
            assert(entry_bytes(nodes@, picks@, e) =~= key0.push(top.labels@[n - 1]));
            assert(key@ =~= path_bytes(nodes@, picks@, e));
        }
    }
}

/// Puts a path on the child at place `at` of the node at its end.
fn enter<'a, V>(nodes: &mut Vec<&'a raxNode<V>>, picks: &mut Vec<usize>, key: &mut Vec<u8>, at: usize)
    requires
        at_node(old(nodes)@, old(picks)@, old(key)@),
        at < old(nodes)@[old(nodes)@.len() - 1].children@.len(),
    ensures
        at_node(final(nodes)@, final(picks)@, final(key)@),
        final(nodes)@ == old(nodes)@.push(
            &old(nodes)@[old(nodes)@.len() - 1].children@[at as int],
        ),
        final(picks)@ == old(picks)@.push(at),
        entry_bytes(final(nodes)@, final(picks)@, old(nodes)@.len() as int) == old(key)@.push(
            old(nodes)@[old(nodes)@.len() - 1].labels@[at as int],
        ),
        same_frames(final(nodes)@, final(picks)@, old(nodes)@, old(picks)@, old(nodes)@.len() - 1),
{
    let ghost nodes0 = nodes@;
    let ghost picks0 = picks@;
    let ghost key0 = key@;
    let top = nodes[nodes.len() - 1];
    proof {
        top.lemma_shape();
    }
    let child = &top.children[at];
    picks.push(at);
    key.push(top.labels[at]);
    nodes.push(child);
    append_bytes(key, child.fragment.as_slice());
    proof {
        let e = nodes0.len() as int;
        lemma_entry_frames(nodes@, picks@, nodes0, picks0, e - 1);
        assert(entry_bytes(nodes@, picks@, e) =~= key0.push(top.labels@[at as int]));
        assert(key@ =~= path_bytes(nodes@, picks@, e));
    }
}

/// Takes the last node off a path that has a node above it, and tells
/// which child of that node it was.
fn leave<'a, V>(nodes: &mut Vec<&'a raxNode<V>>, picks: &mut Vec<usize>, key: &mut Vec<u8>) -> (at:
    usize)
    requires
        at_node(old(nodes)@, old(picks)@, old(key)@),
        old(nodes)@.len() > 1,
    ensures
        at_node(final(nodes)@, final(picks)@, final(key)@),
        final(nodes)@ == old(nodes)@.drop_last(),
        final(picks)@ == old(picks)@.drop_last(),
        at == old(picks)@.last(),
        at < final(nodes)@.last().children@.len(),
        *old(nodes)@.last() == final(nodes)@.last().children@[at as int],
        old(key)@ == final(key)@.push(final(nodes)@.last().labels@[at as int]) + old(
            nodes,
        )@.last().fragment@,
        entry_bytes(old(nodes)@, old(picks)@, old(nodes)@.len() - 1) == final(key)@.push(
            final(nodes)@.last().labels@[at as int],
        ),
        same_frames(final(nodes)@, final(picks)@, old(nodes)@, old(picks)@, old(nodes)@.len() - 2),
{
    let ghost nodes0 = nodes@;
    let ghost picks0 = picks@;
    let ghost key0 = key@;
    let top = nodes.pop().unwrap();
    let at = picks.pop().unwrap();
    let ghost e = nodes0.len() - 1;
    proof {
        lemma_entry_frames(nodes@, picks@, nodes0, picks0, e - 1);
        assert(key0 =~= entry_bytes(nodes0, picks0, e) + top.fragment@);
        assert(key0.len() == entry_bytes(nodes0, picks0, e).len() + top.fragment@.len());
    }
    let shorter = key.len() - top.fragment.len() - 1;
    key.truncate(shorter);
    proof {
        assert(key@ =~= path_bytes(nodes@, picks@, e - 1));
    }
    at
}

/// Goes up from a node that holds nothing above the target until a node
/// has a child behind the one that the path came from, and then down to
/// the first key of that child. Tells whether there is such a child;
/// where there is none, no key of the tree lies above the target.
fn climb_forward<'a, V>(
    nodes: &mut Vec<&'a raxNode<V>>,
    picks: &mut Vec<usize>,
    key: &mut Vec<u8>,
    Ghost(target): Ghost<Seq<u8>>,
    inclusive: bool,
) -> (found: bool)
    requires
        at_node(old(nodes)@, old(picks)@, old(key)@),
        is_prefix(entry_bytes(old(nodes)@, old(picks)@, old(nodes)@.len() - 1), target),
        old(nodes)@[old(nodes)@.len() - 1].none_above(
            target.skip(entry_bytes(old(nodes)@, old(picks)@, old(nodes)@.len() - 1).len() as int),
            inclusive,
        ),
    ensures
        final(nodes)@.len() > 0,
        final(nodes)@[0] == old(nodes)@[0],
        found ==> on_key(final(nodes)@, final(picks)@, final(key)@) && old(nodes)@[0].least_above(
            target,
            inclusive,
            final(key)@,
        ),
        !found ==> old(nodes)@[0].none_above(target, inclusive),
{
    let ghost root = nodes@[0];
    loop
        invariant
            at_node(nodes@, picks@, key@),
            nodes@[0] == root,
            root == old(nodes)@[0],
            is_prefix(entry_bytes(nodes@, picks@, nodes@.len() - 1), target),
            nodes@[nodes@.len() - 1].none_above(
                target.skip(entry_bytes(nodes@, picks@, nodes@.len() - 1).len() as int),
                inclusive,
            ),
        decreases nodes@.len(),
    {
        if nodes.len() == 1 {
            proof {
                assert(target.skip(0) =~= target);
            }
            return false;
        }
        let ghost nodes0 = nodes@;
        let ghost picks0 = picks@;
        let ghost e = nodes0.len() - 1;
        let ghost inner = entry_bytes(nodes0, picks0, e);
        let at = leave(nodes, picks, key);
        let parent = nodes[nodes.len() - 1];
        let ghost outer = entry_bytes(nodes@, picks@, e - 1);
        let ghost label = parent.labels@[at as int];
        let ghost t = target.skip(outer.len() as int);
        let ghost rest = target.skip(inner.len() as int);
        proof {
            parent.lemma_shape();
            lemma_entry_frames(nodes@, picks@, nodes0, picks0, e - 1);
            lemma_entry_prefix(nodes0, picks0, e - 1, e);
            assert(inner =~= outer + parent.fragment@.push(label));
            lemma_prefix_parts(outer, parent.fragment@.push(label), target);
            assert(t.skip(parent.fragment@.len() as int + 1) =~= rest);
            assert(parent.nothing_above_before(at as int + 1, label, rest, inclusive)) by {
                assert forall|i: int| 0 <= i < at as int + 1 implies #[trigger] parent.labels@[i]
                    < label || (parent.labels@[i] == label && parent.children@[i].none_above(
                    rest,
                    inclusive,
                )) by {
                    if i < at {
                        assert(parent.labels@[i] < parent.labels@[at as int]);
                    }
                }
                assert forall|i: int| at as int + 1 <= i < parent.labels@.len() implies 
                #[trigger] parent.labels@[i] > label by {
                    assert(parent.labels@[at as int] < parent.labels@[i]);
                }
            }
        }
        let count = parent.children.len();
        if at + 1 < count {
            let ghost d = nodes@.len() - 1;
            let ghost nodes_up = nodes@;
            let ghost picks_up = picks@;
            enter(nodes, picks, key, at + 1);
            let ghost nodes1 = nodes@;
            let ghost picks1 = picks@;
            descend_first(nodes, picks, key);
            proof {
                let below = entry_bytes(nodes1, picks1, d + 1);
                let kc = key@.skip(below.len() as int);
                lemma_split_at(below, key@);
                lemma_entry_frames(nodes@, picks@, nodes1, picks1, d);
                lemma_entry_frames(nodes1, picks1, nodes_up, picks_up, d);
                parent.lemma_above_next(t, inclusive, label, at as int + 1, kc);
                lemma_lift_above(
                    nodes@,
                    picks@,
                    d,
                    target,
                    inclusive,
                    parent.under(at as int + 1, kc),
                );
                assert(outer + parent.under(at as int + 1, kc) =~= key@);
            }
            return true;
        }
        proof {
            parent.lemma_above_next(t, inclusive, label, at as int + 1, Seq::empty());
        }
    }
}

/// Goes up from a node that holds nothing below the target until a node
/// has a child before the one that the path came from, and then down to
/// the last key of that child, or until a node holds a value itself.
/// Tells whether there is such a node; where there is none, no key of
/// the tree lies below the target.
fn climb_backward<'a, V>(
    nodes: &mut Vec<&'a raxNode<V>>,
    picks: &mut Vec<usize>,
    key: &mut Vec<u8>,
    Ghost(target): Ghost<Seq<u8>>,
    inclusive: bool,
) -> (found: bool)
    requires
        at_node(old(nodes)@, old(picks)@, old(key)@),
        is_prefix(entry_bytes(old(nodes)@, old(picks)@, old(nodes)@.len() - 1), target),
        old(nodes)@[old(nodes)@.len() - 1].none_below(
            target.skip(entry_bytes(old(nodes)@, old(picks)@, old(nodes)@.len() - 1).len() as int),
            inclusive,
        ),
    ensures
        final(nodes)@.len() > 0,
        final(nodes)@[0] == old(nodes)@[0],
        found ==> on_key(final(nodes)@, final(picks)@, final(key)@)
            && old(nodes)@[0].greatest_below(target, inclusive, final(key)@),
        !found ==> old(nodes)@[0].none_below(target, inclusive),
{
    let ghost root = nodes@[0];
    loop
        invariant
            at_node(nodes@, picks@, key@),
            nodes@[0] == root,
            root == old(nodes)@[0],
            is_prefix(entry_bytes(nodes@, picks@, nodes@.len() - 1), target),
            nodes@[nodes@.len() - 1].none_below(
                target.skip(entry_bytes(nodes@, picks@, nodes@.len() - 1).len() as int),
                inclusive,
            ),
        decreases nodes@.len(),
    {
        if nodes.len() == 1 {
            proof {
                assert(target.skip(0) =~= target);
            }
            return false;
        }
        let ghost nodes0 = nodes@;
        let ghost picks0 = picks@;
        let ghost e = nodes0.len() - 1;
        let ghost inner = entry_bytes(nodes0, picks0, e);
        let at = leave(nodes, picks, key);
        let parent = nodes[nodes.len() - 1];
        let ghost outer = entry_bytes(nodes@, picks@, e - 1);
        let ghost label = parent.labels@[at as int];
        let ghost t = target.skip(outer.len() as int);
        let ghost rest = target.skip(inner.len() as int);
        let ghost d = nodes@.len() - 1;
        proof {
            parent.lemma_shape();
            lemma_entry_frames(nodes@, picks@, nodes0, picks0, e - 1);
            lemma_entry_prefix(nodes0, picks0, e - 1, e);
            assert(inner =~= outer + parent.fragment@.push(label));
            lemma_prefix_parts(outer, parent.fragment@.push(label), target);
            assert(t.skip(parent.fragment@.len() as int + 1) =~= rest);
            assert(parent.nothing_below_after(at as int - 1, label, rest, inclusive)) by {
                assert forall|i: int| at as int - 1 < i < parent.labels@.len() implies 
                #[trigger] parent.labels@[i] > label || (parent.labels@[i] == label
                    && parent.children@[i].none_below(rest, inclusive)) by {
                    if i > at {
                        assert(parent.labels@[at as int] < parent.labels@[i]);
                    }
                }
                assert forall|i: int| 0 <= i <= at as int - 1 implies #[trigger] parent.labels@[i]
                    < label by {
                    assert(parent.labels@[i] < parent.labels@[at as int]);
                }
            }
        }
        if at > 0 {
            let ghost nodes_up = nodes@;
            let ghost picks_up = picks@;
            enter(nodes, picks, key, at - 1);
            let ghost nodes1 = nodes@;
            let ghost picks1 = picks@;
            descend_last(nodes, picks, key);
            proof {
                let below = entry_bytes(nodes1, picks1, d + 1);
                let kc = key@.skip(below.len() as int);
                lemma_split_at(below, key@);
                lemma_entry_frames(nodes@, picks@, nodes1, picks1, d);
                lemma_entry_frames(nodes1, picks1, nodes_up, picks_up, d);
                parent.lemma_below_prev(t, inclusive, label, at as int - 1, kc);
                lemma_lift_below(
                    nodes@,
                    picks@,
                    d,
                    target,
                    inclusive,
                    parent.under(at as int - 1, kc),
                );
                assert(outer + parent.under(at as int - 1, kc) =~= key@);
            }
            return true;
        }
        proof {
            parent.lemma_below_prev(t, inclusive, label, -1, Seq::empty());
        }
        if parent.value.is_some() {
            proof {
                lemma_lift_below(nodes@, picks@, d, target, inclusive, parent.fragment@);
            }
            return true;
        }
    }
}

/// Moves the path from the key that it is on to the next key of the
/// tree, and tells whether there is one. Where there is none, the path
/// is left on some node.
pub(crate) fn step_forward<'a, V>(
    nodes: &mut Vec<&'a raxNode<V>>,
    picks: &mut Vec<usize>,
    key: &mut Vec<u8>,
) -> (found: bool)
    requires
        on_key(old(nodes)@, old(picks)@, old(key)@),
    ensures
        final(nodes)@.len() > 0,
        final(nodes)@[0] == old(nodes)@[0],
        found ==> on_key(final(nodes)@, final(picks)@, final(key)@) && old(nodes)@[0].least_above(
            old(key)@,
            false,
            final(key)@,
        ),
        !found ==> old(nodes)@[0].none_above(old(key)@, false),
{
    let ghost target = key@;
    let top = nodes[nodes.len() - 1];
    let ghost d = nodes@.len() - 1;
    let ghost above = entry_bytes(nodes@, picks@, d);
    proof {
        top.lemma_shape();
        top.lemma_at_fragment(false);
        assert(is_prefix(above, target)) by {
            assert(target.subrange(0, above.len() as int) =~= above);
        }
        assert(target.skip(above.len() as int) =~= top.fragment@);
    }
    if top.children.len() > 0 {
        enter(nodes, picks, key, 0);
        let ghost nodes1 = nodes@;
        let ghost picks1 = picks@;
        descend_first(nodes, picks, key);
        proof {
            let below = entry_bytes(nodes1, picks1, d + 1);
            let kc = key@.skip(below.len() as int);
            lemma_split_at(below, key@);
            lemma_entry_frames(nodes@, picks@, nodes1, picks1, d);
            lemma_entry_frames(nodes1, picks1, old(nodes)@, old(picks)@, d);
            assert(top.least_above(top.fragment@, false, top.under(0, kc)));
            lemma_lift_above(nodes@, picks@, d, target, false, top.under(0, kc));
            assert(above + top.under(0, kc) =~= key@);
        }
        return true;
    }
    climb_forward(nodes, picks, key, Ghost(target), false)
}

/// Moves the path from the key that it is on to the key before it in
/// the tree, and tells whether there is one. Where there is none, the
/// path is left on some node.
pub(crate) fn step_backward<'a, V>(
    nodes: &mut Vec<&'a raxNode<V>>,
    picks: &mut Vec<usize>,
    key: &mut Vec<u8>,
) -> (found: bool)
    requires
        on_key(old(nodes)@, old(picks)@, old(key)@),
    ensures
        final(nodes)@.len() > 0,
        final(nodes)@[0] == old(nodes)@[0],
        found ==> on_key(final(nodes)@, final(picks)@, final(key)@)
            && old(nodes)@[0].greatest_below(old(key)@, false, final(key)@),
        !found ==> old(nodes)@[0].none_below(old(key)@, false),
{
    let ghost target = key@;
    proof {
        let top = nodes@[nodes@.len() - 1];
        let above = entry_bytes(nodes@, picks@, nodes@.len() - 1);
        top.lemma_shape();
        top.lemma_at_fragment(false);
        assert(is_prefix(above, target)) by {
            assert(target.subrange(0, above.len() as int) =~= above);
        }
        assert(target.skip(above.len() as int) =~= top.fragment@);
    }
    climb_backward(nodes, picks, key, Ghost(target), false)
}

/// Puts the path on the first key of the subtree of `root`.
pub(crate) fn seek_first<'a, V>(
    root: &'a raxNode<V>,
    nodes: &mut Vec<&'a raxNode<V>>,
    picks: &mut Vec<usize>,
    key: &mut Vec<u8>,
)
    requires
        root.wf(),
    ensures
        on_key(final(nodes)@, final(picks)@, final(key)@),
        final(nodes)@[0] == root,
        root.least(final(key)@),
{
    nodes.clear();
    picks.clear();
    key.clear();
    nodes.push(root);
    append_bytes(key, root.fragment.as_slice());
    proof {
        assert(key@ =~= path_bytes(nodes@, picks@, 0));
    }
    descend_first(nodes, picks, key);
    proof {
        assert(key@.skip(0) =~= key@);
    }
}

/// Puts the path on the last key of the subtree of `root`.
pub(crate) fn seek_last<'a, V>(
    root: &'a raxNode<V>,
    nodes: &mut Vec<&'a raxNode<V>>,
    picks: &mut Vec<usize>,
    key: &mut Vec<u8>,
)
    requires
        root.wf(),
    ensures
        on_key(final(nodes)@, final(picks)@, final(key)@),
        final(nodes)@[0] == root,
        root.greatest(final(key)@),
{
    nodes.clear();
    picks.clear();
    key.clear();
    nodes.push(root);
    append_bytes(key, root.fragment.as_slice());
    proof {
        assert(key@ =~= path_bytes(nodes@, picks@, 0));
    }
    descend_last(nodes, picks, key);
    proof {
        assert(key@.skip(0) =~= key@);
    }
}

/// Puts the path on the first key of the subtree of `root` that lies
/// above `target`, and tells whether there is one.
pub(crate) fn seek_forward<'a, V>(
    root: &'a raxNode<V>,
    target: &[u8],
    inclusive: bool,
    nodes: &mut Vec<&'a raxNode<V>>,
    picks: &mut Vec<usize>,
    key: &mut Vec<u8>,
) -> (found: bool)
    requires
        root.wf(),
    ensures
        found ==> on_key(final(nodes)@, final(picks)@, final(key)@) && final(nodes)@[0] == root
            && root.least_above(target@, inclusive, final(key)@),
        !found ==> root.none_above(target@, inclusive),
{
    nodes.clear();
    picks.clear();
    key.clear();
    nodes.push(root);
    append_bytes(key, root.fragment.as_slice());
    let mut pos: usize = 0;
    proof {
        assert(key@ =~= path_bytes(nodes@, picks@, 0));
        assert(target@.subrange(0, 0) =~= Seq::<u8>::empty());
    }
    loop
        invariant
            at_node(nodes@, picks@, key@),
            nodes@[0] == root,
            pos <= target.len(),
            entry_bytes(nodes@, picks@, nodes@.len() - 1) == target@.subrange(0, pos as int),
        decreases target.len() - pos,
    {
        let top = nodes[nodes.len() - 1];
        let ghost d = nodes@.len() - 1;
        let ghost above = entry_bytes(nodes@, picks@, d);
        let ghost rest = target@.skip(pos as int);
        let ghost nodes0 = nodes@;
        let ghost picks0 = picks@;
        let m = common_prefix(top.fragment.as_slice(), target, pos);
        proof {
            top.lemma_shape();
            lemma_common_prefix_len(top.fragment@, rest);
            lemma_common_prefix_whole(top.fragment@, rest);
            assert(is_prefix(above, target@)) by {
                assert(target@.subrange(0, above.len() as int) =~= above);
            }
        }
        if m < top.fragment.len() {
            if pos + m == target.len() || target[pos + m] < top.fragment[m] {
                descend_first(nodes, picks, key);
                proof {
                    let kc = key@.skip(above.len() as int);
                    lemma_entry_frames(nodes@, picks@, nodes0, picks0, d);
                    lemma_split_at(above, key@);
                    top.lemma_above_all(rest, inclusive, m as int, kc);
                    lemma_lift_above(nodes@, picks@, d, target@, inclusive, kc);
                }
                return true;
            }
            proof {
                top.lemma_above_none(rest, inclusive, m as int);
            }
            return climb_forward(nodes, picks, key, Ghost(target@), inclusive);
        }
        if pos + m == target.len() {
            proof {
                assert(rest =~= top.fragment@);
                top.lemma_at_fragment(inclusive);
            }
            if inclusive && top.value.is_some() {
                proof {
                    lemma_lift_above(nodes@, picks@, d, target@, inclusive, top.fragment@);
                }
                return true;
            }
            if top.children.len() > 0 {
                enter(nodes, picks, key, 0);
                let ghost nodes1 = nodes@;
                let ghost picks1 = picks@;
                descend_first(nodes, picks, key);
                proof {
                    let below = entry_bytes(nodes1, picks1, d + 1);
                    let kc = key@.skip(below.len() as int);
                    lemma_split_at(below, key@);
                    lemma_entry_frames(nodes@, picks@, nodes1, picks1, d);
                    lemma_entry_frames(nodes1, picks1, nodes0, picks0, d);
                    assert(top.least_above(top.fragment@, inclusive, top.under(0, kc)));
                    lemma_lift_above(nodes@, picks@, d, target@, inclusive, top.under(0, kc));
                    assert(above + top.under(0, kc) =~= key@);
                }
                return true;
            }
            return climb_forward(nodes, picks, key, Ghost(target@), inclusive);
        }
        let b = target[pos + m];
        let (hit, at) = top.find_edge(b);
        proof {
            assert(rest[m as int] == b);
            lemma_is_prefix_push(top.fragment@, b, rest);
        }
        if hit {
            enter(nodes, picks, key, at);
            proof {
                assert(target@.subrange(0, pos + m + 1) =~= target@.subrange(0, pos as int)
                    + top.fragment@.push(b)) by {
                    assert(rest.subrange(0, m as int) == top.fragment@);
                    assert forall|x: int| 0 <= x < m implies target@[pos + x] == top.fragment@[x] by {
                        assert(rest.subrange(0, m as int)[x] == rest[x]);
                    }
                }
            }
            pos = pos + m + 1;
            continue ;
        }
        let ghost tail = rest.skip(m + 1);
        proof {
            assert(top.nothing_above_before(at as int, b, tail, inclusive));
        }
        if at < top.children.len() {
            enter(nodes, picks, key, at);
            let ghost nodes1 = nodes@;
            let ghost picks1 = picks@;
            descend_first(nodes, picks, key);
            proof {
                let below = entry_bytes(nodes1, picks1, d + 1);
                let kc = key@.skip(below.len() as int);
                lemma_split_at(below, key@);
                lemma_entry_frames(nodes@, picks@, nodes1, picks1, d);
                lemma_entry_frames(nodes1, picks1, nodes0, picks0, d);
                top.lemma_above_next(rest, inclusive, b, at as int, kc);
                lemma_lift_above(nodes@, picks@, d, target@, inclusive, top.under(at as int, kc));
                assert(above + top.under(at as int, kc) =~= key@);
            }
            return true;
        }
        proof {
            top.lemma_above_next(rest, inclusive, b, at as int, Seq::empty());
        }
        return climb_forward(nodes, picks, key, Ghost(target@), inclusive);
    }
}

/// Puts the path on the last key of the subtree of `root` that lies
/// below `target`, and tells whether there is one.
pub(crate) fn seek_backward<'a, V>(
    root: &'a raxNode<V>,
    target: &[u8],
    inclusive: bool,
    nodes: &mut Vec<&'a raxNode<V>>,
    picks: &mut Vec<usize>,
    key: &mut Vec<u8>,
) -> (found: bool)
    requires
        root.wf(),
    ensures
        found ==> on_key(final(nodes)@, final(picks)@, final(key)@) && final(nodes)@[0] == root
            && root.greatest_below(target@, inclusive, final(key)@),
        !found ==> root.none_below(target@, inclusive),
{
    nodes.clear();
    picks.clear();
    key.clear();
    nodes.push(root);
    append_bytes(key, root.fragment.as_slice());
    let mut pos: usize = 0;
    proof {
        assert(key@ =~= path_bytes(nodes@, picks@, 0));
        assert(target@.subrange(0, 0) =~= Seq::<u8>::empty());
    }
    loop
        invariant
            at_node(nodes@, picks@, key@),
            nodes@[0] == root,
            pos <= target.len(),
            entry_bytes(nodes@, picks@, nodes@.len() - 1) == target@.subrange(0, pos as int),
        decreases target.len() - pos,
    {
        let top = nodes[nodes.len() - 1];
        let ghost d = nodes@.len() - 1;
        let ghost above = entry_bytes(nodes@, picks@, d);
        let ghost rest = target@.skip(pos as int);
        let ghost nodes0 = nodes@;
        let ghost picks0 = picks@;
        let m = common_prefix(top.fragment.as_slice(), target, pos);
        proof {
            top.lemma_shape();
            lemma_common_prefix_len(top.fragment@, rest);
            lemma_common_prefix_whole(top.fragment@, rest);
            assert(is_prefix(above, target@)) by {
                assert(target@.subrange(0, above.len() as int) =~= above);
            }
        }
        if m < top.fragment.len() {
            if pos + m < target.len() && target[pos + m] > top.fragment[m] {
                descend_last(nodes, picks, key);
                proof {
                    let kc = key@.skip(above.len() as int);
                    lemma_entry_frames(nodes@, picks@, nodes0, picks0, d);
                    lemma_split_at(above, key@);
                    top.lemma_below_all(rest, inclusive, m as int, kc);
                    lemma_lift_below(nodes@, picks@, d, target@, inclusive, kc);
                }
                return true;
            }
            proof {
                top.lemma_below_none(rest, inclusive, m as int);
            }
            return climb_backward(nodes, picks, key, Ghost(target@), inclusive);
        }
        if pos + m == target.len() {
            proof {
                assert(rest =~= top.fragment@);
                top.lemma_at_fragment(inclusive);
            }
            if inclusive && top.value.is_some() {
                proof {
                    lemma_lift_below(nodes@, picks@, d, target@, inclusive, top.fragment@);
                }
                return true;
            }
            return climb_backward(nodes, picks, key, Ghost(target@), inclusive);
        }
        let b = target[pos + m];
        let (hit, at) = top.find_edge(b);
        proof {
            assert(rest[m as int] == b);
            lemma_is_prefix_push(top.fragment@, b, rest);
        }
        if hit {
            enter(nodes, picks, key, at);
            proof {
                assert(target@.subrange(0, pos + m + 1) =~= target@.subrange(0, pos as int)
                    + top.fragment@.push(b)) by {
                    assert(rest.subrange(0, m as int) == top.fragment@);
                    assert forall|x: int| 0 <= x < m implies target@[pos + x] == top.fragment@[x] by {
                        assert(rest.subrange(0, m as int)[x] == rest[x]);
                    }
                }
            }
            pos = pos + m + 1;
            continue ;
        }
        let ghost tail = rest.skip(m + 1);
        proof {
            assert(top.nothing_below_after(at as int - 1, b, tail, inclusive));
        }
        if at > 0 {
            enter(nodes, picks, key, at - 1);
            let ghost nodes1 = nodes@;
            let ghost picks1 = picks@;
            descend_last(nodes, picks, key);
            proof {
                let below = entry_bytes(nodes1, picks1, d + 1);
                let kc = key@.skip(below.len() as int);
                lemma_split_at(below, key@);
                lemma_entry_frames(nodes@, picks@, nodes1, picks1, d);
                lemma_entry_frames(nodes1, picks1, nodes0, picks0, d);
                top.lemma_below_prev(rest, inclusive, b, at as int - 1, kc);
                lemma_lift_below(
                    nodes@,
                    picks@,
                    d,
                    target@,
                    inclusive,
                    top.under(at as int - 1, kc),
                );
                assert(above + top.under(at as int - 1, kc) =~= key@);
            }
            return true;
        }
        proof {
            top.lemma_below_prev(rest, inclusive, b, -1, Seq::empty());
        }
        if top.value.is_some() {
            proof {
                lemma_lift_below(nodes@, picks@, d, target@, inclusive, top.fragment@);
            }
            return true;
        }
        return climb_backward(nodes, picks, key, Ghost(target@), inclusive);
    }
}

/// Builds the path to the key `key`, which the subtree of `root` holds.
pub(crate) fn locate<'a, V>(
    root: &'a raxNode<V>,
    key: &[u8],
    nodes: &mut Vec<&'a raxNode<V>>,
    picks: &mut Vec<usize>,
)
    requires
        root.wf(),
        root.holds(key@),
    ensures
        on_key(final(nodes)@, final(picks)@, key@),
        final(nodes)@[0] == root,
{
    nodes.clear();
    picks.clear();
    nodes.push(root);
    let mut pos: usize = 0;
    proof {
        assert(key@.skip(0) =~= key@);
    }
    loop
        invariant
            path_ok(nodes@, picks@),
            nodes@[0] == root,
            pos <= key.len(),
            entry_bytes(nodes@, picks@, nodes@.len() - 1) == key@.subrange(0, pos as int),
            nodes@[nodes@.len() - 1].holds(key@.skip(pos as int)),
        decreases key.len() - pos,
    {
        let top = nodes[nodes.len() - 1];
        let ghost rest = key@.skip(pos as int);
        proof {
            top.lemma_shape();
            top.lemma_key_parts(rest);
        }
        let m = top.fragment.len();
        if pos + m == key.len() {
            proof {
                assert(key@ =~= key@.subrange(0, pos as int) + rest);
            }
            return ;
        }
        let b = key[pos + m];
        let (hit, at) = top.find_edge(b);
        let ghost nodes0 = nodes@;
        let ghost picks0 = picks@;
        proof {
            assert(rest[m as int] == b);
            assert(hit);
            assert(rest.skip(m + 1) =~= key@.skip(pos + m + 1));
        }
        picks.push(at);
        nodes.push(&top.children[at]);
        proof {
            let e = nodes0.len() as int;
            lemma_entry_frames(nodes@, picks@, nodes0, picks0, e - 1);
            assert(key@.subrange(0, pos + m + 1) =~= key@.subrange(0, pos as int)
                + top.fragment@.push(b)) by {
                assert(rest.subrange(0, m as int) == top.fragment@);
                assert forall|x: int| 0 <= x < m implies key@[pos + x] == top.fragment@[x] by {
                    assert(rest.subrange(0, m as int)[x] == rest[x]);
                }
            }
        }
        pos = pos + m + 1;
    }
}

} // verus!

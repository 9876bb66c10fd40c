//! The order of the keys of a subtree: which key is its first, which its
//! last, and which is nearest to a target on either side, told from the
//! node and from its children.

use crate::bytes::{
    above, below, is_prefix, lemma_le_under, lemma_lex_lt_total, lemma_order_diverge,
    lemma_order_under, lemma_side_under, lex_le,
};
use crate::node::{lemma_route_at, raxNode};
use vstd::prelude::*;

verus! {

impl<V> raxNode<V> {
    /// The subtree holds a value for `k`.
    pub open spec fn holds(self, k: Seq<u8>) -> bool {
        self.lookup(k).is_some()
    }

    /// `k` is the first key of the subtree.
    pub open spec fn least(self, k: Seq<u8>) -> bool {
        self.holds(k) && forall|j: Seq<u8>| #[trigger] self.holds(j) ==> lex_le(k, j)
    }

    /// `k` is the last key of the subtree.
    pub open spec fn greatest(self, k: Seq<u8>) -> bool {
        self.holds(k) && forall|j: Seq<u8>| #[trigger] self.holds(j) ==> lex_le(j, k)
    }

    /// `k` is the first key of the subtree that lies above `t`.
    pub open spec fn least_above(self, t: Seq<u8>, inclusive: bool, k: Seq<u8>) -> bool {
        &&& self.holds(k)
        &&& above(k, t, inclusive)
        &&& forall|j: Seq<u8>| #[trigger] self.holds(j) && above(j, t, inclusive) ==> lex_le(k, j)
    }

    /// No key of the subtree lies above `t`.
    pub open spec fn none_above(self, t: Seq<u8>, inclusive: bool) -> bool {
        forall|j: Seq<u8>| #[trigger] self.holds(j) ==> !above(j, t, inclusive)
    }

    /// `k` is the last key of the subtree that lies below `t`.
    pub open spec fn greatest_below(self, t: Seq<u8>, inclusive: bool, k: Seq<u8>) -> bool {
        &&& self.holds(k)
        &&& below(k, t, inclusive)
        &&& forall|j: Seq<u8>| #[trigger] self.holds(j) && below(j, t, inclusive) ==> lex_le(j, k)
    }

    /// No key of the subtree lies below `t`.
    pub open spec fn none_below(self, t: Seq<u8>, inclusive: bool) -> bool {
        forall|j: Seq<u8>| #[trigger] self.holds(j) ==> !below(j, t, inclusive)
    }

    /// The key of this subtree that leads through the child at place `i`
    /// to the key `kc` of that child.
    pub(crate) open spec fn under(self, i: int, kc: Seq<u8>) -> Seq<u8> {
        self.fragment@.push(self.labels@[i]) + kc
    }

    /// What this node maps a key that leads through a child to.
    pub(crate) proof fn lemma_under(self, i: int, kc: Seq<u8>)
        requires
            self.wf(),
            0 <= i < self.children@.len(),
        ensures
            self.lookup(self.under(i, kc)) == self.children@[i].lookup(kc),
            is_prefix(self.fragment@, self.under(i, kc)),
            self.under(i, kc).len() > self.fragment@.len(),
            self.under(i, kc)[self.fragment@.len() as int] == self.labels@[i],
            self.under(i, kc).skip(self.fragment@.len() as int + 1) == kc,
    {
        self.lemma_shape();
        let f = self.fragment@;
        let k = self.under(i, kc);
        assert(k.subrange(0, f.len() as int) =~= f);
        assert(k.skip(f.len() as int + 1) =~= kc);
        self.lemma_lookup(k);
        lemma_route_at(self.labels@, self.children@, i);
    }

    /// How a key of this subtree is made: it is the fragment, or it leads
    /// through the child that its next byte selects.
    pub(crate) proof fn lemma_key_parts(self, j: Seq<u8>)
        requires
            self.wf(),
            self.holds(j),
        ensures
            is_prefix(self.fragment@, j),
            j.len() == self.fragment@.len() ==> j == self.fragment@ && self.value.is_some(),
            j.len() > self.fragment@.len() ==> {
                let i = self.labels@.index_of(j[self.fragment@.len() as int]);
                &&& 0 <= i < self.children@.len()
                &&& self.labels@[i] == j[self.fragment@.len() as int]
                &&& self.children@[i].holds(j.skip(self.fragment@.len() as int + 1))
                &&& j == self.under(i, j.skip(self.fragment@.len() as int + 1))
            },
    {
        self.lemma_shape();
        let f = self.fragment@;
        self.lemma_lookup(j);
        if j.len() == f.len() {
            assert(j =~= f);
        } else {
            let i = self.labels@.index_of(j[f.len() as int]);
            let kc = j.skip(f.len() as int + 1);
            assert(is_prefix(f, self.under(i, kc))) by {
                assert(self.under(i, kc).subrange(0, f.len() as int) =~= f);
            }
            assert(j =~= self.under(i, kc)) by {
                assert(j.subrange(0, f.len() as int) == f);
                assert forall|x: int| 0 <= x < j.len() implies j[x] == self.under(i, kc)[x] by {
                    if x < f.len() {
                        assert(j[x] == j.subrange(0, f.len() as int)[x]);
                    }
                }
            }
        }
    }

    /// A node with a value has its fragment as its first key.
    pub(crate) proof fn lemma_least_own(self)
        requires
            self.wf(),
            self.value.is_some(),
        ensures
            self.least(self.fragment@),
    {
        let f = self.fragment@;
        self.lemma_lookup(f);
        assert(f.subrange(0, f.len() as int) =~= f);
        assert forall|j: Seq<u8>| #[trigger] self.holds(j) implies lex_le(f, j) by {
            self.lemma_key_parts(j);
            lemma_order_under(f, f, j);
        }
    }

    /// A node without a value has its first key under its first child.
    pub(crate) proof fn lemma_least_child(self, kc: Seq<u8>)
        requires
            self.wf(),
            self.value.is_none(),
            self.children@.len() > 0,
            self.children@[0].least(kc),
        ensures
            self.least(self.under(0, kc)),
    {
        let f = self.fragment@;
        let k = self.under(0, kc);
        self.lemma_shape();
        self.lemma_under(0, kc);
        assert forall|j: Seq<u8>| #[trigger] self.holds(j) implies lex_le(k, j) by {
            self.lemma_key_parts(j);
            lemma_order_under(f, k, j);
            let i = self.labels@.index_of(j[f.len() as int]);
            let jc = j.skip(f.len() as int + 1);
            if i == 0 {
                assert(self.children@[0].holds(jc));
            } else {
                assert(self.labels@[0] < self.labels@[i]);
            }
        }
    }

    /// A node without children has its fragment as its last key.
    pub(crate) proof fn lemma_greatest_own(self)
        requires
            self.wf(),
            self.children@.len() == 0,
        ensures
            self.greatest(self.fragment@),
    {
        let f = self.fragment@;
        self.lemma_shape();
        self.lemma_lookup(f);
        assert(f.subrange(0, f.len() as int) =~= f);
        assert forall|j: Seq<u8>| #[trigger] self.holds(j) implies lex_le(j, f) by {
            self.lemma_key_parts(j);
        }
    }

    /// A node with children has its last key under its last child.
    pub(crate) proof fn lemma_greatest_child(self, kc: Seq<u8>)
        requires
            self.wf(),
            self.children@.len() > 0,
            self.children@[self.children@.len() - 1].greatest(kc),
        ensures
            self.greatest(self.under(self.children@.len() - 1, kc)),
    {
        let f = self.fragment@;
        let last = self.children@.len() - 1;
        let k = self.under(last, kc);
        self.lemma_shape();
        self.lemma_under(last, kc);
        assert forall|j: Seq<u8>| #[trigger] self.holds(j) implies lex_le(j, k) by {
            self.lemma_key_parts(j);
            lemma_order_under(f, j, k);
            if j.len() > f.len() {
                let i = self.labels@.index_of(j[f.len() as int]);
                let jc = j.skip(f.len() as int + 1);
                if i == last {
                    assert(self.children@[last].holds(jc));
                } else {
                    assert(self.labels@[i] < self.labels@[last]);
                }
            }
        }
    }

    /// Where the target leaves the fragment to the lower side, every key
    /// lies above it.
    pub(crate) proof fn lemma_above_all(self, t: Seq<u8>, inclusive: bool, m: int, k: Seq<u8>)
        requires
            self.wf(),
            0 <= m < self.fragment@.len(),
            m <= t.len(),
            self.fragment@.subrange(0, m) == t.subrange(0, m),
            m < t.len() ==> t[m] < self.fragment@[m],
            self.least(k),
        ensures
            self.least_above(t, inclusive, k),
    {
        assert forall|j: Seq<u8>| #[trigger] self.holds(j) implies above(j, t, inclusive) by {
            self.lemma_key_parts(j);
            lemma_order_diverge(self.fragment@, j, t, m);
        }
    }

    /// Where the target leaves the fragment to the upper side, no key
    /// lies above it.
    pub(crate) proof fn lemma_above_none(self, t: Seq<u8>, inclusive: bool, m: int)
        requires
            self.wf(),
            0 <= m < self.fragment@.len(),
            m < t.len(),
            self.fragment@.subrange(0, m) == t.subrange(0, m),
            t[m] > self.fragment@[m],
        ensures
            self.none_above(t, inclusive),
    {
        assert forall|j: Seq<u8>| #[trigger] self.holds(j) implies !above(j, t, inclusive) by {
            self.lemma_key_parts(j);
            lemma_order_diverge(self.fragment@, j, t, m);
        }
    }

    /// Where the target leaves the fragment to the upper side, every key
    /// lies below it.
    pub(crate) proof fn lemma_below_all(self, t: Seq<u8>, inclusive: bool, m: int, k: Seq<u8>)
        requires
            self.wf(),
            0 <= m < self.fragment@.len(),
            m < t.len(),
            self.fragment@.subrange(0, m) == t.subrange(0, m),
            t[m] > self.fragment@[m],
            self.greatest(k),
        ensures
            self.greatest_below(t, inclusive, k),
    {
        assert forall|j: Seq<u8>| #[trigger] self.holds(j) implies below(j, t, inclusive) by {
            self.lemma_key_parts(j);
            lemma_order_diverge(self.fragment@, j, t, m);
        }
    }

    /// Where the target leaves the fragment to the lower side, no key
    /// lies below it.
    pub(crate) proof fn lemma_below_none(self, t: Seq<u8>, inclusive: bool, m: int)
        requires
            self.wf(),
            0 <= m < self.fragment@.len(),
            m <= t.len(),
            self.fragment@.subrange(0, m) == t.subrange(0, m),
            m < t.len() ==> t[m] < self.fragment@[m],
        ensures
            self.none_below(t, inclusive),
    {
        assert forall|j: Seq<u8>| #[trigger] self.holds(j) implies !below(j, t, inclusive) by {
            self.lemma_key_parts(j);
            lemma_order_diverge(self.fragment@, j, t, m);
        }
    }

    /// Where the target is the fragment: the keys on each side of it.
    pub(crate) proof fn lemma_at_fragment(self, inclusive: bool)
        requires
            self.wf(),
        ensures
            inclusive && self.value.is_some() ==> self.least_above(
                self.fragment@,
                inclusive,
                self.fragment@,
            ) && self.greatest_below(self.fragment@, inclusive, self.fragment@),
            !(inclusive && self.value.is_some()) ==> self.none_below(self.fragment@, inclusive),
            !(inclusive && self.value.is_some()) && self.children@.len() == 0 ==> self.none_above(
                self.fragment@,
                inclusive,
            ),
            forall|kc: Seq<u8>|
                !(inclusive && self.value.is_some()) && self.children@.len() > 0
                    && #[trigger] self.children@[0].least(kc) ==> self.least_above(
                    self.fragment@,
                    inclusive,
                    self.under(0, kc),
                ),
    {
        let f = self.fragment@;
        self.lemma_shape();
        self.lemma_lookup(f);
        assert(f.subrange(0, f.len() as int) =~= f);
        assert forall|j: Seq<u8>| #[trigger] self.holds(j) implies lex_le(f, j) && (j.len()
            == f.len() ==> j == f && self.value.is_some()) && (j.len() > f.len() ==> j != f) by {
            self.lemma_key_parts(j);
            lemma_order_under(f, f, j);
        }
        assert forall|j: Seq<u8>| #[trigger] self.holds(j) && below(j, f, inclusive) implies j
            == f && inclusive by {
            lemma_lex_lt_total(j, f);
        }
        if !(inclusive && self.value.is_some()) && self.children@.len() == 0 {
            assert forall|j: Seq<u8>| #[trigger] self.holds(j) implies !above(j, f, inclusive) by {
                self.lemma_key_parts(j);
                lemma_lex_lt_total(f, f);
            }
        }
        if !(inclusive && self.value.is_some()) && self.children@.len() > 0 {
            assert forall|kc: Seq<u8>| #[trigger] self.children@[0].least(kc) implies self.least_above(
                f,
                inclusive,
                self.under(0, kc),
            ) by {
                let k = self.under(0, kc);
                self.lemma_under(0, kc);
                lemma_order_under(f, f, k);
                assert forall|j: Seq<u8>| #[trigger] self.holds(j) && above(
                    j,
                    f,
                    inclusive,
                ) implies lex_le(k, j) by {
                    self.lemma_key_parts(j);
                    lemma_lex_lt_total(f, j);
                    lemma_le_under(f, k, j);
                    let i = self.labels@.index_of(j[f.len() as int]);
                    if i > 0 {
                        assert(self.labels@[0] < self.labels@[i]);
                    }
                }
            }
        }
    }

    /// The first key above the target lies in the child that the target
    /// leads to, where that child has a key above the rest of the target.
    pub(crate) proof fn lemma_above_in_child(
        self,
        t: Seq<u8>,
        inclusive: bool,
        at: int,
        kc: Seq<u8>,
    )
        requires
            self.wf(),
            0 <= at < self.children@.len(),
            is_prefix(self.fragment@.push(self.labels@[at]), t),
            self.children@[at].least_above(t.skip(self.fragment@.len() as int + 1), inclusive, kc),
        ensures
            self.least_above(t, inclusive, self.under(at, kc)),
    {
        let f = self.fragment@;
        let b = self.labels@[at];
        let k = self.under(at, kc);
        self.lemma_shape();
        self.lemma_under(at, kc);
        lemma_side_under(f, b, t, k, inclusive);
        assert forall|j: Seq<u8>| #[trigger] self.holds(j) && above(j, t, inclusive) implies lex_le(
            k,
            j,
        ) by {
            self.lemma_key_parts(j);
            lemma_side_under(f, b, t, j, inclusive);
            lemma_le_under(f, k, j);
            let i = self.labels@.index_of(j[f.len() as int]);
            if i < at {
                assert(self.labels@[i] < self.labels@[at]);
            } else if i > at {
                assert(self.labels@[at] < self.labels@[i]);
            }
        }
    }

    /// The last key below the target lies in the child that the target
    /// leads to, where that child has a key below the rest of the target.
    pub(crate) proof fn lemma_below_in_child(
        self,
        t: Seq<u8>,
        inclusive: bool,
        at: int,
        kc: Seq<u8>,
    )
        requires
            self.wf(),
            0 <= at < self.children@.len(),
            is_prefix(self.fragment@.push(self.labels@[at]), t),
            self.children@[at].greatest_below(
                t.skip(self.fragment@.len() as int + 1),
                inclusive,
                kc,
            ),
        ensures
            self.greatest_below(t, inclusive, self.under(at, kc)),
    {
        let f = self.fragment@;
        let b = self.labels@[at];
        let k = self.under(at, kc);
        self.lemma_shape();
        self.lemma_under(at, kc);
        lemma_side_under(f, b, t, k, inclusive);
        assert forall|j: Seq<u8>| #[trigger] self.holds(j) && below(j, t, inclusive) implies lex_le(
            j,
            k,
        ) by {
            self.lemma_key_parts(j);
            lemma_side_under(f, b, t, j, inclusive);
            lemma_order_under(f, j, k);
            if j.len() > f.len() {
                lemma_le_under(f, j, k);
                let i = self.labels@.index_of(j[f.len() as int]);
                if i < at {
                    assert(self.labels@[i] < self.labels@[at]);
                } else if i > at {
                    assert(self.labels@[at] < self.labels@[i]);
                }
            }
        }
    }

    /// The children before place `next` hold nothing above the target.
    pub(crate) open spec fn nothing_above_before(
        self,
        next: int,
        b: u8,
        tail: Seq<u8>,
        inclusive: bool,
    ) -> bool {
        &&& forall|i: int|
            0 <= i < next ==> #[trigger] self.labels@[i] < b || (self.labels@[i] == b
                && self.children@[i].none_above(tail, inclusive))
        &&& forall|i: int| next <= i < self.labels@.len() ==> #[trigger] self.labels@[i] > b
    }

    /// The children after place `prev` hold nothing below the target.
    pub(crate) open spec fn nothing_below_after(
        self,
        prev: int,
        b: u8,
        tail: Seq<u8>,
        inclusive: bool,
    ) -> bool {
        &&& forall|i: int|
            prev < i < self.labels@.len() ==> #[trigger] self.labels@[i] > b || (self.labels@[i] == b
                && self.children@[i].none_below(tail, inclusive))
        &&& forall|i: int| 0 <= i <= prev ==> #[trigger] self.labels@[i] < b
    }

    /// Where the child that the target leads to holds nothing above it,
    /// the first key above the target is the first key of the next child,
    /// and where there is no next child, no key lies above the target.
    pub(crate) proof fn lemma_above_next(
        self,
        t: Seq<u8>,
        inclusive: bool,
        b: u8,
        next: int,
        kc: Seq<u8>,
    )
        requires
            self.wf(),
            is_prefix(self.fragment@.push(b), t),
            0 <= next <= self.children@.len(),
            self.nothing_above_before(next, b, t.skip(self.fragment@.len() as int + 1), inclusive),
            next < self.children@.len() ==> self.children@[next].least(kc),
        ensures
            next < self.children@.len() ==> self.least_above(t, inclusive, self.under(next, kc)),
            next == self.children@.len() ==> self.none_above(t, inclusive),
    {
        let f = self.fragment@;
        self.lemma_shape();
        if next < self.children@.len() {
            let k = self.under(next, kc);
            self.lemma_under(next, kc);
            lemma_side_under(f, b, t, k, inclusive);
            assert(self.labels@[next] > b);
        }
        assert forall|j: Seq<u8>| #[trigger] self.holds(j) && above(j, t, inclusive) implies next
            < self.children@.len() && lex_le(self.under(next, kc), j) by {
            self.lemma_key_parts(j);
            lemma_side_under(f, b, t, j, inclusive);
            let i = self.labels@.index_of(j[f.len() as int]);
            let jc = j.skip(f.len() as int + 1);
            if i < next {
                assert(self.labels@[i] < b || (self.labels@[i] == b && self.children@[i].none_above(
                    t.skip(f.len() as int + 1),
                    inclusive,
                )));
                assert(self.children@[i].holds(jc));
            } else {
                lemma_le_under(f, self.under(next, kc), j);
                if i > next {
                    assert(self.labels@[next] < self.labels@[i]);
                }
            }
        }
    }

    /// Where the child that the target leads to holds nothing below it,
    /// the last key below the target is the last key of the child before,
    /// and where there is no child before, the fragment, if it is a key.
    pub(crate) proof fn lemma_below_prev(
        self,
        t: Seq<u8>,
        inclusive: bool,
        b: u8,
        prev: int,
        kc: Seq<u8>,
    )
        requires
            self.wf(),
            is_prefix(self.fragment@.push(b), t),
            -1 <= prev < self.children@.len(),
            self.nothing_below_after(prev, b, t.skip(self.fragment@.len() as int + 1), inclusive),
            prev >= 0 ==> self.children@[prev].greatest(kc),
        ensures
            prev >= 0 ==> self.greatest_below(t, inclusive, self.under(prev, kc)),
            prev < 0 && self.value.is_some() ==> self.greatest_below(t, inclusive, self.fragment@),
            prev < 0 && self.value.is_none() ==> self.none_below(t, inclusive),
    {
        let f = self.fragment@;
        self.lemma_shape();
        self.lemma_lookup(f);
        assert(f.subrange(0, f.len() as int) =~= f);
        lemma_side_under(f, b, t, f, inclusive);
        if prev >= 0 {
            let k = self.under(prev, kc);
            self.lemma_under(prev, kc);
            lemma_side_under(f, b, t, k, inclusive);
            assert(self.labels@[prev] < b);
        }
        assert forall|j: Seq<u8>| #[trigger] self.holds(j) && below(j, t, inclusive) implies (prev
            >= 0 ==> lex_le(j, self.under(prev, kc))) && (prev < 0 ==> j == f
            && self.value.is_some()) by {
            self.lemma_key_parts(j);
            lemma_side_under(f, b, t, j, inclusive);
            if j.len() > f.len() {
                let i = self.labels@.index_of(j[f.len() as int]);
                let jc = j.skip(f.len() as int + 1);
                if i > prev {
                    assert(self.labels@[i] > b || (self.labels@[i] == b
                        && self.children@[i].none_below(t.skip(f.len() as int + 1), inclusive)));
                    assert(self.children@[i].holds(jc));
                } else {
                    lemma_le_under(f, j, self.under(prev, kc));
                    if i < prev {
                        assert(self.labels@[i] < self.labels@[prev]);
                    }
                }
            } else if prev >= 0 {
                lemma_order_under(f, j, self.under(prev, kc));
            }
        }
    }
}

} // verus!

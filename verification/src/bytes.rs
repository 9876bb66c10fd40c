//! Byte strings as keys: the lexicographic order that the tree keeps, and
//! the prefix arithmetic that the node algorithms rest on.

use vstd::prelude::*;

verus! {

/// `a` sorts strictly before `b` in byte-lexicographic order: at the first
/// position where the two differ `a` holds the smaller byte, or `a` ends
/// there and `b` does not.
pub open spec fn lex_lt(a: Seq<u8>, b: Seq<u8>) -> bool
    decreases a.len(),
{
    if b.len() == 0 {
        false
    } else if a.len() == 0 {
        true
    } else if a[0] != b[0] {
        a[0] < b[0]
    } else {
        lex_lt(a.skip(1), b.skip(1))
    }
}

/// `a` sorts before `b`, or is `b`.
pub open spec fn lex_le(a: Seq<u8>, b: Seq<u8>) -> bool {
    a == b || lex_lt(a, b)
}

/// `k` lies above the target `t`: after it, or on it where `inclusive`.
pub open spec fn above(k: Seq<u8>, t: Seq<u8>, inclusive: bool) -> bool {
    lex_lt(t, k) || (inclusive && k == t)
}

/// `k` lies below the target `t`: before it, or on it where `inclusive`.
pub open spec fn below(k: Seq<u8>, t: Seq<u8>, inclusive: bool) -> bool {
    lex_lt(k, t) || (inclusive && k == t)
}

/// `p` is a prefix of `s`.
pub open spec fn is_prefix(p: Seq<u8>, s: Seq<u8>) -> bool {
    p.len() <= s.len() && s.subrange(0, p.len() as int) == p
}

/// The length of the longest common prefix of `a` and `b`.
pub open spec fn common_prefix_len(a: Seq<u8>, b: Seq<u8>) -> nat
    decreases a.len(),
{
    if a.len() == 0 || b.len() == 0 || a[0] != b[0] {
        0
    } else {
        1 + common_prefix_len(a.skip(1), b.skip(1))
    }
}

/// No byte string sorts before itself.
pub proof fn lemma_lex_lt_irreflexive(a: Seq<u8>)
    ensures
        !lex_lt(a, a),
    decreases a.len(),
{
    if a.len() > 0 {
        lemma_lex_lt_irreflexive(a.skip(1));
    }
}

/// The order is transitive.
pub proof fn lemma_lex_lt_transitive(a: Seq<u8>, b: Seq<u8>, c: Seq<u8>)
    requires
        lex_lt(a, b),
        lex_lt(b, c),
    ensures
        lex_lt(a, c),
    decreases a.len(),
{
    if a.len() > 0 && a[0] == b[0] && b[0] == c[0] {
        lemma_lex_lt_transitive(a.skip(1), b.skip(1), c.skip(1));
    }
}

/// Of two different byte strings exactly one sorts before the other.
pub proof fn lemma_lex_lt_total(a: Seq<u8>, b: Seq<u8>)
    ensures
        a != b ==> (lex_lt(a, b) <==> !lex_lt(b, a)),
        a == b ==> !lex_lt(a, b) && !lex_lt(b, a),
    decreases a.len(),
{
    if a == b {
        lemma_lex_lt_irreflexive(a);
    } else if a.len() > 0 && b.len() > 0 && a[0] == b[0] {
        lemma_lex_lt_total(a.skip(1), b.skip(1));
        if a.skip(1) == b.skip(1) {
            assert(a =~= seq![a[0]] + a.skip(1));
            assert(b =~= seq![b[0]] + b.skip(1));
        }
    } else if a.len() == 0 && b.len() == 0 {
        assert(a =~= b);
    }
}

/// Where two byte strings agree on their first `m` bytes, their order is
/// that of what follows.
pub proof fn lemma_lex_lt_skip(a: Seq<u8>, b: Seq<u8>, m: int)
    requires
        0 <= m <= a.len(),
        m <= b.len(),
        a.subrange(0, m) == b.subrange(0, m),
    ensures
        lex_lt(a, b) == lex_lt(a.skip(m), b.skip(m)),
    decreases m,
{
    if m == 0 {
        assert(a.skip(0) =~= a);
        assert(b.skip(0) =~= b);
    } else {
        assert(a[0] == a.subrange(0, m)[0]);
        assert(b[0] == b.subrange(0, m)[0]);
        assert(a.skip(1).subrange(0, m - 1) =~= a.subrange(0, m).skip(1));
        assert(b.skip(1).subrange(0, m - 1) =~= b.subrange(0, m).skip(1));
        lemma_lex_lt_skip(a.skip(1), b.skip(1), m - 1);
        assert(a.skip(1).skip(m - 1) =~= a.skip(m));
        assert(b.skip(1).skip(m - 1) =~= b.skip(m));
    }
}

/// Two byte strings that agree up to position `m` and differ there are
/// ordered by the bytes at `m`.
pub proof fn lemma_lex_lt_at_difference(a: Seq<u8>, b: Seq<u8>, m: int)
    requires
        0 <= m < a.len(),
        m < b.len(),
        a.subrange(0, m) == b.subrange(0, m),
        a[m] != b[m],
    ensures
        lex_lt(a, b) == (a[m] < b[m]),
{
    lemma_lex_lt_skip(a, b, m);
}

/// What the longest common prefix is: within both, equal up to it, and
/// followed by a difference or by the end of one of the two.
pub proof fn lemma_common_prefix_len(a: Seq<u8>, b: Seq<u8>)
    ensures
        common_prefix_len(a, b) <= a.len(),
        common_prefix_len(a, b) <= b.len(),
        a.subrange(0, common_prefix_len(a, b) as int) == b.subrange(
            0,
            common_prefix_len(a, b) as int,
        ),
        common_prefix_len(a, b) < a.len() && common_prefix_len(a, b) < b.len() ==> a[common_prefix_len(
            a,
            b,
        ) as int] != b[common_prefix_len(a, b) as int],
    decreases a.len(),
{
    let m = common_prefix_len(a, b) as int;
    if a.len() == 0 || b.len() == 0 || a[0] != b[0] {
        assert(a.subrange(0, 0) =~= b.subrange(0, 0));
    } else {
        lemma_common_prefix_len(a.skip(1), b.skip(1));
        assert(a.subrange(0, m) =~= seq![a[0]] + a.skip(1).subrange(0, m - 1));
        assert(b.subrange(0, m) =~= seq![b[0]] + b.skip(1).subrange(0, m - 1));
    }
}

/// `a` is a prefix of `b` exactly if their common prefix is all of `a`.
pub proof fn lemma_common_prefix_whole(a: Seq<u8>, b: Seq<u8>)
    ensures
        is_prefix(a, b) <==> common_prefix_len(a, b) == a.len(),
{
    lemma_common_prefix_len(a, b);
    let m = common_prefix_len(a, b) as int;
    if m == a.len() {
        assert(a.subrange(0, m) =~= a);
    } else if is_prefix(a, b) {
        assert(b.subrange(0, a.len() as int)[m] == a[m]);
    }
}

/// A byte string is a prefix of `s` exactly if its first `n` bytes are,
/// and the rest of it is a prefix of what follows them in `s`.
pub proof fn lemma_is_prefix_split(p: Seq<u8>, s: Seq<u8>, n: int)
    requires
        0 <= n <= p.len(),
    ensures
        is_prefix(p, s) == (is_prefix(p.subrange(0, n), s) && is_prefix(p.skip(n), s.skip(n))),
{
    let head = p.subrange(0, n);
    let tail = p.skip(n);
    if is_prefix(p, s) {
        assert(s.subrange(0, n) =~= s.subrange(0, p.len() as int).subrange(0, n));
        assert(s.skip(n).subrange(0, tail.len() as int) =~= s.subrange(0, p.len() as int).skip(n));
    } else if is_prefix(head, s) && is_prefix(tail, s.skip(n)) {
        assert(s.subrange(0, p.len() as int) =~= s.subrange(0, n) + s.skip(n).subrange(
            0,
            tail.len() as int,
        ));
        assert(p =~= head + tail);
    }
}

/// `p` followed by the byte `b` is a prefix of `s` exactly if `p` is, and
/// `s` goes on with `b`.
pub proof fn lemma_is_prefix_push(p: Seq<u8>, b: u8, s: Seq<u8>)
    ensures
        is_prefix(p.push(b), s) == (is_prefix(p, s) && s.len() > p.len() && s[p.len() as int] == b),
{
    let n = p.len() as int;
    lemma_is_prefix_split(p.push(b), s, n);
    assert(p.push(b).subrange(0, n) =~= p);
    assert(p.push(b).skip(n) =~= seq![b]);
    if s.len() > n {
        assert(s.skip(n)[0] == s[n]);
        if s[n] == b {
            assert(s.skip(n).subrange(0, 1) =~= seq![b]);
        } else if is_prefix(seq![b], s.skip(n)) {
            assert(s.skip(n).subrange(0, 1)[0] == b);
        }
    }
}

/// A byte string is known by a prefix of it and what follows the prefix.
pub proof fn lemma_prefix_and_rest(p: Seq<u8>, s: Seq<u8>, t: Seq<u8>)
    requires
        is_prefix(p, s),
        is_prefix(p, t),
        s.skip(p.len() as int) == t.skip(p.len() as int),
    ensures
        s == t,
{
    let n = p.len() as int;
    assert(s =~= s.subrange(0, n) + s.skip(n));
    assert(t =~= t.subrange(0, n) + t.skip(n));
}

/// The order of two byte strings that share the prefix `p` is decided
/// behind it: by which of them ends there, then by the next byte, then
/// by what follows that byte.
pub proof fn lemma_order_under(p: Seq<u8>, x: Seq<u8>, y: Seq<u8>)
    requires
        is_prefix(p, x),
        is_prefix(p, y),
    ensures
        lex_lt(x, y) == if y.len() == p.len() {
            false
        } else if x.len() == p.len() {
            true
        } else if x[p.len() as int] != y[p.len() as int] {
            x[p.len() as int] < y[p.len() as int]
        } else {
            lex_lt(x.skip(p.len() as int + 1), y.skip(p.len() as int + 1))
        },
{
    let n = p.len() as int;
    lemma_lex_lt_skip(x, y, n);
    if x.len() > n && y.len() > n {
        assert(x.skip(n)[0] == x[n]);
        assert(y.skip(n)[0] == y[n]);
        assert(x.skip(n).skip(1) =~= x.skip(n + 1));
        assert(y.skip(n).skip(1) =~= y.skip(n + 1));
    }
}

/// Where a target leaves the prefix `p` at position `m`, by ending there
/// or by another byte, everything that starts with `p` lies on one side
/// of it.
pub proof fn lemma_order_diverge(p: Seq<u8>, x: Seq<u8>, t: Seq<u8>, m: int)
    requires
        is_prefix(p, x),
        0 <= m < p.len(),
        m <= t.len(),
        p.subrange(0, m) == t.subrange(0, m),
        m < t.len() ==> p[m] != t[m],
    ensures
        x != t,
        lex_lt(t, x) == (m == t.len() || t[m] < p[m]),
        lex_lt(x, t) == (m < t.len() && p[m] < t[m]),
{
    assert(x[m] == x.subrange(0, p.len() as int)[m]);
    assert(x.subrange(0, m) =~= x.subrange(0, p.len() as int).subrange(0, m));
    lemma_lex_lt_skip(t, x, m);
    lemma_lex_lt_skip(x, t, m);
    assert(x.skip(m)[0] == x[m]);
    if m < t.len() {
        assert(t.skip(m)[0] == t[m]);
    }
}

/// On which side of a target a byte string lies, where the target starts
/// with `p` and then `b`, and the byte string starts with `p`.
pub proof fn lemma_side_under(p: Seq<u8>, b: u8, t: Seq<u8>, j: Seq<u8>, inclusive: bool)
    requires
        is_prefix(p.push(b), t),
        is_prefix(p, j),
    ensures
        above(j, t, inclusive) == (j.len() > p.len() && (j[p.len() as int] > b || (j[p.len() as int]
            == b && above(j.skip(p.len() as int + 1), t.skip(p.len() as int + 1), inclusive)))),
        below(j, t, inclusive) == (j.len() == p.len() || j[p.len() as int] < b || (j[p.len() as int]
            == b && below(j.skip(p.len() as int + 1), t.skip(p.len() as int + 1), inclusive))),
{
    let n = p.len() as int;
    lemma_is_prefix_push(p, b, t);
    lemma_is_prefix_push(p, b, j);
    lemma_order_under(p, t, j);
    lemma_order_under(p, j, t);
    if j.len() > n && j[n] == b && j.skip(n + 1) == t.skip(n + 1) {
        lemma_prefix_and_rest(p.push(b), j, t);
    }
}

/// The order of two byte strings that go on behind the prefix `p`.
pub proof fn lemma_le_under(p: Seq<u8>, x: Seq<u8>, y: Seq<u8>)
    requires
        is_prefix(p, x),
        is_prefix(p, y),
        x.len() > p.len(),
        y.len() > p.len(),
    ensures
        lex_le(x, y) == (x[p.len() as int] < y[p.len() as int] || (x[p.len() as int] == y[p.len() as int]
            && lex_le(x.skip(p.len() as int + 1), y.skip(p.len() as int + 1)))),
{
    let n = p.len() as int;
    lemma_order_under(p, x, y);
    if x[n] == y[n] && x.skip(n + 1) == y.skip(n + 1) {
        lemma_is_prefix_push(p, x[n], x);
        lemma_is_prefix_push(p, x[n], y);
        lemma_prefix_and_rest(p.push(x[n]), x, y);
    }
}

/// The order of two byte strings made of two parts each, where the first
/// parts have one length: the first parts decide, then the second.
pub proof fn lemma_lex_lt_append(a1: Seq<u8>, a2: Seq<u8>, b1: Seq<u8>, b2: Seq<u8>)
    requires
        a1.len() == b1.len(),
    ensures
        lex_lt(a1 + a2, b1 + b2) == (lex_lt(a1, b1) || (a1 == b1 && lex_lt(a2, b2))),
        (a1 + a2 == b1 + b2) == (a1 == b1 && a2 == b2),
    decreases a1.len(),
{
    let a = a1 + a2;
    let b = b1 + b2;
    if a == b {
        assert(a1 =~= a.subrange(0, a1.len() as int));
        assert(b1 =~= b.subrange(0, a1.len() as int));
        assert(a2 =~= a.skip(a1.len() as int));
        assert(b2 =~= b.skip(a1.len() as int));
    }
    if a1.len() == 0 {
        assert(a1 =~= b1);
        assert(a =~= a2);
        assert(b =~= b2);
        assert(!lex_lt(a1, b1));
    } else {
        assert(a[0] == a1[0] && b[0] == b1[0]);
        assert(a.skip(1) =~= a1.skip(1) + a2);
        assert(b.skip(1) =~= b1.skip(1) + b2);
        lemma_lex_lt_append(a1.skip(1), a2, b1.skip(1), b2);
        if a1[0] == b1[0] && a1.skip(1) == b1.skip(1) {
            assert(a1 =~= seq![a1[0]] + a1.skip(1));
            assert(b1 =~= seq![b1[0]] + b1.skip(1));
        }
    }
}

/// Tells whether `a` sorts strictly before `b`.
pub fn bytes_lt(a: &[u8], b: &[u8]) -> (r: bool)
    ensures
        r == lex_lt(a@, b@),
{
    let mut i: usize = 0;
    proof {
        assert(a@.subrange(0, 0) =~= b@.subrange(0, 0));
    }
    while i < a.len() && i < b.len()
        invariant
            i <= a.len(),
            i <= b.len(),
            a@.subrange(0, i as int) == b@.subrange(0, i as int),
        decreases a.len() - i,
    {
        if a[i] != b[i] {
            proof {
                lemma_lex_lt_at_difference(a@, b@, i as int);
            }
            return a[i] < b[i];
        }
        proof {
            assert(a@.subrange(0, i + 1) =~= a@.subrange(0, i as int).push(a@[i as int]));
            assert(b@.subrange(0, i + 1) =~= b@.subrange(0, i as int).push(b@[i as int]));
        }
        i += 1;
    }
    proof {
        lemma_lex_lt_skip(a@, b@, i as int);
    }
    i < b.len()
}

/// Appends `src` to `out`.
pub(crate) fn append_bytes(out: &mut Vec<u8>, src: &[u8])
    ensures
        final(out)@ == old(out)@ + src@,
{
    let mut i: usize = 0;
    while i < src.len()
        invariant
            i <= src.len(),
            out@ == old(out)@ + src@.subrange(0, i as int),
        decreases src.len() - i,
    {
        out.push(src[i]);
        proof {
            assert(src@.subrange(0, i + 1) =~= src@.subrange(0, i as int).push(src@[i as int]));
            assert(out@ =~= old(out)@ + src@.subrange(0, i + 1));
        }
        i += 1;
    }
    proof {
        assert(src@.subrange(0, i as int) =~= src@);
    }
}

/// The length of the longest common prefix of `frag` and of `key` from
/// position `pos` on.
pub(crate) fn common_prefix(frag: &[u8], key: &[u8], pos: usize) -> (m: usize)
    requires
        pos <= key.len(),
    ensures
        m == common_prefix_len(frag@, key@.skip(pos as int)),
        m <= frag.len(),
        pos + m <= key.len(),
{
    let mut i: usize = 0;
    let avail: usize = key.len() - pos;
    proof {
        assert(frag@.skip(0) =~= frag@);
    }
    while i < frag.len() && i < avail && frag[i] == key[pos + i]
        invariant
            pos <= key.len(),
            avail == key.len() - pos,
            i <= frag.len(),
            i <= avail,
            common_prefix_len(frag@, key@.skip(pos as int)) == i + common_prefix_len(
                frag@.skip(i as int),
                key@.skip(pos + i),
            ),
        decreases frag.len() - i,
    {
        proof {
            assert(frag@.skip(i as int).skip(1) =~= frag@.skip(i + 1));
            assert(key@.skip(pos + i).skip(1) =~= key@.skip(pos + i + 1));
        }
        i += 1;
    }
    i
}

} // verus!

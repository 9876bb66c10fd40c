//! Big-endian digits: numbers as byte strings of a fixed width, whose
//! lexicographic order is the order of the numbers.

use crate::bytes::lex_lt;
use vstd::prelude::*;

verus! {

/// 256 to the power `width`.
pub open spec fn pow256(width: nat) -> nat
    decreases width,
{
    if width == 0 {
        1
    } else {
        256 * pow256((width - 1) as nat)
    }
}

/// The `width` big-endian bytes of `x`, for `x` below `pow256(width)`.
pub open spec fn be_bytes(x: nat, width: nat) -> Seq<u8>
    decreases width,
{
    if width == 0 {
        Seq::empty()
    } else {
        be_bytes(x / 256, (width - 1) as nat).push((x % 256) as u8)
    }
}

/// The number that the bytes `s` are the big-endian digits of.
pub open spec fn be_value(s: Seq<u8>) -> nat
    decreases s.len(),
{
    if s.len() == 0 {
        0
    } else {
        be_value(s.drop_last()) * 256 + s.last() as nat
    }
}

/// The powers of 256 up to the sixteenth.
pub proof fn lemma_pow256_values()
    ensures
        pow256(1) == 0x100,
        pow256(2) == 0x1_0000,
        pow256(4) == 0x1_0000_0000,
        pow256(8) == 0x1_0000_0000_0000_0000,
        pow256(16) == 0x1_0000_0000_0000_0000_0000_0000_0000_0000,
{
    assert(pow256(0) == 1);
    assert(pow256(1) == 0x100);
    assert(pow256(2) == 0x1_0000);
    assert(pow256(3) == 0x100_0000);
    assert(pow256(4) == 0x1_0000_0000);
    assert(pow256(5) == 0x100_0000_0000);
    assert(pow256(6) == 0x1_0000_0000_0000);
    assert(pow256(7) == 0x100_0000_0000_0000);
    assert(pow256(8) == 0x1_0000_0000_0000_0000);
    assert(pow256(9) == 0x100_0000_0000_0000_0000);
    assert(pow256(10) == 0x1_0000_0000_0000_0000_0000);
    assert(pow256(11) == 0x100_0000_0000_0000_0000_0000);
    assert(pow256(12) == 0x1_0000_0000_0000_0000_0000_0000);
    assert(pow256(13) == 0x100_0000_0000_0000_0000_0000_0000);
    assert(pow256(14) == 0x1_0000_0000_0000_0000_0000_0000_0000);
    assert(pow256(15) == 0x100_0000_0000_0000_0000_0000_0000_0000);
    assert(pow256(16) == 0x1_0000_0000_0000_0000_0000_0000_0000_0000);
}

/// A number has as many big-endian bytes as asked for.
pub proof fn lemma_be_bytes_len(x: nat, width: nat)
    ensures
        be_bytes(x, width).len() == width,
    decreases width,
{
    if width > 0 {
        lemma_be_bytes_len(x / 256, (width - 1) as nat);
    }
}

/// Byte strings stand for numbers below the power of their length.
pub proof fn lemma_be_value_bound(s: Seq<u8>)
    ensures
        be_value(s) < pow256(s.len()),
    decreases s.len(),
{
    if s.len() > 0 {
        lemma_be_value_bound(s.drop_last());
    }
}

/// The bytes of a number stand for that number.
pub proof fn lemma_be_round_trip(x: nat, width: nat)
    requires
        x < pow256(width),
    ensures
        be_value(be_bytes(x, width)) == x,
    decreases width,
{
    if width > 0 {
        let s = be_bytes(x, width);
        lemma_be_round_trip(x / 256, (width - 1) as nat);
        assert(s.drop_last() =~= be_bytes(x / 256, (width - 1) as nat));
    }
}

/// A byte string is the bytes of the number that it stands for.
pub proof fn lemma_be_bytes_of_value(s: Seq<u8>)
    ensures
        be_bytes(be_value(s), s.len()) == s,
    decreases s.len(),
{
    if s.len() > 0 {
        lemma_be_bytes_of_value(s.drop_last());
        let v = be_value(s);
        assert(v / 256 == be_value(s.drop_last()));
        assert(v % 256 == s.last());
        assert(be_bytes(v, s.len()) =~= s);
    } else {
        assert(be_bytes(0, 0) =~= s);
    }
}

/// The order of two byte strings of one length, each with one more byte.
pub proof fn lemma_lex_lt_push(p: Seq<u8>, a: u8, q: Seq<u8>, b: u8)
    requires
        p.len() == q.len(),
    ensures
        lex_lt(p.push(a), q.push(b)) == (lex_lt(p, q) || (p == q && a < b)),
    decreases p.len(),
{
    let pa = p.push(a);
    let qb = q.push(b);
    if p.len() == 0 {
        assert(p =~= q);
        assert(pa[0] == a && qb[0] == b);
        assert(pa.skip(1) =~= Seq::<u8>::empty());
        assert(qb.skip(1) =~= Seq::<u8>::empty());
        assert(!lex_lt(pa.skip(1), qb.skip(1)));
        assert(!lex_lt(p, q));
    } else {
        assert(pa[0] == p[0] && qb[0] == q[0]);
        assert(pa.skip(1) =~= p.skip(1).push(a));
        assert(qb.skip(1) =~= q.skip(1).push(b));
        lemma_lex_lt_push(p.skip(1), a, q.skip(1), b);
        if p[0] == q[0] && p.skip(1) == q.skip(1) {
            assert(p =~= seq![p[0]] + p.skip(1));
            assert(q =~= seq![q[0]] + q.skip(1));
        }
    }
}

/// Big-endian bytes sort as the numbers do.
pub proof fn lemma_be_order(x: nat, y: nat, width: nat)
    requires
        x < pow256(width),
        y < pow256(width),
    ensures
        lex_lt(be_bytes(x, width), be_bytes(y, width)) == (x < y),
        (be_bytes(x, width) == be_bytes(y, width)) == (x == y),
    decreases width,
{
    if width > 0 {
        let w = (width - 1) as nat;
        lemma_be_order(x / 256, y / 256, w);
        lemma_be_bytes_len(x / 256, w);
        lemma_be_bytes_len(y / 256, w);
        lemma_lex_lt_push(be_bytes(x / 256, w), (x % 256) as u8, be_bytes(y / 256, w), (y % 256) as u8);
        if be_bytes(x, width) == be_bytes(y, width) {
            lemma_be_round_trip(x, width);
            lemma_be_round_trip(y, width);
        }
    }
}

/// Appends the `width` big-endian bytes of `x` to `out`.
pub(crate) fn put_be(x: u128, width: usize, out: &mut Vec<u8>)
    ensures
        final(out)@ == old(out)@ + be_bytes(x as nat, width as nat),
    decreases width,
{
    if width == 0 {
        assert(out@ =~= old(out)@ + be_bytes(x as nat, 0));
    } else {
        put_be(x / 256, width - 1, out);
        out.push((x % 256) as u8);
        assert(out@ =~= old(out)@ + be_bytes(x as nat, width as nat));
    }
}

/// The number that the first sixteen bytes of `bytes` at most stand for.
pub(crate) fn get_be(bytes: &[u8]) -> (x: u128)
    requires
        bytes.len() <= 16,
    ensures
        x == be_value(bytes@),
{
    let mut acc: u128 = 0;
    let mut i: usize = 0;
    proof {
        lemma_pow256_values();
        assert(bytes@.subrange(0, 0) =~= Seq::<u8>::empty());
    }
    while i < bytes.len()
        invariant
            i <= bytes.len(),
            bytes.len() <= 16,
            acc == be_value(bytes@.subrange(0, i as int)),
        decreases bytes.len() - i,
    {
        proof {
            let next = bytes@.subrange(0, i + 1);
            assert(next.drop_last() =~= bytes@.subrange(0, i as int));
            lemma_be_value_bound(next);
            lemma_pow_monotone(next.len(), 16);
            lemma_pow256_values();
        }
        acc = acc * 256 + bytes[i] as u128;
        i += 1;
    }
    proof {
        assert(bytes@.subrange(0, i as int) =~= bytes@);
    }
    acc
}

/// The powers of 256 grow with the exponent.
pub proof fn lemma_pow_monotone(a: nat, b: nat)
    requires
        a <= b,
    ensures
        pow256(a) <= pow256(b),
    decreases b,
{
    if a < b {
        lemma_pow_monotone(a, (b - 1) as nat);
    }
}

} // verus!

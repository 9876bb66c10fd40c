//! Decimal integers in text: an optional sign and then digits.

use vstd::prelude::*;

verus! {

/// The byte is an ASCII digit.
pub open spec fn is_digit(c: u8) -> bool {
    48 <= c <= 57
}

/// The number that the digits `d` write.
pub open spec fn digits_value(d: Seq<u8>) -> nat
    decreases d.len(),
{
    if d.len() == 0 {
        0
    } else {
        digits_value(d.drop_last()) * 10 + (d.last() - 48) as nat
    }
}

/// All of the bytes `d` are digits.
pub open spec fn all_digits(d: Seq<u8>) -> bool {
    forall|i: int| 0 <= i < d.len() ==> is_digit(#[trigger] d[i])
}

/// The bytes `b` without the sign that may come first.
pub open spec fn unsigned_part(b: Seq<u8>) -> Seq<u8> {
    if b.len() > 0 && (b[0] == 45 || b[0] == 43) {
        b.skip(1)
    } else {
        b
    }
}

/// The integer that the bytes `b` write in decimal: `+` or `-` may come
/// first, at least one digit follows and nothing else, and the number
/// fits in 64 bits with a sign. Otherwise the bytes write no integer.
pub open spec fn decimal(b: Seq<u8>) -> Option<i64> {
    let d = unsigned_part(b);
    let n = if b.len() > 0 && b[0] == 45 {
        -(digits_value(d) as int)
    } else {
        digits_value(d) as int
    };
    if d.len() > 0 && all_digits(d) && i64::MIN <= n <= i64::MAX {
        Some(n as i64)
    } else {
        None
    }
}

/// Digits write a number that is no less than what fewer of them write.
pub proof fn lemma_digits_grow(d: Seq<u8>, i: int)
    requires
        0 <= i <= d.len(),
        all_digits(d),
    ensures
        digits_value(d.subrange(0, i)) <= digits_value(d),
    decreases d.len() - i,
{
    if i < d.len() {
        let next = d.subrange(0, i + 1);
        assert(next.drop_last() =~= d.subrange(0, i));
        assert(is_digit(d[i]));
        assert(next.last() == d[i]);
        lemma_digits_grow(d, i + 1);
    } else {
        assert(d.subrange(0, i) =~= d);
    }
}

/// Reads a decimal integer from `b`.
pub fn parse_decimal(b: &[u8]) -> (r: Option<i64>)
    ensures
        r == decimal(b@),
{
    let n = b.len();
    if n == 0 {
        return None;
    }
    let negative = b[0] == 45;
    let start: usize = if b[0] == 45 || b[0] == 43 {
        1
    } else {
        0
    };
    let ghost d = b@.skip(start as int);
    proof {
        assert(b@.skip(0) =~= b@);
        assert(d == unsigned_part(b@));
    }
    if start == n {
        return None;
    }
    let limit: u128 = 0x8000_0000_0000_0000;
    let mut acc: u128 = 0;
    let mut i: usize = start;
    proof {
        assert(d.subrange(0, 0) =~= Seq::<u8>::empty());
    }
    while i < n
        invariant
            start <= i <= n,
            n == b.len(),
            d == unsigned_part(b@),
            d.len() == n - start,
            forall|j: int| 0 <= j < d.len() ==> d[j] == b@[start + j],
            limit == 0x8000_0000_0000_0000,
            acc <= limit,
            acc == digits_value(d.subrange(0, i - start)),
            forall|j: int| 0 <= j < i - start ==> is_digit(#[trigger] d[j]),
        decreases n - i,
    {
        let c = b[i];
        proof {
            assert(d[i - start] == c);
        }
        if c < 48 || c > 57 {
            proof {
                assert(!is_digit(d[i - start]));
            }
            return None;
        }
        let ghost next = d.subrange(0, i - start + 1);
        proof {
            assert(next.drop_last() =~= d.subrange(0, i - start));
            assert(next.last() == c);
        }
        acc = acc * 10 + (c - 48) as u128;
        if acc > limit {
            proof {
                if all_digits(d) {
                    lemma_digits_grow(d, i - start + 1);
                }
            }
            return None;
        }
        i += 1;
    }
    proof {
        assert(d.subrange(0, i - start) =~= d);
    }
    if negative {
        if acc == limit {
            Some(i64::MIN)
        } else {
            Some(-(acc as i64))
        }
    } else if acc == limit {
        None
    } else {
        Some(acc as i64)
    }
}

} // verus!

//! Typed keys: how a key becomes the byte string that stands for it in
//! the tree, so that the byte strings sort as the keys do.

use crate::bytes::{lemma_lex_lt_total, lex_lt};
use crate::endian::{
    be_bytes, be_value, get_be, lemma_be_bytes_len, lemma_be_order, lemma_be_round_trip,
    lemma_be_value_bound, lemma_pow256_values, put_be,
};
use crate::error::RedError;
use vstd::prelude::*;
use vstd::slice::slice_to_vec;
use vstd::utf8::{
    decode_utf8, encode_utf8, encode_utf8_decode_utf8, encode_utf8_valid_utf8, valid_utf8,
};

verus! {

/// A type of keys. The view of a key is its value; `encoding` says which
/// byte string stands for a value, `decoding` which value a byte string
/// stands for, and `precedes` is the natural order of the values.
pub trait RaxKey: View + Sized {
    /// The byte string that stands for the value `v`.
    spec fn encoding(v: Self::V) -> Seq<u8>;

    /// The value that `bytes` stands for. Bytes that stand for no value
    /// are read as the default value of the type.
    spec fn decoding(bytes: Seq<u8>) -> Self::V;

    /// `a` comes before `b` in the natural order of the type.
    spec fn precedes(a: Self::V, b: Self::V) -> bool;

    /// The byte string that stands for the key.
    fn encode(&self) -> (bytes: Vec<u8>)
        ensures
            bytes@ == Self::encoding(self@),
    ;

    /// The key that `bytes` stands for.
    fn decode(bytes: &[u8]) -> (key: Self)
        ensures
            key@ == Self::decoding(bytes@),
    ;

    /// Decoding what was encoded gives the value back.
    proof fn lemma_round_trip(v: Self::V)
        ensures
            Self::decoding(Self::encoding(v)) == v,
    ;

    /// The encodings sort as the values do.
    proof fn lemma_order(a: Self::V, b: Self::V)
        ensures
            Self::precedes(a, b) <==> lex_lt(Self::encoding(a), Self::encoding(b)),
    ;
}

/// Signed keys are the big-endian bytes of their distance from the least
/// value of the type, so that negative keys sort before the others.
impl RaxKey for isize {
    open spec fn encoding(v: isize) -> Seq<u8> {
        be_bytes((v - isize::MIN) as nat, (usize::BITS / 8) as nat)
    }

    open spec fn decoding(bytes: Seq<u8>) -> isize {
        if bytes.len() == usize::BITS / 8 {
            (be_value(bytes) + isize::MIN) as isize
        } else {
            0
        }
    }

    open spec fn precedes(a: isize, b: isize) -> bool {
        a < b
    }

    fn encode(&self) -> (bytes: Vec<u8>) {
        let mut out: Vec<u8> = Vec::new();
        put_be((*self as i128 - isize::MIN as i128) as u128, (usize::BITS / 8) as usize, &mut out);
        out
    }

    fn decode(bytes: &[u8]) -> (key: isize) {
        if bytes.len() != (usize::BITS / 8) as usize {
            return 0;
        }
        proof {
            lemma_be_value_bound(bytes@);
            lemma_pow256_values();
        }
        (get_be(bytes) as i128 + isize::MIN as i128) as isize
    }

    proof fn lemma_round_trip(v: isize) {
        lemma_pow256_values();
        lemma_be_bytes_len((v - isize::MIN) as nat, (usize::BITS / 8) as nat);
        lemma_be_round_trip((v - isize::MIN) as nat, (usize::BITS / 8) as nat);
    }

    proof fn lemma_order(a: isize, b: isize) {
        lemma_pow256_values();
        lemma_be_order((a - isize::MIN) as nat, (b - isize::MIN) as nat, (usize::BITS / 8) as nat);
    }
}

/// Different values have different encodings.
pub proof fn lemma_encoding_injective<K: RaxKey>(a: K::V, b: K::V)
    ensures
        (K::encoding(a) == K::encoding(b)) == (a == b),
{
    K::lemma_round_trip(a);
    K::lemma_round_trip(b);
}

/// The encodings of two values are in the order of the values, or the
/// values are one.
pub proof fn lemma_encoding_order<K: RaxKey>(a: K::V, b: K::V)
    ensures
        a == b || K::precedes(a, b) || K::precedes(b, a),
        !(K::precedes(a, b) && K::precedes(b, a)),
        !K::precedes(a, a),
{
    K::lemma_order(a, b);
    K::lemma_order(b, a);
    K::lemma_order(a, a);
    lemma_lex_lt_total(K::encoding(a), K::encoding(b));
    lemma_lex_lt_total(K::encoding(a), K::encoding(a));
    lemma_encoding_injective::<K>(a, b);
}

/// Unsigned keys are their big-endian bytes.
impl RaxKey for usize {
    open spec fn encoding(v: usize) -> Seq<u8> {
        be_bytes(v as nat, (usize::BITS / 8) as nat)
    }

    open spec fn decoding(bytes: Seq<u8>) -> usize {
        if bytes.len() == usize::BITS / 8 {
            be_value(bytes) as usize
        } else {
            0
        }
    }

    open spec fn precedes(a: usize, b: usize) -> bool {
        a < b
    }

    fn encode(&self) -> (bytes: Vec<u8>) {
        let mut out: Vec<u8> = Vec::new();
        put_be(*self as u128, (usize::BITS / 8) as usize, &mut out);
        out
    }

    fn decode(bytes: &[u8]) -> (key: usize) {
        if bytes.len() != (usize::BITS / 8) as usize {
            return 0;
        }
        proof {
            lemma_be_value_bound(bytes@);
            lemma_pow256_values();
        }
        get_be(bytes) as usize
    }

    proof fn lemma_round_trip(v: usize) {
        lemma_pow256_values();
        lemma_be_bytes_len(v as nat, (usize::BITS / 8) as nat);
        lemma_be_round_trip(v as nat, (usize::BITS / 8) as nat);
    }

    proof fn lemma_order(a: usize, b: usize) {
        lemma_pow256_values();
        lemma_be_order(a as nat, b as nat, (usize::BITS / 8) as nat);
    }
}

/// Signed keys are the big-endian bytes of their distance from the least
/// value of the type, so that negative keys sort before the others.
impl RaxKey for i16 {
    open spec fn encoding(v: i16) -> Seq<u8> {
        be_bytes((v - i16::MIN) as nat, 2)
    }

    open spec fn decoding(bytes: Seq<u8>) -> i16 {
        if bytes.len() == 2 {
            (be_value(bytes) + i16::MIN) as i16
        } else {
            0
        }
    }

    open spec fn precedes(a: i16, b: i16) -> bool {
        a < b
    }

    fn encode(&self) -> (bytes: Vec<u8>) {
        let mut out: Vec<u8> = Vec::new();
        put_be((*self as i128 - i16::MIN as i128) as u128, 2, &mut out);
        out
    }

    fn decode(bytes: &[u8]) -> (key: i16) {
        if bytes.len() != 2 {
            return 0;
        }
        proof {
            lemma_be_value_bound(bytes@);
            lemma_pow256_values();
        }
        (get_be(bytes) as i128 + i16::MIN as i128) as i16
    }

    proof fn lemma_round_trip(v: i16) {
        lemma_pow256_values();
        lemma_be_bytes_len((v - i16::MIN) as nat, 2);
        lemma_be_round_trip((v - i16::MIN) as nat, 2);
    }

    proof fn lemma_order(a: i16, b: i16) {
        lemma_pow256_values();
        lemma_be_order((a - i16::MIN) as nat, (b - i16::MIN) as nat, 2);
    }
}

/// Unsigned keys are their big-endian bytes.
impl RaxKey for u16 {
    open spec fn encoding(v: u16) -> Seq<u8> {
        be_bytes(v as nat, 2)
    }

    open spec fn decoding(bytes: Seq<u8>) -> u16 {
        if bytes.len() == 2 {
            be_value(bytes) as u16
        } else {
            0
        }
    }

    open spec fn precedes(a: u16, b: u16) -> bool {
        a < b
    }

    fn encode(&self) -> (bytes: Vec<u8>) {
        let mut out: Vec<u8> = Vec::new();
        put_be(*self as u128, 2, &mut out);
        out
    }

    fn decode(bytes: &[u8]) -> (key: u16) {
        if bytes.len() != 2 {
            return 0;
        }
        proof {
            lemma_be_value_bound(bytes@);
            lemma_pow256_values();
        }
        get_be(bytes) as u16
    }

    proof fn lemma_round_trip(v: u16) {
        lemma_pow256_values();
        lemma_be_bytes_len(v as nat, 2);
        lemma_be_round_trip(v as nat, 2);
    }

    proof fn lemma_order(a: u16, b: u16) {
        lemma_pow256_values();
        lemma_be_order(a as nat, b as nat, 2);
    }
}

/// Signed keys are the big-endian bytes of their distance from the least
/// value of the type, so that negative keys sort before the others.
impl RaxKey for i32 {
    open spec fn encoding(v: i32) -> Seq<u8> {
        be_bytes((v - i32::MIN) as nat, 4)
    }

    open spec fn decoding(bytes: Seq<u8>) -> i32 {
        if bytes.len() == 4 {
            (be_value(bytes) + i32::MIN) as i32
        } else {
            0
        }
    }

    open spec fn precedes(a: i32, b: i32) -> bool {
        a < b
    }

    fn encode(&self) -> (bytes: Vec<u8>) {
        let mut out: Vec<u8> = Vec::new();
        put_be((*self as i128 - i32::MIN as i128) as u128, 4, &mut out);
        out
    }

    fn decode(bytes: &[u8]) -> (key: i32) {
        if bytes.len() != 4 {
            return 0;
        }
        proof {
            lemma_be_value_bound(bytes@);
            lemma_pow256_values();
        }
        (get_be(bytes) as i128 + i32::MIN as i128) as i32
    }

    proof fn lemma_round_trip(v: i32) {
        lemma_pow256_values();
        lemma_be_bytes_len((v - i32::MIN) as nat, 4);
        lemma_be_round_trip((v - i32::MIN) as nat, 4);
    }

    proof fn lemma_order(a: i32, b: i32) {
        lemma_pow256_values();
        lemma_be_order((a - i32::MIN) as nat, (b - i32::MIN) as nat, 4);
    }
}

/// Unsigned keys are their big-endian bytes.
impl RaxKey for u32 {
    open spec fn encoding(v: u32) -> Seq<u8> {
        be_bytes(v as nat, 4)
    }

    open spec fn decoding(bytes: Seq<u8>) -> u32 {
        if bytes.len() == 4 {
            be_value(bytes) as u32
        } else {
            0
        }
    }

    open spec fn precedes(a: u32, b: u32) -> bool {
        a < b
    }

    fn encode(&self) -> (bytes: Vec<u8>) {
        let mut out: Vec<u8> = Vec::new();
        put_be(*self as u128, 4, &mut out);
        out
    }

    fn decode(bytes: &[u8]) -> (key: u32) {
        if bytes.len() != 4 {
            return 0;
        }
        proof {
            lemma_be_value_bound(bytes@);
            lemma_pow256_values();
        }
        get_be(bytes) as u32
    }

    proof fn lemma_round_trip(v: u32) {
        lemma_pow256_values();
        lemma_be_bytes_len(v as nat, 4);
        lemma_be_round_trip(v as nat, 4);
    }

    proof fn lemma_order(a: u32, b: u32) {
        lemma_pow256_values();
        lemma_be_order(a as nat, b as nat, 4);
    }
}

/// Signed keys are the big-endian bytes of their distance from the least
/// value of the type, so that negative keys sort before the others.
impl RaxKey for i64 {
    open spec fn encoding(v: i64) -> Seq<u8> {
        be_bytes((v - i64::MIN) as nat, 8)
    }

    open spec fn decoding(bytes: Seq<u8>) -> i64 {
        if bytes.len() == 8 {
            (be_value(bytes) + i64::MIN) as i64
        } else {
            0
        }
    }

    open spec fn precedes(a: i64, b: i64) -> bool {
        a < b
    }

    fn encode(&self) -> (bytes: Vec<u8>) {
        let mut out: Vec<u8> = Vec::new();
        put_be((*self as i128 - i64::MIN as i128) as u128, 8, &mut out);
        out
    }

    fn decode(bytes: &[u8]) -> (key: i64) {
        if bytes.len() != 8 {
            return 0;
        }
        proof {
            lemma_be_value_bound(bytes@);
            lemma_pow256_values();
        }
        (get_be(bytes) as i128 + i64::MIN as i128) as i64
    }

    proof fn lemma_round_trip(v: i64) {
        lemma_pow256_values();
        lemma_be_bytes_len((v - i64::MIN) as nat, 8);
        lemma_be_round_trip((v - i64::MIN) as nat, 8);
    }

    proof fn lemma_order(a: i64, b: i64) {
        lemma_pow256_values();
        lemma_be_order((a - i64::MIN) as nat, (b - i64::MIN) as nat, 8);
    }
}

/// Unsigned keys are their big-endian bytes.
impl RaxKey for u64 {
    open spec fn encoding(v: u64) -> Seq<u8> {
        be_bytes(v as nat, 8)
    }

    open spec fn decoding(bytes: Seq<u8>) -> u64 {
        if bytes.len() == 8 {
            be_value(bytes) as u64
        } else {
            0
        }
    }

    open spec fn precedes(a: u64, b: u64) -> bool {
        a < b
    }

    fn encode(&self) -> (bytes: Vec<u8>) {
        let mut out: Vec<u8> = Vec::new();
        put_be(*self as u128, 8, &mut out);
        out
    }

    fn decode(bytes: &[u8]) -> (key: u64) {
        if bytes.len() != 8 {
            return 0;
        }
        proof {
            lemma_be_value_bound(bytes@);
            lemma_pow256_values();
        }
        get_be(bytes) as u64
    }

    proof fn lemma_round_trip(v: u64) {
        lemma_pow256_values();
        lemma_be_bytes_len(v as nat, 8);
        lemma_be_round_trip(v as nat, 8);
    }

    proof fn lemma_order(a: u64, b: u64) {
        lemma_pow256_values();
        lemma_be_order(a as nat, b as nat, 8);
    }
}

/// Signed keys are the big-endian bytes of their distance from the least
/// value of the type, so that negative keys sort before the others.
impl RaxKey for i128 {
    open spec fn encoding(v: i128) -> Seq<u8> {
        be_bytes((v - i128::MIN) as nat, 16)
    }

    open spec fn decoding(bytes: Seq<u8>) -> i128 {
        if bytes.len() == 16 {
            (be_value(bytes) + i128::MIN) as i128
        } else {
            0
        }
    }

    open spec fn precedes(a: i128, b: i128) -> bool {
        a < b
    }

    fn encode(&self) -> (bytes: Vec<u8>) {
        let mut out: Vec<u8> = Vec::new();
        let shifted: u128 = if *self >= 0 {
            *self as u128 + 0x8000_0000_0000_0000_0000_0000_0000_0000u128
        } else {
            (*self - i128::MIN) as u128
        };
        put_be(shifted, 16, &mut out);
        out
    }

    fn decode(bytes: &[u8]) -> (key: i128) {
        if bytes.len() != 16 {
            return 0;
        }
        proof {
            lemma_be_value_bound(bytes@);
            lemma_pow256_values();
        }
        let shifted = get_be(bytes);
        if shifted >= 0x8000_0000_0000_0000_0000_0000_0000_0000u128 {
            (shifted - 0x8000_0000_0000_0000_0000_0000_0000_0000u128) as i128
        } else {
            shifted as i128 + i128::MIN
        }
    }

    proof fn lemma_round_trip(v: i128) {
        lemma_pow256_values();
        lemma_be_bytes_len((v - i128::MIN) as nat, 16);
        lemma_be_round_trip((v - i128::MIN) as nat, 16);
    }

    proof fn lemma_order(a: i128, b: i128) {
        lemma_pow256_values();
        lemma_be_order((a - i128::MIN) as nat, (b - i128::MIN) as nat, 16);
    }
}

/// Unsigned keys are their big-endian bytes.
impl RaxKey for u128 {
    open spec fn encoding(v: u128) -> Seq<u8> {
        be_bytes(v as nat, 16)
    }

    open spec fn decoding(bytes: Seq<u8>) -> u128 {
        if bytes.len() == 16 {
            be_value(bytes) as u128
        } else {
            0
        }
    }

    open spec fn precedes(a: u128, b: u128) -> bool {
        a < b
    }

    fn encode(&self) -> (bytes: Vec<u8>) {
        let mut out: Vec<u8> = Vec::new();
        put_be(*self, 16, &mut out);
        out
    }

    fn decode(bytes: &[u8]) -> (key: u128) {
        if bytes.len() != 16 {
            return 0;
        }
        proof {
            lemma_be_value_bound(bytes@);
            lemma_pow256_values();
        }
        get_be(bytes)
    }

    proof fn lemma_round_trip(v: u128) {
        lemma_pow256_values();
        lemma_be_bytes_len(v as nat, 16);
        lemma_be_round_trip(v as nat, 16);
    }

    proof fn lemma_order(a: u128, b: u128) {
        lemma_pow256_values();
        lemma_be_order(a as nat, b as nat, 16);
    }
}

/// Reads `bytes` as UTF-8 text.
///
/// Calls `String::from_utf8` of the standard library, and rests on its
/// documentation: the call succeeds exactly if the bytes are valid
/// UTF-8, and the text that it gives then has these bytes.
#[verifier::external_body]
pub(crate) fn text_from_utf8(bytes: &[u8]) -> (r: Result<String, std::string::FromUtf8Error>)
    ensures
        r.is_ok() == valid_utf8(bytes@),
        r matches Ok(text) ==> encode_utf8(text@) == bytes@,
{
    String::from_utf8(bytes.to_vec())
}

/// Reads `bytes` as UTF-8 text, and says which error it is if they are
/// none.
pub fn read_text(bytes: &[u8]) -> (r: Result<String, RedError>)
    ensures
        r.is_ok() == valid_utf8(bytes@),
        r matches Ok(text) ==> text@ == decode_utf8(bytes@),
        r matches Err(e) ==> e is FromUtf8,
{
    match text_from_utf8(bytes) {
        Ok(text) => {
            proof {
                encode_utf8_decode_utf8(text@);
            }
            Ok(text)
        },
        Err(e) => Err(RedError::FromUtf8(e)),
    }
}

/// Text keys are their UTF-8 bytes, and sort as these do. Bytes that are
/// no UTF-8 are read as the empty text.
impl RaxKey for String {
    open spec fn encoding(v: Seq<char>) -> Seq<u8> {
        encode_utf8(v)
    }

    open spec fn decoding(bytes: Seq<u8>) -> Seq<char> {
        if valid_utf8(bytes) {
            decode_utf8(bytes)
        } else {
            Seq::empty()
        }
    }

    open spec fn precedes(a: Seq<char>, b: Seq<char>) -> bool {
        lex_lt(encode_utf8(a), encode_utf8(b))
    }

    fn encode(&self) -> (bytes: Vec<u8>) {
        slice_to_vec(self.as_str().as_bytes())
    }

    fn decode(bytes: &[u8]) -> (key: String) {
        match read_text(bytes) {
            Ok(text) => text,
            Err(_) => String::new(),
        }
    }

    proof fn lemma_round_trip(v: Seq<char>) {
        encode_utf8_valid_utf8(v);
        encode_utf8_decode_utf8(v);
    }

    proof fn lemma_order(a: Seq<char>, b: Seq<char>) {
    }
}

} // verus!

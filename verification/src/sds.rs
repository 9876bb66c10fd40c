//! Binary-safe strings: byte strings that are keys as they are.

use crate::bytes::lex_lt;
use crate::key::RaxKey;
use vstd::prelude::*;
use vstd::slice::slice_to_vec;

verus! {

/// A byte string that may hold any byte. Its view is its bytes.
#[derive(Debug)]
pub struct SDS {
    bytes: Vec<u8>,
}

impl View for SDS {
    type V = Seq<u8>;

    closed spec fn view(&self) -> Seq<u8> {
        self.bytes@
    }
}

impl SDS {
    /// The bytes of the text `s`.
    pub fn new(s: &str) -> (r: SDS)
        ensures
            r@ == vstd::utf8::encode_utf8(s@),
    {
        SDS { bytes: slice_to_vec(s.as_bytes()) }
    }

    /// The bytes `bytes`.
    pub fn from_bytes(bytes: &[u8]) -> (r: SDS)
        ensures
            r@ == bytes@,
    {
        SDS { bytes: slice_to_vec(bytes) }
    }

    /// A string without bytes.
    pub fn empty() -> (r: SDS)
        ensures
            r@ == Seq::<u8>::empty(),
    {
        SDS { bytes: Vec::new() }
    }

    /// The number of bytes.
    pub fn len(&self) -> (n: usize)
        ensures
            n == self@.len(),
    {
        self.bytes.len()
    }

    /// The bytes.
    pub fn as_bytes(&self) -> (r: &[u8])
        ensures
            r@ == self@,
    {
        self.bytes.as_slice()
    }
}

/// Vectors of bytes are keys as they are.
impl RaxKey for Vec<u8> {
    open spec fn encoding(v: Seq<u8>) -> Seq<u8> {
        v
    }

    open spec fn decoding(bytes: Seq<u8>) -> Seq<u8> {
        bytes
    }

    open spec fn precedes(a: Seq<u8>, b: Seq<u8>) -> bool {
        lex_lt(a, b)
    }

    fn encode(&self) -> (bytes: Vec<u8>) {
        slice_to_vec(self.as_slice())
    }

    fn decode(bytes: &[u8]) -> (key: Vec<u8>) {
        slice_to_vec(bytes)
    }

    proof fn lemma_round_trip(v: Seq<u8>) {
    }

    proof fn lemma_order(a: Seq<u8>, b: Seq<u8>) {
    }
}

/// Byte strings are their own encoding.
impl RaxKey for SDS {
    open spec fn encoding(v: Seq<u8>) -> Seq<u8> {
        v
    }

    open spec fn decoding(bytes: Seq<u8>) -> Seq<u8> {
        bytes
    }

    open spec fn precedes(a: Seq<u8>, b: Seq<u8>) -> bool {
        lex_lt(a, b)
    }

    fn encode(&self) -> (bytes: Vec<u8>) {
        slice_to_vec(self.bytes.as_slice())
    }

    fn decode(bytes: &[u8]) -> (key: SDS) {
        SDS::from_bytes(bytes)
    }

    proof fn lemma_round_trip(v: Seq<u8>) {
    }

    proof fn lemma_order(a: Seq<u8>, b: Seq<u8>) {
    }
}

} // verus!

//! The identifiers of the entries of a stream, as keys.

use crate::bytes::lemma_lex_lt_append;
use crate::endian::{
    be_bytes, be_value, get_be, lemma_be_bytes_len, lemma_be_order, lemma_be_round_trip,
    lemma_be_value_bound, lemma_pow256_values, put_be,
};
use crate::key::RaxKey;
use vstd::prelude::*;
use vstd::slice::slice_subrange;

verus! {

/// The identifier of an entry: the millisecond at which it was made, and
/// its number among the entries of that millisecond.
#[derive(Clone, Copy, Debug, PartialEq, Eq, Structural)]
pub struct StreamID {
    pub ms: u64,
    pub seq: u64,
}

impl View for StreamID {
    type V = StreamID;

    open spec fn view(&self) -> StreamID {
        *self
    }
}

impl Default for StreamID {
    fn default() -> (id: StreamID)
        ensures
            id == (StreamID { ms: 0, seq: 0 }),
    {
        StreamID { ms: 0, seq: 0 }
    }
}

/// An identifier is the eight big-endian bytes of its millisecond, then
/// those of its number; identifiers sort by millisecond, then by number.
impl RaxKey for StreamID {
    open spec fn encoding(v: StreamID) -> Seq<u8> {
        be_bytes(v.ms as nat, 8) + be_bytes(v.seq as nat, 8)
    }

    open spec fn decoding(bytes: Seq<u8>) -> StreamID {
        if bytes.len() == 16 {
            StreamID {
                ms: be_value(bytes.subrange(0, 8)) as u64,
                seq: be_value(bytes.subrange(8, 16)) as u64,
            }
        } else {
            StreamID { ms: 0, seq: 0 }
        }
    }

    open spec fn precedes(a: StreamID, b: StreamID) -> bool {
        a.ms < b.ms || (a.ms == b.ms && a.seq < b.seq)
    }

    fn encode(&self) -> (bytes: Vec<u8>) {
        let mut out: Vec<u8> = Vec::new();
        put_be(self.ms as u128, 8, &mut out);
        put_be(self.seq as u128, 8, &mut out);
        out
    }

    fn decode(bytes: &[u8]) -> (key: StreamID) {
        if bytes.len() != 16 {
            return StreamID { ms: 0, seq: 0 };
        }
        let head = slice_subrange(bytes, 0, 8);
        let tail = slice_subrange(bytes, 8, 16);
        proof {
            lemma_be_value_bound(head@);
            lemma_be_value_bound(tail@);
            lemma_pow256_values();
        }
        StreamID { ms: get_be(head) as u64, seq: get_be(tail) as u64 }
    }

    proof fn lemma_round_trip(v: StreamID) {
        let head = be_bytes(v.ms as nat, 8);
        let tail = be_bytes(v.seq as nat, 8);
        lemma_pow256_values();
        lemma_be_bytes_len(v.ms as nat, 8);
        lemma_be_bytes_len(v.seq as nat, 8);
        lemma_be_round_trip(v.ms as nat, 8);
        lemma_be_round_trip(v.seq as nat, 8);
        assert((head + tail).subrange(0, 8) =~= head);
        assert((head + tail).subrange(8, 16) =~= tail);
    }

    proof fn lemma_order(a: StreamID, b: StreamID) {
        lemma_pow256_values();
        lemma_be_bytes_len(a.ms as nat, 8);
        lemma_be_bytes_len(b.ms as nat, 8);
        lemma_be_order(a.ms as nat, b.ms as nat, 8);
        lemma_be_order(a.seq as nat, b.seq as nat, 8);
        lemma_lex_lt_append(
            be_bytes(a.ms as nat, 8),
            be_bytes(a.seq as nat, 8),
            be_bytes(b.ms as nat, 8),
            be_bytes(b.seq as nat, 8),
        );
    }
}

} // verus!

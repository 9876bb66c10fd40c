//! The seek operators, and a cursor that keeps its key alone: the tree is
//! handed to each of its steps, and may have changed since the step
//! before. A seek puts the cursor on a key, and the steps walk the keys
//! in their order, forward or backward.

use crate::tree::{is_greatest, is_least, keys_above, keys_below, rax};
use vstd::prelude::*;
use vstd::slice::slice_to_vec;
use vstd::string::StringSliceAdditionalSpecFns;

verus! {

/// The seek operator that looks for the key after the target.
pub const GT: &'static str = ">";

/// The seek operator that looks for the target, or else the key after it.
pub const GTE: &'static str = ">=";

/// The seek operator that looks for the key before the target.
pub const LT: &'static str = "<";

/// The seek operator that looks for the target, or else the key before it.
pub const LTE: &'static str = "<=";

/// The seek operator that looks for the target itself.
pub const EQ: &'static str = "=";

/// The seek operator that looks for the first key.
pub const MIN: &'static str = "^";

/// The seek operator that looks for the last key.
pub const MAX: &'static str = "$";

/// Where a seek puts the cursor, relative to its target.
#[derive(Clone, Copy, Debug, PartialEq, Eq, Structural)]
pub enum SeekOp {
    /// On the first key.
    First,
    /// On the last key.
    Last,
    /// On the target.
    Eq,
    /// On the first key after the target.
    Gt,
    /// On the target, or else on the first key after it.
    Gte,
    /// On the last key before the target.
    Lt,
    /// On the target, or else on the last key before it.
    Lte,
}

/// The operator that the text `op`, given by its bytes, names: the first
/// byte decides, and `=` behind `>` or `<` includes the target.
pub open spec fn op_named(op: Seq<u8>) -> Option<SeekOp> {
    if op.len() == 0 {
        None
    } else if op[0] == 62 {
        if op.len() > 1 && op[1] == 61 {
            Some(SeekOp::Gte)
        } else {
            Some(SeekOp::Gt)
        }
    } else if op[0] == 60 {
        if op.len() > 1 && op[1] == 61 {
            Some(SeekOp::Lte)
        } else {
            Some(SeekOp::Lt)
        }
    } else if op[0] == 61 {
        Some(SeekOp::Eq)
    } else if op[0] == 94 {
        Some(SeekOp::First)
    } else if op[0] == 36 {
        Some(SeekOp::Last)
    } else {
        None
    }
}

/// The key `k` is where a seek with `op` and target `t` puts the cursor.
pub open spec fn seek_hit(keys: Set<Seq<u8>>, op: SeekOp, t: Seq<u8>, k: Seq<u8>) -> bool {
    match op {
        SeekOp::First => is_least(keys, k),
        SeekOp::Last => is_greatest(keys, k),
        SeekOp::Eq => k == t && keys.contains(t),
        SeekOp::Gt => is_least(keys_above(keys, t, false), k),
        SeekOp::Gte => is_least(keys_above(keys, t, true), k),
        SeekOp::Lt => is_greatest(keys_below(keys, t, false), k),
        SeekOp::Lte => is_greatest(keys_below(keys, t, true), k),
    }
}

/// No key is where a seek with `op` and target `t` could put the cursor.
pub open spec fn seek_miss(keys: Set<Seq<u8>>, op: SeekOp, t: Seq<u8>) -> bool {
    match op {
        SeekOp::First => keys == Set::<Seq<u8>>::empty(),
        SeekOp::Last => keys == Set::<Seq<u8>>::empty(),
        SeekOp::Eq => !keys.contains(t),
        SeekOp::Gt => keys_above(keys, t, false) == Set::<Seq<u8>>::empty(),
        SeekOp::Gte => keys_above(keys, t, true) == Set::<Seq<u8>>::empty(),
        SeekOp::Lt => keys_below(keys, t, false) == Set::<Seq<u8>>::empty(),
        SeekOp::Lte => keys_below(keys, t, true) == Set::<Seq<u8>>::empty(),
    }
}

/// The operator that the text `op` names, if it names one.
pub fn parse_op(op: &str) -> (r: Option<SeekOp>)
    ensures
        r == op_named(op.spec_bytes()),
{
    let bytes = op.as_bytes();
    if bytes.len() == 0 {
        return None;
    }
    let includes = bytes.len() > 1 && bytes[1] == 61;
    let first = bytes[0];
    if first == 62 {
        if includes {
            Some(SeekOp::Gte)
        } else {
            Some(SeekOp::Gt)
        }
    } else if first == 60 {
        if includes {
            Some(SeekOp::Lte)
        } else {
            Some(SeekOp::Lt)
        }
    } else if first == 61 {
        Some(SeekOp::Eq)
    } else if first == 94 {
        Some(SeekOp::First)
    } else if first == 36 {
        Some(SeekOp::Last)
    } else {
        None
    }
}

/// A cursor that keeps the bytes of its key and nothing of the tree. It
/// is exhausted, or it stands on a key; a cursor that a seek has just
/// put on a key has not handed that key out yet.
#[allow(non_camel_case_types)]
pub struct raxIterator {
    key: Vec<u8>,
    just_seeked: bool,
    eof: bool,
}

impl raxIterator {
    /// The key that the cursor stands on, where it is not exhausted.
    pub closed spec fn key(self) -> Seq<u8> {
        self.key@
    }

    /// The cursor stands on no key.
    pub closed spec fn eof(self) -> bool {
        self.eof
    }

    /// A seek has put the cursor on its key, and no step was made since.
    pub closed spec fn just_seeked(self) -> bool {
        self.just_seeked
    }

    /// An exhausted cursor.
    pub fn new() -> (it: Self)
        ensures
            it.eof(),
            !it.just_seeked(),
    {
        raxIterator { key: Vec::new(), just_seeked: false, eof: true }
    }

    /// Tells whether the cursor is exhausted.
    pub fn is_eof(&self) -> (r: bool)
        ensures
            r == self.eof(),
    {
        self.eof
    }

    /// The bytes of the key that the cursor stands on.
    pub fn key_bytes(&self) -> (r: &[u8])
        ensures
            r@ == self.key(),
    {
        self.key.as_slice()
    }

    /// The value behind the key that the cursor stands on: nothing where
    /// the cursor is exhausted or `tree` does not hold the key.
    pub fn data<'a, V>(&self, tree: &'a rax<V>) -> (r: Option<&'a V>)
        ensures
            r.is_some() == (!self.eof() && tree@.contains_key(self.key())),
            r.is_some() ==> *r.unwrap() == tree@[self.key()],
    {
        if self.eof {
            None
        } else {
            tree.find(self.key.as_slice())
        }
    }

    /// Puts the cursor where `op` and the target `ele` say, on a key of
    /// `tree`, and tells whether there is such a key. Where there is
    /// none, the cursor is exhausted.
    pub fn seek<V>(&mut self, tree: &rax<V>, op: SeekOp, ele: &[u8]) -> (found: bool)
        ensures
            found == !final(self).eof(),
            found ==> final(self).just_seeked() && seek_hit(tree@.dom(), op, ele@, final(self).key()),
            !found ==> seek_miss(tree@.dom(), op, ele@),
    {
        let hit = match op {
            SeekOp::First => tree.first_key(),
            SeekOp::Last => tree.last_key(),
            SeekOp::Eq => {
                if tree.find(ele).is_some() {
                    Some(slice_to_vec(ele))
                } else {
                    None
                }
            },
            SeekOp::Gt => tree.key_above(ele, false),
            SeekOp::Gte => tree.key_above(ele, true),
            SeekOp::Lt => tree.key_below(ele, false),
            SeekOp::Lte => tree.key_below(ele, true),
        };
        match hit {
            Some(key) => {
                self.key = key;
                self.just_seeked = true;
                self.eof = false;
                true
            },
            None => {
                self.just_seeked = false;
                self.eof = true;
                false
            },
        }
    }

    /// Steps forward. A cursor that was just put on its key hands that
    /// key out; otherwise the cursor moves to the first key of `tree`
    /// after the one that it stands on. Tells whether the cursor stands
    /// on a key afterwards; an exhausted cursor stays exhausted.
    pub fn next<V>(&mut self, tree: &rax<V>) -> (r: bool)
        ensures
            r == !final(self).eof(),
            !final(self).just_seeked(),
            old(self).eof() ==> !r,
            !old(self).eof() && old(self).just_seeked() ==> r && final(self).key() == old(self).key(),
            !old(self).eof() && !old(self).just_seeked() ==> if r {
                is_least(keys_above(tree@.dom(), old(self).key(), false), final(self).key())
            } else {
                keys_above(tree@.dom(), old(self).key(), false) == Set::<Seq<u8>>::empty()
            },
    {
        if self.eof {
            self.just_seeked = false;
            return false;
        }
        if self.just_seeked {
            self.just_seeked = false;
            return true;
        }
        match tree.key_above(self.key.as_slice(), false) {
            Some(key) => {
                self.key = key;
                true
            },
            None => {
                self.eof = true;
                false
            },
        }
    }

    /// Steps backward. A cursor that was just put on its key hands that
    /// key out; otherwise the cursor moves to the last key of `tree`
    /// before the one that it stands on. Tells whether the cursor stands
    /// on a key afterwards; an exhausted cursor stays exhausted.
    pub fn prev<V>(&mut self, tree: &rax<V>) -> (r: bool)
        ensures
            r == !final(self).eof(),
            !final(self).just_seeked(),
            old(self).eof() ==> !r,
            !old(self).eof() && old(self).just_seeked() ==> r && final(self).key() == old(self).key(),
            !old(self).eof() && !old(self).just_seeked() ==> if r {
                is_greatest(keys_below(tree@.dom(), old(self).key(), false), final(self).key())
            } else {
                keys_below(tree@.dom(), old(self).key(), false) == Set::<Seq<u8>>::empty()
            },
    {
        if self.eof {
            self.just_seeked = false;
            return false;
        }
        if self.just_seeked {
            self.just_seeked = false;
            return true;
        }
        match tree.key_below(self.key.as_slice(), false) {
            Some(key) => {
                self.key = key;
                true
            },
            None => {
                self.eof = true;
                false
            },
        }
    }
}

} // verus!

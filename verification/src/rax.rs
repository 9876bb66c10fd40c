//! The typed map: keys of a type with a codec, values that the map owns,
//! and a cursor that walks the keys in their order.

use crate::error::RedError;
use crate::iter::{op_named, parse_op, raxIterator, seek_hit, seek_miss, SeekOp};
use crate::key::{lemma_encoding_injective, RaxKey};
use crate::node::raxNode;
use crate::tree::{
    is_greatest, is_least, keys_above, keys_below, lemma_node_above, lemma_node_below,
    lemma_node_greatest, lemma_node_least, lemma_node_none_above, lemma_node_none_below,
    lemma_node_vacant, rax,
};
use crate::walk::{
    lemma_path_value, locate, on_key, seek_backward, seek_first, seek_forward, seek_last,
    step_backward, step_forward,
};
use std::marker::PhantomData;
use vstd::prelude::*;
use vstd::slice::slice_to_vec;
use vstd::string::StringSliceAdditionalSpecFns;

verus! {

/// An ordered map from keys of type `K` to boxed values of type `V`. A
/// key can also be held without a value. The view is the map from the
/// encoded keys to what is held for them; the map carries one cursor.
pub struct Rax<K: RaxKey, V> {
    rax: rax<Option<Box<V>>>,
    it: raxIterator,
    phantom: PhantomData<K>,
}

impl<K: RaxKey, V> View for Rax<K, V> {
    type V = Map<Seq<u8>, Option<Box<V>>>;

    closed spec fn view(&self) -> Map<Seq<u8>, Option<Box<V>>> {
        self.rax@
    }
}

/// What a lookup finds in `m` under `k`: the value, if the key is held
/// with one.
pub open spec fn value_at<V>(m: Map<Seq<u8>, Option<Box<V>>>, k: Seq<u8>) -> Option<Box<V>> {
    if m.contains_key(k) {
        m[k]
    } else {
        None
    }
}

/// A map from keys of type `K` to boxed values of type `V`, by what it
/// holds under the encoded keys.
pub trait RAX<K: RaxKey, V> {
    /// What the map holds.
    spec fn contents(&self) -> Map<Seq<u8>, Option<Box<V>>>;

    /// The value that `key` is mapped to, if it is held with one.
    fn find(&self, key: K) -> (r: Option<&V>)
        ensures
            r.is_some() == value_at(self.contents(), K::encoding(key@)).is_some(),
            r.is_some() ==> *r.unwrap() == *value_at(self.contents(), K::encoding(key@)).unwrap(),
    ;

    /// Maps `key` to `data`, and returns 1 where the key is new and 0
    /// where it was held, with the value that it was mapped to. A map
    /// that holds `u64::MAX` keys takes no further key.
    fn insert(&mut self, key: K, data: Box<V>) -> (r: Result<(i32, Option<Box<V>>), RedError>)
        ensures
            r.is_ok() == (old(self).contents().contains_key(K::encoding(key@))
                || old(self).contents().dom().len() < u64::MAX),
            r.is_err() ==> final(self).contents() == old(self).contents(),
            r matches Ok(done) ==> {
                &&& final(self).contents() == old(self).contents().insert(
                    K::encoding(key@),
                    Some(data),
                )
                &&& done.0 == if old(self).contents().contains_key(K::encoding(key@)) {
                    0i32
                } else {
                    1i32
                }
                &&& done.1 == value_at(old(self).contents(), K::encoding(key@))
            },
    ;

    /// Takes `key` out of the map, tells whether it was held, and
    /// returns the value that it was mapped to.
    fn remove(&mut self, key: K) -> (r: (bool, Option<Box<V>>))
        ensures
            final(self).contents() == old(self).contents().remove(K::encoding(key@)),
            r.0 == old(self).contents().contains_key(K::encoding(key@)),
            r.1 == value_at(old(self).contents(), K::encoding(key@)),
    ;
}

/// A map that carries a cursor over its keys.
pub trait RAXIter<K: RaxKey, V>: RAX<K, V> {

}

impl<K: RaxKey, V> RAX<K, V> for Rax<K, V> {
    open spec fn contents(&self) -> Map<Seq<u8>, Option<Box<V>>> {
        self@
    }

    fn find(&self, key: K) -> (r: Option<&V>) {
        Rax::find(self, key)
    }

    fn insert(&mut self, key: K, data: Box<V>) -> (r: Result<(i32, Option<Box<V>>), RedError>) {
        Rax::insert(self, key, data)
    }

    fn remove(&mut self, key: K) -> (r: (bool, Option<Box<V>>)) {
        Rax::remove(self, key)
    }
}

impl<K: RaxKey, V> RAXIter<K, V> for Rax<K, V> {

}

/// A key that was put into a map is found there with its value, and the
/// other keys are found as before.
pub proof fn lemma_insert_find<K: RaxKey, V>(
    m: Map<Seq<u8>, Option<Box<V>>>,
    a: K::V,
    b: K::V,
    v: Box<V>,
)
    ensures
        value_at(m.insert(K::encoding(a), Some(v)), K::encoding(a)) == Some(v),
        a != b ==> value_at(m.insert(K::encoding(a), Some(v)), K::encoding(b)) == value_at(
            m,
            K::encoding(b),
        ),
        m.dom().finite() ==> m.insert(K::encoding(a), Some(v)).dom().len() == m.dom().len()
            + if m.contains_key(K::encoding(a)) {
            0int
        } else {
            1int
        },
{
    lemma_encoding_injective::<K>(a, b);
    crate::tree::lemma_insert_then_find(m, K::encoding(a), Some(v));
}

/// A key that is put into a map twice is held with the second value,
/// and the second time the first value is what it was mapped to before.
pub proof fn lemma_replace<K: RaxKey, V>(
    m: Map<Seq<u8>, Option<Box<V>>>,
    a: K::V,
    v1: Box<V>,
    v2: Box<V>,
)
    ensures
        m.insert(K::encoding(a), Some(v1)).contains_key(K::encoding(a)),
        value_at(m.insert(K::encoding(a), Some(v1)), K::encoding(a)) == Some(v1),
        value_at(
            m.insert(K::encoding(a), Some(v1)).insert(K::encoding(a), Some(v2)),
            K::encoding(a),
        ) == Some(v2),
        m.dom().finite() ==> m.insert(K::encoding(a), Some(v1)).insert(
            K::encoding(a),
            Some(v2),
        ).dom().len() == m.insert(K::encoding(a), Some(v1)).dom().len(),
{
    let once = m.insert(K::encoding(a), Some(v1));
    assert(once.insert(K::encoding(a), Some(v2)).dom() =~= once.dom());
}

/// A key that was taken out of a map is found there no more, the other
/// keys are found as before, and a key that was not held leaves the map
/// as it was.
pub proof fn lemma_remove_find<K: RaxKey, V>(m: Map<Seq<u8>, Option<Box<V>>>, a: K::V, b: K::V)
    ensures
        value_at(m.remove(K::encoding(a)), K::encoding(a)) is None,
        a != b ==> value_at(m.remove(K::encoding(a)), K::encoding(b)) == value_at(
            m,
            K::encoding(b),
        ),
        !m.contains_key(K::encoding(a)) ==> m.remove(K::encoding(a)) == m,
        m.dom().finite() && m.contains_key(K::encoding(a)) ==> m.remove(
            K::encoding(a),
        ).dom().len() == m.dom().len() - 1,
{
    lemma_encoding_injective::<K>(a, b);
    crate::tree::lemma_remove_then_find(m, K::encoding(a));
}

/// A step of the cursor from the key `a` to the key `b` goes on in the
/// natural order of the keys: forward to a key after `a`, backward to a
/// key before it.
pub proof fn lemma_steps_in_order<K: RaxKey>(keys: Set<Seq<u8>>, a: K::V, b: K::V)
    ensures
        is_least(keys_above(keys, K::encoding(a), false), K::encoding(b)) ==> K::precedes(a, b),
        is_greatest(keys_below(keys, K::encoding(a), false), K::encoding(b)) ==> K::precedes(b, a),
{
    K::lemma_order(a, b);
    K::lemma_order(b, a);
}

impl<K: RaxKey, V> Rax<K, V> {
    /// The cursor of the map.
    pub closed spec fn cursor(self) -> raxIterator {
        self.it
    }

    /// The tree of the map has a sound shape: its paths are compressed.
    pub closed spec fn compressed(self) -> bool {
        self.rax.compressed()
    }

    /// An empty map, with its cursor exhausted.
    pub fn new() -> (r: Rax<K, V>)
        ensures
            r@ == Map::<Seq<u8>, Option<Box<V>>>::empty(),
            r.cursor().eof(),
            r.compressed(),
    {
        Rax { rax: rax::new(), it: raxIterator::new(), phantom: PhantomData }
    }

    /// The number of keys in the map.
    pub fn size(&self) -> (n: u64)
        ensures
            self@.dom().finite(),
            n == self@.dom().len(),
    {
        self.rax.size()
    }

    /// Holds `key` without a value. See `insert` for what is returned.
    pub fn insert_null(&mut self, key: K) -> (r: Result<(i32, Option<Box<V>>), RedError>)
        ensures
            final(self).cursor() == old(self).cursor(),
            final(self).compressed(),
            r.is_ok() == (old(self)@.contains_key(K::encoding(key@)) || old(self)@.dom().len()
                < u64::MAX),
            r.is_err() ==> final(self)@ == old(self)@,
            r matches Err(e) ==> (e matches RedError::Generic(g) && g.message()
                == "the tree is full"@),
            r matches Ok(done) ==> {
                &&& final(self)@ == old(self)@.insert(K::encoding(key@), None)
                &&& done.0 == if old(self)@.contains_key(K::encoding(key@)) {
                    0i32
                } else {
                    1i32
                }
                &&& done.1 == value_at(old(self)@, K::encoding(key@))
            },
    {
        let bytes = key.encode();
        match self.rax.insert(bytes.as_slice(), None) {
            Ok(Some(prev)) => Ok((0, prev)),
            Ok(None) => Ok((1, None)),
            Err(e) => Err(e),
        }
    }

    /// Maps `key` to `data`. The map then owns `data`. Returns 1 where
    /// the key is new and 0 where it was held before, with the value
    /// that it was mapped to, which is the caller's again. A map that
    /// holds `u64::MAX` keys takes no further key: it then stays as it
    /// is and the call fails.
    pub fn insert(&mut self, key: K, data: Box<V>) -> (r: Result<(i32, Option<Box<V>>), RedError>)
        ensures
            final(self).cursor() == old(self).cursor(),
            final(self).compressed(),
            r.is_ok() == (old(self)@.contains_key(K::encoding(key@)) || old(self)@.dom().len()
                < u64::MAX),
            r.is_err() ==> final(self)@ == old(self)@,
            r matches Err(e) ==> (e matches RedError::Generic(g) && g.message()
                == "the tree is full"@),
            r matches Ok(done) ==> {
                &&& final(self)@ == old(self)@.insert(K::encoding(key@), Some(data))
                &&& done.0 == if old(self)@.contains_key(K::encoding(key@)) {
                    0i32
                } else {
                    1i32
                }
                &&& done.1 == value_at(old(self)@, K::encoding(key@))
            },
    {
        let bytes = key.encode();
        match self.rax.insert(bytes.as_slice(), Some(data)) {
            Ok(Some(prev)) => Ok((0, prev)),
            Ok(None) => Ok((1, None)),
            Err(e) => Err(e),
        }
    }

    /// Takes `key` out of the map. Tells whether the key was held, and
    /// returns the value that it was mapped to, which is the caller's
    /// again.
    pub fn remove(&mut self, key: K) -> (r: (bool, Option<Box<V>>))
        ensures
            final(self).cursor() == old(self).cursor(),
            final(self).compressed(),
            final(self)@ == old(self)@.remove(K::encoding(key@)),
            r.0 == old(self)@.contains_key(K::encoding(key@)),
            r.1 == value_at(old(self)@, K::encoding(key@)),
    {
        let bytes = key.encode();
        match self.rax.remove(bytes.as_slice()) {
            Some(prev) => (true, prev),
            None => (false, None),
        }
    }

    /// Tells whether `key` is held, and looks up its value.
    pub fn find_exists(&self, key: K) -> (r: (bool, Option<&V>))
        ensures
            r.0 == self@.contains_key(K::encoding(key@)),
            r.1.is_some() == value_at(self@, K::encoding(key@)).is_some(),
            r.1.is_some() ==> *r.1.unwrap() == *value_at(self@, K::encoding(key@)).unwrap(),
    {
        let bytes = key.encode();
        match self.rax.find(bytes.as_slice()) {
            Some(Some(b)) => (true, Some(&**b)),
            Some(None) => (true, None),
            None => (false, None),
        }
    }

    /// The value that `key` is mapped to, if it is held with one.
    pub fn find(&self, key: K) -> (r: Option<&V>)
        ensures
            r.is_some() == value_at(self@, K::encoding(key@)).is_some(),
            r.is_some() ==> *r.unwrap() == *value_at(self@, K::encoding(key@)).unwrap(),
    {
        self.find_exists(key).1
    }

    /// Tells whether `key` is held with a value.
    pub fn exists_value(&self, key: K) -> (r: bool)
        ensures
            r == value_at(self@, K::encoding(key@)).is_some(),
    {
        self.find_exists(key).1.is_some()
    }

    /// A cursor of its own over the map, exhausted until its first seek.
    /// While it lives the map cannot change.
    pub fn iterator(&self) -> (it: RaxIterator<'_, V>)
        ensures
            it.tree() == self@,
            it.eof(),
    {
        RaxIterator::exhausted(&self.rax)
    }

    /// Puts the cursor on the first key, and tells whether there is one.
    pub fn first(&mut self) -> (found: bool)
        ensures
            final(self)@ == old(self)@,
            found == !final(self).cursor().eof(),
            found ==> final(self).cursor().just_seeked() && is_least(
                old(self)@.dom(),
                final(self).cursor().key(),
            ),
            !found ==> old(self)@.dom() == Set::<Seq<u8>>::empty(),
    {
        let empty: Vec<u8> = Vec::new();
        self.it.seek(&self.rax, SeekOp::First, empty.as_slice())
    }

    /// Puts the cursor on the last key, and tells whether there is one.
    pub fn last(&mut self) -> (found: bool)
        ensures
            final(self)@ == old(self)@,
            found == !final(self).cursor().eof(),
            found ==> final(self).cursor().just_seeked() && is_greatest(
                old(self)@.dom(),
                final(self).cursor().key(),
            ),
            !found ==> old(self)@.dom() == Set::<Seq<u8>>::empty(),
    {
        let empty: Vec<u8> = Vec::new();
        self.it.seek(&self.rax, SeekOp::Last, empty.as_slice())
    }

    /// Puts the cursor where the operator named `op` and the target
    /// `ele` say, and tells whether there is such a key. A text that
    /// names no operator finds nothing.
    pub fn seek(&mut self, op: &str, ele: &[u8]) -> (found: bool)
        ensures
            final(self)@ == old(self)@,
            found == !final(self).cursor().eof(),
            op_named(op.spec_bytes()) is None ==> !found,
            op_named(op.spec_bytes()) matches Some(o) ==> {
                &&& found ==> final(self).cursor().just_seeked() && seek_hit(
                    old(self)@.dom(),
                    o,
                    ele@,
                    final(self).cursor().key(),
                )
                &&& !found ==> seek_miss(old(self)@.dom(), o, ele@)
            },
    {
        match parse_op(op) {
            Some(o) => self.it.seek(&self.rax, o, ele),
            None => {
                self.it = raxIterator::new();
                false
            },
        }
    }

    /// Steps the cursor forward: a cursor that was just put on its key
    /// hands that key out, otherwise it moves to the next key. Tells
    /// whether the cursor stands on a key afterwards.
    pub fn next(&mut self) -> (r: bool)
        ensures
            final(self)@ == old(self)@,
            r == !final(self).cursor().eof(),
            !final(self).cursor().just_seeked(),
            old(self).cursor().eof() ==> !r,
            !old(self).cursor().eof() && old(self).cursor().just_seeked() ==> r
                && final(self).cursor().key() == old(self).cursor().key(),
            !old(self).cursor().eof() && !old(self).cursor().just_seeked() ==> if r {
                is_least(
                    keys_above(old(self)@.dom(), old(self).cursor().key(), false),
                    final(self).cursor().key(),
                )
            } else {
                keys_above(old(self)@.dom(), old(self).cursor().key(), false) == Set::<Seq<u8>>::empty()
            },
    {
        self.it.next(&self.rax)
    }

    /// Steps the cursor backward: a cursor that was just put on its key
    /// hands that key out, otherwise it moves to the key before. Tells
    /// whether the cursor stands on a key afterwards.
    pub fn prev(&mut self) -> (r: bool)
        ensures
            final(self)@ == old(self)@,
            r == !final(self).cursor().eof(),
            !final(self).cursor().just_seeked(),
            old(self).cursor().eof() ==> !r,
            !old(self).cursor().eof() && old(self).cursor().just_seeked() ==> r
                && final(self).cursor().key() == old(self).cursor().key(),
            !old(self).cursor().eof() && !old(self).cursor().just_seeked() ==> if r {
                is_greatest(
                    keys_below(old(self)@.dom(), old(self).cursor().key(), false),
                    final(self).cursor().key(),
                )
            } else {
                keys_below(old(self)@.dom(), old(self).cursor().key(), false) == Set::<Seq<u8>>::empty()
            },
    {
        self.it.prev(&self.rax)
    }

    /// The key that the cursor stands on, decoded.
    pub fn key(&self) -> (k: K)
        ensures
            k@ == K::decoding(self.cursor().key()),
    {
        K::decode(self.it.key_bytes())
    }

    /// The bytes of the key that the cursor stands on.
    pub fn key_bytes(&self) -> (r: &[u8])
        ensures
            r@ == self.cursor().key(),
    {
        self.it.key_bytes()
    }

    /// The value behind the key that the cursor stands on, if the cursor
    /// stands on a key that is held with a value.
    pub fn data(&self) -> (r: Option<&V>)
        ensures
            r.is_some() == (!self.cursor().eof() && value_at(self@, self.cursor().key()).is_some()),
            r.is_some() ==> *r.unwrap() == *value_at(self@, self.cursor().key()).unwrap(),
    {
        match self.it.data(&self.rax) {
            Some(Some(b)) => Some(&**b),
            _ => None,
        }
    }
}

/// A cursor over a map that it borrows: the map cannot change, nor go
/// away, while the cursor lives. The cursor keeps the stack of the nodes
/// that lead from the root of the tree to the key that it stands on,
/// with the child that was taken at each of them, and the bytes of the
/// key; a step moves the top of the stack to the next key or to the one
/// before.
pub struct RaxIterator<'a, V> {
    tree: &'a rax<Option<Box<V>>>,
    nodes: Vec<&'a raxNode<Option<Box<V>>>>,
    picks: Vec<usize>,
    key: Vec<u8>,
    just_seeked: bool,
    eof: bool,
}

impl<'a, V> RaxIterator<'a, V> {
    #[verifier::type_invariant]
    spec fn inv(self) -> bool {
        !self.eof ==> on_key(self.nodes@, self.picks@, self.key@) && *self.nodes@[0]
            == self.tree.root_node()
    }

    /// The map that the cursor walks.
    pub closed spec fn tree(self) -> Map<Seq<u8>, Option<Box<V>>> {
        self.tree@
    }

    /// The key that the cursor stands on, where it is not exhausted.
    pub closed spec fn key_view(self) -> Seq<u8> {
        self.key@
    }

    /// The cursor stands on no key.
    pub closed spec fn eof(self) -> bool {
        self.eof
    }

    /// A seek has put the cursor on its key, and no step was made since.
    pub closed spec fn just_seeked(self) -> bool {
        self.just_seeked
    }

    /// An exhausted cursor over `tree`.
    fn exhausted(tree: &'a rax<Option<Box<V>>>) -> (it: Self)
        ensures
            it.tree == tree,
            it.eof,
            !it.just_seeked,
    {
        RaxIterator {
            tree,
            nodes: Vec::new(),
            picks: Vec::new(),
            key: Vec::new(),
            just_seeked: false,
            eof: true,
        }
    }

    /// Puts the cursor on the first key, and tells whether there is one.
    pub fn first(&mut self) -> (found: bool)
        ensures
            final(self).tree() == old(self).tree(),
            found == !final(self).eof(),
            found ==> final(self).just_seeked() && is_least(
                old(self).tree().dom(),
                final(self).key_view(),
            ),
            !found ==> old(self).tree().dom() == Set::<Seq<u8>>::empty(),
    {
        let empty: Vec<u8> = Vec::new();
        self.seek_op(SeekOp::First, empty.as_slice())
    }

    /// Puts the cursor on the last key, and tells whether there is one.
    pub fn last(&mut self) -> (found: bool)
        ensures
            final(self).tree() == old(self).tree(),
            found == !final(self).eof(),
            found ==> final(self).just_seeked() && is_greatest(
                old(self).tree().dom(),
                final(self).key_view(),
            ),
            !found ==> old(self).tree().dom() == Set::<Seq<u8>>::empty(),
    {
        let empty: Vec<u8> = Vec::new();
        self.seek_op(SeekOp::Last, empty.as_slice())
    }

    /// Puts the cursor where `op` and the target `ele` say, and tells
    /// whether there is such a key.
    pub fn seek_op(&mut self, op: SeekOp, ele: &[u8]) -> (found: bool)
        ensures
            final(self).tree() == old(self).tree(),
            found == !final(self).eof(),
            found ==> final(self).just_seeked() && seek_hit(
                old(self).tree().dom(),
                op,
                ele@,
                final(self).key_view(),
            ),
            !found ==> seek_miss(old(self).tree().dom(), op, ele@),
    {
        let tree = self.tree;
        let root = tree.root();
        *self = Self::exhausted(tree);
        if root.vacant_now() {
            proof {
                lemma_node_vacant(*root);
                assert(keys_above(tree@.dom(), ele@, false) =~= Set::<Seq<u8>>::empty());
                assert(keys_above(tree@.dom(), ele@, true) =~= Set::<Seq<u8>>::empty());
                assert(keys_below(tree@.dom(), ele@, false) =~= Set::<Seq<u8>>::empty());
                assert(keys_below(tree@.dom(), ele@, true) =~= Set::<Seq<u8>>::empty());
            }
            return false;
        }
        let mut nodes: Vec<&'a raxNode<Option<Box<V>>>> = Vec::new();
        let mut picks: Vec<usize> = Vec::new();
        let mut key: Vec<u8> = Vec::new();
        let found = match op {
            SeekOp::First => {
                seek_first(root, &mut nodes, &mut picks, &mut key);
                proof {
                    lemma_node_least(*root, key@);
                }
                true
            },
            SeekOp::Last => {
                seek_last(root, &mut nodes, &mut picks, &mut key);
                proof {
                    lemma_node_greatest(*root, key@);
                }
                true
            },
            SeekOp::Eq => {
                proof {
                    root.lemma_as_map(ele@);
                }
                if root.find(ele).is_some() {
                    locate(root, ele, &mut nodes, &mut picks);
                    key = slice_to_vec(ele);
                    true
                } else {
                    false
                }
            },
            SeekOp::Gt => {
                let hit = seek_forward(root, ele, false, &mut nodes, &mut picks, &mut key);
                proof {
                    if hit {
                        lemma_node_above(*root, ele@, false, key@);
                    } else {
                        lemma_node_none_above(*root, ele@, false);
                    }
                }
                hit
            },
            SeekOp::Gte => {
                let hit = seek_forward(root, ele, true, &mut nodes, &mut picks, &mut key);
                proof {
                    if hit {
                        lemma_node_above(*root, ele@, true, key@);
                    } else {
                        lemma_node_none_above(*root, ele@, true);
                    }
                }
                hit
            },
            SeekOp::Lt => {
                let hit = seek_backward(root, ele, false, &mut nodes, &mut picks, &mut key);
                proof {
                    if hit {
                        lemma_node_below(*root, ele@, false, key@);
                    } else {
                        lemma_node_none_below(*root, ele@, false);
                    }
                }
                hit
            },
            SeekOp::Lte => {
                let hit = seek_backward(root, ele, true, &mut nodes, &mut picks, &mut key);
                proof {
                    if hit {
                        lemma_node_below(*root, ele@, true, key@);
                    } else {
                        lemma_node_none_below(*root, ele@, true);
                    }
                }
                hit
            },
        };
        if found {
            *self = RaxIterator { tree, nodes, picks, key, just_seeked: true, eof: false };
        }
        found
    }

    /// Puts the cursor where the operator named `op` and the target
    /// `ele` say, and tells whether there is such a key. A text that
    /// names no operator finds nothing.
    pub fn seek(&mut self, op: &str, ele: &[u8]) -> (found: bool)
        ensures
            final(self).tree() == old(self).tree(),
            found == !final(self).eof(),
            op_named(op.spec_bytes()) is None ==> !found,
            op_named(op.spec_bytes()) matches Some(o) ==> {
                &&& found ==> final(self).just_seeked() && seek_hit(
                    old(self).tree().dom(),
                    o,
                    ele@,
                    final(self).key_view(),
                )
                &&& !found ==> seek_miss(old(self).tree().dom(), o, ele@)
            },
    {
        match parse_op(op) {
            Some(o) => self.seek_op(o, ele),
            None => {
                let tree = self.tree;
                *self = Self::exhausted(tree);
                false
            },
        }
    }

    /// Steps the cursor forward: a cursor that was just put on its key
    /// hands that key out, otherwise it moves to the next key. Tells
    /// whether the cursor stands on a key afterwards.
    pub fn next(&mut self) -> (r: bool)
        ensures
            final(self).tree() == old(self).tree(),
            r == !final(self).eof(),
            !final(self).just_seeked(),
            old(self).eof() ==> !r,
            !old(self).eof() && old(self).just_seeked() ==> r && final(self).key_view() == old(self).key_view(),
            !old(self).eof() && !old(self).just_seeked() ==> if r {
                is_least(keys_above(old(self).tree().dom(), old(self).key_view(), false), final(self).key_view())
            } else {
                keys_above(old(self).tree().dom(), old(self).key_view(), false) == Set::<Seq<u8>>::empty()
            },
    {
        proof {
            use_type_invariant(&*self);
        }
        let tree = self.tree;
        let root = tree.root();
        let mut taken = Self::exhausted(tree);
        std::mem::swap(self, &mut taken);
        let RaxIterator { tree: _, nodes, picks, key, just_seeked, eof } = taken;
        if eof {
            return false;
        }
        if just_seeked {
            *self = RaxIterator { tree, nodes, picks, key, just_seeked: false, eof: false };
            return true;
        }
        let mut nodes = nodes;
        let mut picks = picks;
        let mut key = key;
        let ghost before = key@;
        let found = step_forward(&mut nodes, &mut picks, &mut key);
        proof {
            if found {
                lemma_node_above(*root, before, false, key@);
            } else {
                lemma_node_none_above(*root, before, false);
            }
        }
        if found {
            *self = RaxIterator { tree, nodes, picks, key, just_seeked: false, eof: false };
        }
        found
    }

    /// Steps the cursor backward: a cursor that was just put on its key
    /// hands that key out, otherwise it moves to the key before. Tells
    /// whether the cursor stands on a key afterwards.
    pub fn prev(&mut self) -> (r: bool)
        ensures
            final(self).tree() == old(self).tree(),
            r == !final(self).eof(),
            !final(self).just_seeked(),
            old(self).eof() ==> !r,
            !old(self).eof() && old(self).just_seeked() ==> r && final(self).key_view() == old(self).key_view(),
            !old(self).eof() && !old(self).just_seeked() ==> if r {
                is_greatest(
                    keys_below(old(self).tree().dom(), old(self).key_view(), false),
                    final(self).key_view(),
                )
            } else {
                keys_below(old(self).tree().dom(), old(self).key_view(), false) == Set::<Seq<u8>>::empty()
            },
    {
        proof {
            use_type_invariant(&*self);
        }
        let tree = self.tree;
        let root = tree.root();
        let mut taken = Self::exhausted(tree);
        std::mem::swap(self, &mut taken);
        let RaxIterator { tree: _, nodes, picks, key, just_seeked, eof } = taken;
        if eof {
            return false;
        }
        if just_seeked {
            *self = RaxIterator { tree, nodes, picks, key, just_seeked: false, eof: false };
            return true;
        }
        let mut nodes = nodes;
        let mut picks = picks;
        let mut key = key;
        let ghost before = key@;
        let found = step_backward(&mut nodes, &mut picks, &mut key);
        proof {
            if found {
                lemma_node_below(*root, before, false, key@);
            } else {
                lemma_node_none_below(*root, before, false);
            }
        }
        if found {
            *self = RaxIterator { tree, nodes, picks, key, just_seeked: false, eof: false };
        }
        found
    }

    /// The bytes of the key that the cursor stands on.
    pub fn key(&self) -> (r: &[u8])
        ensures
            r@ == self.key_view(),
    {
        self.key.as_slice()
    }

    /// The value behind the key that the cursor stands on, if the cursor
    /// stands on a key that is held with a value.
    pub fn data(&self) -> (r: Option<&V>)
        ensures
            r.is_some() == (!self.eof() && value_at(self.tree(), self.key_view()).is_some()),
            r.is_some() ==> *r.unwrap() == *value_at(self.tree(), self.key_view()).unwrap(),
    {
        proof {
            use_type_invariant(self);
        }
        if self.eof {
            return None;
        }
        let root = self.tree.root();
        let top = self.nodes[self.nodes.len() - 1];
        proof {
            lemma_path_value(self.nodes@, self.picks@, 0);
            assert(self.key@.skip(0) =~= self.key@);
            root.lemma_as_map(self.key@);
        }
        match &top.value {
            Some(Some(b)) => Some(&**b),
            _ => None,
        }
    }
}

} // verus!

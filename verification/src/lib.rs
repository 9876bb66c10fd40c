//! An ordered map from byte-string keys to owned values, kept as a
//! compressed radix tree, with order-preserving codecs for typed keys.

pub mod bytes;
pub mod decimal;
pub mod endian;
pub mod error;
pub mod iter;
pub mod key;
pub mod node;
pub mod rax;
pub mod redis;
pub mod sds;
pub mod seek;
pub mod sliced;
pub mod stream;
pub mod tree;
pub mod walk;

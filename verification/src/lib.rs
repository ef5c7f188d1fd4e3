//! A map keyed by `u64`, stored as a power-of-two array of buckets that are
//! indexed by a multiplicative hash of the key.

pub mod bucket;
pub mod chains;
pub mod hash;
pub mod iter;
pub mod iter_mut;
pub mod model;
pub mod table;

pub use iter::{IntoIter, Iter, Keys, Values};
pub use iter_mut::IterMut;
pub use table::IntMap;

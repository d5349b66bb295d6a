//! A hash table with separate chaining: keys are hashed to one of an array
//! of buckets, each bucket a chain of key-value pairs. The array is
//! allocated on the first insertion and doubles as the table fills.
use vstd::prelude::*;

pub mod hash_map;
pub mod key;

pub use hash_map::{HashMap, Iter};
pub use key::MapKey;

verus! {

} // verus!

//! An open-addressing hash map: one flat slot array, linear probing, and
//! tombstones for removed entries, with growth and in-place rehashing.
mod key;
mod table;
pub mod laws;

pub use key::{HashKey, KeyEq};
pub use table::{Entry, HashMap, INITIAL_SIZE, MAX_CAPACITY};

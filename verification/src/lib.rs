//! A static dictionary from byte-string keys to lists of values, compiled
//! from a building trie into a double array (`BASE`, `CHECK`) with a packed
//! value region, and laid out as one mappable blob.
//!
//! - [`trie`]: the building trie, to which keys and values are set;
//! - [`bit_cache`]: the set of taken slots, with its search cursor;
//! - [`builder`]: the compiler from a trie to the arrays;
//! - [`filling`]: what the compiler computes, as mathematics;
//! - [`model`]: what arrays mean to a lookup;
//! - [`layout`]: the blob that holds the arrays, and [`utils`] its integers;
//! - [`double_array`]: the compiled dictionary and its lookups;
//! - [`codec`] and [`mapping`]: the value codec and the memory mappings;
//! - [`laws`]: what holds across these.

pub mod bit_cache;
pub mod builder;
pub mod codec;
pub mod double_array;
pub mod error;
pub mod filling;
pub mod laws;
pub mod layout;
pub mod mapping;
pub mod model;
pub mod trie;
pub mod utils;

pub use double_array::DoubleArray;
pub use double_array::PrefixSearchIter;
pub use trie::Trie;

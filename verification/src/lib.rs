//! Read path of a log-structured merge-tree storage engine: the block codec,
//! block and table iterators, the Bloom filter, the block metadata index and
//! an n-way merging iterator.

pub mod error;
pub mod iterators;
pub mod block;
pub mod codec;
pub mod key;
pub mod table;

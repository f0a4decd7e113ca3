//! Core of a small log-structured merge-tree storage engine: the block and
//! sorted-string-table byte formats, the in-memory table, and the ordered
//! iterator machinery that merges them into a single key stream.
use vstd::prelude::*;

pub mod block;
pub mod block_builder;
pub mod block_iterator;
pub mod codec;
pub mod iterators;
pub mod keys;
pub mod mem_table;
pub mod table;
pub mod table_builder;
pub mod table_iterator;
pub mod merge_iterator;

verus! {

/// The failures the storage layer reports.
#[derive(Clone, Copy, Debug, PartialEq, Eq, Structural)]
pub enum Error {
    /// An index or byte span lay outside the addressed object.
    OutOfRange,
    /// Bytes did not parse as the expected on-disk layout.
    Malformed,
}

} // verus!

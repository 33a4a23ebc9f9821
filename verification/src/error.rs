//! Errors of the library.

use vstd::prelude::*;

verus! {

/// What can go wrong.
#[derive(Debug, Clone, Copy, PartialEq, Eq, Structural)]
pub enum CxlError {
    /// A read reaches past the end of the mapped region.
    OutOfBounds { offset: u64, len: usize, mapped_len: usize },
    /// The record of a node reaches past the end of the mapped region.
    NodeOutOfBounds { node_id: u32, mapped_len: usize },
    /// A file holds less than what is loaded from it.
    FileTooSmall { size: u128, expected: u128 },
    /// A query file holds no queries.
    NoQueries,
    /// The size of a query file fits none of the element types.
    UnknownQueryFormat { bytes: usize, num: usize, dims: usize },
    /// A buffer is larger than an allocation can be.
    LayoutTooLarge { requested: usize },
}

} // verus!

//! The record of a graph node: a vector, a neighbor count, and the neighbor ids.

use crate::le_bytes::{read_u32, read_u32s, u32_at, u32s_at};
use crate::rounding::{min_usize, smaller};
use vstd::prelude::*;

verus! {

/// How many neighbors are read from the list that starts at `at`: as many as its count says,
/// but never more than `max_degree`.
pub open spec fn degree_at(s: Seq<u8>, at: int, max_degree: int) -> int {
    smaller(u32_at(s, at) as int, max_degree)
}

/// The neighbor ids of the list that starts at `at`.
pub open spec fn adjacency_at(s: Seq<u8>, at: int, max_degree: int) -> Seq<u32> {
    u32s_at(s, at + 4, degree_at(s, at, max_degree) as nat)
}

/// Whether the list that starts at `at` lies within `s`.
pub open spec fn adjacency_within(s: Seq<u8>, at: int, max_degree: int) -> bool {
    &&& 0 <= at
    &&& at + 4 <= s.len()
    &&& at + 4 + 4 * degree_at(s, at, max_degree) <= s.len()
}

/// Reads the neighbor list that starts at `at`.
pub fn read_adjacency(bytes: &[u8], at: usize, max_degree: usize) -> (neighbors: Vec<u32>)
    requires
        adjacency_within(bytes@, at as int, max_degree as int),
    ensures
        neighbors@ == adjacency_at(bytes@, at as int, max_degree as int),
{
    assert(bytes@.len() == bytes.len());
    let count: usize = min_usize(read_u32(bytes, at) as usize, max_degree);
    read_u32s(bytes, at + 4, count)
}

/// Whether the neighbor list that starts `skip` bytes behind `from` can be read.
pub fn adjacency_fits(bytes: &[u8], from: usize, skip: usize, max_degree: usize) -> (fits: bool)
    ensures
        fits == adjacency_within(bytes@, from + skip, max_degree as int),
{
    let len: usize = bytes.len();
    if len < 4 || from > len - 4 || skip > len - 4 - from {
        return false;
    }
    let at: usize = from + skip;
    let count: usize = min_usize(read_u32(bytes, at) as usize, max_degree);
    count <= (len - 4 - at) / 4
}

/// Whether a record that starts at `from`, with a list of `max_degree` neighbors behind `skip`
/// bytes, ends within `len` bytes.
pub fn full_record_fits(from: usize, skip: usize, max_degree: usize, len: usize) -> (fits: bool)
    ensures
        fits == (from + skip + 4 + 4 * max_degree <= len),
{
    (from as u128) + (skip as u128) + 4 + 4 * (max_degree as u128) <= len as u128
}

/// A list never has more entries than the maximum degree, however large its count is.
pub proof fn law_degree_is_bounded(s: Seq<u8>, at: int, max_degree: int)
    requires
        max_degree >= 0,
    ensures
        adjacency_at(s, at, max_degree).len() <= max_degree,
{
}

/// A neighbor list is a count and then the neighbors: as many are read as the count says, or
/// `max_degree` where it says more, and the `j`-th of them stands `4 + 4 * j` bytes behind the
/// start of the count.
pub proof fn law_lists_follow_their_count(s: Seq<u8>, at: int, max_degree: int)
    requires
        max_degree >= 0,
    ensures
        u32_at(s, at) <= max_degree ==> adjacency_at(s, at, max_degree).len() == u32_at(s, at),
        u32_at(s, at) > max_degree ==> adjacency_at(s, at, max_degree).len() == max_degree,
        forall|j: int|
            0 <= j < adjacency_at(s, at, max_degree).len() ==> #[trigger] adjacency_at(
                s,
                at,
                max_degree,
            )[j] == u32_at(s, at + 4 + 4 * j),
{
}

/// A list lies within some bytes where its count and all neighbors that are read do.
pub proof fn law_lists_end_behind_their_last_neighbor(s: Seq<u8>, at: int, max_degree: int)
    requires
        at >= 0,
        max_degree >= 0,
    ensures
        adjacency_within(s, at, max_degree) <==> at + 4 <= s.len() && at + 4 + 4
            * adjacency_at(s, at, max_degree).len() <= s.len(),
        adjacency_at(s, at, max_degree).len() == 0 <==> u32_at(s, at) == 0 || max_degree == 0,
{
}

} // verus!

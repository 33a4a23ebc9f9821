//! The header of a disk index.

use crate::error::CxlError;
use crate::le_bytes::{read_u64, u64_at};
use vstd::prelude::*;

verus! {

/// Bytes of the header that are read.
pub const HEADER_LEN: usize = 104;

/// A degree from here on is taken as a sign of the wrong element size.
pub const DEGREE_LIMIT: usize = 1024;

/// What the header says of an index.
#[derive(Debug, Clone, Copy, PartialEq, Eq, Structural)]
pub struct ParsedHeader {
    pub num_pts: u64,
    pub dims: u64,
    pub medoid: u64,
    pub node_len: u64,
    pub block_size: u64,
    pub associated_data_length: u64,
}

/// A difference, or zero where it would be negative.
pub open spec fn less(a: int, b: int) -> int {
    if a >= b {
        a - b
    } else {
        0
    }
}

impl ParsedHeader {
    /// The header at the start of a file.
    pub open spec fn in_file(file: Seq<u8>) -> ParsedHeader {
        ParsedHeader {
            num_pts: u64_at(file, 8),
            dims: u64_at(file, 16),
            medoid: u64_at(file, 24),
            node_len: u64_at(file, 32),
            block_size: u64_at(file, 88),
            associated_data_length: u64_at(file, 80),
        }
    }

    /// Neighbors for which a node has room, behind its vector, its associated data and the
    /// neighbor count.
    pub open spec fn degree(self, elem_size: int) -> int {
        less(
            less(
                less(self.node_len as int, self.dims * elem_size),
                self.associated_data_length as int,
            ) / 4,
            1,
        )
    }

    /// Whether an element size leaves room for a plausible number of neighbors.
    pub open spec fn plausible(self, elem_size: int) -> bool {
        0 < self.degree(elem_size) < DEGREE_LIMIT
    }

    /// The element size that fits: four bytes where that is plausible, else one where that is,
    /// else four.
    pub open spec fn elem_size(self) -> usize {
        if self.plausible(4) {
            4
        } else if self.plausible(1) {
            1
        } else {
            4
        }
    }

    /// Parses the header at the start of a file.
    pub fn from_bytes(file: &[u8]) -> (result: Result<ParsedHeader, CxlError>)
        ensures
            result == if file@.len() >= HEADER_LEN {
                Ok(Self::in_file(file@))
            } else {
                Err(
                    CxlError::FileTooSmall {
                        size: file@.len() as u128,
                        expected: HEADER_LEN as u128,
                    },
                )
            },
    {
        let size: usize = file.len();
        if size < HEADER_LEN {
            return Err(
                CxlError::FileTooSmall { size: size as u128, expected: HEADER_LEN as u128 },
            );
        }
        Ok(
            ParsedHeader {
                num_pts: read_u64(file, 8),
                dims: read_u64(file, 16),
                medoid: read_u64(file, 24),
                node_len: read_u64(file, 32),
                block_size: read_u64(file, 88),
                associated_data_length: read_u64(file, 80),
            },
        )
    }

    /// The maximum degree, for an element size.
    pub fn max_degree(&self, es: usize) -> (degree: usize)
        requires
            self.node_len <= usize::MAX,
        ensures
            degree == self.degree(es as int),
    {
        proof {
            assert(0 <= self.dims * es <= 0x1_0000_0000_0000_0000 * 0x1_0000_0000_0000_0000
                - 0x1_0000_0000_0000_0000) by (nonlinear_arith)
                requires
                    0 <= self.dims <= 0xffff_ffff_ffff_ffff,
                    0 <= es <= 0xffff_ffff_ffff_ffff,
            ;
        }
        let vector: u128 = (self.dims as u128) * (es as u128);
        let behind_vector: u128 = (self.node_len as u128).saturating_sub(vector);
        let room: u128 = behind_vector.saturating_sub(self.associated_data_length as u128);
        (room / 4).saturating_sub(1) as usize
    }

    /// The element size that the lengths in the header fit.
    pub fn detect_elem_size(&self) -> (es: usize)
        requires
            self.node_len <= usize::MAX,
        ensures
            es == self.elem_size(),
    {
        let d4: usize = self.max_degree(4);
        let d1: usize = self.max_degree(1);
        if d4 > 0 && d4 < DEGREE_LIMIT {
            4
        } else if d1 > 0 && d1 < DEGREE_LIMIT {
            1
        } else {
            4
        }
    }
}

/// The degree that a header gives is the one that its node length was made for: a node of that
/// degree, with its vector and associated data, is read back.
pub proof fn law_degree_reads_back(header: ParsedHeader, elem_size: int, max_degree: nat)
    requires
        elem_size >= 0,
        header.node_len == header.dims * elem_size + header.associated_data_length + 4 + 4
            * max_degree,
    ensures
        header.degree(elem_size) == max_degree,
{
}

/// Smaller elements leave room for at least as many neighbors.
pub proof fn law_smaller_elements_leave_more_room(header: ParsedHeader, a: int, b: int)
    requires
        0 <= a <= b,
    ensures
        header.degree(b) <= header.degree(a),
{
    assert(header.dims * a <= header.dims * b) by (nonlinear_arith)
        requires
            header.dims >= 0,
            a <= b,
    ;
}

/// Where the fields of a header stand in a file.
pub proof fn law_fields_stand_at_their_offsets(file: Seq<u8>)
    ensures
        ParsedHeader::in_file(file).num_pts == u64_at(file, 8),
        ParsedHeader::in_file(file).dims == u64_at(file, 16),
        ParsedHeader::in_file(file).medoid == u64_at(file, 24),
        ParsedHeader::in_file(file).node_len == u64_at(file, 32),
        ParsedHeader::in_file(file).associated_data_length == u64_at(file, 80),
        ParsedHeader::in_file(file).block_size == u64_at(file, 88),
{
}

/// The degree is the most neighbors that a node has room for: with a count and so many
/// neighbors a node fits its length, and with one more it does not. Where there is no room for
/// a count and a neighbor the degree is zero.
pub proof fn law_degree_fills_the_node(header: ParsedHeader, elem_size: int)
    requires
        elem_size >= 0,
    ensures
        ({
            let taken = header.dims * elem_size + header.associated_data_length;
            let degree = header.degree(elem_size);
            &&& degree >= 0
            &&& degree > 0 ==> taken + 4 + 4 * degree <= header.node_len
            &&& taken + 4 + 4 * (degree + 1) > header.node_len
        }),
{
    assert(header.dims * elem_size >= 0) by (nonlinear_arith)
        requires
            elem_size >= 0,
    ;
}

/// Elements are taken to have four bytes, unless only single bytes leave room for at least one
/// and less than 1024 neighbors.
pub proof fn law_element_size_is_the_plausible_one(header: ParsedHeader)
    ensures
        0 < header.degree(4) < 1024 ==> header.elem_size() == 4,
        !(0 < header.degree(4) < 1024) && 0 < header.degree(1) < 1024 ==> header.elem_size() == 1,
        !(0 < header.degree(4) < 1024) && !(0 < header.degree(1) < 1024) ==> header.elem_size()
            == 4,
{
}

} // verus!

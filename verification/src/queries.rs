//! Query files: a count, a dimension, and the query vectors.

use crate::error::CxlError;
use crate::extract::{f32_bits, law_widened_elements, signed_value, widen, widened};
use crate::le_bytes::{copy_range, read_u32, u32_at};
use vstd::arithmetic::div_mod::lemma_fundamental_div_mod;
use vstd::prelude::*;
use vstd::slice::slice_subrange;

verus! {

/// Bytes in front of the queries: their number and their dimension.
pub const QUERY_HEADER_LEN: usize = 8;

/// How the elements of queries are written down.
#[derive(Debug, Clone, Copy, PartialEq, Eq, Structural)]
pub enum QueryFormat {
    Float32,
    Int8,
}

/// The queries of a file.
pub struct QueryTable {
    pub file: Seq<u8>,
    pub num: nat,
    pub dims: nat,
    pub format: QueryFormat,
}

impl QueryTable {
    /// Bytes per query, by the size of the file.
    pub open spec fn bytes_per_query(file: Seq<u8>) -> int {
        (file.len() - QUERY_HEADER_LEN) / (u32_at(file, 0) as int)
    }

    /// The format that the size of a file fits.
    pub open spec fn format_of(file: Seq<u8>) -> Option<QueryFormat> {
        let dims = u32_at(file, 4) as int;
        if Self::bytes_per_query(file) == dims * 4 {
            Some(QueryFormat::Float32)
        } else if Self::bytes_per_query(file) == dims {
            Some(QueryFormat::Int8)
        } else {
            None
        }
    }

    /// Bytes of a query in the file.
    pub open spec fn query_len(self) -> int {
        match self.format {
            QueryFormat::Float32 => 4 * self.dims as int,
            QueryFormat::Int8 => self.dims as int,
        }
    }

    /// A query as `f32` elements.
    pub open spec fn query(self, i: int) -> Seq<u8> {
        let from = QUERY_HEADER_LEN + i * self.query_len();
        let bytes = self.file.subrange(from, from + self.query_len());
        match self.format {
            QueryFormat::Float32 => bytes,
            QueryFormat::Int8 => widened(bytes),
        }
    }
}

/// The queries of a file.
pub struct Queries {
    file: Vec<u8>,
    num: usize,
    dims: usize,
    format: QueryFormat,
}

impl View for Queries {
    type V = QueryTable;

    closed spec fn view(&self) -> QueryTable {
        QueryTable {
            file: self.file@,
            num: self.num as nat,
            dims: self.dims as nat,
            format: self.format,
        }
    }
}

impl Queries {
    /// All queries are in the file.
    pub closed spec fn wf(self) -> bool {
        QUERY_HEADER_LEN + self@.num * self@.query_len() <= self.file@.len()
    }

    /// Takes the contents of a query file. The size of the file tells the element type.
    pub fn from_file(file: Vec<u8>) -> (result: Result<Queries, CxlError>)
        ensures
            match result {
                Ok(queries) => {
                    &&& file@.len() >= QUERY_HEADER_LEN
                    &&& u32_at(file@, 0) > 0
                    &&& queries.wf()
                    &&& queries@.file == file@
                    &&& queries@.num == u32_at(file@, 0)
                    &&& queries@.dims == u32_at(file@, 4)
                    &&& QueryTable::format_of(file@) == Some(queries@.format)
                },
                Err(e) => {
                    if file@.len() < QUERY_HEADER_LEN {
                        e == CxlError::FileTooSmall {
                            size: file@.len() as u128,
                            expected: QUERY_HEADER_LEN as u128,
                        }
                    } else if u32_at(file@, 0) == 0 {
                        e == CxlError::NoQueries
                    } else {
                        &&& QueryTable::format_of(file@) is None
                        &&& e == CxlError::UnknownQueryFormat {
                            bytes: (file@.len() - QUERY_HEADER_LEN) as usize,
                            num: u32_at(file@, 0) as usize,
                            dims: u32_at(file@, 4) as usize,
                        }
                    }
                },
            },
    {
        let size: usize = file.len();
        if size < QUERY_HEADER_LEN {
            return Err(
                CxlError::FileTooSmall { size: size as u128, expected: QUERY_HEADER_LEN as u128 },
            );
        }
        let num: usize = read_u32(file.as_slice(), 0) as usize;
        let dims: usize = read_u32(file.as_slice(), 4) as usize;
        if num == 0 {
            return Err(CxlError::NoQueries);
        }
        let bytes: usize = size - QUERY_HEADER_LEN;
        let per_query: usize = bytes / num;
        proof {
            assert(num * per_query <= bytes) by (nonlinear_arith)
                requires
                    per_query == bytes as int / num as int,
                    num > 0,
                    bytes >= 0,
            ;
        }
        if per_query as u128 == dims as u128 * 4 {
            Ok(Queries { file, num, dims, format: QueryFormat::Float32 })
        } else if per_query == dims {
            Ok(Queries { file, num, dims, format: QueryFormat::Int8 })
        } else {
            Err(CxlError::UnknownQueryFormat { bytes, num, dims })
        }
    }

    /// How many queries there are.
    pub fn len(&self) -> (num: usize)
        ensures
            num == self@.num,
    {
        self.num
    }

    /// Elements of a query.
    pub fn dims(&self) -> (dims: usize)
        ensures
            dims == self@.dims,
    {
        self.dims
    }

    /// How the elements are written down in the file.
    pub fn format(&self) -> (format: QueryFormat)
        ensures
            format == self@.format,
    {
        self.format
    }

    /// A query as `f32` elements.
    pub fn get(&self, i: usize) -> (query: Vec<u8>)
        requires
            self.wf(),
            i < self@.num,
        ensures
            query@ == self@.query(i as int),
    {
        proof {
            assert(self.file@.len() == self.file.len());
            let len = self@.query_len();
            assert(0 <= i * len && i * len + len <= self.num * len) by (nonlinear_arith)
                requires
                    0 <= i,
                    i + 1 <= self.num,
                    len >= 0,
            ;
        }
        let len: usize = match self.format {
            QueryFormat::Float32 => self.dims * 4,
            QueryFormat::Int8 => self.dims,
        };
        let from: usize = QUERY_HEADER_LEN + i * len;
        match self.format {
            QueryFormat::Float32 => copy_range(self.file.as_slice(), from, from + len),
            QueryFormat::Int8 => widen(slice_subrange(self.file.as_slice(), from, from + len)),
        }
    }
}

/// Every query has as many `f32` elements as the file says, whatever its format.
pub proof fn law_queries_have_their_dimension(table: QueryTable, i: int)
    requires
        QUERY_HEADER_LEN + table.num * table.query_len() <= table.file.len(),
        0 <= i < table.num,
    ensures
        table.query(i).len() == table.dims * 4,
{
    let len = table.query_len();
    assert(0 <= i * len && i * len + len <= table.num * len) by (nonlinear_arith)
        requires
            0 <= i,
            i + 1 <= table.num,
            len >= 0,
    ;
}

/// The size of a file tells the type of its elements: with four bytes for each element it
/// holds floats, with one byte for each it holds signed bytes.
pub proof fn law_formats_are_told_by_size(file: Seq<u8>, num: int, dims: int)
    requires
        file.len() >= 8,
        u32_at(file, 0) == num,
        u32_at(file, 4) == dims,
        num > 0,
        dims > 0,
    ensures
        file.len() == 8 + num * (4 * dims) ==> QueryTable::format_of(file) == Some(
            QueryFormat::Float32,
        ),
        file.len() == 8 + num * dims ==> QueryTable::format_of(file) == Some(QueryFormat::Int8),
        QueryTable::format_of(file) == Some(QueryFormat::Float32) ==> num * (4 * dims) <= file.len()
            - 8 < num * (4 * dims) + num,
        QueryTable::format_of(file) == Some(QueryFormat::Int8) ==> num * dims <= file.len() - 8
            < num * dims + num,
        num * (4 * dims) <= file.len() - 8 < num * (4 * dims) + num ==> QueryTable::format_of(file)
            == Some(QueryFormat::Float32),
        num * dims <= file.len() - 8 < num * dims + num ==> QueryTable::format_of(file) == Some(
            QueryFormat::Int8,
        ),
{
    let bytes = file.len() - 8;
    let per = bytes / num;
    lemma_fundamental_div_mod(bytes, num);
    assert(num * per <= bytes < num * per + num);
    lemma_same_quotient(bytes, num, per, 4 * dims);
    lemma_same_quotient(bytes, num, per, dims);
    assert(num * (4 * dims) == num * dims * 4) by (nonlinear_arith);
}

/// A quotient is told by the multiples around the dividend.
proof fn lemma_same_quotient(a: int, b: int, q: int, other: int)
    requires
        b > 0,
        b * q <= a < b * q + b,
    ensures
        b * other <= a < b * other + b <==> q == other,
{
    if b * other <= a < b * other + b {
        assert(q == other) by (nonlinear_arith)
            requires
                b > 0,
                b * q <= a < b * q + b,
                b * other <= a < b * other + b,
        ;
    }
}

/// Queries stand behind the two counts, one after the other. Floats are taken as they stand;
/// of signed bytes, the `d`-th element is the widened byte.
pub proof fn law_queries_stand_in_order(table: QueryTable, i: int)
    requires
        8 + table.num * table.query_len() <= table.file.len(),
        0 <= i < table.num,
    ensures
        table.query(i).len() == 4 * table.dims,
        table.format == QueryFormat::Float32 ==> forall|b: int|
            0 <= b < 4 * table.dims ==> #[trigger] table.query(i)[b] == table.file[8 + i * (4
                * table.dims) + b],
        table.format == QueryFormat::Int8 ==> forall|d: int|
            0 <= d < table.dims ==> #[trigger] u32_at(table.query(i), 4 * d) == f32_bits(
                signed_value(table.file[8 + i * table.dims + d]),
            ),
{
    law_queries_have_their_dimension(table, i);
    let len = table.query_len();
    assert(0 <= i * len && i * len + len <= table.num * len) by (nonlinear_arith)
        requires
            0 <= i,
            i + 1 <= table.num,
            len >= 0,
    ;
    if table.format == QueryFormat::Int8 {
        let from = 8 + i * len;
        let bytes = table.file.subrange(from, from + len);
        assert forall|d: int| 0 <= d < table.dims implies #[trigger] u32_at(
            table.query(i),
            4 * d,
        ) == f32_bits(signed_value(table.file[8 + i * table.dims + d])) by {
            law_widened_elements(bytes, d);
            assert(bytes[d] == table.file[from + d]);
        }
    }
}

} // verus!

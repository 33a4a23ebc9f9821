//! Splitting a disk index into one buffer of vectors and one of neighbor lists.
//!
//! Vectors of one-byte elements are widened to `f32` on the way.

use crate::cxl_sector_graph::{
    law_nodes_do_not_overlap, lemma_offset_not_negative, node_len_of, NodeLayout,
    NodeOffsetCalculator,
};
use crate::cxl_vertex_provider::NodeTable;
use crate::le_bytes::{
    law_u32_read_back, lemma_u32_at_subrange, push_u32, u32_at, u32_bytes,
};
use crate::node_record::{adjacency_at, degree_at};
use crate::searchable_index::SplitTable;
use vstd::arithmetic::power2::{lemma2_to64, pow2};
use vstd::prelude::*;
use vstd::slice::slice_subrange;

verus! {

/// The value of a byte as a signed integer.
pub open spec fn signed_value(b: u8) -> int {
    if b < 128 {
        b as int
    } else {
        b - 256
    }
}

/// The distance of a small integer from zero.
pub open spec fn magnitude(v: int) -> int {
    if v < 0 {
        -v
    } else {
        v
    }
}

/// Two to the place of the highest bit of a number from 1 to 255.
pub open spec fn top_power(m: int) -> int {
    if m >= 128 {
        128
    } else if m >= 64 {
        64
    } else if m >= 32 {
        32
    } else if m >= 16 {
        16
    } else if m >= 8 {
        8
    } else if m >= 4 {
        4
    } else if m >= 2 {
        2
    } else {
        1
    }
}

/// The place of the highest bit of a number from 1 to 255.
pub open spec fn top_place(m: int) -> int {
    if m >= 128 {
        7
    } else if m >= 64 {
        6
    } else if m >= 32 {
        5
    } else if m >= 16 {
        4
    } else if m >= 8 {
        3
    } else if m >= 4 {
        2
    } else if m >= 2 {
        1
    } else {
        0
    }
}

/// The bits of the `f32` with the value of a small integer: sign, biased exponent, fraction.
pub open spec fn f32_bits(v: int) -> u32 {
    let m = magnitude(v);
    if m == 0 {
        0
    } else {
        ((if v < 0 {
            0x8000_0000int
        } else {
            0
        }) + (127 + top_place(m)) * 0x80_0000 + (m - top_power(m)) * (0x80_0000int / top_power(
            m,
        ))) as u32
    }
}

/// The fraction fits its field, and with the hidden bit it has the value.
proof fn lemma_fraction(m: int)
    requires
        1 <= m <= 128,
    ensures
        ({
            let p = top_power(m);
            let f = (m - p) * (0x80_0000int / p);
            &&& p <= m
            &&& 0 <= f < 0x80_0000
            &&& (0x80_0000 + f) * p == m * 0x80_0000
        }),
{
    let p = top_power(m);
    let step = 0x80_0000int / p;
    assert(step * p == 0x80_0000 && step > 0) by {
        assert(0x80_0000int / 128 == 65536 && 0x80_0000int / 64 == 131072 && 0x80_0000int / 32
            == 262144 && 0x80_0000int / 16 == 524288 && 0x80_0000int / 8 == 1048576
            && 0x80_0000int / 4 == 2097152 && 0x80_0000int / 2 == 4194304 && 0x80_0000int / 1
            == 8388608);
    }
    let f = (m - p) * step;
    assert(0 <= f < 0x80_0000 && (0x80_0000 + f) * p == m * 0x80_0000) by (nonlinear_arith)
        requires
            step * p == 0x80_0000,
            step > 0,
            p <= m < 2 * p,
            f == (m - p) * step,
    ;
}

/// The bits of a small integer are those of a number with its sign and its magnitude: the
/// fraction, with its hidden bit, scaled by the exponent.
pub proof fn law_f32_bits_have_the_value(v: int)
    requires
        -128 <= v <= 127,
        v != 0,
    ensures
        ({
            let bits = f32_bits(v) as int;
            let negative = bits >= 0x8000_0000;
            let exponent = bits % 0x8000_0000 / 0x80_0000;
            let fraction = bits % 0x80_0000;
            let scale = top_power(magnitude(v));
            &&& negative == (v < 0)
            &&& exponent == 127 + top_place(magnitude(v))
            &&& (0x80_0000 + fraction) * scale == magnitude(v) * 0x80_0000
        }),
{
    let m = magnitude(v);
    let p = top_power(m);
    let e = top_place(m);
    let f = (m - p) * (0x80_0000int / p);
    lemma_fraction(m);
    let s = if v < 0 {
        0x8000_0000int
    } else {
        0
    };
    assert(f32_bits(v) == s + (127 + e) * 0x80_0000 + f);
}

/// The bits of the `f32` with the value of a signed byte.
pub fn widened_bits(b: u8) -> (bits: u32)
    ensures
        bits == f32_bits(signed_value(b)),
{
    let negative: bool = b >= 128;
    let m: u32 = if negative {
        256 - b as u32
    } else {
        b as u32
    };
    if m == 0 {
        return 0;
    }
    let mut power: u32 = 1;
    let mut place: u32 = 0;
    if m >= 128 {
        power = 128;
        place = 7;
    } else if m >= 64 {
        power = 64;
        place = 6;
    } else if m >= 32 {
        power = 32;
        place = 5;
    } else if m >= 16 {
        power = 16;
        place = 4;
    } else if m >= 8 {
        power = 8;
        place = 3;
    } else if m >= 4 {
        power = 4;
        place = 2;
    } else if m >= 2 {
        power = 2;
        place = 1;
    }
    proof {
        lemma_fraction(m as int);
    }
    let fraction: u32 = (m - power) * (0x80_0000 / power);
    let sign: u32 = if negative {
        0x8000_0000
    } else {
        0
    };
    sign + (127 + place) * 0x80_0000 + fraction
}

/// Bytes as `f32` elements: each byte, as a signed integer, in four bytes.
pub open spec fn widened(bytes: Seq<u8>) -> Seq<u8> {
    Seq::new(
        bytes.len() * 4,
        |i: int| u32_bytes(f32_bits(signed_value(bytes[i / 4])))[i % 4],
    )
}

/// Widens signed bytes to `f32` elements.
pub fn widen(bytes: &[u8]) -> (out: Vec<u8>)
    ensures
        out@ == widened(bytes@),
{
    let mut out: Vec<u8> = Vec::new();
    for i in 0..bytes.len()
        invariant
            out@ == widened(bytes@.take(i as int)),
    {
        push_u32(&mut out, widened_bits(bytes[i]));
        proof {
            let next = widened(bytes@.take(i + 1));
            assert forall|j: int| 0 <= j < next.len() implies out@[j] == next[j] by {
                assert(bytes@.take(i + 1)[j / 4] == bytes@[j / 4]);
                if j < 4 * i {
                    assert(bytes@.take(i as int)[j / 4] == bytes@[j / 4]);
                }
            }
            assert(out@ =~= next);
        }
    }
    assert(bytes@.take(bytes@.len() as int) =~= bytes@);
    out
}

/// How many records are copied between two reports of progress.
pub const PROGRESS_STEP: usize = 10_000_000;

/// The sizes of an index once it is split.
#[derive(Debug, Clone, Copy, PartialEq, Eq, Structural)]
pub struct SplitPlan {
    pub num_points: usize,
    pub dims: usize,
    /// Bytes of an element in the disk index.
    pub elem_size: usize,
    /// Bytes of a vector in the disk index.
    pub src_vec_bytes: usize,
    /// Bytes of a vector of `f32` elements.
    pub dst_vec_bytes: usize,
    /// Bytes of a neighbor list, with its count.
    pub graph_stride: usize,
    /// Bytes of all vectors.
    pub vectors_len: usize,
    /// Bytes of all neighbor lists.
    pub graph_len: usize,
}

impl SplitPlan {
    /// Whether all sizes can be counted.
    pub open spec fn countable(
        num_points: usize,
        dims: usize,
        max_degree: usize,
        elem_size: usize,
    ) -> bool {
        &&& dims * elem_size <= usize::MAX
        &&& dims * 4 <= usize::MAX
        &&& 4 + max_degree * 4 <= usize::MAX
        &&& num_points * (dims * 4) <= usize::MAX
        &&& num_points * (4 + max_degree * 4) <= usize::MAX
    }

    /// The sizes for a number of points.
    pub open spec fn of(
        num_points: usize,
        dims: usize,
        max_degree: usize,
        elem_size: usize,
    ) -> SplitPlan {
        SplitPlan {
            num_points,
            dims,
            elem_size,
            src_vec_bytes: (dims * elem_size) as usize,
            dst_vec_bytes: (dims * 4) as usize,
            graph_stride: (4 + max_degree * 4) as usize,
            vectors_len: (num_points * (dims * 4)) as usize,
            graph_len: (num_points * (4 + max_degree * 4)) as usize,
        }
    }

    /// Computes the sizes; none where one of them cannot be counted.
    pub fn new(num_points: usize, dims: usize, max_degree: usize, elem_size: usize) -> (plan:
        Option<SplitPlan>)
        ensures
            plan == if Self::countable(num_points, dims, max_degree, elem_size) {
                Some(Self::of(num_points, dims, max_degree, elem_size))
            } else {
                None
            },
    {
        let src_vec_bytes: usize = match dims.checked_mul(elem_size) {
            Some(n) => n,
            None => return None,
        };
        let dst_vec_bytes: usize = match dims.checked_mul(4) {
            Some(n) => n,
            None => return None,
        };
        let lists: usize = match max_degree.checked_mul(4) {
            Some(n) => n,
            None => return None,
        };
        let graph_stride: usize = match lists.checked_add(4) {
            Some(n) => n,
            None => return None,
        };
        let vectors_len: usize = match num_points.checked_mul(dst_vec_bytes) {
            Some(n) => n,
            None => return None,
        };
        let graph_len: usize = match num_points.checked_mul(graph_stride) {
            Some(n) => n,
            None => return None,
        };
        Some(
            SplitPlan {
                num_points,
                dims,
                elem_size,
                src_vec_bytes,
                dst_vec_bytes,
                graph_stride,
                vectors_len,
                graph_len,
            },
        )
    }
}

/// The vector of a record, as `f32` elements.
pub open spec fn vector_out(index: Seq<u8>, at: int, plan: SplitPlan) -> Seq<u8> {
    if plan.elem_size == 4 {
        index.subrange(at, at + plan.dst_vec_bytes)
    } else {
        widened(index.subrange(at, at + plan.dims))
    }
}

/// The neighbor list of a record, with its count.
pub open spec fn list_out(index: Seq<u8>, at: int, plan: SplitPlan) -> Seq<u8> {
    index.subrange(at + plan.src_vec_bytes, at + plan.src_vec_bytes + plan.graph_stride)
}

/// How many of the first `n` records are whole: all in front of the first that reaches past
/// the end.
pub open spec fn whole_records(len: int, layout: NodeLayout, n: nat) -> nat
    decreases n,
{
    if n == 0 {
        0
    } else if layout.node_offset(n - 1) + layout.raw_node_len <= len {
        n
    } else {
        whole_records(len, layout, (n - 1) as nat)
    }
}

/// Whether a buffer holds pieces of one size, one after the other, and is as it was behind
/// them.
pub open spec fn holds_pieces(
    before: Seq<u8>,
    after: Seq<u8>,
    size: int,
    count: int,
    piece: spec_fn(int) -> Seq<u8>,
) -> bool {
    &&& after.len() == before.len()
    &&& forall|i: int|
        0 <= i < count ==> #[trigger] after.subrange(i * size, i * size + size) == piece(i)
    &&& after.skip(count * size) == before.skip(count * size)
}

/// Records in front of a whole one are whole.
proof fn lemma_whole_records(len: int, layout: NodeLayout, n: nat, i: int)
    requires
        layout.wf(),
        0 <= i <= n,
        i > 0 ==> layout.node_offset(i - 1) + layout.raw_node_len <= len,
        i < n ==> layout.node_offset(i) + layout.raw_node_len > len,
    ensures
        whole_records(len, layout, n) == i,
    decreases n,
{
    if i < n {
        if i < n - 1 {
            law_nodes_do_not_overlap(layout, i, n - 1);
        }
        if n - 1 > i {
            lemma_whole_records(len, layout, (n - 1) as nat, i);
        } else {
            assert(whole_records(len, layout, i as nat) == i);
        }
    }
}

/// One more piece behind those that are there.
proof fn lemma_one_more_piece(
    before: Seq<u8>,
    mid: Seq<u8>,
    after: Seq<u8>,
    size: int,
    count: int,
    piece: spec_fn(int) -> Seq<u8>,
)
    requires
        size >= 0,
        count >= 0,
        holds_pieces(before, mid, size, count, piece),
        count * size + size <= before.len(),
        piece(count).len() == size,
        after == mid.take(count * size) + piece(count) + mid.skip(count * size + size),
    ensures
        holds_pieces(before, after, size, count + 1, piece),
{
    assert((count + 1) * size == count * size + size) by (nonlinear_arith);
    assert(0 <= count * size) by (nonlinear_arith)
        requires
            count >= 0,
            size >= 0,
    ;
    assert(after.len() == mid.len());
    assert forall|i: int| 0 <= i < count + 1 implies #[trigger] after.subrange(
        i * size,
        i * size + size,
    ) == piece(i) by {
        if i < count {
            assert(0 <= i * size && i * size + size <= count * size) by (nonlinear_arith)
                requires
                    0 <= i,
                    i + 1 <= count,
                    size >= 0,
            ;
            assert(after.subrange(i * size, i * size + size) =~= mid.subrange(
                i * size,
                i * size + size,
            ));
        } else {
            assert(after.subrange(count * size, count * size + size) =~= piece(count));
        }
    }
    assert(after.skip(count * size + size) =~= mid.skip(count * size + size));
    assert(mid.skip(count * size + size) =~= mid.skip(count * size).skip(size));
    assert(before.skip(count * size + size) =~= before.skip(count * size).skip(size));
}

/// Overwrites a part of a buffer.
fn write_at(out: &mut [u8], at: usize, src: &[u8])
    requires
        at + src@.len() <= old(out)@.len(),
    ensures
        final(out)@ == old(out)@.take(at as int) + src@ + old(out)@.skip(at + src@.len()),
{
    let total: usize = out.len();
    let mut i: usize = 0;
    while i < src.len()
        invariant
            i <= src@.len(),
            at + src@.len() <= total,
            total == out@.len(),
            total == old(out)@.len(),
            out@ =~= old(out)@.take(at as int) + src@.take(i as int) + old(out)@.skip(at + i),
        decreases src@.len() - i,
    {
        out[at + i] = src[i];
        i += 1;
    }
    assert(src@.take(src@.len() as int) =~= src@);
}

/// Copies the records of a disk index into a buffer of vectors and a buffer of neighbor
/// lists, up to the first record that the index does not hold whole. Gives the number of
/// records copied. Every `PROGRESS_STEP` records, `progress` is told how many are done.
pub fn extract_nodes<P: Fn(usize)>(
    index: &[u8],
    offsets: &NodeOffsetCalculator,
    max_degree: usize,
    plan: &SplitPlan,
    vectors: &mut [u8],
    graph: &mut [u8],
    progress: &P,
) -> (count: usize)
    requires
        forall|i: usize| i < plan.num_points ==> #[trigger] (*progress).requires((i,)),
        plan.num_points <= u32::MAX + 1,
        plan.elem_size > 0,
        SplitPlan::countable(plan.num_points, plan.dims, max_degree, plan.elem_size),
        *plan == SplitPlan::of(plan.num_points, plan.dims, max_degree, plan.elem_size),
        offsets@.raw_node_len == node_len_of(plan.src_vec_bytes as int, max_degree as int),
        old(vectors)@.len() >= plan.vectors_len,
        old(graph)@.len() >= plan.graph_len,
    ensures
        count == whole_records(index@.len() as int, offsets@, plan.num_points as nat),
        holds_pieces(
            old(vectors)@,
            final(vectors)@,
            plan.dst_vec_bytes as int,
            count as int,
            |i: int| vector_out(index@, offsets@.node_offset(i), *plan),
        ),
        holds_pieces(
            old(graph)@,
            final(graph)@,
            plan.graph_stride as int,
            count as int,
            |i: int| list_out(index@, offsets@.node_offset(i), *plan),
        ),
{
    let len: usize = index.len();
    let raw: usize = offsets.raw_node_len();
    let ghost vec_piece = |i: int| vector_out(index@, offsets@.node_offset(i), *plan);
    let ghost list_piece = |i: int| list_out(index@, offsets@.node_offset(i), *plan);
    assert(vectors@.skip(0) =~= old(vectors)@.skip(0));
    let mut i: usize = 0;
    while i < plan.num_points
        invariant_except_break
            i > 0 ==> offsets@.node_offset(i - 1) + raw <= len,
        invariant
            i <= plan.num_points <= u32::MAX + 1,
            forall|j: usize| j < plan.num_points ==> #[trigger] (*progress).requires((j,)),
            plan.elem_size > 0,
            SplitPlan::countable(plan.num_points, plan.dims, max_degree, plan.elem_size),
            *plan == SplitPlan::of(plan.num_points, plan.dims, max_degree, plan.elem_size),
            len == index@.len(),
            raw == offsets@.raw_node_len,
            raw == node_len_of(plan.src_vec_bytes as int, max_degree as int),
            offsets@.wf(),
            old(vectors)@.len() >= plan.vectors_len,
            old(graph)@.len() >= plan.graph_len,
            vec_piece == (|j: int| vector_out(index@, offsets@.node_offset(j), *plan)),
            list_piece == (|j: int| list_out(index@, offsets@.node_offset(j), *plan)),
            holds_pieces(
                old(vectors)@,
                vectors@,
                plan.dst_vec_bytes as int,
                i as int,
                vec_piece,
            ),
            holds_pieces(old(graph)@, graph@, plan.graph_stride as int, i as int, list_piece),
        ensures
            i == whole_records(len as int, offsets@, plan.num_points as nat),
        decreases plan.num_points - i,
    {
        let at: usize = match offsets.checked_node_offset(i as u32) {
            Some(at) => at,
            None => {
                proof {
                    lemma_whole_records(
                        len as int,
                        offsets@,
                        plan.num_points as nat,
                        i as int,
                    );
                }
                break;
            },
        };
        if raw > len || at > len - raw {
            proof {
                lemma_whole_records(len as int, offsets@, plan.num_points as nat, i as int);
            }
            break;
        }
        let ghost vectors_before = vectors@;
        let ghost graph_before = graph@;
        proof {
            assert(i * plan.dst_vec_bytes + plan.dst_vec_bytes <= plan.num_points * (plan.dims * 4))
                by (nonlinear_arith)
                requires
                    i + 1 <= plan.num_points,
                    plan.dst_vec_bytes == plan.dims * 4,
            ;
            assert(i * plan.graph_stride + plan.graph_stride <= plan.num_points * (4 + max_degree
                * 4)) by (nonlinear_arith)
                requires
                    i + 1 <= plan.num_points,
                    plan.graph_stride == 4 + max_degree * 4,
            ;
            assert(plan.dims <= plan.dims * plan.elem_size) by (nonlinear_arith)
                requires
                    plan.elem_size >= 1,
                    plan.dims >= 0,
            ;
        }
        if plan.elem_size == 4 {
            write_at(
                vectors,
                i * plan.dst_vec_bytes,
                slice_subrange(index, at, at + plan.dst_vec_bytes),
            );
        } else {
            let wide = widen(slice_subrange(index, at, at + plan.dims));
            write_at(vectors, i * plan.dst_vec_bytes, wide.as_slice());
        }
        let list_at: usize = at + plan.src_vec_bytes;
        write_at(
            graph,
            i * plan.graph_stride,
            slice_subrange(index, list_at, list_at + plan.graph_stride),
        );
        proof {
            lemma_one_more_piece(
                old(vectors)@,
                vectors_before,
                vectors@,
                plan.dst_vec_bytes as int,
                i as int,
                vec_piece,
            );
            lemma_one_more_piece(
                old(graph)@,
                graph_before,
                graph@,
                plan.graph_stride as int,
                i as int,
                list_piece,
            );
        }
        if i > 0 && i % PROGRESS_STEP == 0 {
            progress(i);
        }
        i += 1;
        proof {
            if i == plan.num_points {
                lemma_whole_records(len as int, offsets@, plan.num_points as nat, i as int);
            }
        }
    }
    i
}

/// A split index holds what the disk index holds: each copied node has its neighbors, and its
/// vector as `f32` elements.
pub proof fn law_split_index_agrees(
    index: Seq<u8>,
    layout: NodeLayout,
    max_degree: usize,
    plan: SplitPlan,
    count: int,
    before: SplitTable,
    after: SplitTable,
    id: u32,
)
    requires
        SplitPlan::countable(plan.num_points, plan.dims, max_degree, plan.elem_size),
        plan == SplitPlan::of(plan.num_points, plan.dims, max_degree, plan.elem_size),
        layout.wf(),
        layout.raw_node_len == node_len_of(plan.src_vec_bytes as int, max_degree as int),
        count == whole_records(index.len() as int, layout, plan.num_points as nat),
        after.vector_bytes == plan.dst_vec_bytes,
        after.graph_stride == plan.graph_stride,
        after.max_degree == max_degree,
        after.vectors.len() >= plan.vectors_len,
        after.graph.len() >= plan.graph_len,
        holds_pieces(
            before.vectors,
            after.vectors,
            plan.dst_vec_bytes as int,
            count,
            |i: int| vector_out(index, layout.node_offset(i), plan),
        ),
        holds_pieces(
            before.graph,
            after.graph,
            plan.graph_stride as int,
            count,
            |i: int| list_out(index, layout.node_offset(i), plan),
        ),
        id < count,
    ensures
        after.has_vector(id),
        after.has_list(id),
        after.vector(id) == vector_out(index, layout.node_offset(id as int), plan),
        after.adjacency(id) == adjacency_at(
            index,
            layout.node_offset(id as int) + plan.src_vec_bytes,
            max_degree as int,
        ),
{
    let at = layout.node_offset(id as int);
    let list_at = at + plan.src_vec_bytes;
    let stride = plan.graph_stride as int;
    let from = id * stride;
    lemma_whole_bound(index.len() as int, layout, plan.num_points as nat);
    lemma_offset_not_negative(layout, id as int);
    if id < count - 1 {
        law_nodes_do_not_overlap(layout, id as int, count - 1);
    }
    assert(id * plan.dst_vec_bytes + plan.dst_vec_bytes <= plan.num_points * (plan.dims * 4))
        by (nonlinear_arith)
        requires
            id + 1 <= plan.num_points,
            plan.dst_vec_bytes == plan.dims * 4,
    ;
    assert(0 <= id * stride && id * stride + stride <= plan.num_points * (4 + max_degree * 4))
        by (nonlinear_arith)
        requires
            id + 1 <= plan.num_points,
            id >= 0,
            stride == 4 + max_degree * 4,
    ;
    let size = plan.dst_vec_bytes as int;
    assert(after.vectors.subrange(id * size, id * size + size) == vector_out(index, at, plan));
    let copied = after.graph.subrange(from, from + stride);
    let source = index.subrange(list_at, list_at + stride);
    assert(copied == source);
    assert forall|k: int| 0 <= k && k + 4 <= stride implies #[trigger] u32_at(
        after.graph,
        from + k,
    ) == u32_at(index, list_at + k) by {
        lemma_u32_at_subrange(after.graph, from, from + stride, k);
        lemma_u32_at_subrange(index, list_at, list_at + stride, k);
    }
    assert(u32_at(after.graph, from + 0) == u32_at(index, list_at + 0));
    let degree = degree_at(index, list_at, max_degree as int);
    assert forall|j: int| 0 <= j < degree implies #[trigger] u32_at(after.graph, from + 4 + 4 * j)
        == u32_at(index, list_at + 4 + 4 * j) by {
        let k = 4 + 4 * j;
        assert(u32_at(after.graph, from + k) == u32_at(index, list_at + k));
    }
    assert(after.adjacency(id) =~= adjacency_at(index, list_at, max_degree as int));
}

/// Where the elements are `f32` already, the nodes of a split index are those of the disk index,
/// vector for vector and neighbor for neighbor.
pub proof fn law_split_keeps_f32_nodes(
    table: NodeTable,
    max_degree: usize,
    plan: SplitPlan,
    count: int,
    before: SplitTable,
    after: SplitTable,
    id: u32,
)
    requires
        plan.elem_size == 4,
        table.vector_bytes == plan.src_vec_bytes,
        table.max_degree == max_degree,
        SplitPlan::countable(plan.num_points, plan.dims, max_degree, plan.elem_size),
        plan == SplitPlan::of(plan.num_points, plan.dims, max_degree, plan.elem_size),
        table.layout.wf(),
        table.layout.raw_node_len == node_len_of(plan.src_vec_bytes as int, max_degree as int),
        count == whole_records(table.bytes.len() as int, table.layout, plan.num_points as nat),
        after.vector_bytes == plan.dst_vec_bytes,
        after.graph_stride == plan.graph_stride,
        after.max_degree == max_degree,
        after.vectors.len() >= plan.vectors_len,
        after.graph.len() >= plan.graph_len,
        holds_pieces(
            before.vectors,
            after.vectors,
            plan.dst_vec_bytes as int,
            count,
            |i: int| vector_out(table.bytes, table.layout.node_offset(i), plan),
        ),
        holds_pieces(
            before.graph,
            after.graph,
            plan.graph_stride as int,
            count,
            |i: int| list_out(table.bytes, table.layout.node_offset(i), plan),
        ),
        id < count,
    ensures
        after.vector(id) == table.vector(id),
        after.adjacency(id) == table.adjacency(id),
{
    law_split_index_agrees(
        table.bytes,
        table.layout,
        max_degree,
        plan,
        count,
        before,
        after,
        id,
    );
}

/// The last whole record ends within the index.
proof fn lemma_whole_bound(len: int, layout: NodeLayout, n: nat)
    ensures
        whole_records(len, layout, n) <= n,
        whole_records(len, layout, n) > 0 ==> layout.node_offset(whole_records(len, layout, n) - 1)
            + layout.raw_node_len <= len,
    decreases n,
{
    if n > 0 {
        lemma_whole_bound(len, layout, (n - 1) as nat);
    }
}

/// A signed byte widens to the `f32` of its value: zero to zero, and any other value to its
/// sign, the exponent of its highest bit, and the fraction that is left of it.
pub proof fn law_widened_bytes_keep_their_value(b: u8, e: nat)
    requires
        e <= 7,
    ensures
        ({
            let v = if b < 128 {
                b as int
            } else {
                b - 256
            };
            let size = if v < 0 {
                -v
            } else {
                v
            };
            let bits = f32_bits(signed_value(b)) as int;
            let sign = if v < 0 {
                0x8000_0000int
            } else {
                0
            };
            let fraction = bits - sign - (127 + e) * 0x80_0000;
            &&& v == 0 ==> bits == 0
            &&& pow2(e) <= size < 2 * pow2(e) ==> {
                &&& 0 <= fraction < 0x80_0000
                &&& (0x80_0000 + fraction) * pow2(e) == size * 0x80_0000
            }
        }),
{
    lemma2_to64();
    let v = signed_value(b);
    if v != 0 {
        let m = magnitude(v);
        lemma_fraction(m);
        assert(pow2(e) <= m < 2 * pow2(e) ==> pow2(e) == top_power(m) && e == top_place(m));
        assert((127 + top_place(m)) * 0x80_0000 <= 134 * 0x80_0000);
    }
}

/// The sizes of a split index, from its shape.
pub proof fn law_split_sizes_follow_the_shape(
    num_points: usize,
    dims: usize,
    max_degree: usize,
    elem_size: usize,
)
    requires
        SplitPlan::countable(num_points, dims, max_degree, elem_size),
    ensures
        ({
            let plan = SplitPlan::of(num_points, dims, max_degree, elem_size);
            &&& plan.num_points == num_points
            &&& plan.dims == dims
            &&& plan.elem_size == elem_size
            &&& plan.src_vec_bytes == elem_size * dims
            &&& plan.dst_vec_bytes == 4 * dims
            &&& plan.graph_stride == 4 + 4 * max_degree
            &&& plan.vectors_len == num_points * (4 * dims)
            &&& plan.graph_len == num_points * (4 + 4 * max_degree)
        }),
{
    assert(dims * elem_size == elem_size * dims) by (nonlinear_arith);
    assert(num_points * (dims * 4) == num_points * (4 * dims)) by (nonlinear_arith);
    assert(num_points * (4 + max_degree * 4) == num_points * (4 + 4 * max_degree))
        by (nonlinear_arith);
}

/// The shapes whose sizes can be counted are those where no size exceeds the address space.
pub proof fn law_countable_shapes_fit(
    num_points: usize,
    dims: usize,
    max_degree: usize,
    elem_size: usize,
)
    ensures
        SplitPlan::countable(num_points, dims, max_degree, elem_size) <==> {
            &&& elem_size * dims <= usize::MAX
            &&& 4 * dims <= usize::MAX
            &&& 4 + 4 * max_degree <= usize::MAX
            &&& num_points * (4 * dims) <= usize::MAX
            &&& num_points * (4 + 4 * max_degree) <= usize::MAX
        },
{
    assert(dims * elem_size == elem_size * dims) by (nonlinear_arith);
    assert(num_points * (dims * 4) == num_points * (4 * dims)) by (nonlinear_arith);
    assert(num_points * (4 + max_degree * 4) == num_points * (4 + 4 * max_degree))
        by (nonlinear_arith);
}

/// Records are copied up to the first that reaches past the end: all that are copied end
/// within the index, and the next one does not.
pub proof fn law_whole_records_are_copied(len: int, layout: NodeLayout, n: nat)
    requires
        layout.wf(),
    ensures
        whole_records(len, layout, n) <= n,
        forall|i: int|
            0 <= i < whole_records(len, layout, n) ==> #[trigger] layout.node_offset(i)
                + layout.raw_node_len <= len,
        whole_records(len, layout, n) < n ==> layout.node_offset(
            whole_records(len, layout, n) as int,
        ) + layout.raw_node_len > len,
    decreases n,
{
    lemma_whole_bound(len, layout, n);
    let count = whole_records(len, layout, n) as int;
    assert forall|i: int| 0 <= i < count implies #[trigger] layout.node_offset(i)
        + layout.raw_node_len <= len by {
        if i < count - 1 {
            law_nodes_do_not_overlap(layout, i, count - 1);
        }
    }
    if n > 0 && count < n {
        law_whole_records_are_copied(len, layout, (n - 1) as nat);
    }
}

/// What a split leaves in its buffers, byte for byte. The `f32` elements of a node are copied
/// as they stand; of one-byte elements, the `d`-th is the widened byte `d` behind the start of
/// the record. The neighbor list is copied with its count. Behind the copied nodes the buffers
/// are as they were.
pub proof fn law_split_copies_every_element(
    index: Seq<u8>,
    layout: NodeLayout,
    max_degree: usize,
    plan: SplitPlan,
    count: int,
    before: SplitTable,
    after: SplitTable,
)
    requires
        plan.elem_size > 0,
        SplitPlan::countable(plan.num_points, plan.dims, max_degree, plan.elem_size),
        plan == SplitPlan::of(plan.num_points, plan.dims, max_degree, plan.elem_size),
        layout.wf(),
        layout.raw_node_len == plan.dims * plan.elem_size + 4 + 4 * max_degree,
        count == whole_records(index.len() as int, layout, plan.num_points as nat),
        before.vectors.len() >= plan.vectors_len,
        before.graph.len() >= plan.graph_len,
        holds_pieces(
            before.vectors,
            after.vectors,
            plan.dst_vec_bytes as int,
            count,
            |i: int| vector_out(index, layout.node_offset(i), plan),
        ),
        holds_pieces(
            before.graph,
            after.graph,
            plan.graph_stride as int,
            count,
            |i: int| list_out(index, layout.node_offset(i), plan),
        ),
    ensures
        after.vectors.len() == before.vectors.len(),
        after.graph.len() == before.graph.len(),
        plan.elem_size == 4 ==> forall|i: int, b: int|
            0 <= i < count && 0 <= b < 4 * plan.dims ==> #[trigger] after.vectors[i * (4
                * plan.dims) + b] == index[layout.node_offset(i) + b],
        plan.elem_size != 4 ==> forall|i: int, d: int|
            0 <= i < count && 0 <= d < plan.dims ==> #[trigger] u32_at(
                after.vectors,
                i * (4 * plan.dims) + 4 * d,
            ) == f32_bits(signed_value(index[layout.node_offset(i) + d])),
        forall|i: int, b: int|
            0 <= i < count && 0 <= b < 4 + 4 * max_degree ==> #[trigger] after.graph[i * (4 + 4
                * max_degree) + b] == index[layout.node_offset(i) + plan.dims * plan.elem_size
                + b],
        forall|x: int|
            count * (4 * plan.dims) <= x < before.vectors.len() ==> #[trigger] after.vectors[x]
                == before.vectors[x],
        forall|x: int|
            count * (4 + 4 * max_degree) <= x < before.graph.len() ==> #[trigger] after.graph[x]
                == before.graph[x],
{
    let size = plan.dst_vec_bytes as int;
    let stride = plan.graph_stride as int;
    let dims = plan.dims as int;
    law_split_sizes_follow_the_shape(plan.num_points, plan.dims, max_degree, plan.elem_size);
    law_whole_records_are_copied(index.len() as int, layout, plan.num_points as nat);
    assert(dims * plan.elem_size >= dims) by (nonlinear_arith)
        requires
            plan.elem_size >= 1,
            dims >= 0,
    ;
    assert(plan.dims * plan.elem_size == plan.elem_size * plan.dims) by (nonlinear_arith);
    assert forall|i: int| 0 <= i < count implies {
        &&& 0 <= layout.node_offset(i)
        &&& layout.node_offset(i) + layout.raw_node_len <= index.len()
        &&& 0 <= i * size
        &&& i * size + size <= count * size
        &&& 0 <= i * stride
        &&& i * stride + stride <= count * stride
    } by {
        lemma_offset_not_negative(layout, i);
        lemma_piece_bounds(i, count, size);
        lemma_piece_bounds(i, count, stride);
        assert(layout.node_offset(i) + layout.raw_node_len <= index.len());
    }
    lemma_piece_total(count, plan.num_points as int, size);
    lemma_piece_total(count, plan.num_points as int, stride);
    if plan.elem_size == 4 {
        assert forall|i: int, b: int| 0 <= i < count && 0 <= b < 4 * plan.dims implies
            #[trigger] after.vectors[i * (4 * plan.dims) + b] == index[layout.node_offset(i) + b] by {
            lemma_offset_not_negative(layout, i);
            lemma_piece_bounds(i, count, size);
            let at = layout.node_offset(i);
            assert(after.vectors.subrange(i * size, i * size + size) == vector_out(index, at, plan));
            assert(after.vectors.subrange(i * size, i * size + size)[b] == after.vectors[i * size
                + b]);
            assert(index.subrange(at, at + size)[b] == index[at + b]);
        }
    } else {
        assert forall|i: int, d: int| 0 <= i < count && 0 <= d < plan.dims implies
            #[trigger] u32_at(after.vectors, i * (4 * plan.dims) + 4 * d) == f32_bits(
            signed_value(index[layout.node_offset(i) + d]),
        ) by {
            lemma_offset_not_negative(layout, i);
            lemma_piece_bounds(i, count, size);
            let at = layout.node_offset(i);
            let piece = after.vectors.subrange(i * size, i * size + size);
            assert(piece == vector_out(index, at, plan));
            law_widened_elements(index.subrange(at, at + dims), d);
            lemma_u32_at_subrange(after.vectors, i * size, i * size + size, 4 * d);
            assert(index.subrange(at, at + dims)[d] == index[at + d]);
        }
    }
    assert forall|i: int, b: int| 0 <= i < count && 0 <= b < 4 + 4 * max_degree implies
        #[trigger] after.graph[i * (4 + 4 * max_degree) + b] == index[layout.node_offset(i)
        + plan.dims * plan.elem_size + b] by {
        lemma_offset_not_negative(layout, i);
        lemma_piece_bounds(i, count, stride);
        let from = layout.node_offset(i) + plan.src_vec_bytes;
        assert(layout.node_offset(i) + layout.raw_node_len <= index.len());
        assert(after.graph.subrange(i * stride, i * stride + stride) == list_out(
            index,
            layout.node_offset(i),
            plan,
        ));
        assert(after.graph.subrange(i * stride, i * stride + stride)[b] == after.graph[i * stride
            + b]);
        assert(index.subrange(from, from + stride)[b] == index[from + b]);
    }
    assert forall|x: int| count * (4 * plan.dims) <= x < before.vectors.len() implies
        #[trigger] after.vectors[x] == before.vectors[x] by {
        let y = x - count * size;
        assert(after.vectors.skip(count * size)[y] == after.vectors[x]);
        assert(before.vectors.skip(count * size)[y] == before.vectors[x]);
    }
    assert forall|x: int| count * (4 + 4 * max_degree) <= x < before.graph.len() implies
        #[trigger] after.graph[x] == before.graph[x] by {
        let y = x - count * stride;
        assert(after.graph.skip(count * stride)[y] == after.graph[x]);
        assert(before.graph.skip(count * stride)[y] == before.graph[x]);
    }
}

/// Each byte widens to four, and the `d`-th four hold the `d`-th byte as a signed value.
pub proof fn law_widened_elements(bytes: Seq<u8>, d: int)
    requires
        0 <= d < bytes.len(),
    ensures
        widened(bytes).len() == 4 * bytes.len(),
        u32_at(widened(bytes), 4 * d) == f32_bits(signed_value(bytes[d])),
{
    let value = f32_bits(signed_value(bytes[d]));
    let wide = widened(bytes);
    assert(wide.subrange(4 * d, 4 * d + 4) =~= u32_bytes(value)) by {
        assert forall|k: int| 0 <= k < 4 implies wide.subrange(4 * d, 4 * d + 4)[k] == u32_bytes(
            value,
        )[k] by {
            assert((4 * d + k) / 4 == d && (4 * d + k) % 4 == k);
        }
    }
    law_u32_read_back(wide, 4 * d, value);
}

/// A piece lies within all of them.
proof fn lemma_piece_bounds(i: int, count: int, size: int)
    requires
        0 <= i < count,
        size >= 0,
    ensures
        0 <= i * size,
        i * size + size <= count * size,
{
    assert(0 <= i * size && i * size + size <= count * size) by (nonlinear_arith)
        requires
            0 <= i,
            i + 1 <= count,
            size >= 0,
    ;
}

/// Fewer pieces take up no more.
proof fn lemma_piece_total(count: int, total: int, size: int)
    requires
        0 <= count <= total,
        size >= 0,
    ensures
        0 <= count * size <= total * size,
{
    assert(0 <= count * size <= total * size) by (nonlinear_arith)
        requires
            0 <= count <= total,
            size >= 0,
    ;
}

} // verus!

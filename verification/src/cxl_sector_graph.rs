//! Where the nodes of an index file lie.
//!
//! A node is stored as `[vector][num_nbrs: u32][neighbors: max_degree * u32]`. Indexes for
//! block devices pack nodes into sectors; indexes for CXL memory place every node at a
//! cache-line boundary, which does away with the sector padding.

use crate::rounding::{
    align_up, aligned_up, div_ceil, law_aligned_up_is_least_multiple, lemma_pieces_times_piece,
};
use vstd::arithmetic::div_mod::{
    lemma_fundamental_div_mod, lemma_fundamental_div_mod_converse, lemma_mod_multiples_basic,
};
use vstd::prelude::*;

verus! {

/// Cache-line size for CXL alignment (64 bytes on x86_64 and aarch64).
pub const CXL_ALIGN: usize = 64;

/// Minimum block size of the sector layout. Any smaller block size in a graph header stands
/// for the CXL layout (direct I/O needs at least 512).
pub const CXL_BLOCK_SIZE_THRESHOLD: u16 = 512;

/// Node layout mode, detected from the block size in the graph header.
#[derive(Debug, Clone, Copy, PartialEq, Eq, Structural)]
pub enum NodeLayoutMode {
    /// Sector layout: nodes packed into sectors with padding.
    SsdSectorAligned { block_size: usize, nodes_per_sector: usize },
    /// CXL layout: nodes at cache-line boundaries, no sector grouping.
    CxlCacheLineAligned {
        /// Node size rounded up to cache-line boundary
        aligned_node_len: usize,
    },
}

/// Length of a node as stored, before any padding.
pub open spec fn node_len_of(vector_size_bytes: int, max_degree: int) -> int {
    vector_size_bytes + 4 + max_degree * 4
}

/// The placement of nodes that a [`NodeOffsetCalculator`] computes with.
pub struct NodeLayout {
    pub mode: NodeLayoutMode,
    pub raw_node_len: int,
    pub data_start_offset: int,
}

impl NodeLayout {
    /// The layout for a block size and a node length, its data starting at a byte offset.
    pub open spec fn of(
        block_size: usize,
        vector_size_bytes: usize,
        max_degree: usize,
        data_start_offset: usize,
    ) -> NodeLayout {
        let raw_node_len = node_len_of(vector_size_bytes as int, max_degree as int);
        NodeLayout {
            mode: if block_size < CXL_BLOCK_SIZE_THRESHOLD {
                NodeLayoutMode::CxlCacheLineAligned {
                    aligned_node_len: aligned_up(raw_node_len, CXL_ALIGN as int) as usize,
                }
            } else {
                NodeLayoutMode::SsdSectorAligned {
                    block_size,
                    nodes_per_sector: if raw_node_len <= block_size {
                        (block_size as int / raw_node_len) as usize
                    } else {
                        1
                    },
                }
            },
            raw_node_len,
            data_start_offset: data_start_offset as int,
        }
    }

    /// What holds of every layout: a node is never empty, the CXL layout pads to the next
    /// cache line, and a sector takes as many whole nodes as fit, at least one.
    pub open spec fn wf(self) -> bool {
        &&& 4 <= self.raw_node_len <= usize::MAX
        &&& 0 <= self.data_start_offset <= usize::MAX
        &&& match self.mode {
            NodeLayoutMode::CxlCacheLineAligned { aligned_node_len } => aligned_node_len
                == aligned_up(self.raw_node_len, CXL_ALIGN as int),
            NodeLayoutMode::SsdSectorAligned { block_size, nodes_per_sector } => {
                &&& block_size >= CXL_BLOCK_SIZE_THRESHOLD
                &&& nodes_per_sector == if self.raw_node_len <= block_size {
                    block_size as int / self.raw_node_len
                } else {
                    1
                }
            },
        }
    }

    /// Byte offset of a node.
    pub open spec fn node_offset(self, id: int) -> int {
        self.data_start_offset + match self.mode {
            NodeLayoutMode::CxlCacheLineAligned { aligned_node_len } => id * aligned_node_len,
            NodeLayoutMode::SsdSectorAligned { block_size, nodes_per_sector } => {
                if self.raw_node_len <= block_size {
                    (id / nodes_per_sector as int) * block_size + (id % nodes_per_sector as int)
                        * self.raw_node_len
                } else {
                    id * aligned_up(self.raw_node_len, block_size as int)
                }
            },
        }
    }

    /// Bytes read for a node: its padded length, or as many whole sectors as hold it.
    pub open spec fn read_len(self) -> int {
        match self.mode {
            NodeLayoutMode::CxlCacheLineAligned { aligned_node_len } => aligned_node_len as int,
            NodeLayoutMode::SsdSectorAligned { block_size, .. } => aligned_up(
                self.raw_node_len,
                block_size as int,
            ),
        }
    }

    /// Bytes that a node takes up on average, padding included.
    pub open spec fn effective_node_len(self) -> int {
        match self.mode {
            NodeLayoutMode::CxlCacheLineAligned { aligned_node_len } => aligned_node_len as int,
            NodeLayoutMode::SsdSectorAligned { block_size, nodes_per_sector } => {
                if self.raw_node_len <= block_size {
                    block_size as int / nodes_per_sector as int
                } else {
                    aligned_up(self.raw_node_len, block_size as int)
                }
            },
        }
    }
}

/// A product of a node number and a length stays far from the limits of 128 bits.
proof fn lemma_wide_product(id: int, len: int)
    requires
        0 <= id <= u32::MAX,
        0 <= len <= 0x2_0000_0000_0000_0000,
    ensures
        0 <= id * len <= 0x10_0000_0000_0000_0000_0000_0000,
{
    assert(0 <= id * len <= 0x1_0000_0000 * 0x2_0000_0000_0000_0000) by (nonlinear_arith)
        requires
            0 <= id <= 0x1_0000_0000,
            0 <= len <= 0x2_0000_0000_0000_0000,
    ;
}

/// A quotient and a remainder are no larger than the dividend.
proof fn lemma_quotient_bounds(a: int, b: int)
    requires
        a >= 0,
        b > 0,
    ensures
        0 <= a / b <= a,
        0 <= a % b <= a,
{
    assert(0 <= a / b <= a && 0 <= a % b <= a) by (nonlinear_arith)
        requires
            a >= 0,
            b > 0,
    ;
}

/// Offsets are never negative.
pub proof fn lemma_offset_not_negative(layout: NodeLayout, id: int)
    requires
        layout.wf(),
        id >= 0,
    ensures
        layout.node_offset(id) >= 0,
{
    match layout.mode {
        NodeLayoutMode::CxlCacheLineAligned { aligned_node_len } => {
            lemma_product_bounds(id, aligned_node_len as int);
        },
        NodeLayoutMode::SsdSectorAligned { block_size, nodes_per_sector } => {
            if layout.raw_node_len <= block_size {
                lemma_fitting_nodes(block_size as int, layout.raw_node_len);
                lemma_quotient_bounds(id, nodes_per_sector as int);
                lemma_product_bounds(id / nodes_per_sector as int, block_size as int);
                lemma_product_bounds(id % nodes_per_sector as int, layout.raw_node_len);
            } else {
                law_aligned_up_is_least_multiple(layout.raw_node_len, block_size as int);
                lemma_product_bounds(id, aligned_up(layout.raw_node_len, block_size as int));
            }
        },
    }
}

/// Computes node offsets for both the sector and the CXL layout.
#[derive(Debug)]
pub struct NodeOffsetCalculator {
    mode: NodeLayoutMode,
    /// Raw node length: sizeof(vector) + sizeof(u32) + max_degree * sizeof(u32)
    raw_node_len: usize,
    /// Where node data starts, after the header
    data_start_offset: usize,
}

impl View for NodeOffsetCalculator {
    type V = NodeLayout;

    closed spec fn view(&self) -> NodeLayout {
        NodeLayout {
            mode: self.mode,
            raw_node_len: self.raw_node_len as int,
            data_start_offset: self.data_start_offset as int,
        }
    }
}

impl Clone for NodeOffsetCalculator {
    fn clone(&self) -> (copy: Self)
        ensures
            copy@ == self@,
    {
        proof {
            use_type_invariant(self);
        }
        NodeOffsetCalculator {
            mode: self.mode,
            raw_node_len: self.raw_node_len,
            data_start_offset: self.data_start_offset,
        }
    }
}

impl NodeOffsetCalculator {
    #[verifier::type_invariant]
    closed spec fn inv(self) -> bool {
        self@.wf()
    }

    /// Create calculator from graph header parameters.
    ///
    /// * `block_size` - from the graph header: 4096 for sectors, 64 for CXL
    /// * `vector_size_bytes` - dimensions times element size
    /// * `max_degree` - maximum neighbor list length
    /// * `data_start_offset` - byte offset where node data begins (after header)
    pub fn new(
        block_size: usize,
        vector_size_bytes: usize,
        max_degree: usize,
        data_start_offset: usize,
    ) -> (calc: Self)
        requires
            node_len_of(vector_size_bytes as int, max_degree as int) <= usize::MAX,
            block_size < CXL_BLOCK_SIZE_THRESHOLD ==> aligned_up(
                node_len_of(vector_size_bytes as int, max_degree as int),
                CXL_ALIGN as int,
            ) <= usize::MAX,
        ensures
            calc@ == NodeLayout::of(block_size, vector_size_bytes, max_degree, data_start_offset),
            calc@.wf(),
    {
        let raw_node_len: usize = vector_size_bytes + 4 + max_degree * 4;
        let mode = if block_size < CXL_BLOCK_SIZE_THRESHOLD as usize {
            NodeLayoutMode::CxlCacheLineAligned {
                aligned_node_len: align_up(raw_node_len, CXL_ALIGN),
            }
        } else {
            let fitting: usize = block_size / raw_node_len;
            proof {
                lemma_fitting_nodes(block_size as int, raw_node_len as int);
            }
            NodeLayoutMode::SsdSectorAligned {
                block_size,
                nodes_per_sector: if fitting > 1 {
                    fitting
                } else {
                    1
                },
            }
        };
        NodeOffsetCalculator { mode, raw_node_len, data_start_offset }
    }

    /// Detect layout mode from block_size in graph header.
    pub fn from_block_size(
        block_size: usize,
        vector_size_bytes: usize,
        max_degree: usize,
        data_start_offset: usize,
    ) -> (calc: Self)
        requires
            node_len_of(vector_size_bytes as int, max_degree as int) <= usize::MAX,
            block_size < CXL_BLOCK_SIZE_THRESHOLD ==> aligned_up(
                node_len_of(vector_size_bytes as int, max_degree as int),
                CXL_ALIGN as int,
            ) <= usize::MAX,
        ensures
            calc@ == NodeLayout::of(block_size, vector_size_bytes, max_degree, data_start_offset),
            calc@.wf(),
    {
        Self::new(block_size, vector_size_bytes, max_degree, data_start_offset)
    }

    /// Compute absolute byte offset of a node in the index file.
    pub fn node_offset(&self, node_id: u32) -> (offset: usize)
        requires
            self@.node_offset(node_id as int) <= usize::MAX,
        ensures
            offset == self@.node_offset(node_id as int),
            self@.wf(),
    {
        proof {
            use_type_invariant(self);
        }
        let id: usize = node_id as usize;
        match self.mode {
            NodeLayoutMode::CxlCacheLineAligned { aligned_node_len } => {
                proof {
                    lemma_product_bounds(id as int, aligned_node_len as int);
                }
                self.data_start_offset + id * aligned_node_len
            },
            NodeLayoutMode::SsdSectorAligned { block_size, nodes_per_sector } => {
                if self.raw_node_len <= block_size {
                    proof {
                        lemma_fitting_nodes(block_size as int, self.raw_node_len as int);
                        lemma_fundamental_div_mod(id as int, nodes_per_sector as int);
                        lemma_product_bounds(
                            id as int / nodes_per_sector as int,
                            block_size as int,
                        );
                        lemma_product_bounds(
                            id as int % nodes_per_sector as int,
                            self.raw_node_len as int,
                        );
                    }
                    let sector_id: usize = id / nodes_per_sector;
                    let offset_in_sector: usize = (id % nodes_per_sector) * self.raw_node_len;
                    self.data_start_offset + sector_id * block_size + offset_in_sector
                } else {
                    let sectors_per_node: usize = div_ceil(self.raw_node_len, block_size);
                    proof {
                        let len = aligned_up(self.raw_node_len as int, block_size as int);
                        lemma_pieces_times_piece(self.raw_node_len as int, block_size as int);
                        law_aligned_up_is_least_multiple(
                            self.raw_node_len as int,
                            block_size as int,
                        );
                        assert(id * sectors_per_node * block_size == id * len) by (nonlinear_arith)
                            requires
                                sectors_per_node * block_size == len,
                        ;
                        assert(0 <= id * sectors_per_node <= id * len) by (nonlinear_arith)
                            requires
                                id * sectors_per_node * block_size == id * len,
                                block_size >= 1,
                                id >= 0,
                                sectors_per_node >= 0,
                        ;
                    }
                    self.data_start_offset + id * sectors_per_node * block_size
                }
            },
        }
    }

    /// The byte offset of a node, where it can be addressed.
    pub fn checked_node_offset(&self, node_id: u32) -> (offset: Option<usize>)
        ensures
            offset == if self@.node_offset(node_id as int) <= usize::MAX {
                Some(self@.node_offset(node_id as int) as usize)
            } else {
                None
            },
            self@.node_offset(node_id as int) >= 0,
            self@.wf(),
    {
        proof {
            use_type_invariant(self);
            lemma_offset_not_negative(self@, node_id as int);
        }
        let id: u128 = node_id as u128;
        let start: u128 = self.data_start_offset as u128;
        let raw: u128 = self.raw_node_len as u128;
        let offset: u128 = match self.mode {
            NodeLayoutMode::CxlCacheLineAligned { aligned_node_len } => {
                proof {
                    lemma_wide_product(id as int, aligned_node_len as int);
                }
                start + id * (aligned_node_len as u128)
            },
            NodeLayoutMode::SsdSectorAligned { block_size, nodes_per_sector } => {
                let block: u128 = block_size as u128;
                let per_sector: u128 = nodes_per_sector as u128;
                if self.raw_node_len <= block_size {
                    proof {
                        lemma_fitting_nodes(block_size as int, self.raw_node_len as int);
                        lemma_fundamental_div_mod(id as int, nodes_per_sector as int);
                        lemma_quotient_bounds(id as int, nodes_per_sector as int);
                        lemma_wide_product(id as int / per_sector as int, block as int);
                        lemma_wide_product(id as int % per_sector as int, raw as int);
                    }
                    start + (id / per_sector) * block + (id % per_sector) * raw
                } else {
                    let over: u128 = raw % block;
                    let len: u128 = if over == 0 {
                        raw
                    } else {
                        raw - over + block
                    };
                    proof {
                        law_aligned_up_is_least_multiple(raw as int, block as int);
                        lemma_wide_product(id as int, len as int);
                    }
                    start + id * len
                }
            },
        };
        if offset <= usize::MAX as u128 {
            Some(offset as usize)
        } else {
            None
        }
    }

    /// Compute byte length to read for a single node.
    pub fn read_len(&self, _node_id: u32) -> (len: usize)
        requires
            self@.read_len() <= usize::MAX,
        ensures
            len == self@.read_len(),
            self@.wf(),
    {
        proof {
            use_type_invariant(self);
        }
        match self.mode {
            NodeLayoutMode::CxlCacheLineAligned { aligned_node_len } => aligned_node_len,
            NodeLayoutMode::SsdSectorAligned { block_size, nodes_per_sector: _ } => {
                proof {
                    lemma_pieces_times_piece(self.raw_node_len as int, block_size as int);
                    if self.raw_node_len <= block_size {
                        lemma_one_piece(self.raw_node_len as int, block_size as int);
                    }
                }
                if self.raw_node_len <= block_size {
                    block_size
                } else {
                    let sectors_per_node: usize = div_ceil(self.raw_node_len, block_size);
                    sectors_per_node * block_size
                }
            },
        }
    }

    /// Number of bytes actually used per node (before alignment padding).
    pub fn raw_node_len(&self) -> (len: usize)
        ensures
            len == self@.raw_node_len,
            self@.wf(),
    {
        proof {
            use_type_invariant(self);
        }
        self.raw_node_len
    }

    /// Bytes to read for a node, where they can be counted.
    pub fn checked_read_len(&self) -> (len: Option<usize>)
        ensures
            len == if self@.read_len() <= usize::MAX {
                Some(self@.read_len() as usize)
            } else {
                None
            },
            self@.read_len() >= 0,
            self@.wf(),
    {
        proof {
            use_type_invariant(self);
        }
        match self.mode {
            NodeLayoutMode::CxlCacheLineAligned { aligned_node_len } => Some(aligned_node_len),
            NodeLayoutMode::SsdSectorAligned { block_size, nodes_per_sector: _ } => {
                proof {
                    law_aligned_up_is_least_multiple(self.raw_node_len as int, block_size as int);
                }
                let over: usize = self.raw_node_len % block_size;
                if over == 0 {
                    Some(self.raw_node_len)
                } else {
                    self.raw_node_len.checked_add(block_size - over)
                }
            },
        }
    }

    /// Effective bytes per node including alignment padding.
    pub fn effective_node_len(&self) -> (len: usize)
        requires
            self@.effective_node_len() <= usize::MAX,
        ensures
            len == self@.effective_node_len(),
    {
        proof {
            use_type_invariant(self);
        }
        match self.mode {
            NodeLayoutMode::CxlCacheLineAligned { aligned_node_len } => aligned_node_len,
            NodeLayoutMode::SsdSectorAligned { block_size, nodes_per_sector } => {
                proof {
                    lemma_fitting_nodes(block_size as int, self.raw_node_len as int);
                    lemma_pieces_times_piece(self.raw_node_len as int, block_size as int);
                }
                if self.raw_node_len <= block_size {
                    block_size / nodes_per_sector
                } else {
                    div_ceil(self.raw_node_len, block_size) * block_size
                }
            },
        }
    }

    /// Layout mode in use.
    pub fn mode(&self) -> (mode: NodeLayoutMode)
        ensures
            mode == self@.mode,
            self@.wf(),
    {
        proof {
            use_type_invariant(self);
        }
        self.mode
    }
}

/// Extension to a graph header that describes the CXL layout.
#[derive(Debug, Clone)]
pub struct CxlLayoutInfo {
    pub is_cxl_layout: bool,
    pub alignment: usize,
    pub raw_node_size: usize,
    pub aligned_node_size: usize,
}

/// The alignment that a block size stands for: at least a cache line.
pub open spec fn alignment_of(block_size: usize) -> usize {
    if block_size < CXL_ALIGN {
        CXL_ALIGN
    } else {
        block_size
    }
}

impl CxlLayoutInfo {
    /// The layout that a block size stands for.
    pub open spec fn of(block_size: usize, raw_node_size: usize) -> CxlLayoutInfo {
        CxlLayoutInfo {
            is_cxl_layout: block_size < CXL_BLOCK_SIZE_THRESHOLD,
            alignment: alignment_of(block_size),
            raw_node_size,
            aligned_node_size: if block_size < CXL_BLOCK_SIZE_THRESHOLD {
                aligned_up(raw_node_size as int, alignment_of(block_size) as int) as usize
            } else {
                block_size
            },
        }
    }

    /// Detect CXL layout from existing header block_size field.
    pub fn from_block_size(block_size: usize, raw_node_size: usize) -> (info: Self)
        requires
            block_size < CXL_BLOCK_SIZE_THRESHOLD ==> aligned_up(
                raw_node_size as int,
                alignment_of(block_size) as int,
            ) <= usize::MAX,
        ensures
            info == Self::of(block_size, raw_node_size),
    {
        if block_size < CXL_BLOCK_SIZE_THRESHOLD as usize {
            let alignment: usize = if block_size < CXL_ALIGN {
                CXL_ALIGN
            } else {
                block_size
            };
            CxlLayoutInfo {
                is_cxl_layout: true,
                alignment,
                raw_node_size,
                aligned_node_size: align_up(raw_node_size, alignment),
            }
        } else {
            CxlLayoutInfo {
                is_cxl_layout: false,
                alignment: block_size,
                raw_node_size,
                aligned_node_size: block_size,
            }
        }
    }
}

/// CXL build configuration.
#[derive(Debug, Clone)]
pub struct CxlBuildConfig {
    /// Block size to write in graph header. Set to 64 for CXL.
    pub block_size: usize,
    /// Whether to write nodes with cache-line alignment
    pub cache_line_align: bool,
}

impl Default for CxlBuildConfig {
    fn default() -> (config: Self)
        ensures
            config.block_size == CXL_ALIGN,
            config.cache_line_align,
    {
        CxlBuildConfig { block_size: CXL_ALIGN, cache_line_align: true }
    }
}

/// No two nodes overlap: a node ends before any later one begins.
pub proof fn law_nodes_do_not_overlap(layout: NodeLayout, i: int, j: int)
    requires
        layout.wf(),
        0 <= i < j,
    ensures
        layout.node_offset(i) + layout.raw_node_len <= layout.node_offset(j),
{
    let raw = layout.raw_node_len;
    match layout.mode {
        NodeLayoutMode::CxlCacheLineAligned { aligned_node_len } => {
            law_aligned_up_is_least_multiple(raw, CXL_ALIGN as int);
            lemma_strided(i, j, aligned_node_len as int, raw);
        },
        NodeLayoutMode::SsdSectorAligned { block_size, nodes_per_sector } => {
            let b = block_size as int;
            let n = nodes_per_sector as int;
            if raw <= block_size {
                lemma_fitting_nodes(b, raw);
                let (iq, ir) = (i / n, i % n);
                let (jq, jr) = (j / n, j % n);
                lemma_fundamental_div_mod(i, n);
                lemma_fundamental_div_mod(j, n);
                if iq == jq {
                    lemma_strided(ir, jr, raw, raw);
                } else {
                    assert(iq < jq) by (nonlinear_arith)
                        requires
                            i == n * iq + ir,
                            j == n * jq + jr,
                            0 <= ir < n,
                            0 <= jr < n,
                            i < j,
                            iq != jq,
                    ;
                    assert(iq * b + ir * raw + raw <= jq * b + jr * raw) by (nonlinear_arith)
                        requires
                            iq + 1 <= jq,
                            0 <= ir < n,
                            0 <= jr,
                            n * raw <= b,
                            raw > 0,
                    ;
                }
            } else {
                law_aligned_up_is_least_multiple(raw, b);
                lemma_strided(i, j, aligned_up(raw, b), raw);
            }
        },
    }
}

/// In the CXL layout a node lies a whole number of cache lines behind the start of the data.
pub proof fn law_cxl_nodes_start_at_cache_lines(layout: NodeLayout, id: int)
    requires
        layout.wf(),
        layout.mode is CxlCacheLineAligned,
        id >= 0,
    ensures
        (layout.node_offset(id) - layout.data_start_offset) % CXL_ALIGN as int == 0,
{
    let len = layout.mode->aligned_node_len as int;
    law_aligned_up_is_least_multiple(layout.raw_node_len, CXL_ALIGN as int);
    lemma_fundamental_div_mod(len, CXL_ALIGN as int);
    let q = len / CXL_ALIGN as int;
    assert(id * len == (id * q) * 64) by (nonlinear_arith)
        requires
            len == 64 * q,
    ;
    lemma_mod_multiples_basic(id * q, CXL_ALIGN as int);
}

/// In the CXL layout nodes follow one another without a gap, each read takes exactly the
/// bytes up to the next node, and less than a cache line of them is padding.
pub proof fn law_cxl_nodes_are_packed(layout: NodeLayout, id: int)
    requires
        layout.wf(),
        layout.mode is CxlCacheLineAligned,
        id >= 0,
    ensures
        layout.node_offset(0) == layout.data_start_offset,
        layout.node_offset(id + 1) == layout.node_offset(id) + layout.read_len(),
        layout.raw_node_len <= layout.read_len() < layout.raw_node_len + CXL_ALIGN,
        layout.effective_node_len() == layout.read_len(),
{
    let len = layout.mode->aligned_node_len as int;
    law_aligned_up_is_least_multiple(layout.raw_node_len, CXL_ALIGN as int);
    assert((id + 1) * len == id * len + len) by (nonlinear_arith);
}

/// In the sector layout a node that fits into a sector lies within one sector.
pub proof fn law_ssd_nodes_stay_within_a_sector(layout: NodeLayout, id: int)
    requires
        layout.wf(),
        layout.mode is SsdSectorAligned,
        layout.raw_node_len <= layout.mode->block_size,
        id >= 0,
    ensures
        ({
            let block = layout.mode->block_size as int;
            let first = layout.node_offset(id) - layout.data_start_offset;
            let last = first + layout.raw_node_len - 1;
            first / block == last / block
        }),
{
    let b = layout.mode->block_size as int;
    let n = layout.mode->nodes_per_sector as int;
    let raw = layout.raw_node_len;
    lemma_fitting_nodes(b, raw);
    lemma_fundamental_div_mod(id, n);
    let (q, r) = (id / n, id % n);
    assert(0 <= r * raw && r * raw + raw <= b) by (nonlinear_arith)
        requires
            0 <= r < n,
            n * raw <= b,
            raw > 0,
    ;
    assert(q * b == b * q) by (nonlinear_arith);
    lemma_fundamental_div_mod_converse(q * b + r * raw, b, q, r * raw);
    lemma_fundamental_div_mod_converse(q * b + r * raw + raw - 1, b, q, r * raw + raw - 1);
}

/// In the sector layout a node larger than a sector starts at a sector boundary, and its
/// read takes exactly the whole sectors up to the next node.
pub proof fn law_ssd_large_nodes_take_whole_sectors(layout: NodeLayout, id: int)
    requires
        layout.wf(),
        layout.mode is SsdSectorAligned,
        layout.raw_node_len > layout.mode->block_size,
        id >= 0,
    ensures
        (layout.node_offset(id) - layout.data_start_offset) % layout.mode->block_size as int == 0,
        layout.node_offset(id + 1) == layout.node_offset(id) + layout.read_len(),
        layout.effective_node_len() == layout.read_len(),
{
    let b = layout.mode->block_size as int;
    let len = aligned_up(layout.raw_node_len, b);
    law_aligned_up_is_least_multiple(layout.raw_node_len, b);
    lemma_fundamental_div_mod(len, b);
    let q = len / b;
    assert(id * len == (id * q) * b) by (nonlinear_arith)
        requires
            len == b * q,
    ;
    lemma_mod_multiples_basic(id * q, b);
    assert((id + 1) * len == id * len + len) by (nonlinear_arith);
}

/// The sector layout puts into a sector as many whole nodes as it can hold.
pub proof fn law_ssd_sectors_are_full(layout: NodeLayout)
    requires
        layout.wf(),
        layout.mode is SsdSectorAligned,
        layout.raw_node_len <= layout.mode->block_size,
    ensures
        ({
            let block = layout.mode->block_size as int;
            let n = layout.mode->nodes_per_sector as int;
            &&& n >= 1
            &&& n * layout.raw_node_len <= block < (n + 1) * layout.raw_node_len
        }),
{
    lemma_fitting_nodes(layout.mode->block_size as int, layout.raw_node_len);
}

/// What is read for a node holds the whole node, and padding never makes a node smaller.
pub proof fn law_reads_cover_nodes(layout: NodeLayout)
    requires
        layout.wf(),
    ensures
        layout.raw_node_len <= layout.read_len(),
        layout.raw_node_len <= layout.effective_node_len() <= layout.read_len(),
{
    let raw = layout.raw_node_len;
    match layout.mode {
        NodeLayoutMode::CxlCacheLineAligned { .. } => {
            law_aligned_up_is_least_multiple(raw, CXL_ALIGN as int);
        },
        NodeLayoutMode::SsdSectorAligned { block_size, nodes_per_sector } => {
            let b = block_size as int;
            let n = nodes_per_sector as int;
            law_aligned_up_is_least_multiple(raw, b);
            if raw <= b {
                lemma_fitting_nodes(b, raw);
                lemma_one_piece(raw, b);
                lemma_fundamental_div_mod(b, n);
                let e = b / n;
                assert(raw <= e <= b) by (nonlinear_arith)
                    requires
                        n * raw <= b,
                        n >= 1,
                        b == n * e + b % n,
                        0 <= b % n < n,
                        raw > 0,
                ;
            }
        },
    }
}

/// The layout description and the offset calculator call the same block sizes CXL, and up to
/// a cache line of block size they pad a node alike.
pub proof fn law_layout_info_agrees_with_offsets(
    block_size: usize,
    vector_size_bytes: usize,
    max_degree: usize,
    data_start_offset: usize,
    raw_node_size: usize,
)
    requires
        raw_node_size == node_len_of(vector_size_bytes as int, max_degree as int),
    ensures
        ({
            let info = CxlLayoutInfo::of(block_size, raw_node_size);
            let layout = NodeLayout::of(
                block_size,
                vector_size_bytes,
                max_degree,
                data_start_offset,
            );
            &&& info.is_cxl_layout <==> layout.mode is CxlCacheLineAligned
            &&& block_size <= CXL_ALIGN ==> layout.mode->aligned_node_len
                == info.aligned_node_size
        }),
{
}

/// A CXL layout description pads a node to a multiple of its alignment.
pub proof fn law_layout_info_is_aligned(block_size: usize, raw_node_size: usize)
    requires
        block_size < CXL_BLOCK_SIZE_THRESHOLD,
        aligned_up(raw_node_size as int, alignment_of(block_size) as int) <= usize::MAX,
    ensures
        ({
            let info = CxlLayoutInfo::of(block_size, raw_node_size);
            &&& info.alignment >= CXL_ALIGN
            &&& info.aligned_node_size % info.alignment == 0
            &&& raw_node_size <= info.aligned_node_size < raw_node_size + info.alignment
        }),
{
    law_aligned_up_is_least_multiple(raw_node_size as int, alignment_of(block_size) as int);
}

proof fn lemma_strided(i: int, j: int, stride: int, len: int)
    requires
        0 <= i < j,
        0 <= len <= stride,
    ensures
        i * stride + len <= j * stride,
{
    assert(i * stride + len <= j * stride) by (nonlinear_arith)
        requires
            i + 1 <= j,
            0 <= len <= stride,
    ;
}

proof fn lemma_product_bounds(a: int, b: int)
    requires
        a >= 0,
        b >= 0,
    ensures
        a * b >= 0,
{
    assert(a * b >= 0) by (nonlinear_arith)
        requires
            a >= 0,
            b >= 0,
    ;
}

proof fn lemma_one_piece(len: int, piece: int)
    requires
        0 < len <= piece,
    ensures
        aligned_up(len, piece) == piece,
{
    if len == piece {
        assert(piece % piece == 0) by {
            lemma_mod_multiples_basic(1, piece);
        }
    } else {
        vstd::arithmetic::div_mod::lemma_small_mod(len as nat, piece as nat);
    }
}

/// A sector takes at least one node of a length up to its own, and as many as fit.
proof fn lemma_fitting_nodes(block_size: int, raw_node_len: int)
    requires
        raw_node_len > 0,
        block_size > 0,
    ensures
        raw_node_len <= block_size ==> {
            let n = block_size / raw_node_len;
            &&& 1 <= n <= block_size
            &&& n * raw_node_len <= block_size < (n + 1) * raw_node_len
        },
        raw_node_len > block_size ==> block_size / raw_node_len == 0,
{
    let n = block_size / raw_node_len;
    lemma_fundamental_div_mod(block_size, raw_node_len);
    assert(n * raw_node_len <= block_size < (n + 1) * raw_node_len) by (nonlinear_arith)
        requires
            block_size == raw_node_len * n + block_size % raw_node_len,
            0 <= block_size % raw_node_len < raw_node_len,
    ;
    assert(raw_node_len <= block_size ==> 1 <= n <= block_size) by (nonlinear_arith)
        requires
            raw_node_len > 0,
            block_size > 0,
            n * raw_node_len <= block_size < (n + 1) * raw_node_len,
    ;
    if raw_node_len > block_size {
        vstd::arithmetic::div_mod::lemma_basic_div(block_size, raw_node_len);
    }
}

/// Where nodes lie, from the numbers of a header alone: the data starts with node 0. Below a
/// block size of 512 each node takes up the least multiple of 64 bytes that holds it. From
/// there on, nodes that fit a sector follow one another without a gap until no further one
/// fits, and each sector repeats the one before; larger nodes each take up the least number of
/// whole sectors.
pub proof fn law_nodes_lie_where_the_header_says(
    block_size: usize,
    vector_size_bytes: usize,
    max_degree: usize,
    data_start_offset: usize,
    id: int,
)
    requires
        id >= 0,
        vector_size_bytes + 4 + 4 * max_degree <= usize::MAX,
        block_size < 512 ==> aligned_up(vector_size_bytes + 4 + 4 * max_degree, 64) <= usize::MAX,
    ensures
        ({
            let raw = vector_size_bytes + 4 + 4 * max_degree;
            let layout = NodeLayout::of(
                block_size,
                vector_size_bytes,
                max_degree,
                data_start_offset,
            );
            let step = layout.node_offset(id + 1) - layout.node_offset(id);
            let per_sector = layout.mode->nodes_per_sector as int;
            &&& layout.wf()
            &&& layout.raw_node_len == raw
            &&& layout.data_start_offset == data_start_offset
            &&& layout.node_offset(0) == data_start_offset
            &&& layout.mode is CxlCacheLineAligned <==> block_size < 512
            &&& block_size < 512 ==> {
                &&& step % 64 == 0
                &&& raw <= step < raw + 64
                &&& layout.read_len() == step
                &&& layout.effective_node_len() == step
                &&& layout.mode->aligned_node_len == step
            }
            &&& block_size >= 512 ==> layout.mode->block_size == block_size
            &&& block_size >= 512 && raw <= block_size ==> {
                &&& 1 <= per_sector
                &&& per_sector * raw <= block_size < (per_sector + 1) * raw
                &&& (id + 1) % per_sector != 0 ==> step == raw
                &&& layout.node_offset(id + per_sector) == layout.node_offset(id) + block_size
                &&& layout.read_len() == block_size
                &&& layout.effective_node_len() * per_sector <= block_size
                &&& block_size < (layout.effective_node_len() + 1) * per_sector
            }
            &&& block_size >= 512 && raw > block_size ==> {
                &&& step % block_size as int == 0
                &&& raw <= step < raw + block_size
                &&& layout.read_len() == step
                &&& layout.effective_node_len() == step
            }
        }),
{
    let raw = vector_size_bytes + 4 + 4 * max_degree;
    let layout = NodeLayout::of(block_size, vector_size_bytes, max_degree, data_start_offset);
    let b = block_size as int;
    if block_size < 512 {
        let len = aligned_up(raw, 64);
        law_aligned_up_is_least_multiple(raw, 64);
        assert((id + 1) * len == id * len + len) by (nonlinear_arith);
        assert(0 * len == 0) by (nonlinear_arith);
    } else if raw <= block_size {
        lemma_fitting_nodes(b, raw);
        lemma_one_piece(raw, b);
        let n = b / raw;
        assert(layout.mode->nodes_per_sector == n);
        lemma_fundamental_div_mod(b, n);
        let e = b / n;
        assert(e * n <= b && b < (e + 1) * n) by (nonlinear_arith)
            requires
                b == n * e + b % n,
                0 <= b % n < n,
        ;
        lemma_fundamental_div_mod(id, n);
        let (q, r) = (id / n, id % n);
        assert(q * n == n * q) by (nonlinear_arith);
        assert((q + 1) * n == q * n + n) by (nonlinear_arith);
        lemma_fundamental_div_mod_converse(id + n, n, q + 1, r);
        assert((q + 1) * b == q * b + b) by (nonlinear_arith);
        if r + 1 == n {
            lemma_fundamental_div_mod_converse(id + 1, n, q + 1, 0);
        } else {
            lemma_fundamental_div_mod_converse(id + 1, n, q, r + 1);
            assert((r + 1) * raw == r * raw + raw) by (nonlinear_arith);
        }
        lemma_fundamental_div_mod_converse(0, n, 0, 0);
        assert(0 * b == 0 && 0 * raw == 0) by (nonlinear_arith);
    } else {
        let len = aligned_up(raw, b);
        law_aligned_up_is_least_multiple(raw, b);
        assert((id + 1) * len == id * len + len) by (nonlinear_arith);
        assert(0 * len == 0) by (nonlinear_arith);
    }
}

/// What a block size says of a layout: below 512 it is a CXL layout, aligned to the block size
/// but to no less than 64 bytes, and a node is padded to the least multiple of that; from 512 on
/// blocks are the unit of alignment and of padding.
pub proof fn law_layout_info_follows_the_block_size(block_size: usize, raw_node_size: usize)
    requires
        block_size < 512 ==> aligned_up(
            raw_node_size as int,
            alignment_of(block_size) as int,
        ) <= usize::MAX,
    ensures
        ({
            let info = CxlLayoutInfo::of(block_size, raw_node_size);
            &&& info.raw_node_size == raw_node_size
            &&& info.is_cxl_layout <==> block_size < 512
            &&& block_size < 64 ==> info.alignment == 64
            &&& block_size >= 64 ==> info.alignment == block_size
            &&& block_size < 512 ==> {
                &&& info.aligned_node_size as int % info.alignment as int == 0
                &&& raw_node_size <= info.aligned_node_size < raw_node_size + info.alignment
            }
            &&& block_size >= 512 ==> info.aligned_node_size == block_size
        }),
{
    law_aligned_up_is_least_multiple(raw_node_size as int, alignment_of(block_size) as int);
}

} // verus!

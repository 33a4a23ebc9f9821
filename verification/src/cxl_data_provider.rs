//! CXL NUMA-aware data provider.
//!
//! Data is placed across DRAM and CXL NUMA nodes:
//!   Local DRAM (NUMA 0/1): PQ codebooks, PQ codes
//!   CXL memory (NUMA 2+):  full-precision vectors, graph adjacency lists

use crate::cxl_mmap_reader::PrefetchSpan;
use crate::display_number::{one_decimal, push_one_decimal, tenths, GIGA, MEGA};
use crate::error::CxlError;
use crate::mapped_region::{mapped_bytes, MappedRegion};
use crate::meminfo::{meminfo_kb, value_of};
use crate::le_bytes::u32_at;
use crate::node_record::{
    adjacency_at, adjacency_fits, adjacency_within, law_lists_follow_their_count, read_adjacency,
};
use crate::text::{decimal, push_decimal};
use core::marker::PhantomData;
use memmap2::Mmap;
use std::sync::Arc;
use vstd::prelude::*;
use vstd::slice::slice_subrange;
use vstd::string::*;

verus! {

/// CXL NUMA node ID. Detected via `numactl --hardware` or /sys/devices/system/node/.
pub type NumaNode = u32;

/// NUMA memory binding policy.
#[derive(Debug, Clone)]
pub enum NumaPolicy {
    Bind(NumaNode),
    Preferred(NumaNode),
    Interleave(Vec<NumaNode>),
    Default,
}

/// How CXL data is accessed.
#[derive(Debug, Clone, Copy, PartialEq, Eq, Structural)]
pub enum CxlAccessMode {
    /// mmap from DAX filesystem (file-backed)
    MmapDax,
    /// NUMA-allocated buffers (in-memory, loaded from files at startup)
    NumaBuffers,
}

/// Configuration for CXL data provider.
#[derive(Debug, Clone, Copy, PartialEq, Eq, Structural)]
pub struct CxlProviderConfig {
    pub local_numa_node: NumaNode,
    pub cxl_numa_node: NumaNode,
    pub mode: CxlAccessMode,
    pub pq_subspaces: usize,
    pub pq_centroids: usize,
    pub max_degree: usize,
    pub dimensions: usize,
}

impl CxlProviderConfig {
    /// Elements of a chunk.
    pub open spec fn sub_dim(self) -> int {
        self.dimensions as int / self.pq_subspaces as int
    }

    /// Bytes of the PQ codes of some vectors.
    pub open spec fn codes_len(self, num_vectors: int) -> int {
        num_vectors * self.pq_subspaces
    }

    /// Bytes of the PQ codebook.
    pub open spec fn codebook_len(self) -> int {
        self.pq_centroids * self.pq_subspaces * self.sub_dim() * 4
    }

    /// Bytes of some vectors.
    pub open spec fn vectors_len(self, num_vectors: int, elem_size: int) -> int {
        num_vectors * self.dimensions * elem_size
    }

    /// Bytes of a neighbor list, with its count.
    pub open spec fn list_len(self) -> int {
        4 + self.max_degree * 4
    }

    /// Bytes of the neighbor lists of some nodes.
    pub open spec fn graph_len(self, num_vectors: int) -> int {
        num_vectors * self.list_len()
    }

    /// Whether the sizes of the PQ data can be counted.
    pub open spec fn pq_countable(self, num_vectors: int) -> bool {
        &&& self.pq_subspaces > 0
        &&& self.codes_len(num_vectors) <= usize::MAX
        &&& self.pq_centroids * self.pq_subspaces <= usize::MAX
        &&& self.codebook_len() <= usize::MAX
    }

    /// Whether the sizes of vectors and graph can be counted.
    pub open spec fn cxl_countable(self, num_vectors: int, elem_size: int) -> bool {
        &&& num_vectors * self.dimensions <= usize::MAX
        &&& self.vectors_len(num_vectors, elem_size) <= usize::MAX
        &&& self.list_len() <= usize::MAX
        &&& self.graph_len(num_vectors) <= usize::MAX
    }

    /// The lengths of the PQ codes and of the codebook; none where they cannot be counted.
    pub fn pq_sizes(&self, num_vectors: usize) -> (sizes: Option<(usize, usize)>)
        ensures
            match sizes {
                Some((codes, codebook)) => {
                    &&& self.pq_countable(num_vectors as int)
                    &&& codes == self.codes_len(num_vectors as int)
                    &&& codebook == self.codebook_len()
                },
                None => !self.pq_countable(num_vectors as int),
            },
    {
        if self.pq_subspaces == 0 {
            return None;
        }
        let sub_dim: usize = self.dimensions / self.pq_subspaces;
        let codes: usize = match num_vectors.checked_mul(self.pq_subspaces) {
            Some(n) => n,
            None => return None,
        };
        let entries: usize = match self.pq_centroids.checked_mul(self.pq_subspaces) {
            Some(n) => n,
            None => return None,
        };
        proof {
            assert(0 <= entries * sub_dim) by (nonlinear_arith);
        }
        let elements: usize = match entries.checked_mul(sub_dim) {
            Some(n) => n,
            None => return None,
        };
        match elements.checked_mul(4) {
            Some(codebook) => Some((codes, codebook)),
            None => None,
        }
    }

    /// The lengths of the vectors and of the graph; none where they cannot be counted.
    pub fn cxl_sizes(&self, num_vectors: usize, elem_size: usize) -> (sizes: Option<(usize, usize)>)
        ensures
            match sizes {
                Some((vectors, graph)) => {
                    &&& self.cxl_countable(num_vectors as int, elem_size as int)
                    &&& vectors == self.vectors_len(num_vectors as int, elem_size as int)
                    &&& graph == self.graph_len(num_vectors as int)
                },
                None => !self.cxl_countable(num_vectors as int, elem_size as int),
            },
    {
        let elements: usize = match num_vectors.checked_mul(self.dimensions) {
            Some(n) => n,
            None => return None,
        };
        let vectors: usize = match elements.checked_mul(elem_size) {
            Some(n) => n,
            None => return None,
        };
        let ids: usize = match self.max_degree.checked_mul(4) {
            Some(n) => n,
            None => return None,
        };
        let list: usize = match ids.checked_add(4) {
            Some(n) => n,
            None => return None,
        };
        match num_vectors.checked_mul(list) {
            Some(graph) => Some((vectors, graph)),
            None => None,
        }
    }
}

/// A buffer to load: its length, and the node that it goes to.
#[derive(Debug, Clone, Copy, PartialEq, Eq, Structural)]
pub struct BufferPlan {
    pub len: usize,
    pub node: NumaNode,
}

impl CxlProviderConfig {
    /// Whether the sizes of all buffers can be counted that an access mode loads.
    pub open spec fn loadable(self, mode: CxlAccessMode, num_vectors: int, elem_size: int) -> bool {
        &&& self.pq_countable(num_vectors)
        &&& mode == CxlAccessMode::NumaBuffers ==> self.cxl_countable(num_vectors, elem_size)
    }

    /// The buffers that an access mode loads, in order. PQ codes and codebook go to the local
    /// node; vectors and graph, where they are not mapped, go to the CXL node.
    pub open spec fn placement(
        self,
        mode: CxlAccessMode,
        num_vectors: int,
        elem_size: int,
    ) -> Seq<BufferPlan> {
        let pq = seq![
            BufferPlan {
                len: self.codes_len(num_vectors) as usize,
                node: self.local_numa_node,
            },
            BufferPlan { len: self.codebook_len() as usize, node: self.local_numa_node },
        ];
        let cxl = seq![
            BufferPlan {
                len: self.vectors_len(num_vectors, elem_size) as usize,
                node: self.cxl_numa_node,
            },
            BufferPlan { len: self.graph_len(num_vectors) as usize, node: self.cxl_numa_node },
        ];
        match mode {
            CxlAccessMode::MmapDax => pq,
            CxlAccessMode::NumaBuffers => pq + cxl,
        }
    }

    /// The buffers to load, in order, each with its length and its node; none where a length
    /// cannot be counted.
    pub fn load_plan(&self, mode: CxlAccessMode, num_vectors: usize, elem_size: usize) -> (plan:
        Option<Vec<BufferPlan>>)
        ensures
            match plan {
                Some(buffers) => {
                    &&& self.loadable(mode, num_vectors as int, elem_size as int)
                    &&& buffers@ == self.placement(mode, num_vectors as int, elem_size as int)
                },
                None => !self.loadable(mode, num_vectors as int, elem_size as int),
            },
    {
        let (codes, codebook): (usize, usize) = match self.pq_sizes(num_vectors) {
            Some(sizes) => sizes,
            None => return None,
        };
        let mut buffers: Vec<BufferPlan> = Vec::new();
        buffers.push(BufferPlan { len: codes, node: self.local_numa_node });
        buffers.push(BufferPlan { len: codebook, node: self.local_numa_node });
        if mode == CxlAccessMode::NumaBuffers {
            let (vectors, graph): (usize, usize) = match self.cxl_sizes(num_vectors, elem_size) {
                Some(sizes) => sizes,
                None => return None,
            };
            buffers.push(BufferPlan { len: vectors, node: self.cxl_numa_node });
            buffers.push(BufferPlan { len: graph, node: self.cxl_numa_node });
        }
        assert(buffers@ =~= self.placement(mode, num_vectors as int, elem_size as int));
        Some(buffers)
    }
}

/// Hot data stays in local DRAM and cold data goes to CXL memory: in either mode the PQ buffers
/// are on the local node, and every other buffer is on the CXL node.
pub proof fn law_tiers_are_kept_apart(
    config: CxlProviderConfig,
    mode: CxlAccessMode,
    num_vectors: int,
    elem_size: int,
)
    ensures
        ({
            let buffers = config.placement(mode, num_vectors, elem_size);
            &&& buffers.len() >= 2
            &&& forall|i: int|
                0 <= i < buffers.len() ==> (#[trigger] buffers[i]).node == if i < 2 {
                    config.local_numa_node
                } else {
                    config.cxl_numa_node
                }
        }),
{
}

/// Whether a file holds all that is to be loaded from it.
pub fn check_file_size(file_size: u64, expected_size: usize) -> (result: Result<(), CxlError>)
    ensures
        result == if file_size >= expected_size {
            Ok::<(), CxlError>(())
        } else {
            Err(
                CxlError::FileTooSmall {
                    size: file_size as u128,
                    expected: expected_size as u128,
                },
            )
        },
{
    if file_size < expected_size as u64 {
        return Err(
            CxlError::FileTooSmall { size: file_size as u128, expected: expected_size as u128 },
        );
    }
    Ok(())
}

/// What is wrong with the first buffer that is shorter than it should be.
pub open spec fn first_short(lens: Seq<(int, int)>) -> Option<CxlError>
    decreases lens.len(),
{
    if lens.len() == 0 {
        None
    } else if lens[0].0 < lens[0].1 {
        Some(CxlError::FileTooSmall { size: lens[0].0 as u128, expected: lens[0].1 as u128 })
    } else {
        first_short(lens.drop_first())
    }
}

/// Where the first `n` buffers are long enough, the first that is not is the one at `n`.
proof fn lemma_first_short(lens: Seq<(int, int)>, n: int)
    requires
        0 <= n <= lens.len(),
        forall|i: int| 0 <= i < n ==> (#[trigger] lens[i]).0 >= lens[i].1,
        n < lens.len() ==> lens[n].0 < lens[n].1,
    ensures
        first_short(lens) == if n < lens.len() {
            Some(CxlError::FileTooSmall { size: lens[n].0 as u128, expected: lens[n].1 as u128 })
        } else {
            None
        },
    decreases n,
{
    if n > 0 {
        let rest = lens.drop_first();
        assert(lens[0].0 >= lens[0].1);
        assert forall|i: int| 0 <= i < n - 1 implies (#[trigger] rest[i]).0 >= rest[i].1 by {
            assert(rest[i] == lens[i + 1]);
        }
        lemma_first_short(rest, n - 1);
    }
}

/// Holds the length of a buffer against what is to be loaded into it.
fn check_buffer(
    region: &MappedRegion,
    expected: usize,
    Ghost(lens): Ghost<Seq<(int, int)>>,
    Ghost(n): Ghost<int>,
) -> (result: Result<(), CxlError>)
    requires
        0 <= n < lens.len(),
        lens[n] == (region@.len() as int, expected as int),
        forall|i: int| 0 <= i < n ==> (#[trigger] lens[i]).0 >= lens[i].1,
    ensures
        match result {
            Ok(_) => lens[n].0 >= lens[n].1,
            Err(e) => first_short(lens) == Some(e),
        },
{
    let result = check_file_size(region.len() as u64, expected);
    proof {
        if lens[n].0 < lens[n].1 {
            lemma_first_short(lens, n);
        }
    }
    result
}

/// The data of a provider.
pub struct ProviderTable {
    pub vectors: Seq<u8>,
    pub graph: Seq<u8>,
    pub pq_codes: Seq<u8>,
    pub pq_codebook: Seq<u8>,
    pub num_vectors: int,
    pub elem_size: int,
    pub config: CxlProviderConfig,
}

impl ProviderTable {
    /// Bytes of a vector.
    pub open spec fn vector_len(self) -> int {
        self.config.dimensions * self.elem_size
    }

    /// Where the vector of a node starts.
    pub open spec fn vector_at(self, id: u32) -> int {
        id * self.config.dimensions * self.elem_size
    }

    /// Where the neighbor list of a node starts.
    pub open spec fn list_at(self, id: u32) -> int {
        id * self.config.list_len()
    }

    /// Whether the vector of a node is there.
    pub open spec fn has_vector(self, id: u32) -> bool {
        &&& id < self.num_vectors
        &&& self.vector_at(id) + self.vector_len() <= self.vectors.len()
    }

    /// Whether the neighbor list of a node is there.
    pub open spec fn has_list(self, id: u32) -> bool {
        &&& id < self.num_vectors
        &&& adjacency_within(self.graph, self.list_at(id), self.config.max_degree as int)
    }

    /// The bytes of a node's vector.
    pub open spec fn vector(self, id: u32) -> Seq<u8> {
        self.vectors.subrange(self.vector_at(id), self.vector_at(id) + self.vector_len())
    }

    /// The PQ codes of a node.
    pub open spec fn codes(self, id: u32) -> Seq<u8> {
        self.pq_codes.subrange(
            id * self.config.pq_subspaces,
            id * self.config.pq_subspaces + self.config.pq_subspaces,
        )
    }

    /// The neighbors of a node.
    pub open spec fn adjacency(self, id: u32) -> Seq<u32> {
        adjacency_at(self.graph, self.list_at(id), self.config.max_degree as int)
    }
}

/// CXL-aware data provider with explicit NUMA placement.
///
/// Separates hot (PQ) data in local DRAM from cold (full vectors + graph) data in CXL memory.
/// `T` is the element type of the vectors.
pub struct CxlDataProvider<T> {
    pq_codes: MappedRegion,
    pq_codebook: MappedRegion,
    vectors: MappedRegion,
    graph: MappedRegion,
    num_vectors: usize,
    config: CxlProviderConfig,
    phantom: PhantomData<T>,
}

impl<T> View for CxlDataProvider<T> {
    type V = ProviderTable;

    closed spec fn view(&self) -> ProviderTable {
        ProviderTable {
            vectors: self.vectors@,
            graph: self.graph@,
            pq_codes: self.pq_codes@,
            pq_codebook: self.pq_codebook@,
            num_vectors: self.num_vectors as int,
            elem_size: vstd::layout::size_of::<T>() as int,
            config: self.config,
        }
    }
}

impl<T> CxlDataProvider<T> {
    /// The PQ data is all there.
    pub closed spec fn wf(self) -> bool {
        &&& self.config.pq_countable(self.num_vectors as int)
        &&& self.pq_codes@.len() >= self.config.codes_len(self.num_vectors as int)
        &&& self.pq_codebook@.len() >= self.config.codebook_len()
    }

    /// Create provider with mmap'd CXL files (DAX mode), and PQ data in buffers in local DRAM.
    pub fn from_dax_files(
        vectors: Mmap,
        graph: Mmap,
        pq_codes: Mmap,
        pq_codebook: Mmap,
        num_vectors: usize,
        config: &CxlProviderConfig,
    ) -> (result: Result<Self, CxlError>)
        requires
            config.pq_countable(num_vectors as int),
        ensures
            ({
                let short = first_short(
                    seq![
                        (
                            mapped_bytes(pq_codes).len() as int,
                            config.codes_len(num_vectors as int),
                        ),
                        (mapped_bytes(pq_codebook).len() as int, config.codebook_len()),
                    ],
                );
                match result {
                    Ok(provider) => {
                        &&& short is None
                        &&& provider.wf()
                        &&& provider@ == (ProviderTable {
                            vectors: mapped_bytes(vectors),
                            graph: mapped_bytes(graph),
                            pq_codes: mapped_bytes(pq_codes),
                            pq_codebook: mapped_bytes(pq_codebook),
                            num_vectors: num_vectors as int,
                            elem_size: vstd::layout::size_of::<T>() as int,
                            config: CxlProviderConfig { mode: CxlAccessMode::MmapDax, ..*config },
                        })
                    },
                    Err(e) => short == Some(e),
                }
            }),
    {
        let ghost lens = seq![
            (mapped_bytes(pq_codes).len() as int, config.codes_len(num_vectors as int)),
            (mapped_bytes(pq_codebook).len() as int, config.codebook_len()),
        ];
        let pq_codes = MappedRegion::new(pq_codes);
        let pq_codebook = MappedRegion::new(pq_codebook);
        let (codes_len, codebook_len): (usize, usize) = match config.pq_sizes(num_vectors) {
            Some(sizes) => sizes,
            None => (0, 0),
        };
        check_buffer(&pq_codes, codes_len, Ghost(lens), Ghost(0))?;
        check_buffer(&pq_codebook, codebook_len, Ghost(lens), Ghost(1))?;
        proof {
            lemma_first_short(lens, 2);
        }
        Ok(
            CxlDataProvider {
                pq_codes,
                pq_codebook,
                vectors: MappedRegion::new(vectors),
                graph: MappedRegion::new(graph),
                num_vectors,
                config: CxlProviderConfig { mode: CxlAccessMode::MmapDax, ..*config },
                phantom: PhantomData,
            },
        )
    }

    /// Create provider with NUMA-bound memory buffers: PQ data in local DRAM, vectors and graph
    /// on the CXL node. All of them are then there for every vector.
    pub fn from_numa_buffers(
        vectors: Mmap,
        graph: Mmap,
        pq_codes: Mmap,
        pq_codebook: Mmap,
        num_vectors: usize,
        config: &CxlProviderConfig,
    ) -> (result: Result<Self, CxlError>)
        requires
            config.pq_countable(num_vectors as int),
            config.cxl_countable(num_vectors as int, vstd::layout::size_of::<T>() as int),
        ensures
            ({
                let elem_size = vstd::layout::size_of::<T>() as int;
                let short = first_short(
                    seq![
                        (
                            mapped_bytes(pq_codes).len() as int,
                            config.codes_len(num_vectors as int),
                        ),
                        (mapped_bytes(pq_codebook).len() as int, config.codebook_len()),
                        (
                            mapped_bytes(vectors).len() as int,
                            config.vectors_len(num_vectors as int, elem_size),
                        ),
                        (mapped_bytes(graph).len() as int, config.graph_len(num_vectors as int)),
                    ],
                );
                match result {
                    Ok(provider) => {
                        &&& short is None
                        &&& provider.wf()
                        &&& provider@ == (ProviderTable {
                            vectors: mapped_bytes(vectors),
                            graph: mapped_bytes(graph),
                            pq_codes: mapped_bytes(pq_codes),
                            pq_codebook: mapped_bytes(pq_codebook),
                            num_vectors: num_vectors as int,
                            elem_size,
                            config: CxlProviderConfig {
                                mode: CxlAccessMode::NumaBuffers,
                                ..*config
                            },
                        })
                        &&& forall|id: u32|
                            id < num_vectors ==> #[trigger] provider@.has_vector(id)
                                && provider@.has_list(id)
                    },
                    Err(e) => short == Some(e),
                }
            }),
    {
        let ghost lens = seq![
            (mapped_bytes(pq_codes).len() as int, config.codes_len(num_vectors as int)),
            (mapped_bytes(pq_codebook).len() as int, config.codebook_len()),
            (
                mapped_bytes(vectors).len() as int,
                config.vectors_len(num_vectors as int, vstd::layout::size_of::<T>() as int),
            ),
            (mapped_bytes(graph).len() as int, config.graph_len(num_vectors as int)),
        ];
        let pq_codes = MappedRegion::new(pq_codes);
        let pq_codebook = MappedRegion::new(pq_codebook);
        let vectors = MappedRegion::new(vectors);
        let graph = MappedRegion::new(graph);
        let (codes_len, codebook_len): (usize, usize) = match config.pq_sizes(num_vectors) {
            Some(sizes) => sizes,
            None => (0, 0),
        };
        let (vectors_len, graph_len): (usize, usize) = match config.cxl_sizes(
            num_vectors,
            core::mem::size_of::<T>(),
        ) {
            Some(sizes) => sizes,
            None => (0, 0),
        };
        check_buffer(&pq_codes, codes_len, Ghost(lens), Ghost(0))?;
        check_buffer(&pq_codebook, codebook_len, Ghost(lens), Ghost(1))?;
        check_buffer(&vectors, vectors_len, Ghost(lens), Ghost(2))?;
        check_buffer(&graph, graph_len, Ghost(lens), Ghost(3))?;
        proof {
            lemma_first_short(lens, 4);
        }
        let provider = CxlDataProvider {
            pq_codes,
            pq_codebook,
            vectors,
            graph,
            num_vectors,
            config: CxlProviderConfig { mode: CxlAccessMode::NumaBuffers, ..*config },
            phantom: PhantomData,
        };
        proof {
            assert forall|id: u32| id < num_vectors implies #[trigger] provider@.has_vector(id)
                && provider@.has_list(id) by {
                lemma_full_buffers(provider@, id);
            }
        }
        Ok(provider)
    }

    /// How the CXL data is accessed.
    pub fn mode(&self) -> (mode: CxlAccessMode)
        ensures
            mode == self@.config.mode,
    {
        self.config.mode
    }

    /// The region of the vectors.
    pub fn vectors(&self) -> (bytes: &[u8])
        ensures
            bytes@ == self@.vectors,
    {
        self.vectors.bytes()
    }

    /// The region of the neighbor lists.
    pub fn graph(&self) -> (bytes: &[u8])
        ensures
            bytes@ == self@.graph,
    {
        self.graph.bytes()
    }

    /// Whether the vector of a node is there.
    pub fn has_vector(&self, id: u32) -> (there: bool)
        ensures
            there == self@.has_vector(id),
    {
        let len: usize = self.vectors.len();
        if id as usize >= self.num_vectors {
            return false;
        }
        proof {
            lemma_vector_parts(self@, id);
        }
        match ((id as usize + 1).checked_mul(self.config.dimensions)) {
            None => {
                proof {
                    lemma_elements_bound(self@, id);
                }
                core::mem::size_of::<T>() == 0
            },
            Some(elements) => match elements.checked_mul(core::mem::size_of::<T>()) {
                None => false,
                Some(end) => end <= len,
            },
        }
    }

    /// Get full-precision vector. Returns reference into CXL memory.
    pub fn get_full_vector(&self, id: u32) -> (vector: &[u8])
        requires
            self@.has_vector(id),
        ensures
            vector@ == self@.vector(id),
    {
        let bytes = self.vectors.bytes();
        assert(bytes@.len() == bytes.len());
        proof {
            lemma_vector_parts(self@, id);
        }
        let elem_size: usize = core::mem::size_of::<T>();
        let size: usize = self.config.dimensions * elem_size;
        let offset: usize = id as usize * size;
        slice_subrange(bytes, offset, offset + size)
    }

    /// Get PQ codes for a vector. Returns reference into local DRAM.
    pub fn get_pq_codes(&self, id: u32) -> (codes: &[u8])
        requires
            self.wf(),
            id < self@.num_vectors,
        ensures
            codes@ == self@.codes(id),
    {
        let bytes = self.pq_codes.bytes();
        assert(bytes@.len() == bytes.len());
        let size: usize = self.config.pq_subspaces;
        proof {
            assert(0 <= id * size && id * size + size <= self.num_vectors * size)
                by (nonlinear_arith)
                requires
                    0 <= id,
                    id + 1 <= self.num_vectors,
                    size >= 0,
            ;
        }
        let offset: usize = id as usize * size;
        slice_subrange(bytes, offset, offset + size)
    }

    /// Get PQ codebook: the bytes of its `f32` elements. Returns reference into local DRAM.
    pub fn get_codebook(&self) -> (codebook: &[u8])
        requires
            self.wf(),
        ensures
            codebook@ == self@.pq_codebook.take(self@.config.codebook_len()),
    {
        let bytes = self.pq_codebook.bytes();
        let codebook_len: usize = match self.config.pq_sizes(self.num_vectors) {
            Some((_codes, codebook)) => codebook,
            None => 0,
        };
        slice_subrange(bytes, 0, codebook_len)
    }

    /// Whether the neighbor list of a node is there.
    pub fn has_list(&self, id: u32) -> (there: bool)
        ensures
            there == self@.has_list(id),
    {
        let bytes = self.graph.bytes();
        assert(bytes@.len() == bytes.len());
        if id as usize >= self.num_vectors {
            return false;
        }
        proof {
            let list = self.config.list_len();
            assert(0 <= id * list && (id > 0 ==> list <= id * list) && (id == 0 ==> id * list == 0))
                by (nonlinear_arith)
                requires
                    0 <= id,
                    list >= 0,
            ;
        }
        if id == 0 {
            return adjacency_fits(bytes, 0, 0, self.config.max_degree);
        }
        let ids: usize = match self.config.max_degree.checked_mul(4) {
            Some(n) => n,
            None => return false,
        };
        let list: usize = match ids.checked_add(4) {
            Some(n) => n,
            None => return false,
        };
        match (id as usize).checked_mul(list) {
            Some(at) => adjacency_fits(bytes, at, 0, self.config.max_degree),
            None => false,
        }
    }

    /// Get neighbor IDs for a node.
    pub fn get_neighbors(&self, id: u32) -> (neighbors: Vec<u32>)
        requires
            self@.has_list(id),
            self@.config.list_len() <= usize::MAX,
        ensures
            neighbors@ == self@.adjacency(id),
    {
        let bytes = self.graph.bytes();
        assert(bytes@.len() == bytes.len());
        let node_size: usize = 4 + self.config.max_degree * 4;
        read_adjacency(bytes, id as usize * node_size, self.config.max_degree)
    }

    /// The cache lines to prefetch for a vector; none where there is no such vector.
    pub fn prefetch_vector(&self, id: u32) -> (span: Option<PrefetchSpan>)
        requires
            id < self@.num_vectors ==> self@.vector_at(id) + self@.vector_len() <= usize::MAX,
        ensures
            span == if id < self@.num_vectors {
                Some(PrefetchSpan::covering(self@.vector_at(id), self@.vector_len()))
            } else {
                None
            },
    {
        if id as usize >= self.num_vectors {
            return None;
        }
        proof {
            lemma_vector_parts(self@, id);
        }
        let elem_size: usize = core::mem::size_of::<T>();
        let size: usize = self.config.dimensions * elem_size;
        Some(PrefetchSpan::new(id as usize * size, size))
    }

    /// The cache lines to prefetch for a neighbor list; none where there is no such node.
    pub fn prefetch_neighbors(&self, id: u32) -> (span: Option<PrefetchSpan>)
        requires
            id < self@.num_vectors ==> {
                &&& self@.config.list_len() <= usize::MAX
                &&& self@.list_at(id) <= usize::MAX
            },
        ensures
            span == if id < self@.num_vectors {
                Some(PrefetchSpan::covering(self@.list_at(id), self@.config.list_len()))
            } else {
                None
            },
    {
        if id as usize >= self.num_vectors {
            return None;
        }
        let node_size: usize = 4 + self.config.max_degree * 4;
        Some(PrefetchSpan::new(id as usize * node_size, node_size))
    }

    /// How many vectors there are.
    pub fn num_vectors(&self) -> (num: usize)
        ensures
            num == self@.num_vectors,
    {
        self.num_vectors
    }

    /// Elements of a vector.
    pub fn dimensions(&self) -> (dims: usize)
        ensures
            dims == self@.config.dimensions,
    {
        self.config.dimensions
    }

    /// The most neighbors that a node can have.
    pub fn max_degree(&self) -> (degree: usize)
        ensures
            degree == self@.config.max_degree,
    {
        self.config.max_degree
    }

    /// Memory usage summary.
    pub fn memory_stats(&self) -> (stats: MemoryStats)
        requires
            self.wf(),
            self@.config.codes_len(self@.num_vectors) + self@.config.codebook_len() <= usize::MAX,
            self@.config.cxl_countable(self@.num_vectors, self@.elem_size),
            self@.config.vectors_len(self@.num_vectors, self@.elem_size) + self@.config.graph_len(
                self@.num_vectors,
            ) <= usize::MAX,
        ensures
            stats.pq_codes_bytes == self@.config.codes_len(self@.num_vectors),
            stats.pq_codebook_bytes == self@.config.codebook_len(),
            stats.vector_bytes == self@.config.vectors_len(self@.num_vectors, self@.elem_size),
            stats.graph_bytes == self@.config.graph_len(self@.num_vectors),
            stats.adds_up(),
    {
        let (pq_codes_bytes, pq_codebook_bytes): (usize, usize) = match self.config.pq_sizes(
            self.num_vectors,
        ) {
            Some(sizes) => sizes,
            None => (0, 0),
        };
        let (vector_bytes, graph_bytes): (usize, usize) = match self.config.cxl_sizes(
            self.num_vectors,
            core::mem::size_of::<T>(),
        ) {
            Some(sizes) => sizes,
            None => (0, 0),
        };
        MemoryStats {
            local_dram_bytes: pq_codes_bytes + pq_codebook_bytes,
            cxl_bytes: vector_bytes + graph_bytes,
            pq_codes_bytes,
            pq_codebook_bytes,
            vector_bytes,
            graph_bytes,
        }
    }
}

/// The end of a vector is where the next one starts.
proof fn lemma_vector_parts(table: ProviderTable, id: u32)
    requires
        table.elem_size >= 0,
    ensures
        table.vector_at(id) + table.vector_len() == (id + 1) * table.config.dimensions
            * table.elem_size,
        0 <= table.vector_at(id),
        0 <= table.vector_len(),
        0 <= id * table.config.dimensions,
        0 <= (id + 1) * table.config.dimensions,
        table.vector_at(id) == id * table.vector_len(),
{
    let d = table.config.dimensions as int;
    let e = table.elem_size;
    assert(id * d * e + d * e == (id + 1) * d * e && id * d * e == id * (d * e))
        by (nonlinear_arith);
    assert(0 <= id * d && 0 <= (id + 1) * d && 0 <= d * e && 0 <= id * d * e) by (nonlinear_arith)
        requires
            id >= 0,
            d >= 0,
            e >= 0,
    ;
}

/// Vectors of many elements lie within their region only where elements are empty.
proof fn lemma_elements_bound(table: ProviderTable, id: u32)
    requires
        table.elem_size >= 0,
        (id + 1) * table.config.dimensions > usize::MAX,
        table.vectors.len() <= usize::MAX,
    ensures
        table.elem_size == 0 ==> (id + 1) * table.config.dimensions * table.elem_size == 0,
        table.elem_size > 0 ==> (id + 1) * table.config.dimensions * table.elem_size
            > table.vectors.len(),
{
    let n = (id + 1) * table.config.dimensions;
    let e = table.elem_size;
    assert(e > 0 ==> n * e >= n) by (nonlinear_arith)
        requires
            n > 0,
    ;
    assert(e == 0 ==> n * e == 0) by (nonlinear_arith);
}

/// Buffers of full length hold the vector and the list of every node.
proof fn lemma_full_buffers(table: ProviderTable, id: u32)
    requires
        id < table.num_vectors,
        table.elem_size >= 0,
        table.config.vectors_len(table.num_vectors, table.elem_size) <= table.vectors.len(),
        table.config.graph_len(table.num_vectors) <= table.graph.len(),
    ensures
        table.has_vector(id),
        table.has_list(id),
{
    let n = table.num_vectors;
    let d = table.config.dimensions as int;
    let e = table.elem_size;
    let list = table.config.list_len();
    lemma_vector_parts(table, id);
    assert((id + 1) * d * e <= n * d * e) by (nonlinear_arith)
        requires
            id + 1 <= n,
            d >= 0,
            e >= 0,
    ;
    assert(0 <= id * list && id * list + list <= n * list) by (nonlinear_arith)
        requires
            0 <= id,
            id + 1 <= n,
            list >= 0,
    ;
}

/// Memory usage breakdown.
#[derive(Debug, Clone, Copy, PartialEq, Eq, Structural)]
pub struct MemoryStats {
    pub local_dram_bytes: usize,
    pub cxl_bytes: usize,
    pub pq_codes_bytes: usize,
    pub pq_codebook_bytes: usize,
    pub vector_bytes: usize,
    pub graph_bytes: usize,
}

/// A size in megabytes, as it is shown.
pub open spec fn shown_mb(bytes: usize) -> Seq<char> {
    one_decimal(tenths(bytes as u64, MEGA))
}

/// A size in gigabytes, as it is shown.
pub open spec fn shown_gb(bytes: u64) -> Seq<char> {
    one_decimal(tenths(bytes, GIGA))
}

impl MemoryStats {
    /// The parts of each tier make up the whole.
    pub open spec fn adds_up(self) -> bool {
        &&& self.local_dram_bytes == self.pq_codes_bytes + self.pq_codebook_bytes
        &&& self.cxl_bytes == self.vector_bytes + self.graph_bytes
    }

    /// The usage as a text of two lines.
    pub fn display(&self) -> (text: String)
        ensures
            text@ == "Local DRAM: "@ + shown_mb(self.local_dram_bytes) + " MB (PQ codes: "@
                + shown_mb(self.pq_codes_bytes) + " MB, codebook: "@ + shown_mb(
                self.pq_codebook_bytes,
            ) + " MB)\nCXL Memory: "@ + shown_mb(self.cxl_bytes) + " MB (vectors: "@ + shown_mb(
                self.vector_bytes,
            ) + " MB, graph: "@ + shown_mb(self.graph_bytes) + " MB)"@,
    {
        let mut text = String::from_str("Local DRAM: ");
        push_one_decimal(&mut text, self.local_dram_bytes as u64, MEGA);
        text.append(" MB (PQ codes: ");
        push_one_decimal(&mut text, self.pq_codes_bytes as u64, MEGA);
        text.append(" MB, codebook: ");
        push_one_decimal(&mut text, self.pq_codebook_bytes as u64, MEGA);
        text.append(" MB)\nCXL Memory: ");
        push_one_decimal(&mut text, self.cxl_bytes as u64, MEGA);
        text.append(" MB (vectors: ");
        push_one_decimal(&mut text, self.vector_bytes as u64, MEGA);
        text.append(" MB, graph: ");
        push_one_decimal(&mut text, self.graph_bytes as u64, MEGA);
        text.append(" MB)");
        text
    }
}

/// The memory of a NUMA node.
#[derive(Debug, Clone, Copy, PartialEq, Eq, Structural)]
pub struct NumaNodeInfo {
    pub node: NumaNode,
    pub total_bytes: u64,
    pub free_bytes: u64,
}

impl NumaNodeInfo {
    /// What the kernel's text on a node says of its memory; none where a size cannot be
    /// counted in bytes.
    pub fn from_meminfo(node: NumaNode, content: &str) -> (info: Option<NumaNodeInfo>)
        ensures
            ({
                let total = value_of(content@, "MemTotal"@) * 1024;
                let free = value_of(content@, "MemFree"@) * 1024;
                info == if total <= u64::MAX && free <= u64::MAX {
                    Some(
                        NumaNodeInfo {
                            node,
                            total_bytes: total as u64,
                            free_bytes: free as u64,
                        },
                    )
                } else {
                    None
                }
            }),
    {
        let (total_kb, free_kb): (u64, u64) = meminfo_kb(content);
        match total_kb.checked_mul(1024) {
            None => None,
            Some(total_bytes) => match free_kb.checked_mul(1024) {
                None => None,
                Some(free_bytes) => Some(NumaNodeInfo { node, total_bytes, free_bytes }),
            },
        }
    }

    /// The node's memory as a text.
    pub fn display(&self) -> (text: String)
        ensures
            text@ == "NUMA node "@ + decimal(self.node as nat) + ": "@ + shown_gb(self.total_bytes)
                + " GB total, "@ + shown_gb(self.free_bytes) + " GB free"@,
    {
        let mut text = String::from_str("NUMA node ");
        push_decimal(&mut text, self.node as u64);
        text.append(": ");
        push_one_decimal(&mut text, self.total_bytes, GIGA);
        text.append(" GB total, ");
        push_one_decimal(&mut text, self.free_bytes, GIGA);
        text.append(" GB free");
        text
    }
}

/// Arc-wrapped provider for multi-threaded search.
pub type SharedCxlProvider<T> = Arc<CxlDataProvider<T>>;

/// Benchmark JSON config for CXL provider.
#[derive(Debug, Clone)]
pub struct CxlBenchmarkConfig {
    pub local_numa_node: NumaNode,
    pub cxl_numa_node: NumaNode,
    pub mode: CxlAccessMode,
    pub vectors_path: String,
    pub graph_path: String,
    pub pq_codes_path: String,
    pub pq_codebook_path: String,
}

/// The sizes of the data, from the configuration: a code byte per vector and chunk, four bytes
/// for each element of each centroid, an element size for each element of each vector, and a
/// count and `max_degree` neighbors of four bytes for each node.
pub proof fn law_sizes_follow_the_configuration(
    config: CxlProviderConfig,
    num_vectors: int,
    elem_size: int,
)
    requires
        config.pq_subspaces > 0,
    ensures
        config.codes_len(num_vectors) == config.pq_subspaces * num_vectors,
        config.pq_subspaces * config.sub_dim() <= config.dimensions,
        config.dimensions < config.pq_subspaces * config.sub_dim() + config.pq_subspaces,
        config.codebook_len() == 4 * (config.pq_centroids * config.pq_subspaces
            * config.sub_dim()),
        config.vectors_len(num_vectors, elem_size) == num_vectors * (config.dimensions
            * elem_size),
        config.graph_len(num_vectors) == num_vectors * (4 + 4 * config.max_degree),
{
    let d = config.dimensions as int;
    let s = config.pq_subspaces as int;
    vstd::arithmetic::div_mod::lemma_fundamental_div_mod(d, s);
    assert(num_vectors * s == s * num_vectors) by (nonlinear_arith);
    assert(num_vectors * d * elem_size == num_vectors * (d * elem_size)) by (nonlinear_arith);
    assert(4 + config.max_degree * 4 == 4 + 4 * config.max_degree);
}

/// Vectors, codes and neighbor lists stand one after the other, each at its number times its
/// length.
pub proof fn law_tiers_are_read_in_order(table: ProviderTable, id: u32)
    requires
        table.elem_size >= 0,
    ensures
        ({
            let vector_len = table.config.dimensions * table.elem_size;
            let count_at = id * (4 + 4 * table.config.max_degree);
            let chunks = table.config.pq_subspaces as int;
            &&& table.has_vector(id) <==> id < table.num_vectors && (id + 1) * vector_len
                <= table.vectors.len()
            &&& table.vector_at(id) == id * vector_len
            &&& table.vector_len() == vector_len
            &&& forall|b: int|
                table.has_vector(id) && 0 <= b < vector_len ==> #[trigger] table.vector(id)[b]
                    == table.vectors[id * vector_len + b]
            &&& table.has_vector(id) ==> table.vector(id).len() == vector_len
            &&& forall|c: int|
                0 <= c < chunks && id * chunks + chunks <= table.pq_codes.len()
                    ==> #[trigger] table.codes(id)[c] == table.pq_codes[id * chunks + c]
            &&& id * chunks + chunks <= table.pq_codes.len() ==> table.codes(id).len() == chunks
            &&& table.list_at(id) == count_at
            &&& table.has_list(id) <==> id < table.num_vectors && count_at + 4
                <= table.graph.len() && count_at + 4 + 4 * table.adjacency(id).len()
                <= table.graph.len()
            &&& u32_at(table.graph, count_at) <= table.config.max_degree ==> table.adjacency(
                id,
            ).len() == u32_at(table.graph, count_at)
            &&& u32_at(table.graph, count_at) > table.config.max_degree ==> table.adjacency(
                id,
            ).len() == table.config.max_degree
            &&& forall|j: int|
                0 <= j < table.adjacency(id).len() ==> #[trigger] table.adjacency(id)[j] == u32_at(
                    table.graph,
                    count_at + 4 + 4 * j,
                )
        }),
{
    let d = table.config.dimensions as int;
    let e = table.elem_size;
    let chunks = table.config.pq_subspaces as int;
    lemma_vector_parts(table, id);
    assert((id + 1) * (d * e) == (id + 1) * d * e) by (nonlinear_arith);
    assert(0 <= id * chunks) by (nonlinear_arith)
        requires
            chunks >= 0,
    ;
    assert(0 <= id * (4 + 4 * table.config.max_degree)) by (nonlinear_arith);
    assert(table.config.list_len() == 4 + 4 * table.config.max_degree);
    law_lists_follow_their_count(
        table.graph,
        table.list_at(id),
        table.config.max_degree as int,
    );
}

/// What can be counted is what fits the address space, intermediate results included.
pub proof fn law_countable_sizes_fit(config: CxlProviderConfig, num_vectors: int, elem_size: int)
    ensures
        config.pq_countable(num_vectors) <==> {
            &&& config.pq_subspaces > 0
            &&& config.codes_len(num_vectors) <= usize::MAX
            &&& config.pq_centroids * config.pq_subspaces <= usize::MAX
            &&& config.codebook_len() <= usize::MAX
        },
        config.cxl_countable(num_vectors, elem_size) <==> {
            &&& num_vectors * config.dimensions <= usize::MAX
            &&& config.vectors_len(num_vectors, elem_size) <= usize::MAX
            &&& 4 + 4 * config.max_degree <= usize::MAX
            &&& config.graph_len(num_vectors) <= usize::MAX
        },
        config.loadable(CxlAccessMode::MmapDax, num_vectors, elem_size) <==> config.pq_countable(
            num_vectors,
        ),
        config.loadable(CxlAccessMode::NumaBuffers, num_vectors, elem_size)
            <==> config.pq_countable(num_vectors) && config.cxl_countable(num_vectors, elem_size),
{
}

/// The buffers that are loaded have the lengths of their data, in order: codes, codebook, and in
/// buffer mode vectors and graph.
pub proof fn law_buffers_have_the_lengths_of_their_data(
    config: CxlProviderConfig,
    num_vectors: int,
    elem_size: int,
)
    requires
        num_vectors >= 0,
        elem_size >= 0,
        config.loadable(CxlAccessMode::NumaBuffers, num_vectors, elem_size),
    ensures
        ({
            let few = config.placement(CxlAccessMode::MmapDax, num_vectors, elem_size);
            let all = config.placement(CxlAccessMode::NumaBuffers, num_vectors, elem_size);
            &&& few.len() == 2
            &&& all.len() == 4
            &&& all.take(2) == few
            &&& all[0].len == config.codes_len(num_vectors)
            &&& all[1].len == config.codebook_len()
            &&& all[2].len == config.vectors_len(num_vectors, elem_size)
            &&& all[3].len == config.graph_len(num_vectors)
        }),
{
    let few = config.placement(CxlAccessMode::MmapDax, num_vectors, elem_size);
    let all = config.placement(CxlAccessMode::NumaBuffers, num_vectors, elem_size);
    let s = config.sub_dim();
    assert(s >= 0) by {
        vstd::arithmetic::div_mod::lemma_div_pos_is_pos(
            config.dimensions as int,
            config.pq_subspaces as int,
        );
    }
    assert(num_vectors * config.pq_subspaces >= 0 && config.pq_centroids * config.pq_subspaces * s
        * 4 >= 0 && num_vectors * config.dimensions * elem_size >= 0 && num_vectors * (4
        + config.max_degree * 4) >= 0) by (nonlinear_arith)
        requires
            num_vectors >= 0,
            elem_size >= 0,
            s >= 0,
    ;
    assert(all.take(2) =~= few);
}

/// The first short buffer is told: it is shorter than it should be, and those in front of it
/// are not. Where none is told all are long enough.
pub proof fn law_the_first_short_buffer_is_told(lens: Seq<(int, int)>)
    requires
        forall|i: int|
            0 <= i < lens.len() ==> 0 <= (#[trigger] lens[i]).0 <= usize::MAX && 0 <= lens[i].1
                <= usize::MAX,
    ensures
        match first_short(lens) {
            None => forall|i: int| 0 <= i < lens.len() ==> (#[trigger] lens[i]).0 >= lens[i].1,
            Some(e) => exists|i: int|
                0 <= i < lens.len() && (#[trigger] lens[i]).0 < lens[i].1 && e
                    == (CxlError::FileTooSmall {
                    size: lens[i].0 as u128,
                    expected: lens[i].1 as u128,
                }) && (forall|j: int| 0 <= j < i ==> (#[trigger] lens[j]).0 >= lens[j].1),
        },
    decreases lens.len(),
{
    if lens.len() > 0 {
        if lens[0].0 < lens[0].1 {
            assert(lens[0].0 < lens[0].1);
        } else {
            let rest = lens.drop_first();
            assert forall|i: int| 0 <= i < rest.len() implies 0 <= (#[trigger] rest[i]).0
                <= usize::MAX && 0 <= rest[i].1 <= usize::MAX by {
                assert(rest[i] == lens[i + 1]);
            }
            law_the_first_short_buffer_is_told(rest);
            match first_short(rest) {
                None => {
                    assert forall|i: int| 0 <= i < lens.len() implies (#[trigger] lens[i]).0
                        >= lens[i].1 by {
                        if i > 0 {
                            assert(rest[i - 1] == lens[i]);
                        }
                    }
                },
                Some(e) => {
                    let i = choose|i: int|
                        0 <= i < rest.len() && (#[trigger] rest[i]).0 < rest[i].1 && e
                            == (CxlError::FileTooSmall {
                            size: rest[i].0 as u128,
                            expected: rest[i].1 as u128,
                        }) && (forall|j: int| 0 <= j < i ==> (#[trigger] rest[j]).0 >= rest[j].1);
                    assert(lens[i + 1] == rest[i]);
                    assert forall|j: int| 0 <= j < i + 1 implies (#[trigger] lens[j]).0
                        >= lens[j].1 by {
                        if j > 0 {
                            assert(rest[j - 1] == lens[j]);
                        }
                    }
                },
            }
        }
    }
}

/// Sizes are shown in megabytes and gigabytes of a thousand thousands, with one decimal place.
pub proof fn law_sizes_are_shown_with_one_place(bytes: usize, other: u64)
    ensures
        shown_mb(bytes) == one_decimal(tenths(bytes as u64, 1_000_000)),
        shown_gb(other) == one_decimal(tenths(other, 1_000_000_000)),
{
}

} // verus!

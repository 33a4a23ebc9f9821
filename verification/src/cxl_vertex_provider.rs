//! Graph nodes straight from mapped CXL memory, with prefetching and a small cache.
//!
//! - Prefetch plans hide CXL latency (a few hundred nanoseconds per cache line).
//! - The cache holds little: its value over CXL is far below what it is over an SSD.
//! - Vectors are handed out as slices of the map, without a copy.

use crate::cxl_mmap_reader::{CxlMmapConfig, CxlMmapReader, PrefetchSpan};
use crate::cxl_sector_graph::{
    lemma_offset_not_negative, node_len_of, NodeLayout, NodeOffsetCalculator, CXL_ALIGN,
    CXL_BLOCK_SIZE_THRESHOLD,
};
use crate::error::CxlError;
use crate::mapped_region::mapped_bytes;
use crate::le_bytes::u32_at;
use crate::node_record::{
    adjacency_at, adjacency_fits, adjacency_within, law_lists_follow_their_count, read_adjacency,
};
use crate::rounding::{aligned_up, smaller};
use crate::search::{can_search, is_scoring, scored_search, NodeSource, SearchSpace};
use core::marker::PhantomData;
use memmap2::Mmap;
use std::collections::HashMap;
use vstd::prelude::*;
use vstd::slice::{slice_subrange, slice_to_vec};
use vstd::std_specs::hash::*;

verus! {

broadcast use group_hash_axioms;

/// Number of nodes to prefetch ahead in the beam search loop.
pub const DEFAULT_PREFETCH_AHEAD: usize = 3;

/// Maximum nodes to cache (medoid + immediate neighbors).
pub const DEFAULT_CXL_CACHE_SIZE: usize = 64;

/// A node held in memory: the bytes of its vector, and its neighbors.
#[derive(Debug)]
pub struct CachedNode {
    pub vector: Vec<u8>,
    pub neighbors: Vec<u32>,
}

/// Minimal cache for frequently accessed nodes (medoid + level-1 neighbors).
///
/// Once it is full it takes no more nodes, and it never drops one.
pub struct HotNodeCache {
    entries: HashMap<u32, CachedNode>,
    capacity: usize,
}

impl View for HotNodeCache {
    type V = Map<u32, CachedNode>;

    closed spec fn view(&self) -> Map<u32, CachedNode> {
        self.entries@
    }
}

impl HotNodeCache {
    /// How many nodes the cache takes.
    pub closed spec fn room(self) -> usize {
        self.capacity
    }

    /// An empty cache for `capacity` nodes.
    pub fn new(capacity: usize) -> (cache: Self)
        ensures
            cache@ == Map::<u32, CachedNode>::empty(),
            cache.room() == capacity,
    {
        HotNodeCache { entries: HashMap::new(), capacity }
    }

    /// The cached node of an id.
    pub fn get(&self, id: u32) -> (node: Option<&CachedNode>)
        ensures
            match node {
                Some(n) => self@.dom().contains(id) && *n == self@[id],
                None => !self@.dom().contains(id),
            },
    {
        self.entries.get(&id)
    }

    /// Caches a node, unless the cache is full.
    pub fn insert(&mut self, id: u32, node: CachedNode)
        ensures
            final(self).room() == old(self).room(),
            final(self)@ == if old(self)@.len() < old(self).room() {
                old(self)@.insert(id, node)
            } else {
                old(self)@
            },
    {
        if self.entries.len() < self.capacity {
            self.entries.insert(id, node);
        }
    }

    /// Whether a node is cached.
    pub fn contains(&self, id: &u32) -> (cached: bool)
        ensures
            cached == self@.dom().contains(*id),
    {
        self.entries.contains_key(id)
    }
}

/// Configuration for CXL vertex provider.
#[derive(Debug)]
pub struct CxlVertexProviderConfig {
    pub prefetch_ahead: usize,
    pub cache_enabled: bool,
    pub cache_size: usize,
}

impl Clone for CxlVertexProviderConfig {
    fn clone(&self) -> (copy: Self)
        ensures
            copy == *self,
    {
        CxlVertexProviderConfig {
            prefetch_ahead: self.prefetch_ahead,
            cache_enabled: self.cache_enabled,
            cache_size: self.cache_size,
        }
    }
}

impl Default for CxlVertexProviderConfig {
    fn default() -> (config: Self)
        ensures
            config == (CxlVertexProviderConfig {
                prefetch_ahead: 3,
                cache_enabled: true,
                cache_size: 64,
            }),
    {
        CxlVertexProviderConfig {
            prefetch_ahead: DEFAULT_PREFETCH_AHEAD,
            cache_enabled: true,
            cache_size: DEFAULT_CXL_CACHE_SIZE,
        }
    }
}

impl CxlVertexProviderConfig {
    /// No-cache config for benchmarking cache impact.
    pub fn no_cache() -> (config: Self)
        ensures
            config == (CxlVertexProviderConfig {
                prefetch_ahead: 3,
                cache_enabled: false,
                cache_size: 0,
            }),
    {
        let standard = CxlVertexProviderConfig::default();
        CxlVertexProviderConfig {
            prefetch_ahead: standard.prefetch_ahead,
            cache_enabled: false,
            cache_size: 0,
        }
    }
}

/// The nodes of a mapped index, as its bytes and its layout give them.
pub struct NodeTable {
    pub bytes: Seq<u8>,
    pub layout: NodeLayout,
    /// Bytes of a vector.
    pub vector_bytes: int,
    pub max_degree: int,
}

impl NodeTable {
    /// Where the record of a node starts.
    pub open spec fn at(self, id: u32) -> int {
        self.layout.node_offset(id as int)
    }

    /// Whether the vector of a node is mapped.
    pub open spec fn has_vector(self, id: u32) -> bool {
        self.at(id) + self.vector_bytes <= self.bytes.len()
    }

    /// Whether the neighbor list of a node is mapped. It follows the vector, so the vector is
    /// mapped too.
    pub open spec fn has_node(self, id: u32) -> bool {
        adjacency_within(self.bytes, self.at(id) + self.vector_bytes, self.max_degree)
    }

    /// The bytes of a node's vector.
    pub open spec fn vector(self, id: u32) -> Seq<u8> {
        self.bytes.subrange(self.at(id), self.at(id) + self.vector_bytes)
    }

    /// The neighbors of a node.
    pub open spec fn adjacency(self, id: u32) -> Seq<u32> {
        adjacency_at(self.bytes, self.at(id) + self.vector_bytes, self.max_degree)
    }

    /// Whether a parsed node is what the map holds under an id.
    pub open spec fn holds(self, id: u32, node: CachedNode) -> bool {
        &&& self.has_node(id)
        &&& node.vector@ == self.vector(id)
        &&& node.neighbors@ == self.adjacency(id)
    }

    /// Whether a prefetch of a node stays within the map.
    pub open spec fn prefetchable(self, id: u32) -> bool {
        self.at(id) + self.layout.read_len() <= self.bytes.len()
    }

    /// The cache lines of a node.
    pub open spec fn span(self, id: u32) -> PrefetchSpan {
        PrefetchSpan::covering(self.at(id), self.layout.read_len())
    }

    /// The cache lines to fetch for nodes, in their order: nothing for one that is cached or
    /// reaches past the end of the map.
    pub open spec fn spans(self, ids: Seq<u32>, cached: Set<u32>) -> Seq<PrefetchSpan>
        decreases ids.len(),
    {
        if ids.len() == 0 {
            Seq::empty()
        } else {
            let before = self.spans(ids.drop_last(), cached);
            if !cached.contains(ids.last()) && self.prefetchable(ids.last()) {
                before.push(self.span(ids.last()))
            } else {
                before
            }
        }
    }
}

/// What is cached once one more node is offered.
pub open spec fn admitted(cached: Set<u32>, room: int, id: u32) -> Set<u32> {
    if cached.len() < room {
        cached.insert(id)
    } else {
        cached
    }
}

/// What is cached once nodes are offered one after the other.
pub open spec fn admitted_all(cached: Set<u32>, room: int, ids: Seq<u32>) -> Set<u32>
    decreases ids.len(),
{
    if ids.len() == 0 {
        cached
    } else {
        admitted(admitted_all(cached, room, ids.drop_last()), room, ids.last())
    }
}

/// The nodes that warming reads: the medoid, then its neighbors as long as there is room.
pub open spec fn warming_reads(medoid: u32, neighbors: Seq<u32>, room: int) -> Seq<u32> {
    seq![medoid] + neighbors.take(
        smaller(
            neighbors.len() as int,
            if room >= 1 {
                room - 1
            } else {
                0
            },
        ),
    )
}

/// The first of some nodes that is not wholly mapped.
pub open spec fn first_missing(table: NodeTable, ids: Seq<u32>) -> Option<u32>
    decreases ids.len(),
{
    if ids.len() == 0 {
        None
    } else if !table.has_node(ids[0]) {
        Some(ids[0])
    } else {
        first_missing(table, ids.drop_first())
    }
}

/// Where all in front of `n` are mapped, the first that is missing is the one at `n`.
proof fn lemma_first_missing(table: NodeTable, ids: Seq<u32>, n: int)
    requires
        0 <= n <= ids.len(),
        forall|i: int| 0 <= i < n ==> table.has_node(#[trigger] ids[i]),
        n < ids.len() ==> !table.has_node(ids[n]),
    ensures
        first_missing(table, ids) == if n < ids.len() {
            Some(ids[n])
        } else {
            None
        },
    decreases n,
{
    if n > 0 {
        let rest = ids.drop_first();
        assert(table.has_node(ids[0]));
        assert forall|i: int| 0 <= i < n - 1 implies table.has_node(#[trigger] rest[i]) by {
            assert(table.has_node(ids[i + 1]));
        }
        lemma_first_missing(table, rest, n - 1);
    }
}

/// Caches a node, where there is a cache and it has room.
fn offer(cache: &mut Option<HotNodeCache>, id: u32, node: CachedNode)
    ensures
        match (*old(cache), *final(cache)) {
            (Some(before), Some(after)) => {
                &&& after.room() == before.room()
                &&& after@ == if before@.len() < before.room() {
                    before@.insert(id, node)
                } else {
                    before@
                }
            },
            (None, None) => true,
            _ => false,
        },
{
    match cache {
        Some(held) => {
            held.insert(id, node);
        },
        None => {},
    }
}

/// Where nodes are longer than the map, there is nothing to fetch.
proof fn lemma_nothing_to_fetch(table: NodeTable, ids: Seq<u32>, cached: Set<u32>)
    requires
        table.layout.wf(),
        table.layout.read_len() > table.bytes.len(),
    ensures
        table.spans(ids, cached) == Seq::<PrefetchSpan>::empty(),
    decreases ids.len(),
{
    if ids.len() > 0 {
        lemma_nothing_to_fetch(table, ids.drop_last(), cached);
        lemma_offset_not_negative(table.layout, ids.last() as int);
    }
}

/// CXL-optimized vertex provider.
///
/// Accesses mapped CXL memory directly. `T` is the element type of the vectors.
pub struct CxlVertexProvider<T> {
    reader: CxlMmapReader,
    offsets: NodeOffsetCalculator,
    prefetch_ahead: usize,
    cache: Option<HotNodeCache>,
    io_count: u32,
    dimensions: usize,
    max_degree: usize,
    phantom: PhantomData<T>,
}

/// A cache never disagrees with the index that it was filled from, nor grows over its
/// capacity.
pub open spec fn cache_agrees(cache: HotNodeCache, table: NodeTable) -> bool {
    &&& cache@.dom().finite()
    &&& cache@.len() <= cache.room()
    &&& forall|id: u32| #[trigger]
        cache@.dom().contains(id) ==> table.holds(id, cache@[id])
}

impl<T> View for CxlVertexProvider<T> {
    type V = NodeTable;

    closed spec fn view(&self) -> NodeTable {
        NodeTable {
            bytes: self.reader@,
            layout: self.offsets@,
            vector_bytes: self.dimensions * vstd::layout::size_of::<T>(),
            max_degree: self.max_degree as int,
        }
    }
}

impl<T> CxlVertexProvider<T> {
    /// The cache, if there is one, agrees with the map.
    pub closed spec fn wf(self) -> bool {
        self.cache matches Some(cache) ==> cache_agrees(cache, self@)
    }

    /// Node reads counted for the current query.
    pub closed spec fn io_ops(self) -> u32 {
        self.io_count
    }

    /// Reads that the reader below has counted.
    pub closed spec fn reader_ops(self) -> u32 {
        self.reader.io_ops()
    }

    /// How the index is mapped.
    pub closed spec fn reader_config(self) -> CxlMmapConfig {
        self.reader.configured()
    }

    /// How far ahead nodes are prefetched.
    pub closed spec fn ahead(self) -> usize {
        self.prefetch_ahead
    }

    /// How many nodes the cache takes; `None` where there is no cache.
    pub closed spec fn cache_room(self) -> Option<usize> {
        match self.cache {
            Some(cache) => Some(cache.room()),
            None => None,
        }
    }

    /// The cached nodes.
    pub closed spec fn cached(self) -> Set<u32> {
        match self.cache {
            Some(cache) => cache@.dom(),
            None => Set::empty(),
        }
    }

    /// Create provider from mmap reader and layout parameters.
    pub fn new(
        reader: CxlMmapReader,
        offsets: NodeOffsetCalculator,
        dimensions: usize,
        max_degree: usize,
        config: CxlVertexProviderConfig,
    ) -> (provider: Self)
        ensures
            provider.wf(),
            provider@ == (NodeTable {
                bytes: reader@,
                layout: offsets@,
                vector_bytes: dimensions * vstd::layout::size_of::<T>(),
                max_degree: max_degree as int,
            }),
            provider.io_ops() == 0,
            provider.reader_ops() == reader.io_ops(),
            provider.reader_config() == reader.configured(),
            provider.ahead() == config.prefetch_ahead,
            provider.cache_room() == if config.cache_enabled {
                Some(config.cache_size)
            } else {
                None
            },
            provider.cached() == Set::<u32>::empty(),
    {
        let cache = if config.cache_enabled {
            Some(HotNodeCache::new(config.cache_size))
        } else {
            None
        };
        let provider = CxlVertexProvider {
            reader,
            offsets,
            prefetch_ahead: config.prefetch_ahead,
            cache,
            io_count: 0,
            dimensions,
            max_degree,
            phantom: PhantomData,
        };
        assert(provider.cached() =~= Set::<u32>::empty());
        provider
    }

    /// Warm the cache with medoid and its immediate neighbors.
    ///
    /// Reads all of them first: where one is not wholly mapped, nothing is cached.
    pub fn warm_cache(&mut self, medoid_id: u32, medoid_neighbors: &[u32]) -> (result: Result<
        (),
        CxlError,
    >)
        requires
            old(self).wf(),
        ensures
            final(self).wf(),
            final(self)@ == old(self)@,
            final(self).io_ops() == old(self).io_ops(),
            final(self).reader_ops() == old(self).reader_ops(),
            final(self).reader_config() == old(self).reader_config(),
            final(self).ahead() == old(self).ahead(),
            final(self).cache_room() == old(self).cache_room(),
            match old(self).cache_room() {
                None => result is Ok && final(self).cached() == old(self).cached(),
                Some(room) => {
                    let reads = warming_reads(medoid_id, medoid_neighbors@, room as int);
                    match first_missing(old(self)@, reads) {
                        Some(id) => {
                            &&& result == Err::<(), CxlError>(
                                CxlError::NodeOutOfBounds {
                                    node_id: id,
                                    mapped_len: old(self)@.bytes.len() as usize,
                                },
                            )
                            &&& final(self).cached() == old(self).cached()
                        },
                        None => {
                            &&& result is Ok
                            &&& final(self).cached() == admitted_all(
                                old(self).cached(),
                                room as int,
                                reads,
                            )
                        },
                    }
                },
            },
    {
        let room: usize = match &self.cache {
            Some(cache) => cache.capacity,
            None => return Ok(()),
        };
        let ghost reads = warming_reads(medoid_id, medoid_neighbors@, room as int);
        let ghost table = self@;
        let medoid_node = match self.read_and_parse_node(medoid_id) {
            Ok(node) => node,
            Err(e) => {
                proof {
                    lemma_first_missing(table, reads, 0);
                }
                return Err(e);
            },
        };
        let mut nodes: Vec<(u32, CachedNode)> = Vec::new();
        nodes.push((medoid_id, medoid_node));
        let mut i: usize = 0;
        while i < medoid_neighbors.len() && i + 1 < room
            invariant
                i <= medoid_neighbors@.len(),
                i == 0 || i < room,
                *self == *old(self),
                self.wf(),
                table == self@,
                reads == warming_reads(medoid_id, medoid_neighbors@, room as int),
                nodes@.len() == i + 1,
                nodes@.len() <= reads.len(),
                forall|j: int|
                    0 <= j < nodes@.len() ==> {
                        &&& (#[trigger] nodes@[j]).0 == reads[j]
                        &&& table.holds(reads[j], nodes@[j].1)
                    },
                self.cache_room() == Some(room),
            decreases medoid_neighbors@.len() - i,
        {
            let id: u32 = medoid_neighbors[i];
            assert(reads[i + 1] == id);
            match self.read_and_parse_node(id) {
                Ok(node) => {
                    nodes.push((id, node));
                },
                Err(e) => {
                    proof {
                        assert forall|j: int| 0 <= j < i + 1 implies table.has_node(
                            #[trigger] reads[j],
                        ) by {
                            assert(nodes@[j].0 == reads[j]);
                        }
                        lemma_first_missing(table, reads, i + 1);
                    }
                    return Err(e);
                },
            }
            i += 1;
        }
        proof {
            assert(nodes@.len() == reads.len());
            assert forall|j: int| 0 <= j < reads.len() implies table.has_node(
                #[trigger] reads[j],
            ) by {
                assert(nodes@[j].0 == reads[j]);
            }
            lemma_first_missing(table, reads, reads.len() as int);
        }
        self.cache_nodes(nodes, Ghost(reads));
        Ok(())
    }

    /// Offers parsed nodes to the cache, in order.
    fn cache_nodes(&mut self, nodes: Vec<(u32, CachedNode)>, Ghost(ids): Ghost<Seq<u32>>)
        requires
            old(self).wf(),
            nodes@.len() == ids.len(),
            forall|j: int|
                0 <= j < nodes@.len() ==> {
                    &&& (#[trigger] nodes@[j]).0 == ids[j]
                    &&& old(self)@.holds(ids[j], nodes@[j].1)
                },
        ensures
            final(self).wf(),
            final(self)@ == old(self)@,
            final(self).io_ops() == old(self).io_ops(),
            final(self).reader_ops() == old(self).reader_ops(),
            final(self).reader_config() == old(self).reader_config(),
            final(self).ahead() == old(self).ahead(),
            final(self).cache_room() == old(self).cache_room(),
            match old(self).cache_room() {
                None => final(self).cached() == old(self).cached(),
                Some(room) => final(self).cached() == admitted_all(
                    old(self).cached(),
                    room as int,
                    ids,
                ),
            },
    {
        let ghost table = self@;
        let ghost cached = self.cached();
        let ghost given = nodes@;
        assert(ids.take(0) =~= Seq::<u32>::empty());
        for node in it: nodes
            invariant
                it.seq() == given,
                given.len() == ids.len(),
                forall|j: int|
                    0 <= j < given.len() ==> {
                        &&& (#[trigger] given[j]).0 == ids[j]
                        &&& table.holds(ids[j], given[j].1)
                    },
                self@ == table,
                self.wf(),
                cached == old(self).cached(),
                self.io_ops() == old(self).io_ops(),
                self.reader_ops() == old(self).reader_ops(),
                self.reader_config() == old(self).reader_config(),
                self.ahead() == old(self).ahead(),
                self.cache_room() == old(self).cache_room(),
                self.cache_room() is None ==> self.cached() == cached,
                self.cache_room() matches Some(room) ==> self.cached() == admitted_all(
                    cached,
                    room as int,
                    ids.take(it.index() as int),
                ),
        {
            let (id, parsed) = node;
            proof {
                    let k = it.index() as int;
                assert(ids.take(k + 1).drop_last() =~= ids.take(k));
                assert(given[k].0 == ids[k]);
            }
            offer(&mut self.cache, id, parsed);
        }
        assert(ids.take(ids.len() as int) =~= ids);
    }

    /// Whether the vector of a node is mapped.
    pub fn has_vector(&self, node_id: u32) -> (mapped: bool)
        requires
            self.wf(),
        ensures
            mapped == self@.has_vector(node_id),
    {
        let all = self.reader.all();
        assert(all@.len() == all.len());
        let offset: Option<usize> = self.offsets.checked_node_offset(node_id);
        let skip: Option<usize> = self.vector_len();
        proof {
            self.lemma_table();
        }
        match offset {
            None => false,
            Some(from) => match skip {
                None => false,
                Some(bytes) => from as u128 + bytes as u128 <= all.len() as u128,
            },
        }
    }

    /// Whether the record of a node is mapped, so that all of it can be read.
    pub fn has_node(&self, node_id: u32) -> (mapped: bool)
        requires
            self.wf(),
        ensures
            mapped == self@.has_node(node_id),
    {
        let all = self.reader.all();
        assert(all@.len() == all.len());
        let offset: Option<usize> = self.offsets.checked_node_offset(node_id);
        let skip: Option<usize> = self.vector_len();
        proof {
            self.lemma_table();
        }
        match offset {
            None => false,
            Some(from) => match skip {
                None => false,
                Some(bytes) => adjacency_fits(all, from, bytes, self.max_degree),
            },
        }
    }

    /// A vector does not have a negative length.
    proof fn lemma_table(&self)
        ensures
            self@.vector_bytes >= 0,
    {
        assert(self.dimensions * vstd::layout::size_of::<T>() >= 0) by (nonlinear_arith);
    }

    /// Bytes of a vector, where they can be counted.
    fn vector_len(&self) -> (len: Option<usize>)
        ensures
            len == if self@.vector_bytes <= usize::MAX {
                Some(self@.vector_bytes as usize)
            } else {
                None
            },
    {
        self.dimensions.checked_mul(core::mem::size_of::<T>())
    }

    /// Read and parse a single node from CXL memory.
    pub fn read_and_parse_node(&self, node_id: u32) -> (result: Result<CachedNode, CxlError>)
        requires
            self.wf(),
        ensures
            match result {
                Ok(node) => self@.holds(node_id, node),
                Err(e) => {
                    &&& !self@.has_node(node_id)
                    &&& e == CxlError::NodeOutOfBounds {
                        node_id,
                        mapped_len: self@.bytes.len() as usize,
                    }
                },
            },
    {
        if !self.has_node(node_id) {
            return Err(CxlError::NodeOutOfBounds { node_id, mapped_len: self.reader.mapped_len() });
        }
        Ok(
            CachedNode {
                vector: slice_to_vec(self.mapped_vector(node_id)),
                neighbors: self.mapped_neighbors(node_id),
            },
        )
    }

    /// The vector of a node, as it stands in the map.
    fn mapped_vector(&self, node_id: u32) -> (vector: &[u8])
        requires
            self.wf(),
            self@.has_vector(node_id),
        ensures
            vector@ == self@.vector(node_id),
    {
        let all = self.reader.all();
        proof {
            assert(all@.len() == all.len());
            self.lemma_table();
        }
        let offset: usize = self.offsets.node_offset(node_id);
        let bytes: usize = self.dimensions * core::mem::size_of::<T>();
        slice_subrange(all, offset, offset + bytes)
    }

    /// The neighbors of a node, as they stand in the map.
    fn mapped_neighbors(&self, node_id: u32) -> (neighbors: Vec<u32>)
        requires
            self.wf(),
            self@.has_node(node_id),
        ensures
            neighbors@ == self@.adjacency(node_id),
    {
        let all = self.reader.all();
        proof {
            assert(all@.len() == all.len());
            self.lemma_table();
        }
        let offset: usize = self.offsets.node_offset(node_id);
        let bytes: usize = self.dimensions * core::mem::size_of::<T>();
        read_adjacency(all, offset + bytes, self.max_degree)
    }

    /// Get full-precision vector for a node — zero-copy from CXL mmap.
    pub fn get_vector(&self, node_id: u32) -> (vector: &[u8])
        requires
            self.wf(),
            self@.has_vector(node_id),
        ensures
            vector@ == self@.vector(node_id),
    {
        if let Some(cache) = &self.cache {
            if let Some(cached) = cache.get(node_id) {
                return cached.vector.as_slice();
            }
        }
        self.mapped_vector(node_id)
    }

    /// Get adjacency list (neighbor IDs) for a node.
    pub fn get_adjacency_list(&self, node_id: u32) -> (neighbors: Vec<u32>)
        requires
            self.wf(),
            self@.has_node(node_id),
        ensures
            neighbors@ == self@.adjacency(node_id),
    {
        if let Some(cache) = &self.cache {
            if let Some(cached) = cache.get(node_id) {
                return slice_to_vec(cached.neighbors.as_slice());
            }
        }
        self.mapped_neighbors(node_id)
    }

    /// All of the mapped memory, which prefetch spans refer to.
    pub fn mapped(&self) -> (bytes: &[u8])
        ensures
            bytes@ == self@.bytes,
    {
        self.reader.all()
    }

    /// Whether a node is cached.
    pub fn is_cached(&self, node_id: u32) -> (cached: bool)
        ensures
            cached == self.cached().contains(node_id),
    {
        match &self.cache {
            Some(cache) => cache.contains(&node_id),
            None => false,
        }
    }

    /// The prefetches for a stretch of nodes.
    fn plan(&self, ids: &[u32], from: usize, to: usize) -> (spans: Vec<PrefetchSpan>)
        requires
            from <= to <= ids@.len(),
        ensures
            spans@ == self@.spans(ids@.subrange(from as int, to as int), self.cached()),
    {
        let all = self.reader.all();
        assert(all@.len() == all.len());
        let mut spans: Vec<PrefetchSpan> = Vec::new();
        let node_read_len: usize = match self.offsets.checked_read_len() {
            Some(len) => len,
            None => {
                proof {
                    lemma_nothing_to_fetch(
                        self@,
                        ids@.subrange(from as int, to as int),
                        self.cached(),
                    );
                }
                return spans;
            },
        };
        let mut i: usize = from;
        while i < to
            invariant
                from <= i <= to <= ids@.len(),
                node_read_len == self@.layout.read_len(),
                self@.bytes.len() <= usize::MAX,
                spans@ == self@.spans(ids@.subrange(from as int, i as int), self.cached()),
            decreases to - i,
        {
            let id: u32 = ids[i];
            proof {
                let upto = ids@.subrange(from as int, i + 1);
                assert(upto.drop_last() =~= ids@.subrange(from as int, i as int));
                assert(upto.last() == id);
            }
            if !self.is_cached(id) {
                if let Some(offset) = self.offsets.checked_node_offset(id) {
                    if let Some(span) = self.reader.prefetch_node(offset, node_read_len) {
                        spans.push(span);
                    }
                }
            }
            i += 1;
        }
        spans
    }

    /// Batch load vertices with integrated prefetching: the prefetches to make, in order.
    ///
    /// Each node is fetched while the one `prefetch_ahead` places in front of it is at work, so
    /// the first ones are not fetched. Counts every node as read.
    pub fn load_vertices_prefetched(&mut self, node_ids: &[u32]) -> (spans: Vec<PrefetchSpan>)
        requires
            old(self).wf(),
            old(self).io_ops() + node_ids@.len() <= u32::MAX,
        ensures
            final(self).wf(),
            spans@ == old(self)@.spans(
                node_ids@.skip(smaller(old(self).ahead() as int, node_ids@.len() as int)),
                old(self).cached(),
            ),
            final(self).io_ops() == old(self).io_ops() + node_ids@.len(),
            final(self)@ == old(self)@,
            final(self).reader_ops() == old(self).reader_ops(),
            final(self).reader_config() == old(self).reader_config(),
            final(self).ahead() == old(self).ahead(),
            final(self).cache_room() == old(self).cache_room(),
            final(self).cached() == old(self).cached(),
    {
        let total: usize = node_ids.len();
        let from: usize = if self.prefetch_ahead < total {
            self.prefetch_ahead
        } else {
            total
        };
        let spans = self.plan(node_ids, from, total);
        assert(node_ids@.skip(from as int) =~= node_ids@.subrange(from as int, total as int));
        self.io_count = self.io_count + total as u32;
        spans
    }

    /// Prefetch a specific set of candidate nodes: the first ones, twice as many as are
    /// prefetched ahead.
    pub fn prefetch_candidates(&self, candidates: &[u32]) -> (spans: Vec<PrefetchSpan>)
        ensures
            spans@ == self@.spans(
                candidates@.take(smaller(candidates@.len() as int, 2 * self.ahead())),
                self.cached(),
            ),
    {
        let total: usize = candidates.len();
        let count: usize = if self.prefetch_ahead < total && self.prefetch_ahead < total
            - self.prefetch_ahead {
            self.prefetch_ahead + self.prefetch_ahead
        } else {
            total
        };
        assert(candidates@.take(count as int) =~= candidates@.subrange(0, count as int));
        self.plan(candidates, 0, count)
    }

    /// Number of I/O operations (node reads) for current query.
    pub fn io_operations(&self) -> (ops: u32)
        ensures
            ops == self.io_ops(),
    {
        self.io_count
    }

    /// Reset state between queries.
    pub fn clear(&mut self)
        requires
            old(self).wf(),
        ensures
            final(self).wf(),
            final(self).io_ops() == 0,
            final(self).reader_ops() == 0,
            final(self)@ == old(self)@,
            final(self).reader_config() == old(self).reader_config(),
            final(self).ahead() == old(self).ahead(),
            final(self).cache_room() == old(self).cache_room(),
            final(self).cached() == old(self).cached(),
    {
        self.io_count = 0;
        self.reader.reset_io_count();
    }
}

/// Factory that creates CxlVertexProvider instances per search thread.
pub struct CxlVertexProviderFactory {
    pub index_path: String,
    pub block_size: usize,
    pub vector_size_bytes: usize,
    pub max_degree: usize,
    pub dimensions: usize,
    pub data_start_offset: usize,
    pub config: CxlVertexProviderConfig,
}

impl CxlVertexProviderFactory {
    /// A factory for the index at a path.
    pub fn new(
        index_path: String,
        block_size: usize,
        vector_size_bytes: usize,
        max_degree: usize,
        dimensions: usize,
        data_start_offset: usize,
        config: CxlVertexProviderConfig,
    ) -> (factory: Self)
        ensures
            factory == (CxlVertexProviderFactory {
                index_path,
                block_size,
                vector_size_bytes,
                max_degree,
                dimensions,
                data_start_offset,
                config,
            }),
    {
        CxlVertexProviderFactory {
            index_path,
            block_size,
            vector_size_bytes,
            max_degree,
            dimensions,
            data_start_offset,
            config,
        }
    }

    /// Create a new vertex provider for a search thread, over a map of the file at
    /// `index_path`.
    pub fn create<T>(&self, map: Mmap) -> (provider: CxlVertexProvider<T>)
        requires
            node_len_of(self.vector_size_bytes as int, self.max_degree as int) <= usize::MAX,
            self.block_size < CXL_BLOCK_SIZE_THRESHOLD ==> aligned_up(
                node_len_of(self.vector_size_bytes as int, self.max_degree as int),
                CXL_ALIGN as int,
            ) <= usize::MAX,
        ensures
            provider.wf(),
            provider@ == (NodeTable {
                bytes: mapped_bytes(map),
                layout: NodeLayout::of(
                    self.block_size,
                    self.vector_size_bytes,
                    self.max_degree,
                    self.data_start_offset,
                ),
                vector_bytes: self.dimensions * vstd::layout::size_of::<T>(),
                max_degree: self.max_degree as int,
            }),
            provider.io_ops() == 0,
            provider.reader_ops() == 0,
            provider.reader_config() == (CxlMmapConfig {
                prefault: true,
                advise_random: true,
                use_huge_pages: true,
            }),
            provider.ahead() == self.config.prefetch_ahead,
            provider.cache_room() == if self.config.cache_enabled {
                Some(self.config.cache_size)
            } else {
                None
            },
            provider.cached() == Set::<u32>::empty(),
    {
        let reader = CxlMmapReader::new(map);
        let offsets = NodeOffsetCalculator::new(
            self.block_size,
            self.vector_size_bytes,
            self.max_degree,
            self.data_start_offset,
        );
        CxlVertexProvider::new(
            reader,
            offsets,
            self.dimensions,
            self.max_degree,
            self.config.clone(),
        )
    }
}

impl<T> NodeSource for CxlVertexProvider<T> {
    open spec fn sound(&self) -> bool {
        self.wf()
    }

    open spec fn has_payload(&self, id: u32) -> bool {
        self@.has_vector(id)
    }

    open spec fn has_list(&self, id: u32) -> bool {
        self@.has_node(id)
    }

    open spec fn payload(&self, id: u32) -> Seq<u8> {
        self@.vector(id)
    }

    open spec fn adjacency(&self, id: u32) -> Seq<u32> {
        self@.adjacency(id)
    }

    fn payload_fits(&self, id: u32) -> (fits: bool) {
        self.has_vector(id)
    }

    fn list_fits(&self, id: u32) -> (fits: bool) {
        self.has_node(id)
    }

    fn payload_bytes(&self, id: u32) -> (bytes: &[u8]) {
        self.get_vector(id)
    }

    fn neighbors(&self, id: u32) -> (list: Vec<u32>) {
        self.get_adjacency_list(id)
    }
}

/// Best-first search over the nodes of a provider.
pub fn vertex_search<T, F: Fn(&[u8]) -> u32>(
    provider: &CxlVertexProvider<T>,
    score: &F,
    k: usize,
    search_l: usize,
    num_points: usize,
) -> (result: (Vec<u32>, u32, u32))
    requires
        provider.sound(),
        is_scoring(*score, *provider),
        can_search(*provider, SearchSpace::of(*provider, *score, num_points as nat), search_l as nat),
    ensures
        ({
            let space = SearchSpace::of(*provider, *score, num_points as nat);
            let visited = space.visits(search_l as nat);
            &&& result.0@ == space.nearest(visited, k as int)
            &&& result.1 == space.comparisons(visited)
            &&& result.2 == result.1
        }),
{
    scored_search(provider, score, k, search_l, num_points)
}

/// Warming never caches more nodes than there is room for, and drops none.
pub proof fn law_cache_stays_within_room(cached: Set<u32>, room: int, ids: Seq<u32>)
    requires
        cached.finite(),
        cached.len() <= room,
    ensures
        admitted_all(cached, room, ids).finite(),
        admitted_all(cached, room, ids).len() <= room,
        cached.subset_of(admitted_all(cached, room, ids)),
        forall|id: u32| #[trigger]
            admitted_all(cached, room, ids).contains(id) ==> cached.contains(id) || ids.contains(
                id,
            ),
    decreases ids.len(),
{
    if ids.len() > 0 {
        law_cache_stays_within_room(cached, room, ids.drop_last());
        assert forall|id: u32| #[trigger]
            admitted_all(cached, room, ids).contains(id) implies cached.contains(id)
            || ids.contains(id) by {
            if id == ids.last() {
                assert(ids[ids.len() - 1] == id);
            } else {
                assert(admitted_all(cached, room, ids.drop_last()).contains(id));
                if !cached.contains(id) {
                    let i = choose|i: int|
                        0 <= i < ids.drop_last().len() && ids.drop_last()[i] == id;
                    assert(ids[i] == id);
                }
            }
        }
    }
}

/// A plan holds at most one prefetch per node, and each stays within the map.
pub proof fn law_prefetches_stay_mapped(table: NodeTable, ids: Seq<u32>, cached: Set<u32>)
    requires
        table.layout.wf(),
        table.bytes.len() <= usize::MAX,
        table.layout.read_len() >= 0,
    ensures
        table.spans(ids, cached).len() <= ids.len(),
        forall|i: int|
            0 <= i < table.spans(ids, cached).len() ==> (#[trigger] table.spans(
                ids,
                cached,
            )[i]).offset + table.layout.read_len() <= table.bytes.len(),
    decreases ids.len(),
{
    if ids.len() > 0 {
        law_prefetches_stay_mapped(table, ids.drop_last(), cached);
        lemma_offset_not_negative(table.layout, ids.last() as int);
        let before = table.spans(ids.drop_last(), cached);
        let after = table.spans(ids, cached);
        assert forall|i: int| 0 <= i < after.len() implies (#[trigger] after[i]).offset
            + table.layout.read_len() <= table.bytes.len() by {
            if i < before.len() {
                assert(after[i] == before[i]);
            }
        }
    }
}

/// A node is read from its record: the vector from the start of the record on, the neighbor
/// count behind the vector, and as many neighbors behind the count as it says, up to the
/// maximum degree.
pub proof fn law_nodes_are_read_from_their_record(table: NodeTable, id: u32)
    requires
        table.vector_bytes >= 0,
        table.max_degree >= 0,
        table.layout.node_offset(id as int) >= 0,
    ensures
        ({
            let start = table.layout.node_offset(id as int);
            let count_at = start + table.vector_bytes;
            &&& table.has_vector(id) <==> count_at <= table.bytes.len()
            &&& table.has_node(id) <==> count_at + 4 <= table.bytes.len() && count_at + 4 + 4
                * table.adjacency(id).len() <= table.bytes.len()
            &&& table.has_vector(id) ==> table.vector(id).len() == table.vector_bytes
            &&& forall|b: int|
                table.has_vector(id) && 0 <= b < table.vector_bytes ==> #[trigger] table.vector(
                    id,
                )[b] == table.bytes[start + b]
            &&& u32_at(table.bytes, count_at) <= table.max_degree ==> table.adjacency(id).len()
                == u32_at(table.bytes, count_at)
            &&& u32_at(table.bytes, count_at) > table.max_degree ==> table.adjacency(id).len()
                == table.max_degree
            &&& forall|j: int|
                0 <= j < table.adjacency(id).len() ==> #[trigger] table.adjacency(id)[j] == u32_at(
                    table.bytes,
                    count_at + 4 + 4 * j,
                )
        }),
{
    law_lists_follow_their_count(
        table.bytes,
        table.layout.node_offset(id as int) + table.vector_bytes,
        table.max_degree,
    );
}

/// A plan prefetches exactly the nodes that are not cached and lie within the map, in the order
/// in which they come: each from its offset on, over the bytes that are read for a node.
pub proof fn law_plans_fetch_the_uncached(table: NodeTable, ids: Seq<u32>, cached: Set<u32>)
    ensures
        table.spans(ids, cached) == ids.filter(
            |id: u32|
                !cached.contains(id) && table.layout.node_offset(id as int)
                    + table.layout.read_len() <= table.bytes.len(),
        ).map_values(
            |id: u32|
                PrefetchSpan::covering(
                    table.layout.node_offset(id as int),
                    table.layout.read_len(),
                ),
        ),
    decreases ids.len(),
{
    reveal(Seq::filter);
    let wanted = |id: u32|
        !cached.contains(id) && table.layout.node_offset(id as int) + table.layout.read_len()
            <= table.bytes.len();
    let span = |id: u32|
        PrefetchSpan::covering(table.layout.node_offset(id as int), table.layout.read_len());
    if ids.len() > 0 {
        let front = ids.drop_last();
        law_plans_fetch_the_uncached(table, front, cached);
        if wanted(ids.last()) {
            assert(front.filter(wanted).push(ids.last()).map_values(span) =~= front.filter(
                wanted,
            ).map_values(span).push(span(ids.last())));
        }
    }
    assert(table.spans(ids, cached) =~= ids.filter(wanted).map_values(span));
}

/// Warming reads the medoid, and then as many of its neighbors, from the first on, as there is
/// room for beside it.
pub proof fn law_warming_reads_what_there_is_room_for(
    medoid: u32,
    neighbors: Seq<u32>,
    room: int,
)
    ensures
        ({
            let reads = warming_reads(medoid, neighbors, room);
            &&& reads.len() >= 1
            &&& reads[0] == medoid
            &&& reads.len() <= 1 + neighbors.len()
            &&& reads.len() == 1 || reads.len() <= room
            &&& reads.len() < room ==> reads.len() == 1 + neighbors.len()
            &&& forall|i: int| 1 <= i < reads.len() ==> #[trigger] reads[i] == neighbors[i - 1]
        }),
{
}

/// Nodes are cached as long as there is room: what is offered to a cache with room for all of
/// it is cached, and where something is not cached the cache is full.
pub proof fn law_offered_nodes_are_cached(cached: Set<u32>, room: int, ids: Seq<u32>)
    requires
        cached.finite(),
        cached.len() <= room,
    ensures
        admitted_all(cached, room, ids).finite(),
        admitted_all(cached, room, ids).len() <= room,
        cached.len() + ids.len() <= room ==> forall|i: int|
            0 <= i < ids.len() ==> admitted_all(cached, room, ids).contains(#[trigger] ids[i]),
        forall|i: int|
            0 <= i < ids.len() && !admitted_all(cached, room, ids).contains(#[trigger] ids[i])
                ==> admitted_all(cached, room, ids).len() == room,
        admitted_all(cached, room, ids).len() <= cached.len() + ids.len(),
    decreases ids.len(),
{
    if ids.len() > 0 {
        let front = ids.drop_last();
        law_offered_nodes_are_cached(cached, room, front);
        let before = admitted_all(cached, room, front);
        let after = admitted_all(cached, room, ids);
        assert(before.subset_of(after));
        assert forall|i: int| 0 <= i < ids.len() && !after.contains(#[trigger] ids[i]) implies
            after.len() == room by {
            if i < front.len() {
                assert(front[i] == ids[i]);
                assert(!before.contains(front[i]));
            }
        }
        if cached.len() + ids.len() <= room {
            assert forall|i: int| 0 <= i < ids.len() implies after.contains(#[trigger] ids[i]) by {
                if i < front.len() {
                    assert(before.contains(front[i]));
                }
            }
        }
    }
}

/// The first missing node is one of those asked for; it is not wholly mapped, and those in
/// front of it are. Where none is missing all of them are mapped.
pub proof fn law_the_first_missing_node_is_told(table: NodeTable, ids: Seq<u32>)
    ensures
        match first_missing(table, ids) {
            None => forall|i: int| 0 <= i < ids.len() ==> table.has_node(#[trigger] ids[i]),
            Some(id) => exists|i: int|
                0 <= i < ids.len() && #[trigger] ids[i] == id && !table.has_node(id) && (
                forall|j: int| 0 <= j < i ==> table.has_node(#[trigger] ids[j])),
        },
    decreases ids.len(),
{
    if ids.len() > 0 && table.has_node(ids[0]) {
        let rest = ids.drop_first();
        law_the_first_missing_node_is_told(table, rest);
        match first_missing(table, rest) {
            None => {
                assert forall|i: int| 0 <= i < ids.len() implies table.has_node(
                    #[trigger] ids[i],
                ) by {
                    if i > 0 {
                        assert(table.has_node(rest[i - 1]));
                    }
                }
            },
            Some(id) => {
                let i = choose|i: int|
                    0 <= i < rest.len() && #[trigger] rest[i] == id && !table.has_node(id) && (
                    forall|j: int| 0 <= j < i ==> table.has_node(#[trigger] rest[j]));
                assert(ids[i + 1] == id);
                assert forall|j: int| 0 <= j < i + 1 implies table.has_node(#[trigger] ids[j]) by {
                    if j > 0 {
                        assert(table.has_node(rest[j - 1]));
                    }
                }
            },
        }
    } else if ids.len() > 0 {
        assert(ids[0] == ids[0]);
    }
}

/// A search over a provider scores a node by its own vector, and goes to its own neighbors.
pub proof fn law_providers_are_searched_by_their_nodes<T>(index: CxlVertexProvider<T>, id: u32)
    ensures
        NodeSource::has_payload(&index, id) <==> index@.has_vector(id),
        NodeSource::has_list(&index, id) <==> index@.has_node(id),
        NodeSource::payload(&index, id) == index@.vector(id),
        NodeSource::adjacency(&index, id) == index@.adjacency(id),
{
}

} // verus!

//! An index whose vectors and neighbor lists stand in two separate regions.

use crate::le_bytes::u32_at;
use crate::mapped_region::{mapped_bytes, MappedRegion};
use crate::node_record::{
    adjacency_at, adjacency_fits, adjacency_within, full_record_fits,
    law_lists_follow_their_count, read_adjacency,
};
use crate::search::{can_search, is_scoring, scored_search, NodeSource, SearchSpace};
use memmap2::Mmap;
use vstd::prelude::*;
use vstd::slice::slice_subrange;

verus! {

/// What a split index holds.
pub struct SplitTable {
    pub vectors: Seq<u8>,
    pub graph: Seq<u8>,
    /// Bytes of a vector.
    pub vector_bytes: int,
    pub max_degree: int,
    /// Bytes from one neighbor list to the next.
    pub graph_stride: int,
}

impl SplitTable {
    /// The bytes of a node's vector.
    pub open spec fn vector(self, id: u32) -> Seq<u8> {
        self.vectors.subrange(id * self.vector_bytes, id * self.vector_bytes + self.vector_bytes)
    }

    /// The neighbors of a node.
    pub open spec fn adjacency(self, id: u32) -> Seq<u32> {
        adjacency_at(self.graph, id * self.graph_stride, self.max_degree)
    }

    /// Whether the vector of a node lies within its region.
    pub open spec fn has_vector(self, id: u32) -> bool {
        id * self.vector_bytes + self.vector_bytes <= self.vectors.len()
    }

    /// Whether the neighbor list of a node lies within its region.
    pub open spec fn has_list(self, id: u32) -> bool {
        adjacency_within(self.graph, id * self.graph_stride, self.max_degree)
    }

    /// Whether there is room for `n` vectors and `n` full neighbor lists.
    pub open spec fn covers(self, n: int) -> bool {
        &&& n * self.vector_bytes <= self.vectors.len()
        &&& n > 0 ==> (n - 1) * self.graph_stride + 4 + 4 * self.max_degree <= self.graph.len()
    }
}

/// An index of `f32` vectors in one region and neighbor lists in another.
pub struct SearchableIndex {
    vectors: MappedRegion,
    graph: MappedRegion,
    dims: usize,
    max_degree: usize,
    graph_stride: usize,
}

impl View for SearchableIndex {
    type V = SplitTable;

    closed spec fn view(&self) -> SplitTable {
        SplitTable {
            vectors: self.vectors@,
            graph: self.graph@,
            vector_bytes: self.dims * 4,
            max_degree: self.max_degree as int,
            graph_stride: self.graph_stride as int,
        }
    }
}

impl SearchableIndex {
    /// An index over two maps.
    pub fn new(
        vectors: Mmap,
        graph: Mmap,
        dims: usize,
        max_degree: usize,
        graph_stride: usize,
    ) -> (index: Self)
        ensures
            index@ == (SplitTable {
                vectors: mapped_bytes(vectors),
                graph: mapped_bytes(graph),
                vector_bytes: dims * 4,
                max_degree: max_degree as int,
                graph_stride: graph_stride as int,
            }),
    {
        SearchableIndex {
            vectors: MappedRegion::new(vectors),
            graph: MappedRegion::new(graph),
            dims,
            max_degree,
            graph_stride,
        }
    }

    /// Whether the vector of a node lies within its region.
    pub fn has_vector(&self, id: u32) -> (there: bool)
        ensures
            there == self@.has_vector(id),
    {
        let len: usize = self.vectors.len();
        proof {
            let d = self.dims as int;
            assert(id * (d * 4) + d * 4 == (id + 1) * d * 4) by (nonlinear_arith);
            assert(0 <= (id + 1) * d <= 0x1_0000_0000 * 0xffff_ffff_ffff_ffff) by (nonlinear_arith)
                requires
                    0 <= id < 0x1_0000_0000,
                    0 <= d <= 0xffff_ffff_ffff_ffff,
            ;
        }
        ((id as u128) + 1) * (self.dims as u128) * 4 <= len as u128
    }

    /// Whether the neighbor list of a node lies within its region.
    pub fn has_list(&self, id: u32) -> (there: bool)
        ensures
            there == self@.has_list(id),
    {
        let bytes = self.graph.bytes();
        assert(bytes@.len() == bytes.len());
        assert(0 <= id * self.graph_stride) by (nonlinear_arith);
        match (id as usize).checked_mul(self.graph_stride) {
            None => false,
            Some(at) => adjacency_fits(bytes, at, 0, self.max_degree),
        }
    }

    /// The bytes of a node's vector.
    pub fn get_vector(&self, id: u32) -> (vector: &[u8])
        requires
            self@.has_vector(id),
        ensures
            vector@ == self@.vector(id),
    {
        let bytes = self.vectors.bytes();
        assert(bytes@.len() == bytes.len());
        proof {
            lemma_scaled(id as int, self.dims * 4, bytes@.len() as int);
            assert(id * self.dims * 4 == id * (self.dims * 4)) by (nonlinear_arith);
            assert(0 <= id * self.dims <= id * (self.dims * 4)) by (nonlinear_arith)
                requires
                    id >= 0,
                    self.dims >= 0,
            ;
        }
        let from: usize = id as usize * self.dims * 4;
        slice_subrange(bytes, from, from + self.dims * 4)
    }

    /// The neighbors of a node.
    pub fn get_neighbors(&self, id: u32) -> (neighbors: Vec<u32>)
        requires
            self@.has_list(id),
        ensures
            neighbors@ == self@.adjacency(id),
    {
        let bytes = self.graph.bytes();
        assert(bytes@.len() == bytes.len());
        read_adjacency(bytes, id as usize * self.graph_stride, self.max_degree)
    }

    /// Whether there is room for the vectors and neighbor lists of `num_points` nodes.
    pub fn covers(&self, num_points: usize) -> (covered: bool)
        ensures
            covered == self@.covers(num_points as int),
    {
        let ghost table = self@;
        let vectors_len: usize = self.vectors.len();
        let graph_len: usize = self.graph.len();
        proof {
            assert(num_points * (self.dims * 4) == num_points * self.dims * 4) by (nonlinear_arith);
            assert(0 <= num_points * self.dims) by (nonlinear_arith);
        }
        let vectors_fit: bool = match num_points.checked_mul(self.dims) {
            Some(elements) => elements <= vectors_len / 4,
            None => false,
        };
        if !vectors_fit {
            return false;
        }
        if num_points == 0 {
            return true;
        }
        match (num_points - 1).checked_mul(self.graph_stride) {
            Some(from) => full_record_fits(from, 0, self.max_degree, graph_len),
            None => false,
        }
    }
}

/// A part of a product is no larger than the whole.
proof fn lemma_scaled(n: int, size: int, len: int)
    requires
        n >= 0,
        size >= 0,
        n * size + size <= len,
    ensures
        0 <= n * size <= len,
        size <= len,
{
    assert(0 <= n * size) by (nonlinear_arith)
        requires
            n >= 0,
            size >= 0,
    ;
}

/// Where a number of nodes is covered, each of them can be read.
pub proof fn law_covered_nodes_are_held(table: SplitTable, n: int, id: u32)
    requires
        table.vector_bytes >= 0,
        table.max_degree >= 0,
        table.graph_stride >= 0,
        table.covers(n),
        id < n,
    ensures
        table.has_vector(id),
        table.has_list(id),
{
    assert(id * table.vector_bytes + table.vector_bytes <= n * table.vector_bytes)
        by (nonlinear_arith)
        requires
            id + 1 <= n,
            table.vector_bytes >= 0,
    ;
    assert(0 <= id * table.graph_stride <= (n - 1) * table.graph_stride) by (nonlinear_arith)
        requires
            0 <= id <= n - 1,
            table.graph_stride >= 0,
    ;
}

impl NodeSource for SearchableIndex {
    open spec fn sound(&self) -> bool {
        true
    }

    open spec fn has_payload(&self, id: u32) -> bool {
        self@.has_vector(id)
    }

    open spec fn has_list(&self, id: u32) -> bool {
        self@.has_list(id)
    }

    open spec fn payload(&self, id: u32) -> Seq<u8> {
        self@.vector(id)
    }

    open spec fn adjacency(&self, id: u32) -> Seq<u32> {
        self@.adjacency(id)
    }

    fn payload_fits(&self, id: u32) -> (fits: bool) {
        self.has_vector(id)
    }

    fn list_fits(&self, id: u32) -> (fits: bool) {
        self.has_list(id)
    }

    fn payload_bytes(&self, id: u32) -> (bytes: &[u8]) {
        self.get_vector(id)
    }

    fn neighbors(&self, id: u32) -> (list: Vec<u32>) {
        self.get_neighbors(id)
    }
}

/// Full L2 search: every score reads a full vector, so as many vectors are read as nodes are
/// scored.
pub fn full_l2_search<F: Fn(&[u8]) -> u32>(
    idx: &SearchableIndex,
    score: &F,
    k: usize,
    search_l: usize,
    num_points: usize,
) -> (result: (Vec<u32>, u32, u32))
    requires
        idx.sound(),
        is_scoring(*score, *idx),
        can_search(*idx, SearchSpace::of(*idx, *score, num_points as nat), search_l as nat),
    ensures
        ({
            let space = SearchSpace::of(*idx, *score, num_points as nat);
            let visited = space.visits(search_l as nat);
            &&& result.0@ == space.nearest(visited, k as int)
            &&& result.1 == space.comparisons(visited)
            &&& result.2 == result.1
        }),
{
    scored_search(idx, score, k, search_l, num_points)
}

/// Vectors stand one after the other in their region, neighbor lists a stride apart in theirs.
pub proof fn law_split_nodes_stand_in_order(table: SplitTable, id: u32)
    requires
        table.vector_bytes >= 0,
        table.max_degree >= 0,
        table.graph_stride >= 0,
    ensures
        ({
            let start = id * table.vector_bytes;
            let count_at = id * table.graph_stride;
            &&& table.has_vector(id) <==> (id + 1) * table.vector_bytes <= table.vectors.len()
            &&& table.has_vector(id) ==> table.vector(id).len() == table.vector_bytes
            &&& forall|b: int|
                table.has_vector(id) && 0 <= b < table.vector_bytes ==> #[trigger] table.vector(
                    id,
                )[b] == table.vectors[start + b]
            &&& table.has_list(id) <==> count_at + 4 <= table.graph.len() && count_at + 4 + 4
                * table.adjacency(id).len() <= table.graph.len()
            &&& u32_at(table.graph, count_at) <= table.max_degree ==> table.adjacency(id).len()
                == u32_at(table.graph, count_at)
            &&& u32_at(table.graph, count_at) > table.max_degree ==> table.adjacency(id).len()
                == table.max_degree
            &&& forall|j: int|
                0 <= j < table.adjacency(id).len() ==> #[trigger] table.adjacency(id)[j] == u32_at(
                    table.graph,
                    count_at + 4 + 4 * j,
                )
        }),
{
    law_lists_follow_their_count(table.graph, id * table.graph_stride, table.max_degree);
    assert((id + 1) * table.vector_bytes == id * table.vector_bytes + table.vector_bytes)
        by (nonlinear_arith);
    assert(0 <= id * table.vector_bytes && 0 <= id * table.graph_stride) by (nonlinear_arith)
        requires
            table.vector_bytes >= 0,
            table.graph_stride >= 0,
    ;
}

/// So many nodes are covered where all their vectors fit, and the last full list ends within
/// its region.
pub proof fn law_coverage_is_tight(table: SplitTable, n: int)
    requires
        n > 0,
    ensures
        table.covers(n) <==> n * table.vector_bytes <= table.vectors.len() && (n - 1)
            * table.graph_stride + 4 + 4 * table.max_degree <= table.graph.len(),
{
}

/// A search over a split index scores a node by its own vector, and goes to its own neighbors.
pub proof fn law_indexes_are_searched_by_their_nodes(index: SearchableIndex, id: u32)
    ensures
        NodeSource::has_payload(&index, id) <==> index@.has_vector(id),
        NodeSource::has_list(&index, id) <==> index@.has_list(id),
        NodeSource::payload(&index, id) == index@.vector(id),
        NodeSource::adjacency(&index, id) == index@.adjacency(id),
{
}

} // verus!

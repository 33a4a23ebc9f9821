//! Product-quantization codes: a short code per point, one byte per chunk of the vector.

use crate::error::CxlError;
use crate::le_bytes::{read_u32, u32_at};
use crate::rounding::smaller;
use crate::search::{
    can_split_search, is_scoring, law_nearest_are_distinct, law_nearest_are_visited, law_visits_are_distinct,
    rerank_ids, split_search, NodeSource, SearchSpace,
};
use crate::searchable_index::SearchableIndex;
use vstd::prelude::*;
use vstd::slice::slice_subrange;

verus! {

/// Centroids per chunk: a code is a byte.
pub const NUM_CENTROIDS: usize = 256;

/// Bytes in front of the codes: the number of points and the number of chunks.
pub const PQ_HEADER_LEN: usize = 8;

/// The codes of all points.
pub struct PqCodes {
    file: Vec<u8>,
    num_points: usize,
    num_chunks: usize,
}

/// The codes in a file of PQ codes.
pub struct CodeTable {
    /// The codes, point after point.
    pub codes: Seq<u8>,
    pub num_points: nat,
    pub num_chunks: nat,
}

impl CodeTable {
    /// What a file holds: two counts, then the codes. What follows them is ignored.
    pub open spec fn in_file(file: Seq<u8>) -> CodeTable {
        let num_points = u32_at(file, 0) as nat;
        let num_chunks = u32_at(file, 4) as nat;
        CodeTable {
            codes: file.subrange(PQ_HEADER_LEN as int, PQ_HEADER_LEN + num_points * num_chunks),
            num_points,
            num_chunks,
        }
    }

    /// The length that a file must have: its header, and the codes that the header announces.
    pub open spec fn file_len(file: Seq<u8>) -> int {
        if file.len() < PQ_HEADER_LEN {
            PQ_HEADER_LEN as int
        } else {
            PQ_HEADER_LEN + u32_at(file, 0) * u32_at(file, 4)
        }
    }

    /// The code of a point.
    pub open spec fn code(self, point: int) -> Seq<u8> {
        self.codes.subrange(
            point * self.num_chunks,
            point * self.num_chunks + self.num_chunks,
        )
    }

    /// Whether there is a code for a point.
    pub open spec fn has(self, point: int) -> bool {
        point * self.num_chunks + self.num_chunks <= self.codes.len()
    }

    /// How many of the first `points` points have a code at a chunk.
    pub open spec fn count(self, points: nat, chunk: int, code: u8) -> nat
        decreases points,
    {
        if points == 0 {
            0
        } else {
            self.count((points - 1) as nat, chunk, code) + if self.code(points - 1)[chunk] == code {
                1nat
            } else {
                0
            }
        }
    }
}

impl View for PqCodes {
    type V = CodeTable;

    closed spec fn view(&self) -> CodeTable {
        CodeTable::in_file(self.file@)
    }
}

impl PqCodes {
    /// The file holds all that its header announces.
    pub closed spec fn wf(self) -> bool {
        &&& self.file@.len() >= CodeTable::file_len(self.file@)
        &&& self.num_points == u32_at(self.file@, 0)
        &&& self.num_chunks == u32_at(self.file@, 4)
    }

    /// The codes are as many as their counts say.
    pub proof fn lemma_codes_len(&self)
        requires
            self.wf(),
        ensures
            self@.codes.len() == self@.num_points * self@.num_chunks,
    {
        assert(self@.num_points * self@.num_chunks >= 0) by (nonlinear_arith);
    }

    /// Takes the contents of a file of PQ codes.
    pub fn from_file(file: Vec<u8>) -> (result: Result<PqCodes, CxlError>)
        ensures
            match result {
                Ok(codes) => {
                    &&& file@.len() >= CodeTable::file_len(file@)
                    &&& codes.wf()
                    &&& codes@ == CodeTable::in_file(file@)
                },
                Err(e) => {
                    &&& file@.len() < CodeTable::file_len(file@)
                    &&& e == CxlError::FileTooSmall {
                        size: file@.len() as u128,
                        expected: CodeTable::file_len(file@) as u128,
                    }
                },
            },
    {
        let size: usize = file.len();
        if size < PQ_HEADER_LEN {
            return Err(
                CxlError::FileTooSmall { size: size as u128, expected: PQ_HEADER_LEN as u128 },
            );
        }
        let points: u32 = read_u32(file.as_slice(), 0);
        let chunks: u32 = read_u32(file.as_slice(), 4);
        proof {
            assert(0 <= points * chunks <= 0x1_0000_0000 * 0x1_0000_0000) by (nonlinear_arith)
                requires
                    0 <= points <= 0x1_0000_0000,
                    0 <= chunks <= 0x1_0000_0000,
            ;
        }
        let expected: u128 = PQ_HEADER_LEN as u128 + (points as u128) * (chunks as u128);
        if (size as u128) < expected {
            return Err(CxlError::FileTooSmall { size: size as u128, expected });
        }
        Ok(PqCodes { file, num_points: points as usize, num_chunks: chunks as usize })
    }

    /// How many points there are codes for.
    pub fn num_points(&self) -> (num: usize)
        requires
            self.wf(),
        ensures
            num == self@.num_points,
    {
        self.num_points
    }

    /// How many bytes a code has.
    pub fn num_chunks(&self) -> (num: usize)
        requires
            self.wf(),
        ensures
            num == self@.num_chunks,
    {
        self.num_chunks
    }

    /// The code of a point.
    pub fn get(&self, p: usize) -> (code: &[u8])
        requires
            self.wf(),
            self@.has(p as int),
        ensures
            code@ == self@.code(p as int),
    {
        proof {
            assert(self.file@.len() == self.file.len());
            assert(0 <= p * self.num_chunks) by (nonlinear_arith);
            assert(self@.codes.len() <= self.file@.len() - PQ_HEADER_LEN);
        }
        let from: usize = PQ_HEADER_LEN + p * self.num_chunks;
        let code = slice_subrange(self.file.as_slice(), from, from + self.num_chunks);
        assert(code@ =~= self@.code(p as int));
        code
    }

    /// Whether there is a code for a point.
    pub fn has(&self, p: usize) -> (there: bool)
        requires
            self.wf(),
        ensures
            there == self@.has(p as int),
    {
        proof {
            self.lemma_codes_len();
            let c = self.num_chunks as int;
            let n = self.num_points as int;
            assert(p * c + c <= n * c <==> p + 1 <= n || c == 0) by (nonlinear_arith)
                requires
                    c >= 0,
                    n >= 0,
                    p >= 0,
            ;
        }
        p < self.num_points || self.num_chunks == 0
    }

    /// Whether there is a code for each of the first `points` points.
    pub fn covers(&self, points: usize) -> (covered: bool)
        requires
            self.wf(),
        ensures
            covered == (points <= self@.num_points || self@.num_chunks == 0),
    {
        points <= self.num_points || self.num_chunks == 0
    }

    /// How many of the first `points` points fall to each centroid: the count for a code at a
    /// chunk stands at `chunk * 256 + code`.
    pub fn code_counts(&self, points: usize) -> (counts: Vec<u32>)
        requires
            self.wf(),
            points <= u32::MAX,
            self@.num_chunks * NUM_CENTROIDS <= usize::MAX,
            forall|p: int| 0 <= p < points ==> #[trigger] self@.has(p),
        ensures
            counts@.len() == self@.num_chunks * NUM_CENTROIDS,
            forall|chunk: int, code: u8|
                0 <= chunk < self@.num_chunks ==> #[trigger] counts@[chunk * NUM_CENTROIDS + code]
                    == self@.count(points as nat, chunk, code),
    {
        let chunks: usize = self.num_chunks;
        let mut counts: Vec<u32> = vec![0u32; chunks * NUM_CENTROIDS];
        for p in 0..points
            invariant
                self.wf(),
                points <= u32::MAX,
                chunks == self@.num_chunks,
                chunks == self.num_chunks,
                chunks * NUM_CENTROIDS <= usize::MAX,
                forall|q: int| 0 <= q < points ==> #[trigger] self@.has(q),
                counts@.len() == chunks * NUM_CENTROIDS,
                forall|chunk: int, code: u8|
                    0 <= chunk < chunks ==> #[trigger] counts@[chunk * NUM_CENTROIDS + code]
                        == self@.count(p as nat, chunk, code),
        {
            assert(self@.has(p as int));
            let codes = self.get(p);
            proof {
                assert forall|chunk: int, code: u8| #[trigger]
                    self@.count(p as nat, chunk, code) <= p by {
                    lemma_count_bounded(self@, p as nat, chunk, code);
                }
            }
            for ch in 0..chunks
                invariant
                    p < points <= u32::MAX,
                    chunks == self@.num_chunks,
                    chunks * NUM_CENTROIDS <= usize::MAX,
                    codes@ == self@.code(p as int),
                    codes@.len() == chunks,
                    counts@.len() == chunks * NUM_CENTROIDS,
                    forall|chunk: int, code: u8| #[trigger]
                        self@.count(p as nat, chunk, code) <= p,
                    forall|chunk: int, code: u8|
                        0 <= chunk < chunks ==> #[trigger] counts@[chunk * NUM_CENTROIDS + code]
                            == if chunk < ch {
                            self@.count((p + 1) as nat, chunk, code)
                        } else {
                            self@.count(p as nat, chunk, code)
                        },
            {
                let code: u8 = codes[ch];
                proof {
                    assert(ch * NUM_CENTROIDS + code < chunks * NUM_CENTROIDS) by (nonlinear_arith)
                        requires
                            ch + 1 <= chunks,
                            code < NUM_CENTROIDS,
                    ;
                    assert(counts@[ch * NUM_CENTROIDS + code] == self@.count(
                        p as nat,
                        ch as int,
                        code,
                    ));
                }
                let slot: usize = ch * NUM_CENTROIDS + code as usize;
                let count: u32 = counts[slot];
                counts.set(slot, count + 1);
                proof {
                    assert forall|chunk: int, other: u8| 0 <= chunk < chunks implies #[trigger]
                    counts@[chunk * NUM_CENTROIDS + other] == if chunk < ch + 1 {
                        self@.count((p + 1) as nat, chunk, other)
                    } else {
                        self@.count(p as nat, chunk, other)
                    } by {
                        if chunk * NUM_CENTROIDS + other == slot {
                            assert(chunk == ch && other == code);
                        }
                    }
                }
            }
        }
        counts
    }
}

/// No more points fall to a centroid than there are.
proof fn lemma_count_bounded(table: CodeTable, points: nat, chunk: int, code: u8)
    ensures
        table.count(points, chunk, code) <= points,
    decreases points,
{
    if points > 0 {
        lemma_count_bounded(table, (points - 1) as nat, chunk, code);
    }
}

/// Where codes for a number of points are there, each of them has its code.
pub proof fn law_covered_points_have_codes(table: CodeTable, points: int, p: int)
    requires
        table.codes.len() == table.num_points * table.num_chunks,
        points <= table.num_points || table.num_chunks == 0,
        0 <= p < points,
    ensures
        table.has(p),
{
    assert(p * table.num_chunks + table.num_chunks <= table.num_points * table.num_chunks)
        by (nonlinear_arith)
        requires
            p + 1 <= table.num_points || table.num_chunks == 0,
            table.num_chunks >= 0,
    ;
}

/// A graph whose nodes are scored by their codes.
pub struct CodedGraph<'a> {
    pub graph: &'a SearchableIndex,
    pub codes: &'a PqCodes,
}

impl<'a> NodeSource for CodedGraph<'a> {
    open spec fn sound(&self) -> bool {
        self.codes.wf()
    }

    open spec fn has_payload(&self, id: u32) -> bool {
        self.codes@.has(id as int)
    }

    open spec fn has_list(&self, id: u32) -> bool {
        self.graph@.has_list(id)
    }

    open spec fn payload(&self, id: u32) -> Seq<u8> {
        self.codes@.code(id as int)
    }

    open spec fn adjacency(&self, id: u32) -> Seq<u32> {
        self.graph@.adjacency(id)
    }

    fn payload_fits(&self, id: u32) -> (fits: bool) {
        self.codes.has(id as usize)
    }

    fn list_fits(&self, id: u32) -> (fits: bool) {
        self.graph.has_list(id)
    }

    fn payload_bytes(&self, id: u32) -> (bytes: &[u8]) {
        self.codes.get(id as usize)
    }

    fn neighbors(&self, id: u32) -> (list: Vec<u32>) {
        self.graph.get_neighbors(id)
    }
}

/// PQ split search: the beam goes by PQ codes (DRAM), the finds are ranked again by their full
/// vectors (CXL). Gives the ids, the number of scores by code and by vector together, and the
/// number of full vectors read.
pub fn pq_split_search<G: Fn(&[u8]) -> u32, F: Fn(&[u8]) -> u32>(
    coded: &CodedGraph,
    code_score: &G,
    score: &F,
    k: usize,
    search_l: usize,
    num_points: usize,
) -> (result: (Vec<u32>, u32, u32))
    requires
        coded.sound(),
        is_scoring(*code_score, *coded),
        is_scoring(*score, *coded.graph),
        can_split_search(
            *coded,
            *coded.graph,
            SearchSpace::of(*coded, *code_score, num_points as nat),
            search_l as nat,
            k as int,
        ),
    ensures
        ({
            let space = SearchSpace::of(*coded, *code_score, num_points as nat);
            let exact = SearchSpace::of(*coded.graph, *score, num_points as nat);
            let visited = space.visits(search_l as nat);
            let reranked = rerank_ids(space, visited, k as int);
            &&& result.0@ == exact.nearest(reranked, k as int)
            &&& result.1 == space.comparisons(visited) + reranked.len()
            &&& result.2 == reranked.len()
        }),
{
    split_search(coded, code_score, coded.graph, score, k, search_l, num_points)
}

/// A split search gives as many nodes as are asked for, or all that it visited where they are
/// fewer; it gives none twice and none that it has not visited; and it reads no more full
/// vectors than twice the number asked for.
pub proof fn law_split_results(space: SearchSpace, exact: SearchSpace, n: nat, k: int)
    requires
        k >= 0,
    ensures
        ({
            let visited = space.visits(n);
            let reranked = rerank_ids(space, visited, k);
            let found = exact.nearest(reranked, k);
            &&& reranked.len() <= 2 * k
            &&& found.len() == smaller(k, visited.len() as int)
            &&& found.no_duplicates()
            &&& forall|i: int| 0 <= i < found.len() ==> visited.contains(#[trigger] found[i])
        }),
{
    let visited = space.visits(n);
    let reranked = rerank_ids(space, visited, k);
    let found = exact.nearest(reranked, k);
    law_visits_are_distinct(space, n);
    law_nearest_are_visited(space, visited, 2 * k);
    law_nearest_are_distinct(space, visited, 2 * k);
    law_nearest_are_visited(exact, reranked, k);
    law_nearest_are_distinct(exact, reranked, k);
    assert forall|i: int| 0 <= i < found.len() implies visited.contains(#[trigger] found[i]) by {
        assert(reranked.contains(found[i]));
        let j = choose|j: int| 0 <= j < reranked.len() && reranked[j] == found[i];
        assert(visited.contains(reranked[j]));
    }
}

/// The codes of a file stand behind its two counts, point after point, a byte for each chunk.
pub proof fn law_codes_stand_in_order(file: Seq<u8>, point: int)
    requires
        file.len() >= CodeTable::file_len(file),
        0 <= point < u32_at(file, 0),
    ensures
        ({
            let table = CodeTable::in_file(file);
            let chunks = u32_at(file, 4) as int;
            &&& table.num_points == u32_at(file, 0)
            &&& table.num_chunks == chunks
            &&& table.has(point)
            &&& table.code(point).len() == chunks
            &&& forall|c: int|
                0 <= c < chunks ==> #[trigger] table.code(point)[c] == file[8 + point * chunks + c]
        }),
{
    let table = CodeTable::in_file(file);
    let chunks = u32_at(file, 4) as int;
    let points = u32_at(file, 0) as int;
    assert(0 <= point * chunks && point * chunks + chunks <= points * chunks) by (nonlinear_arith)
        requires
            0 <= point,
            point + 1 <= points,
            chunks >= 0,
    ;
    assert(file.len() >= 8 + points * chunks) by {
        assert(points * chunks >= 0) by (nonlinear_arith)
            requires
                points >= 0,
                chunks >= 0,
        ;
    }
}

/// A file of codes is as long as its two counts and the codes that they announce.
pub proof fn law_code_files_hold_what_they_announce(file: Seq<u8>)
    ensures
        file.len() < 8 ==> CodeTable::file_len(file) == 8,
        file.len() >= 8 ==> CodeTable::file_len(file) == 8 + u32_at(file, 0) * u32_at(file, 4),
{
}

/// There is a code for a point exactly where its bytes are among the codes.
pub proof fn law_points_have_codes_within(table: CodeTable, point: int)
    ensures
        table.has(point) <==> (point + 1) * table.num_chunks <= table.codes.len(),
{
    assert((point + 1) * table.num_chunks == point * table.num_chunks + table.num_chunks)
        by (nonlinear_arith);
}

/// The count of a code at a chunk is the number of points that have it there.
pub proof fn law_counts_are_of_the_points(table: CodeTable, points: nat, chunk: int, code: u8)
    ensures
        table.count(points, chunk, code) == Seq::new(
            points,
            |p: int| table.code(p)[chunk],
        ).filter(|c: u8| c == code).len(),
    decreases points,
{
    reveal(Seq::filter);
    if points > 0 {
        law_counts_are_of_the_points(table, (points - 1) as nat, chunk, code);
        let all = Seq::new(points, |p: int| table.code(p)[chunk]);
        assert(all.drop_last() =~= Seq::new(
            (points - 1) as nat,
            |p: int| table.code(p)[chunk],
        ));
    }
}

/// A search by codes scores a node by its own code, and goes to its own neighbors in the graph.
pub proof fn law_coded_graphs_are_searched_by_their_codes(index: CodedGraph, id: u32)
    ensures
        NodeSource::has_payload(&index, id) <==> index.codes@.has(id as int),
        NodeSource::has_list(&index, id) <==> index.graph@.has_list(id),
        NodeSource::payload(&index, id) == index.codes@.code(id as int),
        NodeSource::adjacency(&index, id) == index.graph@.adjacency(id),
{
}

} // verus!

//! Ground truth: for each query, the ids of its true nearest neighbors.

use crate::error::CxlError;
use crate::le_bytes::{read_u32, u32_at, u32s_at};
use crate::rounding::min_usize;
use crate::search::first_of;
use std::collections::HashSet;
use vstd::prelude::*;
use vstd::std_specs::hash::*;

verus! {

broadcast use group_hash_axioms;

/// Bytes in front of the ids: the number of queries and of neighbors per query.
pub const TRUTH_HEADER_LEN: usize = 8;

/// The ids of a ground-truth file: `[npts: u32][k: u32][ids: i32 * npts * k]`.
pub struct TruthTable {
    pub file: Seq<u8>,
    pub num: nat,
    pub k: nat,
}

impl TruthTable {
    /// The neighbors of a query.
    pub open spec fn row(self, query: int) -> Seq<u32> {
        u32s_at(self.file, TRUTH_HEADER_LEN + 4 * (query * self.k), self.k)
    }

    /// The length that a file must have.
    pub open spec fn file_len(file: Seq<u8>) -> int {
        if file.len() < TRUTH_HEADER_LEN {
            TRUTH_HEADER_LEN as int
        } else {
            TRUTH_HEADER_LEN + 4 * (u32_at(file, 0) * u32_at(file, 4))
        }
    }
}

/// How many ids are among some others; an id that stands twice counts twice.
pub open spec fn found_among(ids: Seq<u32>, among: Seq<u32>) -> nat
    decreases ids.len(),
{
    if ids.len() == 0 {
        0
    } else {
        found_among(ids.drop_last(), among) + if among.contains(ids.last()) {
            1nat
        } else {
            0
        }
    }
}

/// The true neighbors of queries.
pub struct GroundTruth {
    file: Vec<u8>,
    num: usize,
    k: usize,
}

impl View for GroundTruth {
    type V = TruthTable;

    closed spec fn view(&self) -> TruthTable {
        TruthTable { file: self.file@, num: self.num as nat, k: self.k as nat }
    }
}

impl GroundTruth {
    /// All ids are in the file.
    pub closed spec fn wf(self) -> bool {
        TRUTH_HEADER_LEN + 4 * (self.num * self.k) <= self.file@.len()
    }

    /// Takes the contents of a ground-truth file.
    pub fn load(file: Vec<u8>) -> (result: Result<GroundTruth, CxlError>)
        ensures
            match result {
                Ok(truth) => {
                    &&& file@.len() >= TruthTable::file_len(file@)
                    &&& truth.wf()
                    &&& truth@ == (TruthTable {
                        file: file@,
                        num: u32_at(file@, 0) as nat,
                        k: u32_at(file@, 4) as nat,
                    })
                },
                Err(e) => {
                    &&& file@.len() < TruthTable::file_len(file@)
                    &&& e == CxlError::FileTooSmall {
                        size: file@.len() as u128,
                        expected: TruthTable::file_len(file@) as u128,
                    }
                },
            },
    {
        let size: usize = file.len();
        if size < TRUTH_HEADER_LEN {
            return Err(
                CxlError::FileTooSmall { size: size as u128, expected: TRUTH_HEADER_LEN as u128 },
            );
        }
        let num: u32 = read_u32(file.as_slice(), 0);
        let k: u32 = read_u32(file.as_slice(), 4);
        proof {
            assert(0 <= num * k <= 0x1_0000_0000 * 0x1_0000_0000) by (nonlinear_arith)
                requires
                    0 <= num <= 0x1_0000_0000,
                    0 <= k <= 0x1_0000_0000,
            ;
        }
        let expected: u128 = TRUTH_HEADER_LEN as u128 + 4 * ((num as u128) * (k as u128));
        if (size as u128) < expected {
            return Err(CxlError::FileTooSmall { size: size as u128, expected });
        }
        Ok(GroundTruth { file, num: num as usize, k: k as usize })
    }

    /// How many queries there are.
    pub fn len(&self) -> (num: usize)
        ensures
            num == self@.num,
    {
        self.num
    }

    /// How many neighbors there are per query.
    pub fn k(&self) -> (k: usize)
        ensures
            k == self@.k,
    {
        self.k
    }

    /// How many of the first `at_k` results of a query are among its first `at_k` true
    /// neighbors; none where there is no truth for the query.
    pub fn recall_hits(&self, query_idx: usize, results: &[u32], at_k: usize) -> (hits: Option<
        usize,
    >)
        requires
            self.wf(),
        ensures
            match hits {
                Some(n) => {
                    &&& query_idx < self@.num
                    &&& n == found_among(
                        first_of(results@, at_k as int),
                        first_of(self@.row(query_idx as int), at_k as int),
                    )
                },
                None => query_idx >= self@.num,
            },
    {
        if query_idx >= self.num {
            return None;
        }
        let ghost size = self.file@.len();
        assert(size == self.file.len());
        let depth: usize = min_usize(at_k, self.k);
        let ghost truth = first_of(self@.row(query_idx as int), at_k as int);
        proof {
            assert(0 <= query_idx * self.k && query_idx * self.k + self.k <= self.num * self.k)
                by (nonlinear_arith)
                requires
                    0 <= query_idx,
                    query_idx + 1 <= self.num,
                    self.k >= 0,
            ;
        }
        let from: usize = TRUTH_HEADER_LEN + 4 * (query_idx * self.k);
        let mut near: HashSet<u32> = HashSet::new();
        let mut i: usize = 0;
        while i < depth
            invariant
                i <= depth == truth.len(),
                depth <= self.k,
                size == self.file@.len(),
                from == TRUTH_HEADER_LEN + 4 * (query_idx * self.k),
                from + 4 * self.k <= size <= usize::MAX,
                truth == first_of(self@.row(query_idx as int), at_k as int),
                forall|id: u32| #[trigger] near@.contains(id) <==> truth.take(i as int).contains(id),
            decreases depth - i,
        {
            let id: u32 = read_u32(self.file.as_slice(), from + 4 * i);
            assert(id == truth[i as int]);
            near.insert(id);
            proof {
                let upto = truth.take(i + 1);
                assert forall|other: u32| #[trigger] near@.contains(other) <==> upto.contains(
                    other,
                ) by {
                    if truth.take(i as int).contains(other) {
                        let j = choose|j: int|
                            0 <= j < i && truth.take(i as int)[j] == other;
                        assert(upto[j] == other);
                    }
                    if other == id {
                        assert(upto[i as int] == other);
                    }
                    if upto.contains(other) && other != id {
                        let j = choose|j: int| 0 <= j < i + 1 && upto[j] == other;
                        assert(truth.take(i as int)[j] == other);
                    }
                }
            }
            i += 1;
        }
        assert(truth.take(depth as int) =~= truth);
        let count: usize = min_usize(at_k, results.len());
        let ghost wanted = first_of(results@, at_k as int);
        let mut hits: usize = 0;
        let mut j: usize = 0;
        assert(wanted.take(0) =~= Seq::<u32>::empty());
        while j < count
            invariant
                j <= count == wanted.len(),
                count <= results@.len(),
                wanted == first_of(results@, at_k as int),
                forall|id: u32| #[trigger] near@.contains(id) <==> truth.contains(id),
                hits == found_among(wanted.take(j as int), truth),
                hits <= j,
            decreases count - j,
        {
            assert(wanted.take(j + 1).drop_last() =~= wanted.take(j as int));
            if near.contains(&results[j]) {
                hits += 1;
            }
            j += 1;
        }
        assert(wanted.take(count as int) =~= wanted);
        Some(hits)
    }
}

/// No more results can be right than are asked for.
pub proof fn law_recall_is_bounded(results: Seq<u32>, truth: Seq<u32>, at_k: int)
    requires
        at_k >= 0,
    ensures
        found_among(first_of(results, at_k), first_of(truth, at_k)) <= at_k,
{
    lemma_found_bounded(first_of(results, at_k), first_of(truth, at_k));
}

/// No more ids are found than there are.
proof fn lemma_found_bounded(ids: Seq<u32>, among: Seq<u32>)
    ensures
        found_among(ids, among) <= ids.len(),
    decreases ids.len(),
{
    if ids.len() > 0 {
        lemma_found_bounded(ids.drop_last(), among);
    }
}

/// Results that are the truth are all right.
pub proof fn law_perfect_recall(truth: Seq<u32>)
    ensures
        found_among(truth, truth) == truth.len(),
{
    lemma_all_found(truth, truth);
}

/// Ids that are all among others are all found.
proof fn lemma_all_found(ids: Seq<u32>, among: Seq<u32>)
    requires
        forall|i: int| 0 <= i < ids.len() ==> among.contains(#[trigger] ids[i]),
    ensures
        found_among(ids, among) == ids.len(),
    decreases ids.len(),
{
    if ids.len() > 0 {
        assert(among.contains(ids[ids.len() - 1]));
        assert forall|i: int| 0 <= i < ids.drop_last().len() implies among.contains(
            #[trigger] ids.drop_last()[i],
        ) by {
            assert(among.contains(ids[i]));
        }
        lemma_all_found(ids.drop_last(), among);
    }
}

/// Exactly the results that are among the true neighbors are hits, each place counted once.
pub proof fn law_hits_are_the_results_among_the_truth(ids: Seq<u32>, among: Seq<u32>)
    ensures
        found_among(ids, among) == ids.filter(|id: u32| among.contains(id)).len(),
    decreases ids.len(),
{
    reveal(Seq::filter);
    if ids.len() > 0 {
        law_hits_are_the_results_among_the_truth(ids.drop_last(), among);
    }
}

/// One more result is one more hit if it is among the true neighbors, and changes nothing
/// otherwise.
pub proof fn law_one_more_result(ids: Seq<u32>, among: Seq<u32>, id: u32)
    ensures
        among.contains(id) ==> found_among(ids.push(id), among) == found_among(ids, among) + 1,
        !among.contains(id) ==> found_among(ids.push(id), among) == found_among(ids, among),
{
    assert(ids.push(id).drop_last() =~= ids);
}

/// Where no result is among the true neighbors there is no hit.
pub proof fn law_wrong_results_are_no_hits(ids: Seq<u32>, among: Seq<u32>)
    requires
        forall|i: int| 0 <= i < ids.len() ==> !among.contains(#[trigger] ids[i]),
    ensures
        found_among(ids, among) == 0,
    decreases ids.len(),
{
    if ids.len() > 0 {
        assert(!among.contains(ids[ids.len() - 1]));
        assert forall|i: int| 0 <= i < ids.drop_last().len() implies !among.contains(
            #[trigger] ids.drop_last()[i],
        ) by {
            assert(!among.contains(ids[i]));
        }
        law_wrong_results_are_no_hits(ids.drop_last(), among);
    }
}

/// The true neighbors of a query stand behind the two counts, row after row.
pub proof fn law_rows_stand_in_order(table: TruthTable, query: int)
    requires
        query >= 0,
    ensures
        table.row(query).len() == table.k,
        forall|j: int|
            0 <= j < table.k ==> #[trigger] table.row(query)[j] == u32_at(
                table.file,
                8 + 4 * (query * table.k + j),
            ),
{
}

/// A file of ground truth is as long as its two counts and the ids that they announce.
pub proof fn law_truth_files_hold_what_they_announce(file: Seq<u8>)
    ensures
        file.len() < 8 ==> TruthTable::file_len(file) == 8,
        file.len() >= 8 ==> TruthTable::file_len(file) == 8 + 4 * (u32_at(file, 0) * u32_at(
            file,
            4,
        )),
{
}

} // verus!

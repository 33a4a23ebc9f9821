//! Sweeps: the same queries at growing search widths, and what the searches add up to.

use crate::ground_truth::{
    found_among, law_hits_are_the_results_among_the_truth, law_recall_is_bounded,
    GroundTruth,
};
use crate::rounding::{min_usize, smaller};
use crate::search::{first_of, law_first_are_taken};
use vstd::arithmetic::div_mod::lemma_fundamental_div_mod;
use vstd::prelude::*;

verus! {

/// Results asked for per query.
pub const RESULT_COUNT: usize = 10;

/// A width, but no more than there are points.
pub open spec fn capped(width: int, num_points: int) -> usize {
    smaller(width, num_points) as usize
}

/// The widths of the searches of a sweep.
pub open spec fn sweep_widths(num_points: int) -> Seq<usize> {
    seq![
        capped(10, num_points),
        capped(20, num_points),
        capped(50, num_points),
        capped(100, num_points),
        capped(200, num_points),
    ]
}

/// The widths of the searches of a sweep, none larger than the number of points.
pub fn search_widths(num_points: usize) -> (widths: Vec<usize>)
    ensures
        widths@ == sweep_widths(num_points as int),
{
    let widths: Vec<usize> = vec![
        min_usize(10, num_points),
        min_usize(20, num_points),
        min_usize(50, num_points),
        min_usize(100, num_points),
        min_usize(200, num_points),
    ];
    assert(widths@ =~= sweep_widths(num_points as int));
    widths
}

/// A sweep widens its searches from one to the next, and no search is wider than there are
/// points.
pub proof fn law_sweep_widens(num_points: usize)
    ensures
        forall|i: int, j: int|
            0 <= i <= j < sweep_widths(num_points as int).len() ==> #[trigger] sweep_widths(
                num_points as int,
            )[i] <= #[trigger] sweep_widths(num_points as int)[j] <= num_points,
{
}

/// How many results each search gives.
pub fn result_count(num_points: usize) -> (k: usize)
    ensures
        k == smaller(RESULT_COUNT as int, num_points as int),
{
    min_usize(RESULT_COUNT, num_points)
}

/// What one search came to.
#[derive(Debug, Clone, Copy, PartialEq, Eq, Structural)]
pub struct SearchOutcome {
    pub dist_comps: u32,
    pub vec_reads: u32,
    /// How many results are right, where there is ground truth for the query.
    pub hits: Option<usize>,
}

impl SearchOutcome {
    /// The outcome of a search that gave some ids, held against ground truth.
    pub open spec fn of(
        found: (Vec<u32>, u32, u32),
        truth: Option<GroundTruth>,
        query: usize,
        k: usize,
    ) -> SearchOutcome {
        SearchOutcome {
            dist_comps: found.1,
            vec_reads: found.2,
            hits: match truth {
                Some(t) => if query < t@.num {
                    Some(
                        found_among(
                            first_of(found.0@, k as int),
                            first_of(t@.row(query as int), k as int),
                        ) as usize,
                    )
                } else {
                    None
                },
                None => None,
            },
        }
    }
}

/// Whether an outcome is one that a search for a query, of a width, can have.
pub open spec fn can_come_to<F: Fn(usize, usize) -> (Vec<u32>, u32, u32)>(
    search: F,
    truth: Option<GroundTruth>,
    query: usize,
    width: usize,
    k: usize,
    outcome: SearchOutcome,
) -> bool {
    exists|found: (Vec<u32>, u32, u32)| #[trigger]
        search.ensures((query, width), found) && outcome == SearchOutcome::of(found, truth, query, k)
}

/// Searches for all queries with one width, as often as `reps` says. The first `k`
/// results of each search are held against ground truth, where there is some.
pub fn run_pass<F: Fn(usize, usize) -> (Vec<u32>, u32, u32)>(
    search: &F,
    width: usize,
    num_queries: usize,
    reps: usize,
    truth: &Option<GroundTruth>,
    k: usize,
) -> (outcomes: Vec<SearchOutcome>)
    requires
        forall|q: usize| q < num_queries ==> #[trigger] (*search).requires((q, width)),
        truth matches Some(t) ==> t.wf(),
    ensures
        outcomes@.len() == reps * num_queries,
        forall|rep: int, q: usize|
            0 <= rep < reps && q < num_queries ==> can_come_to(
                *search,
                *truth,
                q,
                width,
                k,
                #[trigger] outcomes@[rep * num_queries + q],
            ),
{
    let mut outcomes: Vec<SearchOutcome> = Vec::new();
    assert(0 * num_queries == 0) by (nonlinear_arith);
    for rep in 0..reps
        invariant
            forall|q: usize| q < num_queries ==> #[trigger] (*search).requires((q, width)),
            truth matches Some(t) ==> t.wf(),
            outcomes@.len() == rep * num_queries,
            forall|r: int, q: usize|
                0 <= r < rep && q < num_queries ==> can_come_to(
                    *search,
                    *truth,
                    q,
                    width,
                    k,
                    #[trigger] outcomes@[r * num_queries + q],
                ),
    {
        let ghost before = outcomes@;
        for q in 0..num_queries
            invariant
                forall|q: usize| q < num_queries ==> #[trigger] (*search).requires((q, width)),
                truth matches Some(t) ==> t.wf(),
                before.len() == rep * num_queries,
                outcomes@.len() == before.len() + q,
                outcomes@.take(before.len() as int) == before,
                forall|p: usize|
                    p < q ==> can_come_to(
                        *search,
                        *truth,
                        p,
                        width,
                        k,
                        #[trigger] outcomes@[before.len() + p],
                    ),
        {
            let (ids, dist_comps, vec_reads) = search(q, width);
            let hits: Option<usize> = match truth {
                Some(t) => t.recall_hits(q, ids.as_slice(), k),
                None => None,
            };
            let outcome = SearchOutcome { dist_comps, vec_reads, hits };
            let ghost found = (ids, dist_comps, vec_reads);
            assert((*search).ensures((q, width), found));
            assert(outcome == SearchOutcome::of(found, *truth, q, k));
            assert(can_come_to(*search, *truth, q, width, k, outcome));
            let ghost earlier = outcomes@;
            outcomes.push(outcome);
            proof {
                assert(outcomes@.take(before.len() as int) =~= before);
                assert forall|p: usize| p < q + 1 implies can_come_to(
                    *search,
                    *truth,
                    p,
                    width,
                    k,
                    #[trigger] outcomes@[before.len() + p],
                ) by {
                    if p < q {
                        assert(outcomes@[before.len() + p] == earlier[before.len() + p]);
                    }
                }
            }
        }
        proof {
            assert((rep + 1) * num_queries == rep * num_queries + num_queries)
                by (nonlinear_arith);
            assert forall|r: int, q: usize| 0 <= r < rep + 1 && q < num_queries implies can_come_to(
                *search,
                *truth,
                q,
                width,
                k,
                #[trigger] outcomes@[r * num_queries + q],
            ) by {
                if r < rep {
                    assert(0 <= r * num_queries && r * num_queries + q < rep * num_queries)
                        by (nonlinear_arith)
                        requires
                            0 <= r,
                            r + 1 <= rep,
                            0 <= q < num_queries,
                    ;
                    assert(outcomes@.take(before.len() as int)[r * num_queries + q] == before[r
                        * num_queries + q]);
                } else {
                    assert(outcomes@[before.len() + q] == outcomes@[r * num_queries + q]);
                }
            }
        }
    }
    outcomes
}

/// The searches of one width.
#[derive(Debug)]
pub struct SweepRow {
    pub search_l: usize,
    /// The outcomes, query after query, for one repetition after the other.
    pub outcomes: Vec<SearchOutcome>,
}

/// Whether a row holds the searches of a width: one for each repetition and query, in order.
pub open spec fn is_row<F: Fn(usize, usize) -> (Vec<u32>, u32, u32)>(
    row: SweepRow,
    search: F,
    width: usize,
    num_queries: usize,
    reps: usize,
    truth: Option<GroundTruth>,
    k: usize,
) -> bool {
    &&& row.search_l == width
    &&& row.outcomes@.len() == reps * num_queries
    &&& forall|rep: int, q: usize|
        0 <= rep < reps && q < num_queries ==> can_come_to(
            search,
            truth,
            q,
            row.search_l,
            k,
            #[trigger] row.outcomes@[rep * num_queries + q],
        )
}

/// Runs all queries at each width of a sweep, narrowest first.
pub fn sweep<F: Fn(usize, usize) -> (Vec<u32>, u32, u32)>(
    search: &F,
    num_points: usize,
    num_queries: usize,
    reps: usize,
    truth: &Option<GroundTruth>,
) -> (rows: Vec<SweepRow>)
    requires
        forall|q: usize, width: usize|
            q < num_queries && sweep_widths(num_points as int).contains(width)
                ==> #[trigger] (*search).requires((q, width)),
        truth matches Some(t) ==> t.wf(),
    ensures
        rows@.len() == sweep_widths(num_points as int).len(),
        forall|j: int|
            0 <= j < rows@.len() ==> is_row(
                #[trigger] rows@[j],
                *search,
                sweep_widths(num_points as int)[j],
                num_queries,
                reps,
                *truth,
                smaller(RESULT_COUNT as int, num_points as int) as usize,
            ),
{
    let widths = search_widths(num_points);
    let k: usize = result_count(num_points);
    let mut rows: Vec<SweepRow> = Vec::new();
    for j in 0..widths.len()
        invariant
            widths@ == sweep_widths(num_points as int),
            k == smaller(RESULT_COUNT as int, num_points as int),
            forall|q: usize, width: usize|
                q < num_queries && widths@.contains(width) ==> #[trigger] (*search).requires(
                    (q, width),
                ),
            truth matches Some(t) ==> t.wf(),
            rows@.len() == j,
            forall|i: int|
                0 <= i < rows@.len() ==> is_row(
                    #[trigger] rows@[i],
                    *search,
                    widths@[i],
                    num_queries,
                    reps,
                    *truth,
                    k,
                ),
    {
        let width: usize = widths[j];
        assert(widths@.contains(width));
        let outcomes = run_pass(search, width, num_queries, reps, truth, k);
        rows.push(SweepRow { search_l: width, outcomes });
    }
    rows
}

/// What the searches of one width add up to.
#[derive(Debug, Clone, Copy, PartialEq, Eq, Structural)]
pub struct SweepTotals {
    pub searches: u64,
    pub dist_comps: u64,
    pub vec_reads: u64,
    /// Results that are right. A query without ground truth has none.
    pub hits: u64,
}

/// Results that are right, among those that were wanted.
#[derive(Debug, Clone, Copy, PartialEq, Eq, Structural)]
pub struct Recall {
    pub hits: u64,
    pub wanted: u128,
}

/// All nodes scored in some searches.
pub open spec fn all_comps(outcomes: Seq<SearchOutcome>) -> int
    decreases outcomes.len(),
{
    if outcomes.len() == 0 {
        0
    } else {
        all_comps(outcomes.drop_last()) + outcomes.last().dist_comps
    }
}

/// All vectors read in some searches.
pub open spec fn all_reads(outcomes: Seq<SearchOutcome>) -> int
    decreases outcomes.len(),
{
    if outcomes.len() == 0 {
        0
    } else {
        all_reads(outcomes.drop_last()) + outcomes.last().vec_reads
    }
}

/// The hits of a search; none where there is no ground truth for its query.
pub open spec fn hits_of(outcome: SearchOutcome) -> int {
    match outcome.hits {
        Some(n) => n as int,
        None => 0,
    }
}

/// All hits of some searches.
pub open spec fn all_hits(outcomes: Seq<SearchOutcome>) -> int
    decreases outcomes.len(),
{
    if outcomes.len() == 0 {
        0
    } else {
        all_hits(outcomes.drop_last()) + hits_of(outcomes.last())
    }
}

/// The first searches add up to no more than all of them.
proof fn lemma_totals_grow(outcomes: Seq<SearchOutcome>, n: int)
    requires
        0 <= n <= outcomes.len(),
    ensures
        0 <= all_comps(outcomes.take(n)) <= all_comps(outcomes),
        0 <= all_reads(outcomes.take(n)) <= all_reads(outcomes),
        0 <= all_hits(outcomes.take(n)) <= all_hits(outcomes),
    decreases outcomes.len(),
{
    if outcomes.len() > 0 {
        if n == outcomes.len() {
            assert(outcomes.take(n) =~= outcomes);
            lemma_totals_grow(outcomes.drop_last(), n - 1);
        } else {
            assert(outcomes.take(n) =~= outcomes.drop_last().take(n));
            lemma_totals_grow(outcomes.drop_last(), n);
        }
    }
}

impl SweepTotals {
    /// Adds up searches.
    pub fn of(outcomes: &Vec<SearchOutcome>) -> (totals: Self)
        requires
            all_comps(outcomes@) <= u64::MAX,
            all_reads(outcomes@) <= u64::MAX,
            all_hits(outcomes@) <= u64::MAX,
        ensures
            totals.searches == outcomes@.len(),
            totals.dist_comps == all_comps(outcomes@),
            totals.vec_reads == all_reads(outcomes@),
            totals.hits == all_hits(outcomes@),
    {
        let mut dist_comps: u64 = 0;
        let mut vec_reads: u64 = 0;
        let mut hits: u64 = 0;
        assert(outcomes@.take(0) =~= Seq::<SearchOutcome>::empty());
        for i in 0..outcomes.len()
            invariant
                all_comps(outcomes@) <= u64::MAX,
                all_reads(outcomes@) <= u64::MAX,
                all_hits(outcomes@) <= u64::MAX,
                dist_comps == all_comps(outcomes@.take(i as int)),
                vec_reads == all_reads(outcomes@.take(i as int)),
                hits == all_hits(outcomes@.take(i as int)),
        {
            proof {
                assert(outcomes@.take(i + 1).drop_last() =~= outcomes@.take(i as int));
                lemma_totals_grow(outcomes@, i + 1);
            }
            dist_comps = dist_comps + outcomes[i].dist_comps as u64;
            vec_reads = vec_reads + outcomes[i].vec_reads as u64;
            if let Some(n) = outcomes[i].hits {
                hits = hits + n as u64;
            }
        }
        assert(outcomes@.take(outcomes@.len() as int) =~= outcomes@);
        SweepTotals { searches: outcomes.len() as u64, dist_comps, vec_reads, hits }
    }

    /// The recall of searches for `k` results each. It is not known where there is no ground
    /// truth or no search.
    pub fn recall(&self, judged: bool, k: usize) -> (recall: Option<Recall>)
        ensures
            recall == if judged && self.searches > 0 {
                Some(Recall { hits: self.hits, wanted: (self.searches * k) as u128 })
            } else {
                None
            },
    {
        if !judged || self.searches == 0 {
            return None;
        }
        proof {
            assert(0 <= self.searches * k <= 0xffff_ffff_ffff_ffff * 0xffff_ffff_ffff_ffff)
                by (nonlinear_arith)
                requires
                    0 <= self.searches <= 0xffff_ffff_ffff_ffff,
                    0 <= k <= 0xffff_ffff_ffff_ffff,
            ;
        }
        Some(Recall { hits: self.hits, wanted: (self.searches as u128) * (k as u128) })
    }
}

/// Recall is at most one: no more results are right than were wanted.
pub proof fn law_recall_is_at_most_one<F: Fn(usize, usize) -> (Vec<u32>, u32, u32)>(
    row: SweepRow,
    search: F,
    width: usize,
    num_queries: usize,
    reps: usize,
    truth: Option<GroundTruth>,
    k: usize,
)
    requires
        is_row(row, search, width, num_queries, reps, truth, k),
    ensures
        all_hits(row.outcomes@) <= row.outcomes@.len() * k,
{
    let outcomes = row.outcomes@;
    assert forall|i: int| 0 <= i < outcomes.len() implies hits_of(#[trigger] outcomes[i]) <= k by {
        if num_queries == 0 {
            assert(reps * num_queries == 0) by (nonlinear_arith)
                requires
                    num_queries == 0,
            ;
        }
        let rep = i / num_queries as int;
        let q = i % num_queries as int;
        lemma_fundamental_div_mod(i, num_queries as int);
        assert(rep * num_queries == num_queries * rep) by (nonlinear_arith);
        assert(0 <= rep < reps) by (nonlinear_arith)
            requires
                0 <= i < reps * num_queries,
                num_queries > 0,
                rep == i / num_queries as int,
        ;
        assert(outcomes[i] == row.outcomes@[rep * num_queries + q as usize]);
        assert(can_come_to(search, truth, q as usize, row.search_l, k, outcomes[i]));
        let found = choose|found: (Vec<u32>, u32, u32)| #[trigger]
            search.ensures((q as usize, row.search_l), found) && outcomes[i] == SearchOutcome::of(
                found,
                truth,
                q as usize,
                k,
            );
        if let Some(t) = truth {
            law_recall_is_bounded(found.0@, t@.row(q), k as int);
        }
    }
    lemma_hits_bounded(outcomes, k as int);
}

/// Searches with at most so many hits each add up to at most so many times their number.
proof fn lemma_hits_bounded(outcomes: Seq<SearchOutcome>, k: int)
    requires
        forall|i: int| 0 <= i < outcomes.len() ==> hits_of(#[trigger] outcomes[i]) <= k,
    ensures
        all_hits(outcomes) <= outcomes.len() * k,
    decreases outcomes.len(),
{
    if outcomes.len() > 0 {
        let front = outcomes.drop_last();
        assert forall|i: int| 0 <= i < front.len() implies hits_of(#[trigger] front[i]) <= k by {
            assert(front[i] == outcomes[i]);
        }
        lemma_hits_bounded(front, k);
        assert(hits_of(outcomes[outcomes.len() - 1]) <= k);
        assert(front.len() * k + k == outcomes.len() * k) by (nonlinear_arith)
            requires
                outcomes.len() == front.len() + 1,
        ;
    }
}

/// Totals are sums: those of two runs of searches add up, and a single search counts with its
/// own numbers. A search without ground truth counts no hit.
pub proof fn law_totals_add_up(a: Seq<SearchOutcome>, b: Seq<SearchOutcome>, one: SearchOutcome)
    ensures
        all_comps(a + b) == all_comps(a) + all_comps(b),
        all_reads(a + b) == all_reads(a) + all_reads(b),
        all_hits(a + b) == all_hits(a) + all_hits(b),
        all_comps(seq![one]) == one.dist_comps,
        all_reads(seq![one]) == one.vec_reads,
        one.hits is None ==> all_hits(seq![one]) == 0,
        one.hits matches Some(n) ==> all_hits(seq![one]) == n,
    decreases b.len(),
{
    let none = Seq::<SearchOutcome>::empty();
    assert(seq![one].drop_last() =~= none);
    assert(all_comps(none) == 0 && all_reads(none) == 0 && all_hits(none) == 0);
    if b.len() == 0 {
        assert(a + b =~= a);
    } else {
        law_totals_add_up(a, b.drop_last(), one);
        assert((a + b).drop_last() =~= a + b.drop_last());
    }
}

/// An outcome carries over the counts of its search. Its hits are the results, of the first
/// `k`, that are among the first `k` true neighbors of the query; there are none to count where
/// there is no truth for the query.
pub proof fn law_outcomes_are_of_their_search(
    found: (Vec<u32>, u32, u32),
    truth: Option<GroundTruth>,
    query: usize,
    k: usize,
)
    ensures
        ({
            let outcome = SearchOutcome::of(found, truth, query, k);
            &&& outcome.dist_comps == found.1
            &&& outcome.vec_reads == found.2
            &&& truth is None ==> outcome.hits is None
            &&& truth matches Some(t) ==> (outcome.hits is Some <==> query < t@.num)
            &&& truth matches Some(t) ==> query < t@.num ==> outcome.hits == Some(
                (if k <= found.0@.len() {
                    found.0@.take(k as int)
                } else {
                    found.0@
                }).filter(
                    |id: u32|
                        (if k <= t@.k {
                            t@.row(query as int).take(k as int)
                        } else {
                            t@.row(query as int)
                        }).contains(id),
                ).len() as usize,
            )
        }),
{
    if let Some(t) = truth {
        let wanted = if k <= found.0@.len() {
            found.0@.take(k as int)
        } else {
            found.0@
        };
        let row = t@.row(query as int);
        let true_ones = if k <= t@.k {
            row.take(k as int)
        } else {
            row
        };
        law_first_are_taken(found.0@, k as int);
        law_first_are_taken(row, k as int);
        law_hits_are_the_results_among_the_truth(wanted, true_ones);
        assert((|id: u32| true_ones.contains(id)) =~= (|id: u32|
            (if k <= t@.k {
                t@.row(query as int).take(k as int)
            } else {
                t@.row(query as int)
            }).contains(id)));
    }
}

/// The widths of a sweep are 10, 20, 50, 100 and 200, each cut down to the number of points.
pub proof fn law_sweep_widths_are_cut_down(num_points: usize)
    ensures
        ({
            let widths = sweep_widths(num_points as int);
            let full = seq![10int, 20, 50, 100, 200];
            &&& widths.len() == 5
            &&& forall|i: int|
                0 <= i < 5 ==> {
                    &&& full[i] <= num_points ==> #[trigger] widths[i] == full[i]
                    &&& full[i] > num_points ==> widths[i] == num_points
                }
        }),
{
}

/// The outcomes of a row are those of searches with its width: for each repetition and query one,
/// made for that query with that width, and with its counts.
pub proof fn law_rows_are_of_their_searches<F: Fn(usize, usize) -> (Vec<u32>, u32, u32)>(
    row: SweepRow,
    search: F,
    width: usize,
    num_queries: usize,
    reps: usize,
    truth: Option<GroundTruth>,
    k: usize,
    rep: int,
    q: usize,
)
    requires
        is_row(row, search, width, num_queries, reps, truth, k),
        0 <= rep < reps,
        q < num_queries,
    ensures
        row.search_l == width,
        row.outcomes@.len() == reps * num_queries,
        exists|found: (Vec<u32>, u32, u32)| #[trigger]
            search.ensures((q, width), found) && ({
                let outcome = row.outcomes@[rep * num_queries + q];
                &&& outcome.dist_comps == found.1
                &&& outcome.vec_reads == found.2
                &&& outcome == SearchOutcome::of(found, truth, q, k)
            }),
{
    assert(can_come_to(
        search,
        truth,
        q,
        row.search_l,
        k,
        row.outcomes@[rep * num_queries + q],
    ));
}

/// Ten results are asked for.
pub proof fn law_ten_results_are_asked_for()
    ensures
        RESULT_COUNT == 10,
{
}

} // verus!

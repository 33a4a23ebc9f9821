//! Best-first search over a graph of nodes.
//!
//! A search starts at node 0 and always visits the nearest node that it has come across and
//! not visited yet, until it has visited a given number of them. Distances are given as
//! integer ranks: the smaller the rank, the nearer the node. Of two nodes of one rank, the one
//! with the smaller id is visited first.

use crate::min_heap::MinHeap;
use crate::rounding::{min_usize, smaller};
use std::collections::HashSet;
use vstd::multiset::Multiset;
use vstd::prelude::*;
use vstd::std_specs::hash::*;

verus! {

broadcast use group_hash_axioms;

/// Nodes of a graph that can be read one by one.
pub trait NodeSource {
    /// What must hold for anything to be read.
    spec fn sound(&self) -> bool;

    /// Whether the bytes by which a node is scored can be read.
    spec fn has_payload(&self, id: u32) -> bool;

    /// Whether the neighbors of a node can be read.
    spec fn has_list(&self, id: u32) -> bool;

    /// The bytes by which a node is scored.
    spec fn payload(&self, id: u32) -> Seq<u8>;

    /// The neighbors of a node.
    spec fn adjacency(&self, id: u32) -> Seq<u32>;

    /// Tells whether the bytes by which a node is scored can be read.
    fn payload_fits(&self, id: u32) -> (fits: bool)
        requires
            self.sound(),
        ensures
            fits == self.has_payload(id),
    ;

    /// Tells whether the neighbors of a node can be read.
    fn list_fits(&self, id: u32) -> (fits: bool)
        requires
            self.sound(),
        ensures
            fits == self.has_list(id),
    ;

    /// Reads the bytes by which a node is scored.
    fn payload_bytes(&self, id: u32) -> (bytes: &[u8])
        requires
            self.sound(),
            self.has_payload(id),
        ensures
            bytes@ == self.payload(id),
    ;

    /// Reads the neighbors of a node.
    fn neighbors(&self, id: u32) -> (list: Vec<u32>)
        requires
            self.sound(),
            self.has_list(id),
        ensures
            list@ == self.adjacency(id),
    ;
}

/// The score of some bytes.
pub open spec fn score_of<F: Fn(&[u8]) -> u32>(score: F, bytes: Seq<u8>) -> u32 {
    choose|rank: u32| gives(score, bytes, rank)
}

/// Whether scoring some bytes can give a rank.
pub open spec fn gives<F: Fn(&[u8]) -> u32>(score: F, bytes: Seq<u8>, rank: u32) -> bool {
    exists|b: &[u8]| b@ == bytes && #[trigger] score.ensures((b,), rank)
}

/// A scoring function takes what the nodes of a source are scored by, and gives the same bytes
/// the same rank.
pub open spec fn is_scoring<N: NodeSource, F: Fn(&[u8]) -> u32>(score: F, nodes: N) -> bool {
    &&& forall|b: &[u8], id: u32|
        nodes.has_payload(id) && b@ == #[trigger] nodes.payload(id) ==> #[trigger] score.requires(
            (b,),
        )
    &&& forall|b1: &[u8], b2: &[u8], r1: u32, r2: u32|
        #[trigger] score.ensures((b1,), r1) && #[trigger] score.ensures((b2,), r2) && b1@ == b2@
            ==> r1 == r2
}

/// A node and its rank.
#[derive(Debug, Clone, Copy, PartialEq, Eq, Structural)]
pub struct Candidate {
    pub rank: u32,
    pub id: u32,
}

impl Candidate {
    /// The key by which candidates are taken: by rank, then by id.
    pub open spec fn key(self) -> int {
        self.rank * 0x1_0000_0000 + self.id
    }
}

/// Puts a candidate behind all that are at least as near.
pub open spec fn ranked_in(s: Seq<Candidate>, c: Candidate) -> Seq<Candidate>
    decreases s.len(),
{
    if s.len() == 0 || s.last().rank <= c.rank {
        s.push(c)
    } else {
        ranked_in(s.drop_last(), c).push(s.last())
    }
}

/// Candidates in the order of their ranks; those of one rank keep their order.
pub open spec fn by_rank(s: Seq<Candidate>) -> Seq<Candidate>
    decreases s.len(),
{
    if s.len() == 0 {
        s
    } else {
        ranked_in(by_rank(s.drop_last()), s.last())
    }
}

/// The first `k`, or all where there are fewer.
pub open spec fn first_of<A>(s: Seq<A>, k: int) -> Seq<A> {
    s.take(smaller(k, s.len() as int))
}

/// The ids of candidates.
pub open spec fn ids_of(s: Seq<Candidate>) -> Seq<u32> {
    Seq::new(s.len(), |i: int| s[i].id)
}

/// How many of some neighbors are scored: those that exist and are not visited yet.
pub open spec fn scored_count(neighbors: Seq<u32>, visited: Seq<u32>, num_points: nat) -> nat
    decreases neighbors.len(),
{
    if neighbors.len() == 0 {
        0
    } else {
        scored_count(neighbors.drop_last(), visited, num_points) + if neighbors.last() < num_points
            && !visited.contains(neighbors.last()) {
            1nat
        } else {
            0
        }
    }
}

/// What a search runs on: a graph and a rank for each node.
pub struct SearchSpace {
    pub adjacent: spec_fn(u32) -> Seq<u32>,
    pub rank: spec_fn(u32) -> u32,
    /// Ids from here on are no nodes.
    pub num_points: nat,
}

impl SearchSpace {
    /// The space that a source and a scoring function span.
    pub open spec fn of<N: NodeSource, F: Fn(&[u8]) -> u32>(
        nodes: N,
        score: F,
        num_points: nat,
    ) -> SearchSpace {
        SearchSpace {
            adjacent: |id: u32| nodes.adjacency(id),
            rank: |id: u32| score_of(score, nodes.payload(id)),
            num_points,
        }
    }

    /// A node with its rank.
    pub open spec fn candidate(self, id: u32) -> Candidate {
        Candidate { rank: (self.rank)(id), id }
    }

    /// Whether a search comes across a node: the start, or a neighbor of a visited node.
    pub open spec fn known_to(self, visited: Seq<u32>, id: u32) -> bool {
        id == 0 || (id < self.num_points && exists|i: int|
            0 <= i < visited.len() && (self.adjacent)(#[trigger] visited[i]).contains(id))
    }

    /// Whether a node is known and not visited.
    pub open spec fn open_to(self, visited: Seq<u32>, id: u32) -> bool {
        &&& !visited.contains(id)
        &&& self.known_to(visited, id)
    }

    /// Whether a node is the one to visit next: none that is open is nearer.
    pub open spec fn is_next(self, visited: Seq<u32>, id: u32) -> bool {
        &&& self.open_to(visited, id)
        &&& forall|other: u32| #[trigger]
            self.open_to(visited, other) ==> self.candidate(id).key() <= self.candidate(other).key()
    }

    /// The nodes visited in at most `n` visits, in order.
    pub open spec fn visits(self, n: nat) -> Seq<u32>
        decreases n,
    {
        if n == 0 {
            Seq::empty()
        } else {
            let visited = self.visits((n - 1) as nat);
            if exists|id: u32| self.is_next(visited, id) {
                visited.push(choose|id: u32| self.is_next(visited, id))
            } else {
                visited
            }
        }
    }

    /// How many nodes are scored on the way: the start, and at each visit the neighbors that
    /// are not visited yet.
    pub open spec fn comparisons(self, visited: Seq<u32>) -> nat
        decreases visited.len(),
    {
        if visited.len() == 0 {
            1
        } else {
            self.comparisons(visited.drop_last()) + scored_count(
                (self.adjacent)(visited.last()),
                visited,
                self.num_points,
            )
        }
    }

    /// Nodes with their ranks.
    pub open spec fn candidates(self, ids: Seq<u32>) -> Seq<Candidate> {
        Seq::new(ids.len(), |i: int| self.candidate(ids[i]))
    }

    /// The nearest `k` of some nodes, nearest first.
    pub open spec fn nearest(self, ids: Seq<u32>, k: int) -> Seq<u32> {
        ids_of(first_of(by_rank(self.candidates(ids)), k))
    }
}

/// Candidates with one key are the same.
proof fn lemma_key_is_injective(a: Candidate, b: Candidate)
    ensures
        a.key() == b.key() <==> a == b,
{
}

/// Only one node can be next.
proof fn lemma_next_is_unique(space: SearchSpace, visited: Seq<u32>, id: u32)
    requires
        space.is_next(visited, id),
    ensures
        (choose|other: u32| space.is_next(visited, other)) == id,
{
    let other = choose|other: u32| space.is_next(visited, other);
    assert(space.is_next(visited, other));
    lemma_key_is_injective(space.candidate(id), space.candidate(other));
}

/// Once no node is open, more visits change nothing.
proof fn lemma_visits_end(space: SearchSpace, n: nat, m: nat)
    requires
        n <= m,
        forall|id: u32| !(#[trigger] space.open_to(space.visits(n), id)),
    ensures
        space.visits(m) == space.visits(n),
    decreases m - n,
{
    if n < m {
        lemma_visits_end(space, n, (m - 1) as nat);
        let before = space.visits((m - 1) as nat);
        assert forall|id: u32| !(#[trigger] space.is_next(before, id)) by {
            assert(!space.open_to(space.visits(n), id));
        }
    }
}

/// The number of scored neighbors grows with the neighbors.
proof fn lemma_scored_count_grows(neighbors: Seq<u32>, visited: Seq<u32>, num_points: nat, j: int)
    requires
        0 <= j <= neighbors.len(),
    ensures
        scored_count(neighbors.take(j), visited, num_points) <= scored_count(
            neighbors,
            visited,
            num_points,
        ),
        scored_count(neighbors, visited, num_points) <= neighbors.len(),
    decreases neighbors.len(),
{
    if neighbors.len() > 0 {
        if j == neighbors.len() {
            assert(neighbors.take(j) =~= neighbors);
            lemma_scored_count_grows(neighbors.drop_last(), visited, num_points, j - 1);
        } else {
            assert(neighbors.take(j) =~= neighbors.drop_last().take(j));
            lemma_scored_count_grows(neighbors.drop_last(), visited, num_points, j);
        }
    }
}

/// A search never scores less the more it visits.
proof fn lemma_comparisons_grow(space: SearchSpace, n: nat, m: nat)
    requires
        n <= m,
    ensures
        space.comparisons(space.visits(n)) <= space.comparisons(space.visits(m)),
    decreases m - n,
{
    if n < m {
        lemma_comparisons_grow(space, n, (m - 1) as nat);
        let before = space.visits((m - 1) as nat);
        if exists|id: u32| space.is_next(before, id) {
            assert(space.visits(m).drop_last() =~= before);
        }
    }
}

/// The key of a candidate as a machine integer.
fn key_of(c: Candidate) -> (key: u64)
    ensures
        key == c.key(),
{
    (c.rank as u64) * 0x1_0000_0000 + (c.id as u64)
}

/// The candidate with a key.
fn candidate_of(key: u64) -> (c: Candidate)
    ensures
        c.key() == key,
{
    Candidate { rank: (key / 0x1_0000_0000) as u32, id: (key % 0x1_0000_0000) as u32 }
}

/// Scores a node.
fn score_node<N: NodeSource, F: Fn(&[u8]) -> u32>(nodes: &N, score: &F, id: u32) -> (c: Candidate)
    requires
        is_scoring(*score, *nodes),
        nodes.sound(),
        nodes.has_payload(id),
    ensures
        c == (Candidate { rank: score_of(*score, nodes.payload(id)), id }),
{
    let bytes = nodes.payload_bytes(id);
    assert(bytes@ == nodes.payload(id));
    let rank: u32 = score(bytes);
    proof {
        assert(gives(*score, bytes@, rank));
        let chosen = score_of(*score, bytes@);
        assert(gives(*score, bytes@, chosen));
        let b = choose|b: &[u8]| b@ == bytes@ && #[trigger] (*score).ensures((b,), chosen);
        assert((*score).ensures((b,), chosen));
        assert((*score).ensures((bytes,), rank));
    }
    Candidate { rank, id }
}

/// Every queued key belongs to a node that is visited or open, and every open node is queued.
spec fn queue_agrees(space: SearchSpace, visited: Seq<u32>, queue: Multiset<u64>) -> bool {
    &&& forall|key: u64| #[trigger]
        queue.contains(key) ==> exists|id: u32|
            #![trigger space.candidate(id)]
            space.candidate(id).key() == key && (visited.contains(id) || space.open_to(
                visited,
                id,
            ))
    &&& forall|id: u32| #[trigger]
        space.open_to(visited, id) ==> queue.contains(space.candidate(id).key() as u64)
}

/// Whether an id is among the neighbors looked at so far, and to be scored.
spec fn newly_open(
    space: SearchSpace,
    visited: Seq<u32>,
    neighbors: Seq<u32>,
    upto: int,
    id: u32,
) -> bool {
    &&& id < space.num_points
    &&& !visited.contains(id)
    &&& exists|j: int| 0 <= j < upto && #[trigger] neighbors[j] == id
}

/// As `queue_agrees`, once the last visited node's neighbors are looked at up to a place.
spec fn queue_agrees_upto(
    space: SearchSpace,
    visited: Seq<u32>,
    queue: Multiset<u64>,
    upto: int,
) -> bool {
    let neighbors = (space.adjacent)(visited.last());
    &&& forall|key: u64| #[trigger]
        queue.contains(key) ==> exists|id: u32|
            #![trigger space.candidate(id)]
            space.candidate(id).key() == key && (visited.contains(id) || space.open_to(
                visited,
                id,
            ))
    &&& forall|id: u32| #[trigger]
        space.open_to(visited, id) && (space.open_to(visited.drop_last(), id) || newly_open(
            space,
            visited,
            neighbors,
            upto,
            id,
        )) ==> queue.contains(space.candidate(id).key() as u64)
}

/// Visiting a node opens its unvisited neighbors, and nothing else.
proof fn lemma_open_after_visit(space: SearchSpace, visited: Seq<u32>, at: u32, id: u32)
    requires
        !visited.contains(at),
    ensures
        space.open_to(visited.push(at), id) <==> {
            &&& id != at
            &&& space.open_to(visited, id) || (id < space.num_points && !visited.contains(id) && (
            space.adjacent)(at).contains(id))
        },
        visited.push(at).contains(id) <==> visited.contains(id) || id == at,
{
    let after = visited.push(at);
    assert(after.contains(id) <==> visited.contains(id) || id == at) by {
        if visited.contains(id) {
            let i = choose|i: int| 0 <= i < visited.len() && visited[i] == id;
            assert(after[i] == id);
        }
        if id == at {
            assert(after[visited.len() as int] == id);
        }
    }
    if space.open_to(visited, id) && id != at && id != 0 {
        let i = choose|i: int|
            0 <= i < visited.len() && (space.adjacent)(#[trigger] visited[i]).contains(id);
        assert(after[i] == visited[i]);
    }
    if (space.adjacent)(at).contains(id) {
        assert(after[visited.len() as int] == at);
    }
    if space.open_to(after, id) && id != 0 {
        let i = choose|i: int|
            0 <= i < after.len() && (space.adjacent)(#[trigger] after[i]).contains(id);
        if i < visited.len() {
            assert(after[i] == visited[i]);
        } else {
            assert(after[i] == at);
        }
    }
}

/// Whether all that a search reads can be read: what the nodes it comes across are scored by,
/// and the neighbors of those it visits.
pub open spec fn reads_fit<N: NodeSource>(
    nodes: N,
    space: SearchSpace,
    visited: Seq<u32>,
) -> bool {
    &&& forall|id: u32| #[trigger] space.known_to(visited, id) ==> nodes.has_payload(id)
    &&& forall|i: int| 0 <= i < visited.len() ==> nodes.has_list(#[trigger] visited[i])
}

/// Whether a search can be made: all that it reads can be read, and its count of scored nodes
/// does not overflow.
pub open spec fn can_search<N: NodeSource>(nodes: N, space: SearchSpace, search_l: nat) -> bool {
    &&& reads_fit(nodes, space, space.visits(search_l))
    &&& space.comparisons(space.visits(search_l)) <= u32::MAX
}

/// A visited node is one that the search has come across.
proof fn lemma_visited_are_known(space: SearchSpace, n: nat, id: u32)
    requires
        space.visits(n).contains(id),
    ensures
        space.known_to(space.visits(n), id),
{
    let visited = space.visits(n);
    let i = choose|i: int| 0 <= i < visited.len() && visited[i] == id;
    law_visits_are_nodes(space, n);
    assert(n > 0) by {
        law_visits_are_distinct(space, n);
    }
    law_visits_follow_the_graph(space, n);
    if i > 0 {
        assert(space.visits(n)[i] == id);
        let j = choose|j: int|
            0 <= j < i && (space.adjacent)(#[trigger] space.visits(n)[j]).contains(
                space.visits(n)[i],
            );
        assert((space.adjacent)(visited[j]).contains(id));
    }
}

/// What the first visits need, all of them need.
proof fn lemma_reads_of_prefix<N: NodeSource>(nodes: N, space: SearchSpace, n: nat, m: nat)
    requires
        n <= m,
        reads_fit(nodes, space, space.visits(m)),
    ensures
        reads_fit(nodes, space, space.visits(n)),
{
    law_wider_search_extends(space, n, m);
    let short = space.visits(n);
    let long = space.visits(m);
    assert forall|i: int| 0 <= i < short.len() implies short[i] == #[trigger] long[i] by {
        assert(long.subrange(0, short.len() as int)[i] == long[i]);
    }
    assert forall|id: u32| #[trigger] space.known_to(short, id) implies nodes.has_payload(id) by {
        if id != 0 {
            let i = choose|i: int|
                0 <= i < short.len() && (space.adjacent)(#[trigger] short[i]).contains(id);
            assert((space.adjacent)(long[i]).contains(id));
        }
        assert(space.known_to(long, id));
    }
    assert forall|i: int| 0 <= i < short.len() implies nodes.has_list(#[trigger] short[i]) by {
        assert(nodes.has_list(long[i]));
    }
}

/// Visits nodes, nearest first, until `search_l` are visited or none is open. Gives the
/// visited nodes in order, and how many nodes were scored; nothing where something that the
/// search reads cannot be read, or the count overflows.
pub fn try_beam_search<N: NodeSource, F: Fn(&[u8]) -> u32>(
    nodes: &N,
    score: &F,
    search_l: usize,
    num_points: usize,
) -> (result: Option<(Vec<Candidate>, u32)>)
    requires
        nodes.sound(),
        is_scoring(*score, *nodes),
    ensures
        ({
            let space = SearchSpace::of(*nodes, *score, num_points as nat);
            let visited = space.visits(search_l as nat);
            match result {
                Some(found) => {
                    &&& can_search(*nodes, space, search_l as nat)
                    &&& found.0@ == space.candidates(visited)
                    &&& found.1 == space.comparisons(visited)
                },
                None => !can_search(*nodes, space, search_l as nat),
            }
        }),
{
    let ghost space = SearchSpace::of(*nodes, *score, num_points as nat);
    let mut visited: HashSet<u32> = HashSet::new();
    let mut heap = MinHeap::new();
    let mut found: Vec<Candidate> = Vec::new();
    let mut ops: u32 = 1;
    let ghost mut order: Seq<u32> = Seq::empty();
    if !nodes.payload_fits(0) {
        proof {
            assert(space.known_to(space.visits(search_l as nat), 0));
        }
        return None;
    }
    heap.push(key_of(score_node(nodes, score, 0)));
    proof {
        assert forall|key: u64| #[trigger] heap@.contains(key) implies exists|id: u32|
            #![trigger space.candidate(id)]
            space.candidate(id).key() == key && (order.contains(id) || space.open_to(
                order,
                id,
            )) by {
            assert(space.candidate(0u32).key() == key);
        }
        assert(queue_agrees(space, order, heap@));
    }
    loop
        invariant_except_break
            queue_agrees(space, order, heap@),
        invariant
            nodes.sound(),
            is_scoring(*score, *nodes),
            space == SearchSpace::of(*nodes, *score, num_points as nat),
            reads_fit(*nodes, space, order),
            heap.wf(),
            order.len() <= search_l,
            order == space.visits(order.len()),
            order.no_duplicates(),
            forall|id: u32| #[trigger] visited@.contains(id) <==> order.contains(id),
            visited@.len() == order.len(),
            visited@.finite(),
            found@ == space.candidates(order),
            ops == space.comparisons(order),
        ensures
            order == space.visits(search_l as nat),
            reads_fit(*nodes, space, order),
            found@ == space.candidates(order),
            ops == space.comparisons(order),
        decreases search_l - order.len(), heap@.len(),
    {
        let ghost queue = heap@;
        let key: u64 = match heap.pop() {
            Some(key) => key,
            None => {
                proof {
                    assert forall|id: u32| !(#[trigger] space.open_to(order, id)) by {
                        if space.open_to(order, id) {
                            assert(queue.contains(space.candidate(id).key() as u64));
                        }
                    }
                    lemma_visits_end(space, order.len(), search_l as nat);
                }
                break;
            },
        };
        let c = candidate_of(key);
        proof {
            let id = choose|id: u32|
                #![trigger space.candidate(id)]
                space.candidate(id).key() == key && (order.contains(id) || space.open_to(
                    order,
                    id,
                ));
            lemma_key_is_injective(c, space.candidate(id));
            assert(c == space.candidate(c.id));
        }
        if visited.contains(&c.id) {
            proof {
                assert forall|id: u32| #[trigger] space.open_to(order, id) implies heap@.contains(
                    space.candidate(id).key() as u64,
                ) by {
                    lemma_key_is_injective(space.candidate(id), c);
                }
                assert forall|k: u64| #[trigger] heap@.contains(k) implies queue.contains(k) by {}
                assert(queue_agrees(space, order, heap@));
            }
            continue;
        }
        if visited.len() >= search_l {
            break;
        }
        assert(space.open_to(order, c.id));
        let ghost before = order;
        proof {
            assert forall|other: u32| #[trigger] space.open_to(order, other) implies space.candidate(
                c.id,
            ).key() <= space.candidate(other).key() by {
                assert(queue.contains(space.candidate(other).key() as u64));
            }
            assert(space.is_next(order, c.id));
            lemma_next_is_unique(space, order, c.id);
            order = before.push(c.id);
            assert(order == space.visits(order.len()));
            lemma_comparisons_grow(space, order.len(), search_l as nat);
            assert(order.drop_last() =~= before);
        }
        if !nodes.list_fits(c.id) {
            proof {
                if can_search(*nodes, space, search_l as nat) {
                    lemma_reads_of_prefix(*nodes, space, order.len(), search_l as nat);
                    assert(nodes.has_list(order[order.len() - 1]));
                }
            }
            return None;
        }
        visited.insert(c.id);
        let neighbors = nodes.neighbors(c.id);
        assert(neighbors@ == (space.adjacent)(order.last()));
        proof {
            assert forall|id: u32| order.contains(id) <==> before.contains(id) || id == c.id by {
                lemma_open_after_visit(space, before, c.id, id);
            }
            assert forall|k: u64| #[trigger] heap@.contains(k) implies exists|id: u32|
                #![trigger space.candidate(id)]
                space.candidate(id).key() == k && (order.contains(id) || space.open_to(
                    order,
                    id,
                )) by {
                assert(queue.contains(k));
                let id = choose|id: u32|
                    #![trigger space.candidate(id)]
                    space.candidate(id).key() == k && (before.contains(id) || space.open_to(
                        before,
                        id,
                    ));
                lemma_open_after_visit(space, before, c.id, id);
                assert(space.candidate(id).key() == k);
            }
            assert forall|id: u32| #[trigger]
                space.open_to(order, id) && (space.open_to(order.drop_last(), id) || newly_open(
                    space,
                    order,
                    neighbors@,
                    0,
                    id,
                )) implies heap@.contains(space.candidate(id).key() as u64) by {
                lemma_open_after_visit(space, before, c.id, id);
                lemma_key_is_injective(space.candidate(id), c);
                assert(queue.contains(space.candidate(id).key() as u64));
            }
            assert(queue_agrees_upto(space, order, heap@, 0));
            assert(neighbors@.take(0) =~= Seq::<u32>::empty());
        }
        let mut j: usize = 0;
        while j < neighbors.len()
            invariant
                j <= neighbors@.len(),
                nodes.sound(),
                is_scoring(*score, *nodes),
                order.len() <= search_l,
                order == space.visits(order.len()),
                reads_fit(*nodes, space, before),
                forall|i: int|
                    0 <= i < j && neighbors@[i] < num_points && !order.contains(neighbors@[i])
                        ==> nodes.has_payload(#[trigger] neighbors@[i]),
                space == SearchSpace::of(*nodes, *score, num_points as nat),
                heap.wf(),
                order.len() > 0,
                order == before.push(c.id),
                order.drop_last() == before,
                !before.contains(c.id),
                neighbors@ == (space.adjacent)(order.last()),
                queue_agrees_upto(space, order, heap@, j as int),
                forall|id: u32| #[trigger] visited@.contains(id) <==> order.contains(id),
                ops == space.comparisons(before) + scored_count(
                    neighbors@.take(j as int),
                    order,
                    num_points as nat,
                ),
                space.comparisons(order) <= space.comparisons(space.visits(search_l as nat)),
            decreases neighbors@.len() - j,
        {
            let nb: u32 = neighbors[j];
            let ghost queue_before = heap@;
            proof {
                assert(neighbors@.take(j + 1).drop_last() =~= neighbors@.take(j as int));
                lemma_scored_count_grows(neighbors@, order, num_points as nat, j + 1);
                lemma_open_after_visit(space, before, c.id, nb);
                assert(neighbors@.contains(nb));
            }
            if (nb as usize) < num_points && !visited.contains(&nb) {
                if !nodes.payload_fits(nb) {
                    proof {
                        if can_search(*nodes, space, search_l as nat) {
                            lemma_reads_of_prefix(*nodes, space, order.len(), search_l as nat);
                            assert(order[order.len() - 1] == c.id);
                            assert((space.adjacent)(order[order.len() - 1]).contains(nb));
                            assert(space.known_to(order, nb));
                        }
                    }
                    return None;
                }
                if ops == u32::MAX {
                    return None;
                }
                ops = ops + 1;
                heap.push(key_of(score_node(nodes, score, nb)));
                proof {
                    assert forall|k: u64| #[trigger] heap@.contains(k) implies exists|id: u32|
                        #![trigger space.candidate(id)]
                        space.candidate(id).key() == k && (order.contains(id) || space.open_to(
                            order,
                            id,
                        )) by {
                        if queue_before.contains(k) {
                        } else {
                            assert(space.candidate(nb).key() == k);
                        }
                    }
                }
            }
            proof {
                assert forall|id: u32| #[trigger]
                    space.open_to(order, id) && (space.open_to(order.drop_last(), id)
                        || newly_open(space, order, neighbors@, j + 1, id)) implies heap@.contains(
                    space.candidate(id).key() as u64,
                ) by {
                    if id != nb {
                        if newly_open(space, order, neighbors@, j + 1, id) {
                            assert(newly_open(space, order, neighbors@, j as int, id));
                        }
                        assert(queue_before.contains(space.candidate(id).key() as u64));
                    }
                }
                assert(queue_agrees_upto(space, order, heap@, j + 1));
            }
            j += 1;
        }
        proof {
            assert(neighbors@.take(neighbors@.len() as int) =~= neighbors@);
            assert forall|id: u32| #[trigger] space.open_to(order, id) implies heap@.contains(
                space.candidate(id).key() as u64,
            ) by {
                lemma_open_after_visit(space, before, c.id, id);
                if !space.open_to(before, id) {
                    let j2 = choose|j2: int| 0 <= j2 < neighbors@.len() && neighbors@[j2] == id;
                    assert(newly_open(space, order, neighbors@, neighbors@.len() as int, id));
                }
            }
            assert(queue_agrees(space, order, heap@));
            assert forall|id: u32| #[trigger] space.known_to(order, id) implies nodes.has_payload(
                id,
            ) by {
                if order.contains(id) {
                    if before.contains(id) {
                        lemma_visited_are_known(space, before.len(), id);
                    }
                    assert(space.known_to(before, id));
                } else {
                    assert(space.open_to(order, id));
                    lemma_open_after_visit(space, before, c.id, id);
                    if space.open_to(before, id) {
                        assert(space.known_to(before, id));
                    } else {
                        let j2 = choose|j2: int|
                            0 <= j2 < neighbors@.len() && neighbors@[j2] == id;
                        assert(nodes.has_payload(neighbors@[j2]));
                    }
                }
            }
            assert forall|i: int| 0 <= i < order.len() implies nodes.has_list(
                #[trigger] order[i],
            ) by {
                if i < before.len() {
                    assert(order[i] == before[i]);
                }
            }
            assert(reads_fit(*nodes, space, order));
        }
        found.push(c);
        assert(found@ =~= space.candidates(order));
    }
    Some((found, ops))
}

/// Putting a candidate in is inserting it in front of the first that is farther.
proof fn lemma_ranked_in_at(s: Seq<Candidate>, c: Candidate, at: int)
    requires
        0 <= at <= s.len(),
        at > 0 ==> s[at - 1].rank <= c.rank,
        forall|i: int| at <= i < s.len() ==> (#[trigger] s[i]).rank > c.rank,
    ensures
        ranked_in(s, c) == s.insert(at, c),
    decreases s.len(),
{
    if at == s.len() {
        assert(s.insert(at, c) =~= s.push(c));
    } else {
        assert(s.last().rank > c.rank);
        lemma_ranked_in_at(s.drop_last(), c, at);
        assert(s.drop_last().insert(at, c).push(s.last()) =~= s.insert(at, c));
    }
}

/// Sorts candidates by rank; those of one rank keep their order.
pub fn sort_by_rank(list: &[Candidate]) -> (sorted: Vec<Candidate>)
    ensures
        sorted@ == by_rank(list@),
{
    let mut sorted: Vec<Candidate> = Vec::new();
    let mut i: usize = 0;
    assert(list@.take(0) =~= Seq::<Candidate>::empty());
    while i < list.len()
        invariant
            i <= list@.len(),
            sorted@ == by_rank(list@.take(i as int)),
            sorted@.len() == i,
        decreases list@.len() - i,
    {
        let c = list[i];
        let mut at: usize = i;
        while at > 0 && sorted[at - 1].rank > c.rank
            invariant
                at <= sorted@.len(),
                forall|j: int| at <= j < sorted@.len() ==> (#[trigger] sorted@[j]).rank > c.rank,
            decreases at,
        {
            at -= 1;
        }
        proof {
            lemma_ranked_in_at(sorted@, c, at as int);
            assert(list@.take(i + 1).drop_last() =~= list@.take(i as int));
            assert(list@.take(i + 1).last() == c);
        }
        sorted.insert(at, c);
        i += 1;
    }
    assert(list@.take(list@.len() as int) =~= list@);
    sorted
}

/// The ids of the first `k` candidates.
fn first_ids(list: &[Candidate], k: usize) -> (ids: Vec<u32>)
    ensures
        ids@ == ids_of(first_of(list@, k as int)),
{
    let count: usize = min_usize(k, list.len());
    let mut ids: Vec<u32> = Vec::new();
    for i in 0..count
        invariant
            count <= list@.len(),
            count == smaller(k as int, list@.len() as int),
            ids@.len() == i,
            forall|j: int| 0 <= j < i ==> ids@[j] == list@[j].id,
    {
        ids.push(list[i].id);
    }
    assert(ids@ =~= ids_of(first_of(list@, k as int)));
    ids
}

/// Best-first search by one score. Gives the ids of the `k` nearest of the visited nodes,
/// how many nodes were scored, and how many vectors were read for it: every score reads one.
/// Gives nothing where the search cannot be made.
pub fn guarded_search<N: NodeSource, F: Fn(&[u8]) -> u32>(
    nodes: &N,
    score: &F,
    k: usize,
    search_l: usize,
    num_points: usize,
) -> (result: Option<(Vec<u32>, u32, u32)>)
    requires
        nodes.sound(),
        is_scoring(*score, *nodes),
    ensures
        ({
            let space = SearchSpace::of(*nodes, *score, num_points as nat);
            let visited = space.visits(search_l as nat);
            match result {
                Some(found) => {
                    &&& can_search(*nodes, space, search_l as nat)
                    &&& found.0@ == space.nearest(visited, k as int)
                    &&& found.1 == space.comparisons(visited)
                    &&& found.2 == found.1
                },
                None => !can_search(*nodes, space, search_l as nat),
            }
        }),
{
    match try_beam_search(nodes, score, search_l, num_points) {
        None => None,
        Some((found, ops)) => {
            let sorted = sort_by_rank(found.as_slice());
            Some((first_ids(sorted.as_slice(), k), ops, ops))
        },
    }
}

/// As `guarded_search`, where the search can be made.
pub fn scored_search<N: NodeSource, F: Fn(&[u8]) -> u32>(
    nodes: &N,
    score: &F,
    k: usize,
    search_l: usize,
    num_points: usize,
) -> (result: (Vec<u32>, u32, u32))
    requires
        nodes.sound(),
        is_scoring(*score, *nodes),
        can_search(
            *nodes,
            SearchSpace::of(*nodes, *score, num_points as nat),
            search_l as nat,
        ),
    ensures
        ({
            let space = SearchSpace::of(*nodes, *score, num_points as nat);
            let visited = space.visits(search_l as nat);
            &&& result.0@ == space.nearest(visited, k as int)
            &&& result.1 == space.comparisons(visited)
            &&& result.2 == result.1
        }),
{
    guarded_search(nodes, score, k, search_l, num_points).unwrap()
}

/// What a search by codes hands to the rerank: the visited nodes that are nearest by their
/// codes, at most twice as many as are asked for.
pub open spec fn rerank_ids(space: SearchSpace, visited: Seq<u32>, k: int) -> Seq<u32> {
    space.nearest(visited, 2 * k)
}

/// Whether a search by codes with a rerank can be made: the search can be, the vectors of the
/// nodes that are ranked again can be read, and the count of scores does not overflow.
pub open spec fn can_split_search<C: NodeSource, N: NodeSource>(
    codes: C,
    nodes: N,
    space: SearchSpace,
    search_l: nat,
    k: int,
) -> bool {
    let visited = space.visits(search_l);
    let reranked = rerank_ids(space, visited, k);
    &&& reads_fit(codes, space, visited)
    &&& forall|i: int| 0 <= i < reranked.len() ==> nodes.has_payload(#[trigger] reranked[i])
    &&& space.comparisons(visited) + reranked.len() <= u32::MAX
}

/// Best-first search by a cheap score, with the best finds ranked again by the exact score.
///
/// Visits nodes by `code_score` over `codes`, takes the nearest `2 * k` of those visited, and
/// gives the `k` nearest of these by `score` over `nodes`. Gives also how many nodes were
/// scored in all, and how many of these scores read a full vector. Gives nothing where the
/// search cannot be made.
pub fn guarded_split_search<
    C: NodeSource,
    N: NodeSource,
    G: Fn(&[u8]) -> u32,
    F: Fn(&[u8]) -> u32,
>(
    codes: &C,
    code_score: &G,
    nodes: &N,
    score: &F,
    k: usize,
    search_l: usize,
    num_points: usize,
) -> (result: Option<(Vec<u32>, u32, u32)>)
    requires
        codes.sound(),
        nodes.sound(),
        is_scoring(*code_score, *codes),
        is_scoring(*score, *nodes),
    ensures
        ({
            let space = SearchSpace::of(*codes, *code_score, num_points as nat);
            let exact = SearchSpace::of(*nodes, *score, num_points as nat);
            let visited = space.visits(search_l as nat);
            let reranked = rerank_ids(space, visited, k as int);
            match result {
                Some(found) => {
                    &&& can_split_search(*codes, *nodes, space, search_l as nat, k as int)
                    &&& found.0@ == exact.nearest(reranked, k as int)
                    &&& found.1 == space.comparisons(visited) + reranked.len()
                    &&& found.2 == reranked.len()
                },
                None => !can_split_search(*codes, *nodes, space, search_l as nat, k as int),
            }
        }),
{
    let ghost space = SearchSpace::of(*codes, *code_score, num_points as nat);
    let ghost exact = SearchSpace::of(*nodes, *score, num_points as nat);
    let (found, code_ops) = match try_beam_search(codes, code_score, search_l, num_points) {
        Some(found) => found,
        None => return None,
    };
    let beam = sort_by_rank(found.as_slice());
    let total: usize = beam.len();
    let rerank: usize = if k < total && k < total - k {
        k + k
    } else {
        total
    };
    let ids = first_ids(beam.as_slice(), rerank);
    let ghost reranked = rerank_ids(space, space.visits(search_l as nat), k as int);
    assert(ids@ =~= reranked);
    if ids.len() > (u32::MAX - code_ops) as usize {
        return None;
    }
    let mut again: Vec<Candidate> = Vec::new();
    let mut i: usize = 0;
    while i < ids.len()
        invariant
            i <= ids@.len(),
            nodes.sound(),
            is_scoring(*score, *nodes),
            exact == SearchSpace::of(*nodes, *score, num_points as nat),
            ids@ == reranked,
            reranked == rerank_ids(space, space.visits(search_l as nat), k as int),
            space == SearchSpace::of(*codes, *code_score, num_points as nat),
            forall|j: int| 0 <= j < i ==> nodes.has_payload(#[trigger] reranked[j]),
            again@ == exact.candidates(ids@.take(i as int)),
        decreases ids@.len() - i,
    {
        let id: u32 = ids[i];
        assert(id == reranked[i as int]);
        if !nodes.payload_fits(id) {
            return None;
        }
        again.push(score_node(nodes, score, id));
        i += 1;
        assert(again@ =~= exact.candidates(ids@.take(i as int)));
    }
    assert(ids@.take(ids@.len() as int) =~= ids@);
    let full_ops: u32 = ids.len() as u32;
    let sorted = sort_by_rank(again.as_slice());
    Some((first_ids(sorted.as_slice(), k), code_ops + full_ops, full_ops))
}

/// As `guarded_split_search`, where the search can be made.
pub fn split_search<
    C: NodeSource,
    N: NodeSource,
    G: Fn(&[u8]) -> u32,
    F: Fn(&[u8]) -> u32,
>(
    codes: &C,
    code_score: &G,
    nodes: &N,
    score: &F,
    k: usize,
    search_l: usize,
    num_points: usize,
) -> (result: (Vec<u32>, u32, u32))
    requires
        codes.sound(),
        nodes.sound(),
        is_scoring(*code_score, *codes),
        is_scoring(*score, *nodes),
        can_split_search(
            *codes,
            *nodes,
            SearchSpace::of(*codes, *code_score, num_points as nat),
            search_l as nat,
            k as int,
        ),
    ensures
        ({
            let space = SearchSpace::of(*codes, *code_score, num_points as nat);
            let exact = SearchSpace::of(*nodes, *score, num_points as nat);
            let visited = space.visits(search_l as nat);
            let reranked = rerank_ids(space, visited, k as int);
            &&& result.0@ == exact.nearest(reranked, k as int)
            &&& result.1 == space.comparisons(visited) + reranked.len()
            &&& result.2 == reranked.len()
        }),
{
    guarded_split_search(codes, code_score, nodes, score, k, search_l, num_points).unwrap()
}

/// A search visits no node twice.
pub proof fn law_visits_are_distinct(space: SearchSpace, n: nat)
    ensures
        space.visits(n).no_duplicates(),
        space.visits(n).len() <= n,
    decreases n,
{
    if n > 0 {
        law_visits_are_distinct(space, (n - 1) as nat);
        let visited = space.visits((n - 1) as nat);
        if exists|id: u32| space.is_next(visited, id) {
            let id = choose|id: u32| space.is_next(visited, id);
            assert(!visited.contains(id));
            let after = visited.push(id);
            assert forall|i: int, j: int|
                0 <= i < after.len() && 0 <= j < after.len() && i != j implies after[i]
                != after[j] by {
                if i < visited.len() {
                    assert(visited.contains(visited[i]));
                }
                if j < visited.len() {
                    assert(visited.contains(visited[j]));
                }
            }
        }
    }
}

/// A search visits the start and nodes of the graph, nothing else.
pub proof fn law_visits_are_nodes(space: SearchSpace, n: nat)
    ensures
        forall|i: int|
            0 <= i < space.visits(n).len() ==> #[trigger] space.visits(n)[i] == 0
                || space.visits(n)[i] < space.num_points,
    decreases n,
{
    if n > 0 {
        law_visits_are_nodes(space, (n - 1) as nat);
        let visited = space.visits((n - 1) as nat);
        if exists|id: u32| space.is_next(visited, id) {
            let id = choose|id: u32| space.is_next(visited, id);
            assert(space.open_to(visited, id));
            assert forall|i: int| 0 <= i < space.visits(n).len() implies #[trigger] space.visits(
                n,
            )[i] == 0 || space.visits(n)[i] < space.num_points by {
                if i < visited.len() {
                    assert(space.visits(n)[i] == visited[i]);
                }
            }
        }
    }
}

/// Where a candidate is put in.
proof fn lemma_ranked_in_place(s: Seq<Candidate>, c: Candidate) -> (at: int)
    ensures
        0 <= at <= s.len(),
        at > 0 ==> s[at - 1].rank <= c.rank,
        forall|i: int| at <= i < s.len() ==> (#[trigger] s[i]).rank > c.rank,
        ranked_in(s, c) == s.insert(at, c),
    decreases s.len(),
{
    if s.len() == 0 || s.last().rank <= c.rank {
        assert(s.insert(s.len() as int, c) =~= s.push(c));
        s.len() as int
    } else {
        let at = lemma_ranked_in_place(s.drop_last(), c);
        assert(s.drop_last().insert(at, c).push(s.last()) =~= s.insert(at, c));
        assert forall|i: int| at <= i < s.len() implies (#[trigger] s[i]).rank > c.rank by {
            if i < s.len() - 1 {
                assert(s.drop_last()[i].rank > c.rank);
            }
        }
        at
    }
}

/// Ranks never fall along a sequence.
pub open spec fn ranks_ascend(s: Seq<Candidate>) -> bool {
    forall|i: int, j: int| 0 <= i <= j < s.len() ==> (#[trigger] s[i]).rank <= (#[trigger] s[j]).rank
}

/// Sorting by rank gives ascending ranks, and keeps the candidates.
pub proof fn law_by_rank_sorts(s: Seq<Candidate>)
    ensures
        ranks_ascend(by_rank(s)),
        forall|i: int, j: int|
            0 <= i <= j < by_rank(s).len() ==> (#[trigger] by_rank(s)[i]).rank <= (
            #[trigger] by_rank(s)[j]).rank,
        by_rank(s).to_multiset() == s.to_multiset(),
        by_rank(s).len() == s.len(),
    decreases s.len(),
{
    broadcast use vstd::seq_lib::group_to_multiset_ensures;

    if s.len() > 0 {
        let rest = s.drop_last();
        let c = s.last();
        law_by_rank_sorts(rest);
        let sorted = by_rank(rest);
        let at = lemma_ranked_in_place(sorted, c);
        vstd::seq_lib::to_multiset_insert(sorted, at, c);
        assert(s =~= rest.push(c));
        assert forall|i: int, j: int| 0 <= i <= j < by_rank(s).len() implies (#[trigger] by_rank(
            s,
        )[i]).rank <= (#[trigger] by_rank(s)[j]).rank by {
            if i < at && at > 0 {
                assert(sorted[i].rank <= sorted[at - 1].rank);
            }
        }
    }
}

/// Where no element is wanted, none is kept.
proof fn lemma_filter_none<A>(s: Seq<A>, wanted: spec_fn(A) -> bool)
    requires
        forall|i: int| 0 <= i < s.len() ==> !wanted(#[trigger] s[i]),
    ensures
        s.filter(wanted) == Seq::<A>::empty(),
    decreases s.len(),
{
    reveal(Seq::filter);
    if s.len() > 0 {
        lemma_filter_none(s.drop_last(), wanted);
    }
}

/// Sorting by rank keeps the order among candidates of one rank.
pub proof fn law_by_rank_is_stable(s: Seq<Candidate>, rank: u32)
    ensures
        by_rank(s).filter(|c: Candidate| c.rank == rank) == s.filter(
            |c: Candidate| c.rank == rank,
        ),
    decreases s.len(),
{
    let same = |c: Candidate| c.rank == rank;
    if s.len() > 0 {
        let rest = s.drop_last();
        let c = s.last();
        law_by_rank_is_stable(rest, rank);
        let sorted = by_rank(rest);
        let at = lemma_ranked_in_place(sorted, c);
        let front = sorted.take(at);
        let back = sorted.skip(at);
        assert(sorted =~= front + back);
        assert(sorted.insert(at, c) =~= front + (seq![c] + back));
        assert(s =~= rest + seq![c]);
        Seq::filter_distributes_over_add(front, back, same);
        Seq::filter_distributes_over_add(front, seq![c] + back, same);
        Seq::filter_distributes_over_add(seq![c], back, same);
        Seq::filter_distributes_over_add(rest, seq![c], same);
        if c.rank == rank {
            lemma_filter_none(back, same);
        } else {
            lemma_filter_none(seq![c], same);
        }
        assert(by_rank(s).filter(same) =~= s.filter(same));
    }
}

/// A search gives as many nodes as are asked for, or all that it visited where they are fewer,
/// and gives no node that it has not visited.
pub proof fn law_nearest_are_visited(space: SearchSpace, visited: Seq<u32>, k: int)
    requires
        k >= 0,
    ensures
        space.nearest(visited, k).len() == smaller(k, visited.len() as int),
        forall|i: int|
            0 <= i < space.nearest(visited, k).len() ==> visited.contains(
                #[trigger] space.nearest(visited, k)[i],
            ),
{
    broadcast use vstd::seq_lib::group_to_multiset_ensures;

    let all = space.candidates(visited);
    let sorted = by_rank(all);
    law_by_rank_sorts(all);
    assert forall|i: int| 0 <= i < space.nearest(visited, k).len() implies visited.contains(
        #[trigger] space.nearest(visited, k)[i],
    ) by {
        assert(sorted.contains(sorted[i]));
        assert(all.to_multiset().count(sorted[i]) > 0);
        let j = choose|j: int| 0 <= j < all.len() && all[j] == sorted[i];
        assert(visited[j] == space.nearest(visited, k)[i]);
    }
}

/// A search gives its nodes nearest first, and no node that it visited and does not give is
/// nearer than one that it gives.
pub proof fn law_nearest_are_nearest(space: SearchSpace, visited: Seq<u32>, k: int)
    requires
        k >= 0,
    ensures
        forall|i: int, j: int|
            0 <= i <= j < space.nearest(visited, k).len() ==> (space.rank)(
                #[trigger] space.nearest(visited, k)[i],
            ) <= (space.rank)(#[trigger] space.nearest(visited, k)[j]),
        forall|id: u32, i: int|
            visited.contains(id) && !space.nearest(visited, k).contains(id) && 0 <= i
                < space.nearest(visited, k).len() ==> (space.rank)(
                #[trigger] space.nearest(visited, k)[i],
            ) <= #[trigger] (space.rank)(id),
{
    broadcast use vstd::seq_lib::group_to_multiset_ensures;

    let all = space.candidates(visited);
    let sorted = by_rank(all);
    let near = space.nearest(visited, k);
    law_by_rank_sorts(all);
    lemma_sorted_are_candidates(space, visited);
    assert forall|i: int, j: int| 0 <= i <= j < near.len() implies (space.rank)(
        #[trigger] near[i],
    ) <= (space.rank)(#[trigger] near[j]) by {
        assert(sorted[i].rank <= sorted[j].rank);
    }
    assert forall|id: u32, i: int|
        visited.contains(id) && !near.contains(id) && 0 <= i < near.len() implies (space.rank)(
        #[trigger] near[i],
    ) <= #[trigger] (space.rank)(id) by {
        let p = choose|p: int| 0 <= p < visited.len() && visited[p] == id;
        assert(all[p] == space.candidate(id));
        assert(all.contains(space.candidate(id)));
        assert(sorted.to_multiset().count(space.candidate(id)) > 0);
        let q = choose|q: int| 0 <= q < sorted.len() && sorted[q] == space.candidate(id);
        if q < near.len() {
            assert(near[q] == id);
        }
        assert(sorted[i].rank <= sorted[q].rank);
    }
}

/// Sorted candidates carry the ranks of their ids.
proof fn lemma_sorted_are_candidates(space: SearchSpace, visited: Seq<u32>)
    ensures
        forall|i: int|
            0 <= i < by_rank(space.candidates(visited)).len() ==> #[trigger] by_rank(
                space.candidates(visited),
            )[i] == space.candidate(by_rank(space.candidates(visited))[i].id),
{
    broadcast use vstd::seq_lib::group_to_multiset_ensures;

    let all = space.candidates(visited);
    let sorted = by_rank(all);
    law_by_rank_sorts(all);
    assert forall|i: int| 0 <= i < sorted.len() implies #[trigger] sorted[i] == space.candidate(
        sorted[i].id,
    ) by {
        assert(sorted.contains(sorted[i]));
        assert(all.to_multiset().count(sorted[i]) > 0);
        let j = choose|j: int| 0 <= j < all.len() && all[j] == sorted[i];
    }
}

/// A search gives no node twice.
pub proof fn law_nearest_are_distinct(space: SearchSpace, visited: Seq<u32>, k: int)
    requires
        k >= 0,
        visited.no_duplicates(),
    ensures
        space.nearest(visited, k).no_duplicates(),
{
    let all = space.candidates(visited);
    let sorted = by_rank(all);
    let near = space.nearest(visited, k);
    law_by_rank_sorts(all);
    lemma_sorted_are_candidates(space, visited);
    assert(all.no_duplicates()) by {
        assert forall|i: int, j: int| 0 <= i < all.len() && 0 <= j < all.len() && i != j implies
            all[i] != all[j] by {
            assert(all[i].id == visited[i] && all[j].id == visited[j]);
        }
    }
    all.lemma_multiset_has_no_duplicates();
    sorted.lemma_multiset_has_no_duplicates_conv();
    assert forall|i: int, j: int| 0 <= i < near.len() && 0 <= j < near.len() && i != j implies
        near[i] != near[j] by {
        assert(sorted[i] != sorted[j]);
    }
}

/// The first visits do not depend on how many are allowed: a wider search starts with the
/// visits of a narrower one.
pub proof fn law_wider_search_extends(space: SearchSpace, n: nat, m: nat)
    requires
        n <= m,
    ensures
        space.visits(n).is_prefix_of(space.visits(m)),
    decreases m - n,
{
    if n < m {
        law_wider_search_extends(space, n, (m - 1) as nat);
        let before = space.visits((m - 1) as nat);
        assert(before.is_prefix_of(space.visits(m)));
        assert(space.visits(n) =~= space.visits(m).subrange(0, space.visits(n).len() as int));
    }
}

/// A search that may visit at least one node starts at node 0, and every later visit goes to a
/// neighbor of an earlier one.
pub proof fn law_visits_follow_the_graph(space: SearchSpace, n: nat)
    requires
        n > 0,
    ensures
        space.visits(n).len() > 0,
        space.visits(n)[0] == 0,
        forall|i: int|
            0 < i < space.visits(n).len() ==> exists|j: int|
                0 <= j < i && (space.adjacent)(#[trigger] space.visits(n)[j]).contains(
                    #[trigger] space.visits(n)[i],
                ),
    decreases n,
{
    let before = space.visits((n - 1) as nat);
    if n == 1 {
        assert(space.open_to(before, 0));
        assert forall|other: u32| #[trigger] space.open_to(before, other) implies other == 0 by {}
        assert(space.is_next(before, 0));
        lemma_next_is_unique(space, before, 0);
    } else {
        law_visits_follow_the_graph(space, (n - 1) as nat);
        let after = space.visits(n);
        assert forall|i: int| 0 < i < after.len() implies exists|j: int|
            0 <= j < i && (space.adjacent)(#[trigger] after[j]).contains(#[trigger] after[i]) by {
            if i < before.len() {
                assert(after[i] == before[i]);
                let j = choose|j: int|
                    0 <= j < i && (space.adjacent)(#[trigger] before[j]).contains(before[i]);
                assert(after[j] == before[j]);
            } else {
                let id = choose|id: u32| space.is_next(before, id);
                assert(space.open_to(before, id));
                assert(after[i] == id);
                assert(before.contains(before[0]));
                let j = choose|j: int|
                    0 <= j < before.len() && (space.adjacent)(#[trigger] before[j]).contains(id);
                assert(after[j] == before[j]);
            }
        }
    }
}

/// A search that ends before it has made all its visits has visited everything in reach: each
/// neighbor of a visited node is visited, or is no node.
pub proof fn law_early_end_is_exhaustive(space: SearchSpace, n: nat)
    requires
        space.visits(n).len() < n,
    ensures
        forall|i: int, id: u32|
            0 <= i < space.visits(n).len() && (space.adjacent)(
                #[trigger] space.visits(n)[i],
            ).contains(id) && id < space.num_points ==> #[trigger] space.visits(n).contains(id),
    decreases n,
{
    let before = space.visits((n - 1) as nat);
    law_visits_are_distinct(space, (n - 1) as nat);
    if before.len() < n - 1 {
        law_early_end_is_exhaustive(space, (n - 1) as nat);
        if exists|id: u32| space.is_next(before, id) {
            let id = choose|id: u32| space.is_next(before, id);
            assert(space.open_to(before, id));
            if id == 0 {
                law_visits_follow_the_graph(space, (n - 1) as nat);
                assert(before[0] == 0);
            }
            assert(false);
        }
    } else {
        if exists|id: u32| space.open_to(before, id) {
            lemma_some_next(space, before);
            assert(false);
        }
        let now = space.visits(n);
        assert forall|i: int, id: u32|
            0 <= i < now.len() && (space.adjacent)(#[trigger] now[i]).contains(id) && id
                < space.num_points implies #[trigger] now.contains(id) by {
            assert(!space.open_to(before, id));
        }
    }
}

/// Where some node is open, one of them is next.
proof fn lemma_some_next(space: SearchSpace, visited: Seq<u32>)
    requires
        exists|id: u32| space.open_to(visited, id),
    ensures
        exists|id: u32| space.is_next(visited, id),
{
    let id = choose|id: u32| space.open_to(visited, id);
    lemma_some_next_below(space, visited, id);
}

/// From an open node, a node that is next is found by going to nearer ones.
proof fn lemma_some_next_below(space: SearchSpace, visited: Seq<u32>, id: u32)
    requires
        space.open_to(visited, id),
    ensures
        exists|next: u32| space.is_next(visited, next),
    decreases space.candidate(id).key(),
{
    if !space.is_next(visited, id) {
        let nearer = choose|other: u32| #[trigger]
            space.open_to(visited, other) && space.candidate(other).key() < space.candidate(
                id,
            ).key();
        lemma_some_next_below(space, visited, nearer);
    }
}

/// A search scores at most the start and, for each visit, as many nodes as a node can have
/// neighbors.
pub proof fn law_comparisons_are_bounded(space: SearchSpace, n: nat, max_degree: nat)
    requires
        forall|id: u32| (#[trigger] (space.adjacent)(id)).len() <= max_degree,
    ensures
        space.comparisons(space.visits(n)) <= 1 + space.visits(n).len() * max_degree,
    decreases n,
{
    if n > 0 {
        law_comparisons_are_bounded(space, (n - 1) as nat, max_degree);
        let before = space.visits((n - 1) as nat);
        let after = space.visits(n);
        if exists|id: u32| space.is_next(before, id) {
            assert(after.drop_last() =~= before);
            assert(before.len() * max_degree + max_degree == after.len() * max_degree)
                by (nonlinear_arith)
                requires
                    after.len() == before.len() + 1,
            ;
            let neighbors = (space.adjacent)(after.last());
            lemma_scored_count_grows(neighbors, after, space.num_points, 0);
        }
    }
}

/// However many visits are allowed, a search makes no more than there are points, but always
/// the one to the start.
pub proof fn law_visits_are_bounded_by_points(space: SearchSpace, n: nat)
    ensures
        space.visits(n).len() <= if space.num_points >= 1 {
            space.num_points
        } else {
            1
        },
{
    let visited = space.visits(n);
    let limit = if space.num_points >= 1 {
        space.num_points as int
    } else {
        1
    };
    law_visits_are_distinct(space, n);
    law_visits_are_nodes(space, n);
    let places = Seq::new(visited.len(), |i: int| visited[i] as int);
    assert forall|i: int, j: int|
        0 <= i < places.len() && 0 <= j < places.len() && i != j implies places[i] != places[j] by {
        assert(visited[i] != visited[j]);
    }
    places.unique_seq_to_set();
    vstd::set_lib::lemma_int_range(0, limit);
    let range = vstd::set_lib::set_int_range(0, limit);
    assert forall|p: int| #[trigger] places.to_set().contains(p) implies range.contains(p) by {
        let i = choose|i: int| 0 <= i < places.len() && places[i] == p;
        assert(space.visits(n)[i] == visited[i]);
    }
    vstd::set_lib::lemma_len_subset(places.to_set(), range);
}

/// Whether two spaces agree on every node that a search can come to.
pub open spec fn spaces_agree(a: SearchSpace, b: SearchSpace) -> bool {
    &&& a.num_points == b.num_points
    &&& forall|id: u32| id == 0 || id < a.num_points ==> #[trigger] same_node(a, b, id)
}

/// Whether two spaces agree on a node.
pub open spec fn same_node(a: SearchSpace, b: SearchSpace, id: u32) -> bool {
    &&& (a.adjacent)(id) == (b.adjacent)(id)
    &&& (a.rank)(id) == (b.rank)(id)
}

/// A search depends on nothing but the neighbors and the ranks of nodes: spaces that agree on
/// these give the same visits, the same counts and the same results, wherever the nodes stand.
pub proof fn law_search_is_determined(a: SearchSpace, b: SearchSpace, n: nat, k: int)
    requires
        spaces_agree(a, b),
    ensures
        a.visits(n) == b.visits(n),
        a.comparisons(a.visits(n)) == b.comparisons(b.visits(n)),
        a.nearest(a.visits(n), k) == b.nearest(b.visits(n), k),
{
    lemma_same_visits(a, b, n);
    law_visits_are_nodes(a, n);
    lemma_same_comparisons(a, b, a.visits(n));
    let visited = a.visits(n);
    assert forall|i: int| 0 <= i < visited.len() implies a.candidate(#[trigger] visited[i])
        == b.candidate(visited[i]) by {
        assert(a.visits(n)[i] == visited[i]);
        assert(same_node(a, b, visited[i]));
    }
    assert(a.candidates(visited) =~= b.candidates(visited));
}

/// Spaces that agree give the same visits.
proof fn lemma_same_visits(a: SearchSpace, b: SearchSpace, n: nat)
    requires
        spaces_agree(a, b),
    ensures
        a.visits(n) == b.visits(n),
    decreases n,
{
    if n > 0 {
        lemma_same_visits(a, b, (n - 1) as nat);
        law_visits_are_nodes(a, (n - 1) as nat);
        let visited = a.visits((n - 1) as nat);
        assert forall|id: u32| #[trigger] a.open_to(visited, id) == b.open_to(visited, id) by {
            assert forall|i: int| 0 <= i < visited.len() implies (a.adjacent)(
                #[trigger] visited[i],
            ) == (b.adjacent)(visited[i]) by {
                assert(a.visits((n - 1) as nat)[i] == visited[i]);
                assert(same_node(a, b, visited[i]));
            }
        }
        assert forall|id: u32| a.open_to(visited, id) implies #[trigger] a.candidate(id)
            == b.candidate(id) by {
            assert(same_node(a, b, id));
        }
        assert forall|id: u32| #[trigger] a.is_next(visited, id) == b.is_next(visited, id) by {
            assert(a.open_to(visited, id) == b.open_to(visited, id));
            if a.open_to(visited, id) {
                assert(a.candidate(id) == b.candidate(id));
            }
            assert forall|other: u32| a.open_to(visited, other) implies a.candidate(other)
                == b.candidate(other) && #[trigger] b.open_to(visited, other) by {
                assert(a.open_to(visited, other) == b.open_to(visited, other));
            }
            assert forall|other: u32| b.open_to(visited, other) implies b.candidate(other)
                == a.candidate(other) && #[trigger] a.open_to(visited, other) by {
                assert(a.open_to(visited, other) == b.open_to(visited, other));
            }
        }
        if exists|id: u32| a.is_next(visited, id) {
            let id = choose|id: u32| a.is_next(visited, id);
            assert(b.is_next(visited, id));
            lemma_next_is_unique(a, visited, id);
            lemma_next_is_unique(b, visited, id);
        } else if exists|id: u32| b.is_next(visited, id) {
            let id = choose|id: u32| b.is_next(visited, id);
            assert(a.is_next(visited, id));
        }
    }
}

/// Spaces that agree score as many nodes on the same way.
proof fn lemma_same_comparisons(a: SearchSpace, b: SearchSpace, visited: Seq<u32>)
    requires
        spaces_agree(a, b),
        forall|i: int|
            0 <= i < visited.len() ==> #[trigger] visited[i] == 0 || visited[i] < a.num_points,
    ensures
        a.comparisons(visited) == b.comparisons(visited),
    decreases visited.len(),
{
    if visited.len() > 0 {
        let front = visited.drop_last();
        assert forall|i: int| 0 <= i < front.len() implies #[trigger] front[i] == 0 || front[i]
            < a.num_points by {
            assert(front[i] == visited[i]);
        }
        lemma_same_comparisons(a, b, front);
        let last = visited[visited.len() - 1];
        assert(same_node(a, b, last));
    }
}

/// The neighbors that are scored, as a set.
spec fn scored_set(neighbors: Seq<u32>, visited: Seq<u32>, num_points: nat) -> Set<u32>
    decreases neighbors.len(),
{
    if neighbors.len() == 0 {
        Set::empty()
    } else {
        let before = scored_set(neighbors.drop_last(), visited, num_points);
        if neighbors.last() < num_points && !visited.contains(neighbors.last()) {
            before.insert(neighbors.last())
        } else {
            before
        }
    }
}

/// There are no more scored neighbors than scores.
proof fn lemma_scored_set(neighbors: Seq<u32>, visited: Seq<u32>, num_points: nat)
    ensures
        scored_set(neighbors, visited, num_points).finite(),
        scored_set(neighbors, visited, num_points).len() <= scored_count(
            neighbors,
            visited,
            num_points,
        ),
        forall|id: u32| #[trigger]
            scored_set(neighbors, visited, num_points).contains(id) <==> id < num_points
                && !visited.contains(id) && neighbors.contains(id),
    decreases neighbors.len(),
{
    if neighbors.len() > 0 {
        let front = neighbors.drop_last();
        lemma_scored_set(front, visited, num_points);
        assert forall|id: u32| #[trigger]
            scored_set(neighbors, visited, num_points).contains(id) <==> id < num_points
                && !visited.contains(id) && neighbors.contains(id) by {
            assert(neighbors.contains(id) <==> front.contains(id) || id == neighbors.last()) by {
                if front.contains(id) {
                    let i = choose|i: int| 0 <= i < front.len() && front[i] == id;
                    assert(neighbors[i] == id);
                }
                if id == neighbors.last() {
                    assert(neighbors[neighbors.len() - 1] == id);
                }
                if neighbors.contains(id) && id != neighbors.last() {
                    let i = choose|i: int| 0 <= i < neighbors.len() && neighbors[i] == id;
                    assert(front[i] == id);
                }
            }
        }
    }
}

/// The open nodes, as a set.
spec fn open_set(space: SearchSpace, visited: Seq<u32>) -> Set<u32> {
    Set::new(|id: u32| space.open_to(visited, id))
}

/// Each visited node and each open one was scored.
proof fn lemma_scores_cover(space: SearchSpace, n: nat)
    ensures
        open_set(space, space.visits(n)).finite(),
        space.visits(n).len() + open_set(space, space.visits(n)).len() <= space.comparisons(
            space.visits(n),
        ),
    decreases n,
{
    if n == 0 {
        assert(open_set(space, space.visits(0)) =~= Set::<u32>::empty().insert(0));
    } else {
        lemma_scores_cover(space, (n - 1) as nat);
        let before = space.visits((n - 1) as nat);
        if exists|id: u32| space.is_next(before, id) {
            let at = choose|id: u32| space.is_next(before, id);
            let after = space.visits(n);
            let neighbors = (space.adjacent)(at);
            assert(space.open_to(before, at));
            assert(after == before.push(at));
            assert(after.drop_last() =~= before);
            lemma_scored_set(neighbors, after, space.num_points);
            let left = open_set(space, before).remove(at);
            let fresh = scored_set(neighbors, after, space.num_points);
            assert forall|id: u32| open_set(space, after).contains(id) <==> left.union(
                fresh,
            ).contains(id) by {
                lemma_open_after_visit(space, before, at, id);
            }
            assert(open_set(space, after) =~= left.union(fresh));
            vstd::set_lib::lemma_len_union(left, fresh);
            assert(open_set(space, before).contains(at));
        }
    }
}

/// A search scores every node that it visits, so it makes at least as many comparisons as
/// visits.
pub proof fn law_visited_nodes_are_scored(space: SearchSpace, n: nat)
    ensures
        space.visits(n).len() <= space.comparisons(space.visits(n)),
{
    lemma_scores_cover(space, n);
}

/// Where every node below `num_points`, and the start, can be read, so can all that a search
/// reads.
pub proof fn law_whole_graph_is_enough<N: NodeSource>(nodes: N, space: SearchSpace, n: nat)
    requires
        nodes.has_payload(0),
        nodes.has_list(0),
        forall|id: u32|
            id < space.num_points ==> #[trigger] nodes.has_payload(id) && nodes.has_list(id),
    ensures
        reads_fit(nodes, space, space.visits(n)),
{
    law_visits_are_nodes(space, n);
    let visited = space.visits(n);
    assert forall|i: int| 0 <= i < visited.len() implies nodes.has_list(#[trigger] visited[i]) by {
        assert(space.visits(n)[i] == visited[i]);
        assert(nodes.has_payload(visited[i]));
    }
}

/// Each visit goes to a nearest node: of the start and the points next to those visited
/// before, none that is not visited yet has a smaller rank, nor the same rank and a smaller id.
pub proof fn law_visits_go_to_the_nearest(space: SearchSpace, n: nat, i: int, id: u32)
    requires
        0 <= i < space.visits(n).len(),
        !space.visits(n).take(i).contains(id),
        id == 0 || (id < space.num_points && exists|j: int|
            0 <= j < i && (space.adjacent)(#[trigger] space.visits(n)[j]).contains(id)),
    ensures
        (space.rank)(space.visits(n)[i]) <= (space.rank)(id),
        (space.rank)(space.visits(n)[i]) == (space.rank)(id) ==> space.visits(n)[i] <= id,
    decreases n,
{
    let before = space.visits((n - 1) as nat);
    let after = space.visits(n);
    if i < before.len() {
        assert(before.take(i) =~= after.take(i));
        assert(before[i] == after[i]);
        if id != 0 {
            let j = choose|j: int|
                0 <= j < i && (space.adjacent)(#[trigger] space.visits(n)[j]).contains(id);
            assert((space.adjacent)(before[j]).contains(id));
        }
        law_visits_go_to_the_nearest(space, (n - 1) as nat, i, id);
    } else {
        let at = choose|at: u32| space.is_next(before, at);
        assert(after == before.push(at));
        assert(after.take(i) =~= before);
        if id != 0 {
            let j = choose|j: int|
                0 <= j < i && (space.adjacent)(#[trigger] space.visits(n)[j]).contains(id);
            assert((space.adjacent)(before[j]).contains(id));
        }
        assert(space.open_to(before, id));
        assert(space.candidate(at).key() <= space.candidate(id).key());
        assert((space.rank)(at) * 0x1_0000_0000 + at <= (space.rank)(id) * 0x1_0000_0000 + id);
    }
}

/// A search goes on until it has made all its visits or nothing is left to visit: with fewer
/// visits, the start and every point next to a visited node are visited.
pub proof fn law_searches_go_on_to_the_end(space: SearchSpace, n: nat, id: u32)
    requires
        space.visits(n).len() != n,
        id == 0 || (id < space.num_points && exists|j: int|
            0 <= j < space.visits(n).len() && (space.adjacent)(
                #[trigger] space.visits(n)[j],
            ).contains(id)),
    ensures
        space.visits(n).len() < n,
        space.visits(n).contains(id),
{
    law_visits_are_distinct(space, n);
    if id == 0 {
        law_visits_follow_the_graph(space, n);
        assert(space.visits(n)[0] == 0);
    } else {
        law_early_end_is_exhaustive(space, n);
        let j = choose|j: int|
            0 <= j < space.visits(n).len() && (space.adjacent)(
                #[trigger] space.visits(n)[j],
            ).contains(id);
        assert(space.visits(n).contains(id));
    }
}

/// Scores are counted one by one: one for the start, and with each visit one for every
/// neighbor, as often as it is listed, that is a point and not visited by then.
pub proof fn law_comparisons_count_each_score(space: SearchSpace, visited: Seq<u32>, at: u32)
    ensures
        space.comparisons(Seq::empty()) == 1,
        space.comparisons(visited.push(at)) == space.comparisons(visited) + (space.adjacent)(
            at,
        ).filter(|nb: u32| nb < space.num_points && !visited.contains(nb) && nb != at).len(),
{
    let after = visited.push(at);
    assert(after.drop_last() =~= visited);
    let neighbors = (space.adjacent)(at);
    let wanted = |nb: u32| nb < space.num_points && !visited.contains(nb) && nb != at;
    assert forall|nb: u32| #[trigger] after.contains(nb) <==> visited.contains(nb) || nb == at by {
        if visited.contains(nb) {
            let i = choose|i: int| 0 <= i < visited.len() && visited[i] == nb;
            assert(after[i] == nb);
        }
        if nb == at {
            assert(after[visited.len() as int] == nb);
        }
    }
    lemma_count_is_filter(neighbors, after, space.num_points, wanted);
}

/// Counting the neighbors to score is counting those that are wanted.
proof fn lemma_count_is_filter(
    neighbors: Seq<u32>,
    visited: Seq<u32>,
    num_points: nat,
    wanted: spec_fn(u32) -> bool,
)
    requires
        forall|nb: u32| #[trigger] wanted(nb) <==> nb < num_points && !visited.contains(nb),
    ensures
        scored_count(neighbors, visited, num_points) == neighbors.filter(wanted).len(),
    decreases neighbors.len(),
{
    reveal(Seq::filter);
    if neighbors.len() > 0 {
        lemma_count_is_filter(neighbors.drop_last(), visited, num_points, wanted);
        assert(wanted(neighbors.last()) <==> neighbors.last() < num_points && !visited.contains(
            neighbors.last(),
        ));
    }
}

/// A search runs over the graph of its source: the neighbors of a node are those of the
/// source, its rank is what the score gives for its bytes, and the points are those given.
pub proof fn law_spaces_are_of_their_source<N: NodeSource, F: Fn(&[u8]) -> u32>(
    nodes: N,
    score: F,
    num_points: nat,
    id: u32,
    bytes: &[u8],
    rank: u32,
)
    ensures
        SearchSpace::of(nodes, score, num_points).num_points == num_points,
        (SearchSpace::of(nodes, score, num_points).adjacent)(id) == nodes.adjacency(id),
        is_scoring(score, nodes) && bytes@ == nodes.payload(id) && score.ensures((bytes,), rank)
            ==> (SearchSpace::of(nodes, score, num_points).rank)(id) == rank,
{
    if is_scoring(score, nodes) && bytes@ == nodes.payload(id) && score.ensures((bytes,), rank) {
        assert(gives(score, bytes@, rank));
        let chosen = score_of(score, bytes@);
        assert(gives(score, bytes@, chosen));
        let b = choose|b: &[u8]| b@ == bytes@ && #[trigger] score.ensures((b,), chosen);
        assert(score.ensures((b,), chosen));
    }
}

/// A search gives the nearest of the nodes it visited: as many as are asked for, or all where
/// they are fewer; all of them visited; nearest first; and none that is left out is nearer than
/// one that is given.
pub proof fn law_results_are_the_nearest(space: SearchSpace, visited: Seq<u32>, k: int)
    requires
        k >= 0,
    ensures
        k <= visited.len() ==> space.nearest(visited, k).len() == k,
        k > visited.len() ==> space.nearest(visited, k).len() == visited.len(),
        forall|i: int|
            0 <= i < space.nearest(visited, k).len() ==> visited.contains(
                #[trigger] space.nearest(visited, k)[i],
            ),
        forall|i: int, j: int|
            0 <= i <= j < space.nearest(visited, k).len() ==> (space.rank)(
                #[trigger] space.nearest(visited, k)[i],
            ) <= (space.rank)(#[trigger] space.nearest(visited, k)[j]),
        forall|id: u32, i: int|
            visited.contains(id) && !space.nearest(visited, k).contains(id) && 0 <= i
                < space.nearest(visited, k).len() ==> (space.rank)(
                #[trigger] space.nearest(visited, k)[i],
            ) <= #[trigger] (space.rank)(id),
{
    law_nearest_are_visited(space, visited, k);
    law_nearest_are_nearest(space, visited, k);
}

/// Of nodes that are equally near, those visited earlier are given first: where two results have
/// one rank, the first was visited before the second, and one that is left out after both.
pub proof fn law_ties_go_to_the_earlier_visit(
    space: SearchSpace,
    visited: Seq<u32>,
    k: int,
    p: int,
    q: int,
)
    requires
        k >= 0,
        visited.no_duplicates(),
        0 <= p < q < visited.len(),
        (space.rank)(visited[p]) == (space.rank)(visited[q]),
    ensures
        space.nearest(visited, k).contains(visited[q]) ==> space.nearest(visited, k).contains(
            visited[p],
        ),
        forall|i: int, j: int|
            0 <= i < space.nearest(visited, k).len() && 0 <= j < space.nearest(visited, k).len()
                && #[trigger] space.nearest(visited, k)[i] == visited[p]
                && #[trigger] space.nearest(visited, k)[j] == visited[q] ==> i < j,
{
    let all = space.candidates(visited);
    let sorted = by_rank(all);
    let near = space.nearest(visited, k);
    assert forall|i: int, j: int| 0 <= i < all.len() && 0 <= j < all.len() && i != j implies all[i]
        != all[j] by {
        assert(all[i].id == visited[i] && all[j].id == visited[j]);
    }
    law_by_rank_sorts(all);
    let (a, b) = lemma_stable_places(all, p, q);
    lemma_sorted_are_candidates(space, visited);
    law_nearest_are_distinct(space, visited, visited.len() as int);
    let whole = space.nearest(visited, visited.len() as int);
    assert(whole.len() == visited.len());
    assert(whole[a] == visited[p] && whole[b] == visited[q]);
    assert forall|i: int| 0 <= i < near.len() implies #[trigger] near[i] == whole[i] by {}
    if near.contains(visited[q]) {
        let j = choose|j: int| 0 <= j < near.len() && near[j] == visited[q];
        assert(whole[j] == whole[b]);
        assert(near[a] == visited[p]);
    }
    assert forall|i: int, j: int|
        0 <= i < near.len() && 0 <= j < near.len() && #[trigger] near[i] == visited[p]
            && #[trigger] near[j] == visited[q] implies i < j by {
        assert(whole[i] == whole[a] && whole[j] == whole[b]);
    }
}

/// Where two candidates of one rank come to stand: in their order.
proof fn lemma_stable_places(s: Seq<Candidate>, p: int, q: int) -> (places: (int, int))
    requires
        0 <= p < q < s.len(),
        s[p].rank == s[q].rank,
    ensures
        0 <= places.0 < places.1 < by_rank(s).len(),
        by_rank(s)[places.0] == s[p],
        by_rank(s)[places.1] == s[q],
    decreases s.len(),
{
    let rest = s.drop_last();
    let c = s.last();
    law_by_rank_sorts(rest);
    let sorted = by_rank(rest);
    let at = lemma_ranked_in_place(sorted, c);
    if q < rest.len() {
        let (a, b) = lemma_stable_places(rest, p, q);
        let a2 = if a < at {
            a
        } else {
            a + 1
        };
        let b2 = if b < at {
            b
        } else {
            b + 1
        };
        assert(by_rank(s)[a2] == s[p] && by_rank(s)[b2] == s[q]);
        (a2, b2)
    } else {
        broadcast use vstd::seq_lib::group_to_multiset_ensures;

        assert(rest[p] == s[p]);
        assert(rest.contains(s[p]));
        assert(sorted.to_multiset().count(s[p]) > 0);
        let a = choose|a: int| 0 <= a < sorted.len() && sorted[a] == s[p];
        assert(a < at);
        assert(by_rank(s)[a] == s[p] && by_rank(s)[at] == c);
        (a, at)
    }
}

/// A split search ranks again twice as many nodes as are asked for, or all that were visited
/// where they are fewer: all of them visited, none twice, and none that is left out is nearer by
/// its code than one of them.
pub proof fn law_rerank_takes_the_nearest_by_code(space: SearchSpace, visited: Seq<u32>, k: int)
    requires
        k >= 0,
    ensures
        2 * k <= visited.len() ==> rerank_ids(space, visited, k).len() == 2 * k,
        2 * k > visited.len() ==> rerank_ids(space, visited, k).len() == visited.len(),
        visited.no_duplicates() ==> rerank_ids(space, visited, k).no_duplicates(),
        forall|i: int|
            0 <= i < rerank_ids(space, visited, k).len() ==> visited.contains(
                #[trigger] rerank_ids(space, visited, k)[i],
            ),
        forall|i: int, j: int|
            0 <= i <= j < rerank_ids(space, visited, k).len() ==> (space.rank)(
                #[trigger] rerank_ids(space, visited, k)[i],
            ) <= (space.rank)(#[trigger] rerank_ids(space, visited, k)[j]),
        forall|id: u32, i: int|
            visited.contains(id) && !rerank_ids(space, visited, k).contains(id) && 0 <= i
                < rerank_ids(space, visited, k).len() ==> (space.rank)(
                #[trigger] rerank_ids(space, visited, k)[i],
            ) <= #[trigger] (space.rank)(id),
{
    law_nearest_are_visited(space, visited, 2 * k);
    law_nearest_are_nearest(space, visited, 2 * k);
    if visited.no_duplicates() {
        law_nearest_are_distinct(space, visited, 2 * k);
    }
}

/// What a search needs to read, from its visits alone: the payload of the start and of every
/// point next to a visited node, and the list of every visited node.
pub proof fn law_searches_read_what_they_visit<N: NodeSource>(
    nodes: N,
    space: SearchSpace,
    visited: Seq<u32>,
)
    ensures
        reads_fit(nodes, space, visited) <==> {
            &&& nodes.has_payload(0)
            &&& forall|i: int| 0 <= i < visited.len() ==> nodes.has_list(#[trigger] visited[i])
            &&& forall|i: int, id: u32|
                0 <= i < visited.len() && id < space.num_points && #[trigger] (space.adjacent)(
                    visited[i],
                ).contains(id) ==> nodes.has_payload(id)
        },
{
    if reads_fit(nodes, space, visited) {
        assert(space.known_to(visited, 0));
        assert forall|i: int, id: u32|
            0 <= i < visited.len() && id < space.num_points && #[trigger] (space.adjacent)(
                visited[i],
            ).contains(id) implies nodes.has_payload(id) by {
            assert(space.known_to(visited, id));
        }
    } else if nodes.has_payload(0) && (forall|i: int|
        0 <= i < visited.len() ==> nodes.has_list(#[trigger] visited[i])) {
        let id = choose|id: u32| #[trigger]
            space.known_to(visited, id) && !nodes.has_payload(id);
        assert(space.known_to(visited, id) && !nodes.has_payload(id));
        let i = choose|i: int|
            0 <= i < visited.len() && (space.adjacent)(#[trigger] visited[i]).contains(id);
        assert((space.adjacent)(visited[i]).contains(id));
    }
}

/// The first `k` are taken where there are so many, and all where there are fewer.
pub proof fn law_first_are_taken<A>(s: Seq<A>, k: int)
    requires
        k >= 0,
    ensures
        k <= s.len() ==> first_of(s, k) == s.take(k),
        k > s.len() ==> first_of(s, k) == s,
{
    assert(s.take(s.len() as int) =~= s);
}

/// A search can be made wherever what it reads can be read and its count fits 32 bits.
pub proof fn law_searches_can_be_made<C: NodeSource, N: NodeSource>(
    codes: C,
    nodes: N,
    space: SearchSpace,
    search_l: nat,
    k: int,
)
    ensures
        can_search(nodes, space, search_l) <==> reads_fit(nodes, space, space.visits(search_l))
            && space.comparisons(space.visits(search_l)) <= 0xffff_ffff,
        can_split_search(codes, nodes, space, search_l, k) <==> {
            let visited = space.visits(search_l);
            let reranked = rerank_ids(space, visited, k);
            &&& reads_fit(codes, space, visited)
            &&& forall|i: int|
                0 <= i < reranked.len() ==> nodes.has_payload(#[trigger] reranked[i])
            &&& space.comparisons(visited) + reranked.len() <= 0xffff_ffff
        },
{
}

/// A candidate is a node with its own rank, and stands where its node does.
pub proof fn law_candidates_carry_their_rank(space: SearchSpace, ids: Seq<u32>)
    ensures
        space.candidates(ids).len() == ids.len(),
        forall|i: int|
            0 <= i < ids.len() ==> {
                &&& (#[trigger] space.candidates(ids)[i]).id == ids[i]
                &&& space.candidates(ids)[i].rank == (space.rank)(ids[i])
            },
{
}

} // verus!

//! NUMA nodes: node lists, node masks, and requests to bind memory.

use crate::error::CxlError;
use crate::rounding::{aligned_up, law_aligned_up_is_least_multiple};
use crate::text::{
    all_within, chars_of, decimal, law_decimal_reads_back, law_decimals_end_with_their_last_digit,
    law_texts_split_at_each_separator, law_trimming_takes_off_white_space, number_of, parse_number,
    pieces_of, split, split_on, trim, trimmed, Stretch,
};
use vstd::arithmetic::power2::pow2;
use vstd::bits::lemma_u64_shr_is_div;
use vstd::prelude::*;

verus! {

/// Memory goes to one node.
pub const MPOL_BIND: i32 = 2;

/// Memory goes to several nodes in turn.
pub const MPOL_INTERLEAVE: i32 = 3;

/// Pages that stand elsewhere are moved.
pub const MPOL_MF_MOVE: u32 = 2;

/// Nodes that a node mask can name.
pub const MAX_NODES: u32 = 64;

/// The least length of a buffer.
pub const MIN_BUFFER_LEN: usize = 4096;

/// Alignment of a buffer.
pub const BUFFER_ALIGN: usize = 64;

/// Why a node list cannot be read.
#[derive(Debug, Clone, Copy, PartialEq, Eq, Structural)]
pub enum NodeSpecError {
    BadRangeStart,
    BadRangeEnd,
    BadNode,
    Empty,
}

/// The nodes from one to another, both included.
pub open spec fn range_nodes(lo: int, hi: int) -> Seq<u32> {
    if lo <= hi {
        Seq::new((hi - lo + 1) as nat, |i: int| (lo + i) as u32)
    } else {
        Seq::empty()
    }
}

/// The nodes that a part of a list names: a node, or a range of them. A part with more than
/// one dash names none.
pub open spec fn part_nodes(raw: Seq<char>) -> Result<Seq<u32>, NodeSpecError> {
    let part = trimmed(raw);
    if part.contains('-') {
        let ends = split_on(part, '-');
        if ends.len() == 2 {
            match number_of(trimmed(ends[0]), u32::MAX as int) {
                None => Err(NodeSpecError::BadRangeStart),
                Some(lo) => match number_of(trimmed(ends[1]), u32::MAX as int) {
                    None => Err(NodeSpecError::BadRangeEnd),
                    Some(hi) => Ok(range_nodes(lo, hi)),
                },
            }
        } else {
            Ok(Seq::empty())
        }
    } else {
        match number_of(part, u32::MAX as int) {
            None => Err(NodeSpecError::BadNode),
            Some(n) => Ok(seq![n as u32]),
        }
    }
}

/// The nodes that the parts of a list name, or what is wrong with the first bad part.
pub open spec fn listed_nodes(parts: Seq<Seq<char>>) -> Result<Seq<u32>, NodeSpecError>
    decreases parts.len(),
{
    if parts.len() == 0 {
        Ok(Seq::empty())
    } else {
        match listed_nodes(parts.drop_last()) {
            Err(e) => Err(e),
            Ok(front) => match part_nodes(parts.last()) {
                Err(e) => Err(e),
                Ok(nodes) => Ok(front + nodes),
            },
        }
    }
}

/// Nodes in ascending order, none of them twice.
pub open spec fn ascending(s: Seq<u32>) -> bool {
    forall|i: int, j: int| 0 <= i < j < s.len() ==> #[trigger] s[i] < #[trigger] s[j]
}

/// Whether two sequences hold the same nodes.
pub open spec fn same_nodes(a: Seq<u32>, b: Seq<u32>) -> bool {
    forall|n: u32| #[trigger] a.contains(n) <==> b.contains(n)
}

/// Puts a node in its place, unless it is there.
fn insert_node(nodes: &mut Vec<u32>, n: u32)
    requires
        ascending(old(nodes)@),
    ensures
        ascending(final(nodes)@),
        forall|m: u32| #[trigger]
            final(nodes)@.contains(m) <==> old(nodes)@.contains(m) || m == n,
{
    let mut at: usize = nodes.len();
    while at > 0 && nodes[at - 1] >= n
        invariant
            at <= nodes@.len(),
            nodes@ == old(nodes)@,
            ascending(nodes@),
            forall|i: int| at <= i < nodes@.len() ==> n < #[trigger] nodes@[i],
        decreases at,
    {
        if nodes[at - 1] == n {
            assert(nodes@[at - 1] == n);
            return;
        }
        at -= 1;
    }
    nodes.insert(at, n);
    let ghost before = old(nodes)@;
    let ghost after = nodes@;
    proof {
        assert forall|m: u32| #[trigger] after.contains(m) <==> before.contains(m) || m == n by {
            if before.contains(m) {
                let i = choose|i: int| 0 <= i < before.len() && before[i] == m;
                if i < at {
                    assert(after[i] == m);
                } else {
                    assert(after[i + 1] == m);
                }
            }
            if m == n {
                assert(after[at as int] == m);
            }
            if after.contains(m) && m != n {
                let i = choose|i: int| 0 <= i < after.len() && after[i] == m;
                if i < at {
                    assert(before[i] == m);
                } else {
                    assert(before[i - 1] == m);
                }
            }
        }
        assert forall|i: int, j: int| 0 <= i < j < after.len() implies #[trigger] after[i]
            < #[trigger] after[j] by {
            let a = if i < at {
                i
            } else {
                i - 1
            };
            let b = if j < at {
                j
            } else {
                j - 1
            };
            if i == at {
                assert(n < before[j - 1]);
            } else if j == at {
                assert(before[i] <= before[at - 1]);
            } else {
                assert(before[a] < before[b]);
            }
        }
    }
}

/// Puts a range of nodes in their places.
fn insert_range(nodes: &mut Vec<u32>, lo: u32, hi: u32)
    requires
        ascending(old(nodes)@),
    ensures
        ascending(final(nodes)@),
        forall|m: u32| #[trigger]
            final(nodes)@.contains(m) <==> old(nodes)@.contains(m) || range_nodes(
                lo as int,
                hi as int,
            ).contains(m),
{
    let mut n: u64 = lo as u64;
    while n <= hi as u64
        invariant
            lo <= n,
            lo <= hi ==> n <= hi + 1,
            lo > hi ==> n == lo,
            ascending(nodes@),
            forall|m: u32| #[trigger]
                nodes@.contains(m) <==> old(nodes)@.contains(m) || lo <= m < n,
        decreases hi + 1 - n,
    {
        insert_node(nodes, n as u32);
        n += 1;
    }
    proof {
        let range = range_nodes(lo as int, hi as int);
        assert forall|m: u32| range.contains(m) <==> lo <= m <= hi by {
            if lo <= m <= hi {
                assert(range[m - lo] == m);
            }
        }
    }
}

/// Parse a node list such as `3,4` or `3-5`: ascending, each node once.
pub fn parse_node_spec(spec: &str) -> (result: Result<Vec<u32>, NodeSpecError>)
    ensures
        match listed_nodes(split_on(spec@, ',')) {
            Err(e) => result == Err::<Vec<u32>, NodeSpecError>(e),
            Ok(listed) => {
                if listed.len() == 0 {
                    result == Err::<Vec<u32>, NodeSpecError>(NodeSpecError::Empty)
                } else {
                    result matches Ok(nodes) && ascending(nodes@) && same_nodes(nodes@, listed)
                }
            },
        },
        result matches Ok(nodes) ==> forall|i: int, j: int|
            0 <= i < j < nodes@.len() ==> #[trigger] nodes@[i] < #[trigger] nodes@[j],
        result matches Ok(nodes) ==> listed_nodes(split_on(spec@, ',')) matches Ok(listed)
            && forall|n: u32| #[trigger] nodes@.contains(n) <==> listed.contains(n),
{
    let text = chars_of(spec);
    let whole = Stretch { from: 0, to: text.len() };
    assert(whole.of(text@) =~= spec@);
    let parts = split(text.as_slice(), whole, ',');
    let ghost pieces = pieces_of(text@, parts@);
    let ghost mut listed: Seq<u32> = Seq::empty();
    let mut nodes: Vec<u32> = Vec::new();
    assert(pieces.take(0) =~= Seq::<Seq<char>>::empty());
    for i in 0..parts.len()
        invariant
            text@ == spec@,
            all_within(text@, parts@),
            pieces == pieces_of(text@, parts@),
            pieces == split_on(spec@, ','),
            ascending(nodes@),
            listed_nodes(pieces.take(i as int)) == Ok::<Seq<u32>, NodeSpecError>(listed),
            same_nodes(nodes@, listed),
    {
        proof {
            assert(pieces.take(i + 1).drop_last() =~= pieces.take(i as int));
            assert(pieces.take(i + 1).last() == pieces[i as int]);
            lemma_first_error(pieces, i + 1);
        }
        let ghost raw = pieces[i as int];
        let ghost before = listed;
        let part = trim(text.as_slice(), parts[i]);
        let dash = find_char(text.as_slice(), part, '-');
        if dash {
            let ends = split(text.as_slice(), part, '-');
            let ghost end_pieces = pieces_of(text@, ends@);
            if ends.len() == 2 {
                assert(end_pieces[0] == ends@[0].of(text@));
                assert(end_pieces[1] == ends@[1].of(text@));
                let lo_part = trim(text.as_slice(), ends[0]);
                let hi_part = trim(text.as_slice(), ends[1]);
                let lo: u32 = match parse_number(text.as_slice(), lo_part, u32::MAX as u64) {
                    Some(n) => n as u32,
                    None => return Err(NodeSpecError::BadRangeStart),
                };
                let hi: u32 = match parse_number(text.as_slice(), hi_part, u32::MAX as u64) {
                    Some(n) => n as u32,
                    None => return Err(NodeSpecError::BadRangeEnd),
                };
                insert_range(&mut nodes, lo, hi);
                proof {
                    listed = before + range_nodes(lo as int, hi as int);
                }
            } else {
                proof {
                    listed = before + Seq::<u32>::empty();
                }
            }
        } else {
            let n: u32 = match parse_number(text.as_slice(), part, u32::MAX as u64) {
                Some(n) => n as u32,
                None => return Err(NodeSpecError::BadNode),
            };
            insert_node(&mut nodes, n);
            proof {
                listed = before + seq![n];
                assert(seq![n][0] == n);
            }
        }
        proof {
            let added = part_nodes(raw).unwrap();
            assert(listed == before + added);
            assert forall|m: u32| #[trigger] nodes@.contains(m) <==> listed.contains(m) by {
                lemma_contains_concat(before, added, m);
            }
        }
    }
    assert(pieces.take(pieces.len() as int) =~= pieces);
    if nodes.len() == 0 {
        proof {
            if listed.len() > 0 {
                assert(listed.contains(listed[0]));
                assert(nodes@.contains(listed[0]));
            }
        }
        return Err(NodeSpecError::Empty);
    }
    assert(nodes@.contains(nodes@[0]));
    Ok(nodes)
}

/// A node is in one of two sequences where it is in both together.
proof fn lemma_contains_concat(a: Seq<u32>, b: Seq<u32>, n: u32)
    ensures
        (a + b).contains(n) <==> a.contains(n) || b.contains(n),
{
    let both = a + b;
    if a.contains(n) {
        let i = choose|i: int| 0 <= i < a.len() && a[i] == n;
        assert(both[i] == n);
    }
    if b.contains(n) {
        let i = choose|i: int| 0 <= i < b.len() && b[i] == n;
        assert(both[a.len() + i] == n);
    }
}

/// What is wrong with a front part of a list is wrong with the list.
proof fn lemma_first_error(parts: Seq<Seq<char>>, n: int)
    requires
        0 <= n <= parts.len(),
    ensures
        listed_nodes(parts.take(n)) is Err ==> listed_nodes(parts) == listed_nodes(parts.take(n)),
    decreases parts.len(),
{
    if n < parts.len() {
        assert(parts.drop_last().take(n) =~= parts.take(n));
        lemma_first_error(parts.drop_last(), n);
    } else {
        assert(parts.take(n) =~= parts);
    }
}

/// Whether a character stands in a stretch of a text.
fn find_char(text: &[char], stretch: Stretch, c: char) -> (found: bool)
    requires
        stretch.within(text@),
    ensures
        found == stretch.of(text@).contains(c),
{
    let ghost here = stretch.of(text@);
    let mut i: usize = stretch.from;
    while i < stretch.to
        invariant
            stretch.from <= i <= stretch.to <= text@.len(),
            here == stretch.of(text@),
            forall|j: int| 0 <= j < i - stretch.from ==> here[j] != c,
        decreases stretch.to - i,
    {
        if text[i] == c {
            assert(here[i - stretch.from] == c);
            return true;
        }
        i += 1;
    }
    false
}

/// Whether a node mask names a node.
pub open spec fn names(mask: u64, node: u32) -> bool {
    mask & (1u64 << node) != 0
}

/// The mask that names some nodes.
pub fn nodes_to_mask(nodes: &[u32]) -> (mask: u64)
    requires
        forall|i: int| 0 <= i < nodes@.len() ==> #[trigger] nodes@[i] < MAX_NODES,
    ensures
        forall|node: u32| node < MAX_NODES ==> (#[trigger] names(mask, node) <==> nodes@.contains(node)),
{
    let mut mask: u64 = 0;
    proof {
        assert forall|node: u32| node < MAX_NODES implies !(#[trigger] names(0, node)) by {
            assert(0u64 & (1u64 << node) == 0) by (bit_vector);
        }
    }
    for i in 0..nodes.len()
        invariant
            forall|j: int| 0 <= j < nodes@.len() ==> #[trigger] nodes@[j] < MAX_NODES,
            forall|node: u32|
                node < MAX_NODES ==> (#[trigger] names(mask, node) <==> nodes@.take(
                    i as int,
                ).contains(node)),
    {
        let n: u32 = nodes[i];
        let ghost before = mask;
        mask = mask | (1u64 << n);
        proof {
            let upto = nodes@.take(i as int);
            assert(nodes@.take(i + 1) =~= upto + seq![n]);
            assert forall|node: u32| node < MAX_NODES implies (#[trigger] names(mask, node)
                <==> nodes@.take(i + 1).contains(node)) by {
                lemma_contains_concat(upto, seq![n], node);
                assert(seq![n].contains(node) <==> node == n) by {
                    assert(seq![n][0] == n);
                }
                assert((before | (1u64 << n)) & (1u64 << node) != 0 <==> (before & (1u64 << node)
                    != 0 || node == n)) by (bit_vector)
                    requires
                        n < 64,
                        node < 64,
                ;
                assert(names(before, node) <==> upto.contains(node));
            }
        }
    }
    assert(nodes@.take(nodes@.len() as int) =~= nodes@);
    mask
}

/// A request to bind a buffer to nodes.
#[derive(Debug, Clone, Copy, PartialEq, Eq, Structural)]
pub struct BindRequest {
    /// Bytes of the buffer.
    pub len: usize,
    /// One of the `MPOL_` policies.
    pub policy: i32,
    /// The nodes.
    pub mask: u64,
    /// `MPOL_MF_` flags.
    pub flags: u32,
}

/// The length of a buffer for some bytes: at least a page.
pub open spec fn buffer_len_for(size: usize) -> usize {
    if size < MIN_BUFFER_LEN {
        MIN_BUFFER_LEN
    } else {
        size
    }
}

/// The length of a buffer for some bytes.
pub fn buffer_len(size: usize) -> (len: usize)
    ensures
        len == buffer_len_for(size),
{
    if size < MIN_BUFFER_LEN {
        MIN_BUFFER_LEN
    } else {
        size
    }
}

/// How to bind a buffer of some bytes to nodes: to the one, or to several in turn.
pub fn spread_request(size: usize, nodes: &[u32]) -> (request: BindRequest)
    requires
        forall|i: int| 0 <= i < nodes@.len() ==> #[trigger] nodes@[i] < MAX_NODES,
    ensures
        request.len == buffer_len_for(size),
        request.policy == if nodes@.len() == 1 {
            MPOL_BIND
        } else {
            MPOL_INTERLEAVE
        },
        request.flags == 0,
        forall|node: u32|
            node < MAX_NODES ==> (#[trigger] names(request.mask, node) <==> nodes@.contains(node)),
{
    let policy: i32 = if nodes.len() == 1 {
        MPOL_BIND
    } else {
        MPOL_INTERLEAVE
    };
    BindRequest { len: buffer_len(size), policy, mask: nodes_to_mask(nodes), flags: 0 }
}

/// Whether a buffer of some bytes can be allocated: rounded up to its alignment, its length
/// must not exceed what an allocation can have.
pub open spec fn allocatable(size: usize) -> bool {
    aligned_up(size as int, BUFFER_ALIGN as int) <= isize::MAX
}

/// How to bind a buffer of some bytes to one node; its pages are moved there.
pub fn node_request(size: usize, node: u32) -> (result: Result<BindRequest, CxlError>)
    requires
        node < MAX_NODES,
    ensures
        match result {
            Ok(request) => {
                &&& allocatable(size)
                &&& request.len == size
                &&& request.policy == MPOL_BIND
                &&& request.flags == MPOL_MF_MOVE
                &&& forall|other: u32|
                    other < MAX_NODES ==> (#[trigger] names(request.mask, other) <==> other == node)
            },
            Err(e) => !allocatable(size) && e == CxlError::LayoutTooLarge { requested: size },
        },
{
    proof {
        law_aligned_up_is_least_multiple(size as int, BUFFER_ALIGN as int);
    }
    let limit: usize = isize::MAX as usize;
    let over: usize = size % BUFFER_ALIGN;
    let pad: usize = if over == 0 {
        0
    } else {
        BUFFER_ALIGN - over
    };
    if size > limit || pad > limit - size {
        return Err(CxlError::LayoutTooLarge { requested: size });
    }
    let mask: u64 = 1u64 << node;
    proof {
        assert forall|other: u32| other < MAX_NODES implies (#[trigger] names(mask, other)
            <==> other == node) by {
            assert((1u64 << node) & (1u64 << other) != 0 <==> other == node) by (bit_vector)
                requires
                    node < 64,
                    other < 64,
            ;
        }
    }
    Ok(BindRequest { len: size, policy: MPOL_BIND, mask, flags: MPOL_MF_MOVE })
}

/// A range holds the nodes from its start to its end, and no others.
pub proof fn law_ranges_hold_both_ends(lo: u32, hi: u32, n: u32)
    ensures
        range_nodes(lo as int, hi as int).contains(n) <==> lo <= n <= hi,
{
    let range = range_nodes(lo as int, hi as int);
    if lo <= n <= hi {
        assert(range[n - lo] == n);
    }
}

/// A part of a list that is a number names that node; one that is two numbers with a dash
/// between them names the nodes from the one to the other. White space around either does not
/// matter.
pub proof fn law_parts_name_their_nodes(raw: Seq<char>, n: u32, hi: u32)
    ensures
        trimmed(raw) == decimal(n as nat) ==> part_nodes(raw) == Ok::<Seq<u32>, NodeSpecError>(
            seq![n],
        ),
        trimmed(raw) == decimal(n as nat) + seq!['-'] + decimal(hi as nat) ==> part_nodes(raw)
            == Ok::<Seq<u32>, NodeSpecError>(range_nodes(n as int, hi as int)),
{
    let a = decimal(n as nat);
    let b = decimal(hi as nat);
    lemma_decimal_is_plain(n as nat);
    lemma_decimal_is_plain(hi as nat);
    law_decimal_reads_back(n as nat, u32::MAX as int);
    law_decimal_reads_back(hi as nat, u32::MAX as int);
    let both = a + seq!['-'] + b;
    assert(both[a.len() as int] == '-');
    assert(both.contains('-'));
    law_texts_split_at_each_separator(a, b, '-');
    law_texts_split_at_each_separator(b, b, '-');
    assert(split_on(both, '-') =~= seq![a, b]);
}

/// A decimal has neither dashes nor white space in it.
proof fn lemma_decimal_is_plain(n: nat)
    ensures
        !decimal(n).contains('-'),
        trimmed(decimal(n)) == decimal(n),
{
    let text = decimal(n);
    lemma_decimal_chars(n);
    if text.contains('-') {
        let i = choose|i: int| 0 <= i < text.len() && text[i] == '-';
        assert(48 <= text[i] as u32 <= 57);
    }
    assert(48 <= text[0] as u32 <= 57);
    assert(48 <= text[text.len() - 1] as u32 <= 57);
    law_trimming_takes_off_white_space(Seq::empty(), text, Seq::empty());
    assert(Seq::<char>::empty() + text + Seq::<char>::empty() =~= text);
}

/// A decimal is made of digits.
proof fn lemma_decimal_chars(n: nat)
    ensures
        decimal(n).len() >= 1,
        forall|i: int|
            0 <= i < decimal(n).len() ==> 48 <= (#[trigger] decimal(n)[i]) as u32 <= 57,
    decreases n,
{
    law_decimals_end_with_their_last_digit(n);
    if n >= 10 {
        lemma_decimal_chars(n / 10);
        assert forall|i: int| 0 <= i < decimal(n).len() implies 48 <= (#[trigger] decimal(
            n,
        )[i]) as u32 <= 57 by {
            if i < decimal(n).len() - 1 {
                assert(decimal(n)[i] == decimal(n).drop_last()[i]);
            }
        }
    }
}

/// What is wrong with a part, and what is not: a part without a dash must be a number; of two
/// ends with a dash between them each must be, the first being looked at first; with more
/// dashes a part names nothing.
pub proof fn law_bad_parts_are_told(raw: Seq<char>, a: Seq<char>, b: Seq<char>, c: Seq<char>)
    ensures
        !trimmed(raw).contains('-') && number_of(trimmed(raw), u32::MAX as int) is None
            ==> part_nodes(raw) == Err::<Seq<u32>, NodeSpecError>(NodeSpecError::BadNode),
        !a.contains('-') && !b.contains('-') && trimmed(raw) == a + seq!['-'] + b ==> {
            let lo = number_of(trimmed(a), u32::MAX as int);
            let hi = number_of(trimmed(b), u32::MAX as int);
            &&& lo is None ==> part_nodes(raw) == Err::<Seq<u32>, NodeSpecError>(
                NodeSpecError::BadRangeStart,
            )
            &&& lo is Some && hi is None ==> part_nodes(raw) == Err::<Seq<u32>, NodeSpecError>(
                NodeSpecError::BadRangeEnd,
            )
        },
        trimmed(raw) == a + seq!['-'] + b + seq!['-'] + c ==> part_nodes(raw) == Ok::<
            Seq<u32>,
            NodeSpecError,
        >(Seq::empty()),
{
    let two = a + seq!['-'] + b;
    assert(two[a.len() as int] == '-');
    if !a.contains('-') && !b.contains('-') {
        law_texts_split_at_each_separator(a, b, '-');
        law_texts_split_at_each_separator(b, b, '-');
        assert(split_on(two, '-') =~= seq![a, b]);
    }
    let three = two + seq!['-'] + c;
    assert(three[a.len() as int] == '-');
    law_texts_split_at_each_separator(a, b, '-');
    law_texts_split_at_each_separator(two, c, '-');
    lemma_some_piece(a);
    lemma_some_piece(b);
    lemma_some_piece(c);
}

/// A split at dashes has at least one piece.
proof fn lemma_some_piece(s: Seq<char>)
    ensures
        split_on(s, '-').len() >= 1,
    decreases s.len(),
{
    if s.len() > 0 {
        lemma_some_piece(s.drop_last());
    }
}

/// Lists are read part by part: the nodes of two lists in a row are those of the first and then
/// those of the second, and the first part that is wrong decides.
pub proof fn law_lists_are_read_part_by_part(
    front: Seq<Seq<char>>,
    back: Seq<Seq<char>>,
    part: Seq<char>,
)
    ensures
        listed_nodes(seq![part]) == part_nodes(part),
        listed_nodes(front) is Err ==> listed_nodes(front + back) == listed_nodes(front),
        listed_nodes(front) matches Ok(a) ==> match listed_nodes(back) {
            Ok(b) => listed_nodes(front + back) == Ok::<Seq<u32>, NodeSpecError>(a + b),
            Err(e) => listed_nodes(front + back) == Err::<Seq<u32>, NodeSpecError>(e),
        },
    decreases back.len(),
{
    let none = Seq::<Seq<char>>::empty();
    assert(seq![part].drop_last() =~= none);
    assert(listed_nodes(none) == Ok::<Seq<u32>, NodeSpecError>(Seq::empty()));
    match part_nodes(part) {
        Ok(nodes) => {
            assert(Seq::<u32>::empty() + nodes =~= nodes);
        },
        Err(_) => {},
    }
    if back.len() == 0 {
        assert(front + back =~= front);
        if let Ok(a) = listed_nodes(front) {
            assert(a + Seq::<u32>::empty() =~= a);
        }
    } else {
        law_lists_are_read_part_by_part(front, back.drop_last(), part);
        assert((front + back).drop_last() =~= front + back.drop_last());
        if let (Ok(a), Ok(b)) = (listed_nodes(front), listed_nodes(back.drop_last())) {
            if let Ok(c) = part_nodes(back.last()) {
                assert(a + b + c =~= a + (b + c));
            }
        }
    }
}

/// A mask names a node where the digit of the node's number, in base two, is one.
pub proof fn law_masks_name_nodes_by_their_bit(mask: u64, node: u32)
    requires
        node < 64,
    ensures
        names(mask, node) <==> mask as int / pow2(node as nat) as int % 2 == 1,
{
    let shift = node as u64;
    lemma_u64_shr_is_div(mask, shift);
    assert(mask & (1u64 << node) != 0 <==> (mask >> shift) % 2 == 1) by (bit_vector)
        requires
            shift == node as u64,
            node < 64,
    ;
}

/// Buffers are as long as what they hold, but at least a page of 4096 bytes. A buffer for one
/// node can be made where its length, to the next multiple of 64, does not exceed the largest
/// allocation.
pub proof fn law_buffers_are_long_enough(size: usize)
    ensures
        buffer_len_for(size) >= size,
        buffer_len_for(size) >= 4096,
        buffer_len_for(size) == size || buffer_len_for(size) == 4096,
        allocatable(size) <==> exists|m: int| size <= m <= isize::MAX && #[trigger] (m % 64) == 0,
{
    law_aligned_up_is_least_multiple(size as int, 64);
    let up = aligned_up(size as int, 64);
    assert(up % 64 == 0);
}

/// The numbers by which the kernel knows its policies and flags, and the nodes that a mask can
/// name.
pub proof fn law_kernel_numbers()
    ensures
        MPOL_BIND == 2,
        MPOL_INTERLEAVE == 3,
        MPOL_MF_MOVE == 2,
        MAX_NODES == 64,
{
}

} // verus!

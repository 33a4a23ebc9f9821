//! Reading an index that is mapped into memory.
//!
//! CXL memory is byte-addressable, so a read of the mapped index is a plain load: there is
//! no queue, no kernel copy and no alignment beyond the cache line.

use crate::error::CxlError;
use crate::le_bytes::copy_into;
use crate::mapped_region::{mapped_bytes, MappedRegion};
use crate::rounding::{
    div_ceil, law_aligned_up_is_least_multiple, lemma_pieces_times_piece, pieces_for,
};
use memmap2::Mmap;
use vstd::prelude::*;
use vstd::slice::slice_subrange;

verus! {

/// Cache-line alignment constant (64 bytes).
pub const CXL_CACHE_LINE: usize = 64;

/// A hint to the kernel on how a mapping will be used.
#[derive(Debug, Clone, Copy, PartialEq, Eq, Structural)]
pub enum MmapAdvice {
    /// Pages are touched in no particular order.
    Random,
    /// Back the mapping with huge pages.
    HugePage,
    /// Bring all pages in right away.
    WillNeed,
}

/// Configuration for CXL mmap reader behavior
#[derive(Debug)]
pub struct CxlMmapConfig {
    /// Prefault all pages at mmap time.
    pub prefault: bool,
    /// Hint that access is random (correct for graph traversal).
    pub advise_random: bool,
    /// Use huge pages (reduces TLB misses).
    pub use_huge_pages: bool,
}

impl Clone for CxlMmapConfig {
    fn clone(&self) -> (copy: Self)
        ensures
            copy == *self,
    {
        CxlMmapConfig {
            prefault: self.prefault,
            advise_random: self.advise_random,
            use_huge_pages: self.use_huge_pages,
        }
    }
}

impl Default for CxlMmapConfig {
    fn default() -> (config: Self)
        ensures
            config.prefault,
            config.advise_random,
            config.use_huge_pages,
    {
        CxlMmapConfig { prefault: true, advise_random: true, use_huge_pages: true }
    }
}

/// One element, if it is wanted.
pub open spec fn given<A>(wanted: bool, a: A) -> Seq<A> {
    if wanted {
        seq![a]
    } else {
        Seq::empty()
    }
}

impl CxlMmapConfig {
    /// The hints that a configuration asks for, in the order in which they are given.
    pub open spec fn advice_seq(self) -> Seq<MmapAdvice> {
        given(self.advise_random, MmapAdvice::Random) + given(
            self.use_huge_pages,
            MmapAdvice::HugePage,
        ) + given(self.prefault, MmapAdvice::WillNeed)
    }

    /// The hints that the configuration asks for, in the order in which they are given.
    pub fn advice(&self) -> (advice: Vec<MmapAdvice>)
        ensures
            advice@ == self.advice_seq(),
    {
        let mut advice: Vec<MmapAdvice> = Vec::new();
        if self.advise_random {
            advice.push(MmapAdvice::Random);
        }
        if self.use_huge_pages {
            advice.push(MmapAdvice::HugePage);
        }
        if self.prefault {
            advice.push(MmapAdvice::WillNeed);
        }
        assert(advice@ =~= self.advice_seq());
        advice
    }
}

/// The cache lines to fetch for a stretch of mapped memory.
#[derive(Debug, Clone, Copy, PartialEq, Eq, Structural)]
pub struct PrefetchSpan {
    /// Where the first line is fetched.
    pub offset: usize,
    /// How many lines are fetched, each a cache line behind the one before.
    pub num_lines: usize,
}

impl PrefetchSpan {
    /// The lines that hold `len` bytes from `offset` on.
    pub open spec fn covering(offset: int, len: int) -> PrefetchSpan {
        PrefetchSpan {
            offset: offset as usize,
            num_lines: pieces_for(len, CXL_CACHE_LINE as int) as usize,
        }
    }

    /// Computes the lines that hold `len` bytes from `offset` on.
    pub fn new(offset: usize, len: usize) -> (span: Self)
        ensures
            span == Self::covering(offset as int, len as int),
    {
        PrefetchSpan { offset, num_lines: div_ceil(len, CXL_CACHE_LINE) }
    }
}

/// The lines fetched reach to the end of the stretch, and no line lies wholly behind it.
pub proof fn law_prefetch_covers_exactly(offset: usize, len: usize)
    ensures
        ({
            let lines = PrefetchSpan::covering(offset as int, len as int).num_lines;
            &&& len <= lines * CXL_CACHE_LINE
            &&& lines * CXL_CACHE_LINE < len + CXL_CACHE_LINE
        }),
{
    law_aligned_up_is_least_multiple(len as int, CXL_CACHE_LINE as int);
    lemma_pieces_times_piece(len as int, CXL_CACHE_LINE as int);
}

/// A request to read into a buffer, which says by its length how much is read.
#[derive(Debug)]
pub struct ReadRequest {
    /// Byte offset in the index.
    pub offset: u64,
    /// Where the bytes go.
    pub buf: Vec<u8>,
}

impl ReadRequest {
    /// A request for `len` bytes at `offset`, with a zeroed buffer.
    pub fn new(offset: u64, len: usize) -> (request: Self)
        ensures
            request.offset == offset,
            request.buf@ == Seq::new(len as nat, |i: int| 0u8),
    {
        let buf: Vec<u8> = vec![0u8; len];
        assert(buf@ =~= Seq::new(len as nat, |i: int| 0u8));
        ReadRequest { offset, buf }
    }

    /// Whether all that the request asks for is mapped.
    pub open spec fn fits(self, mapped: Seq<u8>) -> bool {
        self.offset + self.buf@.len() <= mapped.len()
    }

    /// The bytes that the request asks for.
    pub open spec fn wanted(self, mapped: Seq<u8>) -> Seq<u8> {
        mapped.subrange(self.offset as int, self.offset + self.buf@.len())
    }
}

/// How many requests are served: all in front of the first that does not fit.
pub open spec fn served(requests: Seq<ReadRequest>, mapped: Seq<u8>) -> nat
    decreases requests.len(),
{
    if requests.len() == 0 || !requests[0].fits(mapped) {
        0
    } else {
        1 + served(requests.drop_first(), mapped)
    }
}

/// Every request in front of `n` fits, and the one at `n`, if there is one, does not: then
/// `n` requests are served.
pub proof fn lemma_served(requests: Seq<ReadRequest>, mapped: Seq<u8>, n: int)
    requires
        0 <= n <= requests.len(),
        forall|i: int| 0 <= i < n ==> (#[trigger] requests[i]).fits(mapped),
        n < requests.len() ==> !requests[n].fits(mapped),
    ensures
        served(requests, mapped) == n,
    decreases n,
{
    if n > 0 {
        assert(requests[0].fits(mapped));
        let rest = requests.drop_first();
        assert forall|i: int| 0 <= i < n - 1 implies (#[trigger] rest[i]).fits(mapped) by {
            assert(requests[i + 1].fits(mapped));
        }
        lemma_served(rest, mapped, n - 1);
    }
}

/// CXL mmap-based index reader.
///
/// The whole index is mapped; reads are direct memory loads. Counts the reads that it serves.
pub struct CxlMmapReader {
    region: MappedRegion,
    config: CxlMmapConfig,
    io_count: u32,
}

impl View for CxlMmapReader {
    type V = Seq<u8>;

    /// The mapped bytes.
    closed spec fn view(&self) -> Seq<u8> {
        self.region@
    }
}

impl CxlMmapReader {
    /// Reads served since the count was last reset.
    pub closed spec fn io_ops(self) -> u32 {
        self.io_count
    }

    /// The configuration that the reader was made with.
    pub closed spec fn configured(self) -> CxlMmapConfig {
        self.config
    }

    /// Create a new CXL mmap reader with default configuration.
    pub fn new(map: Mmap) -> (reader: Self)
        ensures
            reader@ == mapped_bytes(map),
            reader.io_ops() == 0,
            reader.configured() == (CxlMmapConfig {
                prefault: true,
                advise_random: true,
                use_huge_pages: true,
            }),
    {
        Self::with_config(map, CxlMmapConfig::default())
    }

    /// Create a new CXL mmap reader with custom configuration.
    pub fn with_config(map: Mmap, config: CxlMmapConfig) -> (reader: Self)
        ensures
            reader@ == mapped_bytes(map),
            reader.io_ops() == 0,
            reader.configured() == config,
    {
        CxlMmapReader { region: MappedRegion::new(map), config, io_count: 0 }
    }

    /// The hints to give for the mapping, in order.
    pub fn advice(&self) -> (advice: Vec<MmapAdvice>)
        ensures
            advice@ == self.configured().advice_seq(),
    {
        self.config.advice()
    }

    /// Mapped memory from the given offset on.
    pub fn ptr_at(&self, offset: usize) -> (tail: &[u8])
        requires
            offset < self@.len(),
        ensures
            tail@ == self@.subrange(offset as int, self@.len() as int),
    {
        let bytes = self.region.bytes();
        slice_subrange(bytes, offset, bytes.len())
    }

    /// A slice view into the mapped memory: zero-copy access.
    pub fn slice_at(&self, offset: usize, len: usize) -> (slice: &[u8])
        requires
            offset + len <= self@.len(),
        ensures
            slice@ == self@.subrange(offset as int, offset + len),
    {
        let bytes = self.region.bytes();
        assert(bytes@.len() == bytes.len());
        slice_subrange(bytes, offset, offset + len)
    }

    /// All of the mapped memory.
    pub fn all(&self) -> (bytes: &[u8])
        ensures
            bytes@ == self@,
    {
        self.region.bytes()
    }

    /// The cache lines to prefetch for a node; none where the node is not wholly mapped.
    pub fn prefetch_node(&self, offset: usize, node_size_bytes: usize) -> (span: Option<
        PrefetchSpan,
    >)
        ensures
            span == if offset + node_size_bytes <= self@.len() {
                Some(PrefetchSpan::covering(offset as int, node_size_bytes as int))
            } else {
                None
            },
    {
        let mapped_len: usize = self.region.len();
        if node_size_bytes > mapped_len || offset > mapped_len - node_size_bytes {
            return None;
        }
        Some(PrefetchSpan::new(offset, node_size_bytes))
    }

    /// Total I/O operations (node-level reads) since creation or the last reset.
    pub fn io_operations(&self) -> (ops: u32)
        ensures
            ops == self.io_ops(),
    {
        self.io_count
    }

    /// Reset I/O counter.
    pub fn reset_io_count(&mut self)
        ensures
            final(self).io_ops() == 0,
            final(self)@ == old(self)@,
            final(self).configured() == old(self).configured(),
    {
        self.io_count = 0;
    }

    /// Size of the mapped region in bytes.
    pub fn mapped_len(&self) -> (len: usize)
        ensures
            len == self@.len(),
    {
        self.region.len()
    }

    /// Serves requests in order, up to the first that reaches past the mapped region, and
    /// counts those served. The count wraps around.
    pub fn read(&mut self, requests: &mut Vec<ReadRequest>) -> (result: Result<(), CxlError>)
        ensures
            final(self)@ == old(self)@,
            final(self).configured() == old(self).configured(),
            ({
                let n = served(old(requests)@, old(self)@) as int;
                let before = old(requests)@;
                let after = final(requests)@;
                &&& after.len() == before.len()
                &&& forall|i: int|
                    0 <= i < n ==> {
                        &&& (#[trigger] after[i]).offset == before[i].offset
                        &&& after[i].buf@ == before[i].wanted(old(self)@)
                    }
                &&& forall|i: int| n <= i < before.len() ==> #[trigger] after[i] == before[i]
                &&& final(self).io_ops() == (old(self).io_ops() + n) % 0x1_0000_0000
                &&& result == if n == before.len() {
                    Ok::<(), CxlError>(())
                } else {
                    Err(
                        CxlError::OutOfBounds {
                            offset: before[n].offset,
                            len: before[n].buf@.len() as usize,
                            mapped_len: old(self)@.len() as usize,
                        },
                    )
                }
            }),
    {
        let mapped_len: usize = self.region.len();
        let total: usize = requests.len();
        let ghost before = requests@;
        let mut i: usize = 0;
        while i < total
            invariant
                i <= total,
                total == before.len(),
                requests@.len() == total,
                self@ == old(self)@,
                self.configured() == old(self).configured(),
                mapped_len == self@.len(),
                before == old(requests)@,
                forall|j: int| 0 <= j < i ==> (#[trigger] before[j]).fits(self@),
                forall|j: int|
                    0 <= j < i ==> {
                        &&& (#[trigger] requests@[j]).offset == before[j].offset
                        &&& requests@[j].buf@ == before[j].wanted(self@)
                    },
                forall|j: int| i <= j < total ==> #[trigger] requests@[j] == before[j],
                self.io_ops() == (old(self).io_ops() + i) % 0x1_0000_0000,
            decreases total - i,
        {
            let offset: u64 = requests[i].offset;
            let len: usize = requests[i].buf.len();
            if len > mapped_len || offset > (mapped_len - len) as u64 {
                proof {
                    lemma_served(before, self@, i as int);
                }
                return Err(CxlError::OutOfBounds { offset, len, mapped_len });
            }
            let from: usize = offset as usize;
            copy_into(&mut requests[i].buf, slice_subrange(self.region.bytes(), from, from + len));
            self.io_count = self.io_count.wrapping_add(1);
            i += 1;
        }
        proof {
            lemma_served(before, self@, total as int);
        }
        Ok(())
    }
}

/// Reader type discriminant for factory selection.
#[derive(Debug, Clone, Copy, PartialEq, Eq, Structural)]
pub enum CxlReaderType {
    MmapRandom,
    MmapSequential,
}

/// Requests are served up to the first that reaches past the map: each of those served lies
/// within it, and the next one does not.
pub proof fn law_requests_are_served_up_to_the_first_bad_one(
    requests: Seq<ReadRequest>,
    mapped: Seq<u8>,
)
    ensures
        served(requests, mapped) <= requests.len(),
        forall|i: int|
            0 <= i < served(requests, mapped) ==> (#[trigger] requests[i]).offset
                + requests[i].buf@.len() <= mapped.len(),
        served(requests, mapped) < requests.len() ==> requests[served(
            requests,
            mapped,
        ) as int].offset + requests[served(requests, mapped) as int].buf@.len() > mapped.len(),
    decreases requests.len(),
{
    if requests.len() > 0 && requests[0].fits(mapped) {
        let rest = requests.drop_first();
        law_requests_are_served_up_to_the_first_bad_one(rest, mapped);
        assert forall|i: int| 0 <= i < served(requests, mapped) implies (
        #[trigger] requests[i]).offset + requests[i].buf@.len() <= mapped.len() by {
            if i > 0 {
                assert(requests[i] == rest[i - 1]);
            }
        }
        let n = served(rest, mapped) as int;
        if n < rest.len() {
            assert(rest[n] == requests[n + 1]);
        }
    }
}

/// A request asks for as many bytes as its buffer has, from its offset on.
pub proof fn law_requests_ask_for_their_bytes(request: ReadRequest, mapped: Seq<u8>, i: int)
    requires
        request.offset + request.buf@.len() <= mapped.len(),
        0 <= i < request.buf@.len(),
    ensures
        request.wanted(mapped).len() == request.buf@.len(),
        request.wanted(mapped)[i] == mapped[request.offset + i],
{
}

/// Each hint is given if and only if it is asked for, and once: first that access is random,
/// last that pages are needed.
pub proof fn law_hints_are_those_asked_for(config: CxlMmapConfig)
    ensures
        ({
            let hints = config.advice_seq();
            &&& hints.no_duplicates()
            &&& hints.contains(MmapAdvice::Random) <==> config.advise_random
            &&& hints.contains(MmapAdvice::HugePage) <==> config.use_huge_pages
            &&& hints.contains(MmapAdvice::WillNeed) <==> config.prefault
            &&& config.advise_random ==> hints[0] == MmapAdvice::Random
            &&& config.prefault ==> hints.last() == MmapAdvice::WillNeed
        }),
{
    let hints = config.advice_seq();
    let n = hints.len();
    if config.advise_random {
        assert(hints[0] == MmapAdvice::Random);
    }
    if config.prefault {
        assert(hints[n - 1] == MmapAdvice::WillNeed);
    }
    if config.use_huge_pages {
        let at: int = if config.advise_random {
            1
        } else {
            0
        };
        assert(hints[at] == MmapAdvice::HugePage);
    }
}

/// A prefetch starts where it is asked to, and fetches just the lines of 64 bytes that it takes
/// to reach the end.
pub proof fn law_prefetches_start_where_asked(offset: usize, len: usize)
    ensures
        PrefetchSpan::covering(offset as int, len as int).offset == offset,
        len <= PrefetchSpan::covering(offset as int, len as int).num_lines * 64 < len + 64,
{
    law_prefetch_covers_exactly(offset, len);
}

} // verus!

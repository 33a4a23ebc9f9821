//! How a benchmark run opens a disk index: on which devices and by which engine, or split
//! between DRAM and CXL memory.

use crate::bench_args::{given_or, BenchArgs, RunShape};
use crate::index_header::ParsedHeader;
use crate::multi_device::{is_devdax, is_devdax_text};
use crate::rounding::{law_pieces_are_just_enough, pieces_for};
use crate::text::{
    all_within, chars_of, contains, decimal, has_pattern, pieces_of, push_decimal, split, split_on,
    trim, trimmed, Stretch,
};
use vstd::prelude::*;
use vstd::string::*;

verus! {

/// Bytes that are copied to a device at a time.
pub const COPY_BLOCK: u64 = 4_194_304;

/// How the nodes of a disk index are reached.
#[derive(Debug, Clone, Copy, PartialEq, Eq, Structural)]
pub enum DiskEngine {
    /// Over maps of one or more devices, for any element type.
    MultiDevice,
    /// Over one mapped file, with a cache and prefetching.
    Provider,
}

/// The devices that a list names: the index itself where none is named.
pub open spec fn device_texts(device: Seq<char>, index_path: Seq<char>) -> Seq<Seq<char>> {
    if device.len() == 0 {
        seq![index_path]
    } else {
        Seq::new(
            split_on(device, ',').len(),
            |i: int| trimmed(split_on(device, ',')[i]),
        )
    }
}

/// The texts of strings.
pub open spec fn strings_of(s: Seq<String>) -> Seq<Seq<char>> {
    Seq::new(s.len(), |i: int| s[i]@)
}

/// Whether some device is a DAX device.
pub open spec fn any_devdax(devices: Seq<Seq<char>>) -> bool {
    exists|i: int| 0 <= i < devices.len() && is_devdax_text(#[trigger] devices[i])
}

/// Whether a file name is that of PQ codes.
pub fn is_pq_codes_name(name: &str) -> (codes: bool)
    ensures
        codes == has_pattern(name@, "pq_compressed"@),
{
    contains(chars_of(name).as_slice(), "pq_compressed")
}

/// The devices that a comma-separated list names; the index itself where the list is empty.
pub fn device_list(device: &str, index_path: &str) -> (devices: Vec<String>)
    ensures
        strings_of(devices@) == device_texts(device@, index_path@),
{
    let mut devices: Vec<String> = Vec::new();
    if device.is_empty() {
        devices.push(index_path.to_owned());
        assert(strings_of(devices@) =~= device_texts(device@, index_path@));
        return devices;
    }
    let text = chars_of(device);
    let whole = Stretch { from: 0, to: text.len() };
    assert(whole.of(text@) =~= device@);
    let parts = split(text.as_slice(), whole, ',');
    let ghost pieces = pieces_of(text@, parts@);
    for i in 0..parts.len()
        invariant
            text@ == device@,
            all_within(text@, parts@),
            pieces == pieces_of(text@, parts@),
            pieces == split_on(device@, ','),
            devices@.len() == i,
            forall|j: int| 0 <= j < i ==> (#[trigger] devices@[j])@ == trimmed(pieces[j]),
    {
        let part = trim(text.as_slice(), parts[i]);
        devices.push(device.substring_char(part.from, part.to).to_owned());
        assert(pieces[i as int] == parts@[i as int].of(text@));
    }
    assert(strings_of(devices@) =~= device_texts(device@, index_path@));
    devices
}

/// How a disk index is opened.
pub struct DiskPlan {
    pub block_size: usize,
    pub data_start: usize,
    /// Bytes of a vector in the index.
    pub src_vec_bytes: usize,
    pub devices: Vec<String>,
    /// Whether the index is copied to the devices first.
    pub copy: bool,
    pub is_multi: bool,
    pub is_devdax: bool,
    pub engine: DiskEngine,
    /// The name of the run.
    pub label: String,
}

impl DiskPlan {
    /// Plans a run over a disk index.
    pub fn new(args: &BenchArgs, header: &ParsedHeader, shape: &RunShape) -> (plan: Self)
        requires
            header.block_size <= usize::MAX,
            shape.dims * shape.elem_size <= usize::MAX,
        ensures
            plan.block_size == given_or(args.block_size, header.block_size as int),
            plan.data_start == given_or(args.data_start, plan.block_size as int),
            plan.src_vec_bytes == shape.dims * shape.elem_size,
            strings_of(plan.devices@) == device_texts(args.device@, args.index_path@),
            plan.copy == (args.device@.len() > 0 && !args.skip_copy),
            plan.is_multi == (plan.devices@.len() > 1),
            plan.is_devdax == any_devdax(strings_of(plan.devices@)),
            plan.engine == if plan.is_multi || plan.is_devdax || shape.elem_size != 4 {
                DiskEngine::MultiDevice
            } else {
                DiskEngine::Provider
            },
            plan.label@ == "disk_"@ + decimal(plan.devices@.len()) + "dev"@,
    {
        let block_size: usize = if args.block_size > 0 {
            args.block_size
        } else {
            header.block_size as usize
        };
        let data_start: usize = if args.data_start > 0 {
            args.data_start
        } else {
            block_size
        };
        let devices = device_list(args.device.as_str(), args.index_path.as_str());
        let is_multi: bool = devices.len() > 1;
        let is_devdax: bool = some_devdax(&devices);
        let engine = if is_multi || is_devdax || shape.elem_size != 4 {
            DiskEngine::MultiDevice
        } else {
            DiskEngine::Provider
        };
        let mut label = String::from_str("disk_");
        push_decimal(&mut label, devices.len() as u64);
        label.append("dev");
        DiskPlan {
            block_size,
            data_start,
            src_vec_bytes: shape.dims * shape.elem_size,
            devices,
            copy: !args.device.as_str().is_empty() && !args.skip_copy,
            is_multi,
            is_devdax,
            engine,
            label,
        }
    }
}

/// How a disk index is split between DRAM and CXL memory.
#[derive(Debug, Clone, Copy, PartialEq, Eq, Structural)]
pub struct NumaPlan {
    pub block_size: usize,
    pub data_start: usize,
}

impl NumaPlan {
    /// Plans the split of a disk index: arguments go first, then the header.
    pub fn new(args: &BenchArgs, header: &ParsedHeader) -> (plan: Self)
        requires
            header.block_size <= usize::MAX,
        ensures
            plan.block_size == given_or(args.block_size, header.block_size as int),
            plan.data_start == given_or(args.data_start, plan.block_size as int),
    {
        let block_size: usize = if args.block_size > 0 {
            args.block_size
        } else {
            header.block_size as usize
        };
        let data_start: usize = if args.data_start > 0 {
            args.data_start
        } else {
            block_size
        };
        NumaPlan { block_size, data_start }
    }
}

/// A benchmark over a split index.
#[derive(Debug, Clone, Copy, PartialEq, Eq, Structural)]
pub enum NumaRun {
    /// Vectors and graph in DRAM.
    AllDram,
    /// Vectors and graph in CXL memory.
    AllCxl,
    /// The beam by PQ codes in DRAM, the rerank by vectors in CXL memory.
    PqSplit,
}

impl NumaRun {
    /// The name of the benchmark.
    pub open spec fn name(self) -> Seq<char> {
        match self {
            NumaRun::AllDram => "ALL_DRAM"@,
            NumaRun::AllCxl => "ALL_CXL"@,
            NumaRun::PqSplit => "PQ_SPLIT_DRAM_CXL"@,
        }
    }

    /// The benchmarks, in the order in which they are run.
    pub fn all() -> (runs: Vec<NumaRun>)
        ensures
            runs@ == seq![NumaRun::AllDram, NumaRun::AllCxl, NumaRun::PqSplit],
    {
        let runs: Vec<NumaRun> = vec![NumaRun::AllDram, NumaRun::AllCxl, NumaRun::PqSplit];
        assert(runs@ =~= seq![NumaRun::AllDram, NumaRun::AllCxl, NumaRun::PqSplit]);
        runs
    }

    /// The name of the benchmark.
    pub fn label(&self) -> (label: String)
        ensures
            label@ == self.name(),
    {
        match self {
            NumaRun::AllDram => String::from_str("ALL_DRAM"),
            NumaRun::AllCxl => String::from_str("ALL_CXL"),
            NumaRun::PqSplit => String::from_str("PQ_SPLIT_DRAM_CXL"),
        }
    }
}

/// Whether some device is a DAX device.
fn some_devdax(devices: &Vec<String>) -> (some: bool)
    ensures
        some == any_devdax(strings_of(devices@)),
{
    let ghost texts = strings_of(devices@);
    for i in 0..devices.len()
        invariant
            texts == strings_of(devices@),
            forall|j: int| 0 <= j < i ==> !is_devdax_text(#[trigger] texts[j]),
    {
        assert(texts[i as int] == devices@[i as int]@);
        if is_devdax(devices[i].as_str()) {
            return true;
        }
    }
    false
}

/// How many blocks are copied for an index of some bytes.
pub fn copy_blocks(index_size: u64) -> (blocks: u64)
    ensures
        blocks == pieces_for(index_size as int, COPY_BLOCK as int),
{
    let whole: u64 = index_size / COPY_BLOCK;
    let over: u64 = index_size % COPY_BLOCK;
    proof {
        let size = index_size as int;
        let block = COPY_BLOCK as int;
        assert(size == block * (size / block) + size % block);
    }
    if over == 0 {
        whole
    } else {
        whole + 1
    }
}

/// A list of devices names the pieces between its commas, without white space around them; an
/// empty list stands for the index itself.
pub proof fn law_devices_are_the_pieces_of_the_list(
    device: Seq<char>,
    index_path: Seq<char>,
    i: int,
)
    ensures
        device.len() == 0 ==> device_texts(device, index_path) == seq![index_path],
        device.len() > 0 ==> device_texts(device, index_path).len() == split_on(device, ',').len(),
        device.len() > 0 && 0 <= i < split_on(device, ',').len() ==> device_texts(
            device,
            index_path,
        )[i] == trimmed(split_on(device, ',')[i]),
{
}

/// Some device is a DAX device where one of them is.
pub proof fn law_one_dax_device_is_enough(devices: Seq<Seq<char>>, i: int)
    requires
        0 <= i < devices.len(),
    ensures
        is_devdax_text(devices[i]) ==> any_devdax(devices),
        (forall|j: int| 0 <= j < devices.len() ==> !is_devdax_text(#[trigger] devices[j]))
            ==> !any_devdax(devices),
{
}

/// The benchmarks over a split index have their names.
pub proof fn law_runs_have_their_names()
    ensures
        NumaRun::AllDram.name() == "ALL_DRAM"@,
        NumaRun::AllCxl.name() == "ALL_CXL"@,
        NumaRun::PqSplit.name() == "PQ_SPLIT_DRAM_CXL"@,
{
}

/// An index is copied in the least number of blocks of 4 MiB that hold it.
pub proof fn law_copies_take_just_enough_blocks(index_size: u64)
    ensures
        index_size <= pieces_for(index_size as int, COPY_BLOCK as int) * 4_194_304,
        pieces_for(index_size as int, COPY_BLOCK as int) * 4_194_304 < index_size + 4_194_304,
{
    law_pieces_are_just_enough(index_size as int, 4_194_304);
}

/// Strings stand for their texts, one by one.
pub proof fn law_strings_stand_for_their_texts(s: Seq<String>, i: int)
    requires
        0 <= i < s.len(),
    ensures
        strings_of(s).len() == s.len(),
        strings_of(s)[i] == s[i]@,
{
}

} // verus!

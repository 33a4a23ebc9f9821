//! One index on several devices: each holds a copy, and nodes are read from them in turn.

use crate::cxl_sector_graph::{NodeLayout, NodeOffsetCalculator};
use crate::cxl_vertex_provider::{CxlVertexProvider, NodeTable};
use crate::le_bytes::u32_at;
use crate::mapped_region::MappedRegion;
use crate::node_record::{
    adjacency_at, adjacency_fits, adjacency_within, law_lists_follow_their_count, read_adjacency,
};
use crate::rounding::{align_up, aligned_up, law_aligned_up_is_least_multiple};
use crate::search::{
    can_search, is_scoring, law_search_is_determined, same_node, scored_search, NodeSource, SearchSpace,
};
use crate::text::{chars_of, contains, has_pattern, stands_at};
use vstd::prelude::*;
use vstd::slice::slice_subrange;

verus! {

/// Device memory is mapped in pieces of 2 MiB.
pub const DEVICE_ALIGN: usize = 2_097_152;

/// The length to map of a device that holds an index.
pub fn device_map_len(index_size: usize) -> (len: usize)
    requires
        aligned_up(index_size as int, DEVICE_ALIGN as int) <= usize::MAX,
    ensures
        len == aligned_up(index_size as int, DEVICE_ALIGN as int),
{
    align_up(index_size, DEVICE_ALIGN)
}

/// Whether a path names a DAX device.
pub open spec fn is_devdax_text(path: Seq<char>) -> bool {
    has_pattern(path, "/dev/dax"@)
}

/// Whether a path names a DAX device.
pub fn is_devdax(path: &str) -> (dax: bool)
    ensures
        dax == is_devdax_text(path@),
{
    contains(chars_of(path).as_slice(), "/dev/dax")
}

/// How a path is mapped.
#[derive(Debug, Clone, Copy, PartialEq, Eq, Structural)]
pub enum MapKind {
    /// A device, of which so many bytes are mapped.
    Device { len: usize },
    /// A file, which is mapped whole.
    File,
}

/// How a path is mapped that holds an index of a given size.
pub fn map_kind(path: &str, index_size: usize) -> (kind: MapKind)
    requires
        aligned_up(index_size as int, DEVICE_ALIGN as int) <= usize::MAX,
    ensures
        kind == if is_devdax_text(path@) {
            MapKind::Device {
                len: aligned_up(index_size as int, DEVICE_ALIGN as int) as usize,
            }
        } else {
            MapKind::File
        },
{
    if is_devdax(path) {
        MapKind::Device { len: device_map_len(index_size) }
    } else {
        MapKind::File
    }
}

/// Copies of one index on several devices.
pub struct MultiMmap {
    regions: Vec<MappedRegion>,
    size: usize,
}

impl View for MultiMmap {
    type V = Seq<Seq<u8>>;

    /// The bytes of each device.
    closed spec fn view(&self) -> Seq<Seq<u8>> {
        Seq::new(self.regions@.len(), |i: int| self.regions@[i]@)
    }
}

/// The device from which a node is read.
pub open spec fn device_of(node_id: u32, num_devices: nat) -> int {
    node_id as int % num_devices as int
}

impl MultiMmap {
    /// The mapped size, which is the same for all devices.
    pub closed spec fn mapped_size(self) -> usize {
        self.size
    }

    /// Takes over the maps of an index of a given size.
    pub fn new(regions: Vec<MappedRegion>, index_size: usize) -> (multi: Self)
        requires
            aligned_up(index_size as int, DEVICE_ALIGN as int) <= usize::MAX,
        ensures
            multi@ == Seq::new(regions@.len(), |i: int| regions@[i]@),
            multi.mapped_size() == aligned_up(index_size as int, DEVICE_ALIGN as int),
    {
        MultiMmap { size: device_map_len(index_size), regions }
    }

    /// The mapped size.
    pub fn len(&self) -> (len: usize)
        ensures
            len == self.mapped_size(),
    {
        self.size
    }

    /// How many devices there are.
    pub fn num_devices(&self) -> (num: usize)
        ensures
            num == self@.len(),
    {
        self.regions.len()
    }

    /// The bytes of the device from which a node is read.
    pub fn device_bytes(&self, node_id: u32) -> (bytes: &[u8])
        requires
            self@.len() > 0,
        ensures
            bytes@ == self@[device_of(node_id, self@.len())],
    {
        let device: usize = node_id as usize % self.regions.len();
        self.regions[device].bytes()
    }

    /// The bytes of a device from an offset on, for a node.
    pub fn ptr_at(&self, offset: usize, node_id: u32) -> (tail: &[u8])
        requires
            self@.len() > 0,
            offset <= self@[device_of(node_id, self@.len())].len(),
        ensures
            ({
                let bytes = self@[device_of(node_id, self@.len())];
                tail@ == bytes.subrange(offset as int, bytes.len() as int)
            }),
    {
        let bytes = self.device_bytes(node_id);
        slice_subrange(bytes, offset, bytes.len())
    }
}

/// The nodes of an index that several devices hold.
pub struct DeviceTable {
    pub devices: Seq<Seq<u8>>,
    pub layout: NodeLayout,
    /// Bytes of a vector.
    pub vector_bytes: int,
    /// Bytes from the start of a record to its neighbor list.
    pub list_at: int,
    pub max_degree: int,
}

impl DeviceTable {
    /// The bytes of the device from which a node is read.
    pub open spec fn bytes(self, id: u32) -> Seq<u8> {
        self.devices[device_of(id, self.devices.len())]
    }

    /// Where the record of a node starts.
    pub open spec fn at(self, id: u32) -> int {
        self.layout.node_offset(id as int)
    }

    /// Whether the vector of a node can be read.
    pub open spec fn has_vector(self, id: u32) -> bool {
        &&& self.devices.len() > 0
        &&& self.at(id) + self.vector_bytes <= self.bytes(id).len()
    }

    /// Whether the neighbor list of a node can be read.
    pub open spec fn has_list(self, id: u32) -> bool {
        &&& self.devices.len() > 0
        &&& adjacency_within(self.bytes(id), self.at(id) + self.list_at, self.max_degree)
    }

    /// Whether all of a node can be read.
    pub open spec fn has_node(self, id: u32) -> bool {
        self.has_vector(id) && self.has_list(id)
    }

    /// The bytes of a node's vector.
    pub open spec fn vector(self, id: u32) -> Seq<u8> {
        self.bytes(id).subrange(self.at(id), self.at(id) + self.vector_bytes)
    }

    /// The neighbors of a node.
    pub open spec fn adjacency(self, id: u32) -> Seq<u32> {
        adjacency_at(self.bytes(id), self.at(id) + self.list_at, self.max_degree)
    }
}

/// An index whose nodes are read from several devices in turn.
pub struct MultiDeviceIndex {
    multi: MultiMmap,
    offsets: NodeOffsetCalculator,
    dims: usize,
    max_degree: usize,
    src_vec_bytes: usize,
    elem_size: usize,
}

/// Bytes of a vector as it stands on a device: bytes for one-byte elements, else `f32`.
pub open spec fn device_vector_bytes(dims: usize, elem_size: usize) -> int {
    if elem_size == 1 {
        dims as int
    } else {
        dims * 4
    }
}

impl View for MultiDeviceIndex {
    type V = DeviceTable;

    closed spec fn view(&self) -> DeviceTable {
        DeviceTable {
            devices: self.multi@,
            layout: self.offsets@,
            vector_bytes: device_vector_bytes(self.dims, self.elem_size),
            list_at: self.src_vec_bytes as int,
            max_degree: self.max_degree as int,
        }
    }
}

impl MultiDeviceIndex {
    /// The mapped size, which is the same for all devices.
    pub closed spec fn mapped_size(self) -> usize {
        self.multi.mapped_size()
    }

    /// An index over copies on several devices.
    pub fn new(
        multi: MultiMmap,
        offsets: NodeOffsetCalculator,
        dims: usize,
        max_degree: usize,
        src_vec_bytes: usize,
        elem_size: usize,
    ) -> (index: Self)
        ensures
            index@ == (DeviceTable {
                devices: multi@,
                layout: offsets@,
                vector_bytes: device_vector_bytes(dims, elem_size),
                list_at: src_vec_bytes as int,
                max_degree: max_degree as int,
            }),
            index.mapped_size() == multi.mapped_size(),
    {
        MultiDeviceIndex { multi, offsets, dims, max_degree, src_vec_bytes, elem_size }
    }

    /// The maps below the index.
    pub fn devices(&self) -> (multi: &MultiMmap)
        ensures
            multi@ == self@.devices,
            multi.mapped_size() == self.mapped_size(),
    {
        &self.multi
    }

    /// Whether the vector of a node can be read from the device that serves it.
    pub fn has_vector(&self, id: u32) -> (there: bool)
        ensures
            there == self@.has_vector(id),
    {
        if self.multi.num_devices() == 0 {
            return false;
        }
        let bytes = self.multi.device_bytes(id);
        assert(bytes@.len() == bytes.len());
        match self.offsets.checked_node_offset(id) {
            None => false,
            Some(from) => {
                let vector: u128 = if self.elem_size == 1 {
                    self.dims as u128
                } else {
                    self.dims as u128 * 4
                };
                from as u128 + vector <= bytes.len() as u128
            },
        }
    }

    /// Whether the neighbor list of a node can be read from the device that serves it.
    pub fn has_list(&self, id: u32) -> (there: bool)
        ensures
            there == self@.has_list(id),
    {
        if self.multi.num_devices() == 0 {
            return false;
        }
        let bytes = self.multi.device_bytes(id);
        assert(bytes@.len() == bytes.len());
        match self.offsets.checked_node_offset(id) {
            None => false,
            Some(from) => adjacency_fits(bytes, from, self.src_vec_bytes, self.max_degree),
        }
    }

    /// The bytes of a node's vector, from the device that serves the node.
    pub fn vector_bytes(&self, id: u32) -> (vector: &[u8])
        requires
            self@.has_vector(id),
        ensures
            vector@ == self@.vector(id),
    {
        let bytes = self.multi.device_bytes(id);
        assert(bytes@.len() == bytes.len());
        let offset: usize = self.offsets.node_offset(id);
        let len: usize = if self.elem_size == 1 {
            self.dims
        } else {
            self.dims * 4
        };
        slice_subrange(bytes, offset, offset + len)
    }

    /// The neighbors of a node, from the device that serves the node.
    pub fn get_neighbors(&self, id: u32) -> (neighbors: Vec<u32>)
        requires
            self@.has_list(id),
        ensures
            neighbors@ == self@.adjacency(id),
    {
        let bytes = self.multi.device_bytes(id);
        assert(bytes@.len() == bytes.len());
        let offset: usize = self.offsets.node_offset(id);
        read_adjacency(bytes, offset + self.src_vec_bytes, self.max_degree)
    }
}

/// Nodes go round the devices: neighbors in the numbering are served by neighboring devices,
/// and each device serves every `num_devices`-th node.
pub proof fn law_devices_take_turns(id: u32, num_devices: nat)
    requires
        num_devices > 0,
        id + num_devices <= u32::MAX,
    ensures
        0 <= device_of(id, num_devices) < num_devices,
        device_of((id + 1) as u32, num_devices) == if device_of(id, num_devices) + 1 == num_devices {
            0
        } else {
            device_of(id, num_devices) + 1
        },
        device_of((id + num_devices) as u32, num_devices) == device_of(id, num_devices),
{
    let n = num_devices as int;
    let r = id as int % n;
    let q = id as int / n;
    vstd::arithmetic::div_mod::lemma_fundamental_div_mod(id as int, n);
    assert(q * n == n * q) by (nonlinear_arith);
    if r + 1 == n {
        assert((q + 1) * n == q * n + n) by (nonlinear_arith);
        vstd::arithmetic::div_mod::lemma_fundamental_div_mod_converse(id + 1, n, q + 1, 0);
    } else {
        vstd::arithmetic::div_mod::lemma_fundamental_div_mod_converse(id + 1, n, q, r + 1);
    }
    assert((q + 1) * n == q * n + n) by (nonlinear_arith);
    vstd::arithmetic::div_mod::lemma_fundamental_div_mod_converse(id + n, n, q + 1, r);
}

impl NodeSource for MultiDeviceIndex {
    open spec fn sound(&self) -> bool {
        true
    }

    open spec fn has_payload(&self, id: u32) -> bool {
        self@.has_vector(id)
    }

    open spec fn has_list(&self, id: u32) -> bool {
        self@.has_list(id)
    }

    open spec fn payload(&self, id: u32) -> Seq<u8> {
        self@.vector(id)
    }

    open spec fn adjacency(&self, id: u32) -> Seq<u32> {
        self@.adjacency(id)
    }

    fn payload_fits(&self, id: u32) -> (fits: bool) {
        self.has_vector(id)
    }

    fn list_fits(&self, id: u32) -> (fits: bool) {
        self.has_list(id)
    }

    fn payload_bytes(&self, id: u32) -> (bytes: &[u8]) {
        self.vector_bytes(id)
    }

    fn neighbors(&self, id: u32) -> (list: Vec<u32>) {
        self.get_neighbors(id)
    }
}

/// Best-first search over an index on several devices.
pub fn multi_device_search<F: Fn(&[u8]) -> u32>(
    idx: &MultiDeviceIndex,
    score: &F,
    k: usize,
    sl: usize,
    np: usize,
) -> (result: (Vec<u32>, u32, u32))
    requires
        idx.sound(),
        is_scoring(*score, *idx),
        can_search(*idx, SearchSpace::of(*idx, *score, np as nat), sl as nat),
    ensures
        ({
            let space = SearchSpace::of(*idx, *score, np as nat);
            let visited = space.visits(sl as nat);
            &&& result.0@ == space.nearest(visited, k as int)
            &&& result.1 == space.comparisons(visited)
            &&& result.2 == result.1
        }),
{
    scored_search(idx, score, k, sl, np)
}

/// Where all devices hold the same bytes, it does not matter which of them serves a node: the
/// nodes are those of a single map of these bytes.
pub proof fn law_copies_agree(table: DeviceTable, single: NodeTable, id: u32)
    requires
        table.devices.len() > 0,
        forall|i: int| 0 <= i < table.devices.len() ==> #[trigger] table.devices[i] == single.bytes,
        table.layout == single.layout,
        table.vector_bytes == single.vector_bytes,
        table.list_at == single.vector_bytes,
        table.max_degree == single.max_degree,
        single.vector_bytes >= 0,
    ensures
        table.vector(id) == single.vector(id),
        table.adjacency(id) == single.adjacency(id),
        single.max_degree >= 0 ==> table.has_node(id) == single.has_node(id),
{
    assert(table.bytes(id) == table.devices[device_of(id, table.devices.len())]);
}

/// A search over copies on several devices visits, counts and gives what a search over a single
/// map does.
pub proof fn law_engines_agree<T, F: Fn(&[u8]) -> u32>(
    index: MultiDeviceIndex,
    provider: CxlVertexProvider<T>,
    score: F,
    num_points: nat,
    n: nat,
    k: int,
)
    requires
        index@.devices.len() > 0,
        forall|i: int|
            0 <= i < index@.devices.len() ==> #[trigger] index@.devices[i] == provider@.bytes,
        index@.layout == provider@.layout,
        index@.vector_bytes == provider@.vector_bytes,
        index@.list_at == provider@.vector_bytes,
        index@.max_degree == provider@.max_degree,
        provider@.vector_bytes >= 0,
    ensures
        ({
            let many = SearchSpace::of(index, score, num_points);
            let one = SearchSpace::of(provider, score, num_points);
            &&& many.visits(n) == one.visits(n)
            &&& many.comparisons(many.visits(n)) == one.comparisons(one.visits(n))
            &&& many.nearest(many.visits(n), k) == one.nearest(one.visits(n), k)
        }),
{
    let many = SearchSpace::of(index, score, num_points);
    let one = SearchSpace::of(provider, score, num_points);
    assert forall|id: u32| id == 0 || id < num_points implies #[trigger] same_node(
        many,
        one,
        id,
    ) by {
        law_copies_agree(index@, provider@, id);
    }
    law_search_is_determined(many, one, n, k);
}

/// A node is read from the device whose number is its own, modulo the number of devices: the
/// vector from the start of its record on, and the neighbor list at its place in the record.
pub proof fn law_devices_serve_their_nodes(table: DeviceTable, id: u32)
    requires
        table.devices.len() > 0,
        table.vector_bytes >= 0,
        table.list_at >= 0,
        table.max_degree >= 0,
        table.layout.node_offset(id as int) >= 0,
    ensures
        ({
            let bytes = table.devices[id as int % table.devices.len() as int];
            let start = table.layout.node_offset(id as int);
            let count_at = start + table.list_at;
            &&& table.has_vector(id) <==> start + table.vector_bytes <= bytes.len()
            &&& table.has_vector(id) ==> table.vector(id).len() == table.vector_bytes
            &&& forall|b: int|
                table.has_vector(id) && 0 <= b < table.vector_bytes ==> #[trigger] table.vector(
                    id,
                )[b] == bytes[start + b]
            &&& table.has_list(id) <==> count_at + 4 <= bytes.len() && count_at + 4 + 4
                * table.adjacency(id).len() <= bytes.len()
            &&& u32_at(bytes, count_at) <= table.max_degree ==> table.adjacency(id).len()
                == u32_at(bytes, count_at)
            &&& u32_at(bytes, count_at) > table.max_degree ==> table.adjacency(id).len()
                == table.max_degree
            &&& forall|j: int|
                0 <= j < table.adjacency(id).len() ==> #[trigger] table.adjacency(id)[j] == u32_at(
                    bytes,
                    count_at + 4 + 4 * j,
                )
        }),
{
    law_lists_follow_their_count(
        table.bytes(id),
        table.layout.node_offset(id as int) + table.list_at,
        table.max_degree,
    );
}

/// On a device a vector of one-byte elements takes up a byte per element, any other four.
pub proof fn law_device_vectors_take_their_elements(dims: usize, elem_size: usize)
    ensures
        elem_size == 1 ==> device_vector_bytes(dims, elem_size) == dims,
        elem_size != 1 ==> device_vector_bytes(dims, elem_size) == 4 * dims,
{
}

/// A path names a DAX device where `/dev/dax` stands somewhere in it.
pub proof fn law_dax_devices_are_told_by_their_path(front: Seq<char>, back: Seq<char>)
    ensures
        is_devdax_text(front + "/dev/dax"@ + back),
        forall|path: Seq<char>| #[trigger]
            is_devdax_text(path) ==> exists|at: int|
                0 <= at && at + "/dev/dax"@.len() <= path.len() && #[trigger] path.subrange(
                    at,
                    at + "/dev/dax"@.len(),
                ) == "/dev/dax"@,
{
    let key = "/dev/dax"@;
    let text = front + key + back;
    assert(text.subrange(front.len() as int, (front.len() + key.len()) as int) =~= key);
    assert(stands_at(text, key, front.len() as int));
    assert forall|path: Seq<char>| #[trigger] is_devdax_text(path) implies exists|at: int|
        0 <= at && at + key.len() <= path.len() && #[trigger] path.subrange(at, at + key.len())
            == key by {
        let at = choose|at: int| stands_at(path, key, at);
        assert(path.subrange(at, at + key.len()) == key);
    }
}

/// The length that is mapped of a device is the least multiple of 2 MiB that holds the index.
pub proof fn law_device_maps_are_whole_pieces(index_size: usize)
    ensures
        aligned_up(index_size as int, DEVICE_ALIGN as int) % 2_097_152 == 0,
        index_size <= aligned_up(index_size as int, DEVICE_ALIGN as int) < index_size + 2_097_152,
{
    law_aligned_up_is_least_multiple(index_size as int, 2_097_152);
}

/// A search over devices scores a node by its own vector, and goes to its own neighbors.
pub proof fn law_device_indexes_are_searched_by_their_nodes(index: MultiDeviceIndex, id: u32)
    ensures
        NodeSource::has_payload(&index, id) <==> index@.has_vector(id),
        NodeSource::has_list(&index, id) <==> index@.has_list(id),
        NodeSource::payload(&index, id) == index@.vector(id),
        NodeSource::adjacency(&index, id) == index@.adjacency(id),
{
}

} // verus!

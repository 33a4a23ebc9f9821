//! Read-only mapped memory.

use memmap2::Mmap;
use vstd::prelude::*;

verus! {

/// A memory map of the `memmap2` crate.
#[verifier::external_type_specification]
#[verifier::external_body]
pub struct ExMmap(memmap2::Mmap);

/// The bytes of a memory map. A map of a file is taken to keep its bytes: that nobody changes
/// the file underneath is what `memmap2` asks of the one who maps it.
pub uninterp spec fn mapped_bytes(map: Mmap) -> Seq<u8>;

/// Calls `<Mmap as AsRef<[u8]>>::as_ref`: the slice that it hands out is the whole of the
/// map, so its contents are the map's bytes.
#[verifier::external_body]
fn map_slice(map: &Mmap) -> (bytes: &[u8])
    ensures
        bytes@ == mapped_bytes(*map),
{
    map.as_ref()
}

/// A region of memory that is mapped read-only for as long as the value lives.
pub struct MappedRegion {
    map: Mmap,
}

impl View for MappedRegion {
    type V = Seq<u8>;

    closed spec fn view(&self) -> Seq<u8> {
        mapped_bytes(self.map)
    }
}

impl MappedRegion {
    /// Takes over a memory map.
    pub fn new(map: Mmap) -> (region: Self)
        ensures
            region@ == mapped_bytes(map),
    {
        MappedRegion { map }
    }

    /// The whole region.
    pub fn bytes(&self) -> (bytes: &[u8])
        ensures
            bytes@ == self@,
    {
        map_slice(&self.map)
    }

    /// Size of the region in bytes.
    pub fn len(&self) -> (len: usize)
        ensures
            len == self@.len(),
    {
        map_slice(&self.map).len()
    }
}

} // verus!

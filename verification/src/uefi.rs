//! Models of the firmware-facing records that the allocator consumes: the
//! memory-map descriptors handed over by boot services, and the status and
//! memory-type classifications they carry. Acquiring the map from firmware is
//! I/O and lives outside this library; here the map is plain data.

use vstd::prelude::*;

verus! {

/// Status code returned by firmware services.
#[derive(Debug, PartialEq, Eq, Copy, Clone, Structural)]
#[must_use]
pub enum EfiStatus {
    Success,
}

/// Usability classification of a memory-map descriptor. Only
/// `CONVENTIONAL_MEMORY` (general-purpose usable RAM) is consumed by the
/// allocator; every other classification is ignored.
#[derive(Debug, Clone, Copy, PartialEq, Eq, Structural)]
#[allow(non_camel_case_types)]
pub enum EfiMemoryType {
    RESERVED,
    LOADER_CODE,
    LOADER_DATA,
    BOOT_SERVICES_CODE,
    BOOT_SERVICES_DATA,
    RUNTIME_SERVICES_CODE,
    RUNTIME_SERVICES_DATA,
    CONVENTIONAL_MEMORY,
    UNUSABLE_MEMORY,
    ACPI_RECLAIM_MEMORY,
    ACIP_MEMORY_NVS,
    MEMORY_MAPPED_IO,
    MEMORY_MAPPED_IO_PORT_SPACE,
    PAL_CODE,
    PERSISTENT_MEMORY,
}

/// One record of the firmware memory map: a usability classification, a
/// starting physical address, and an extent in 4096-byte pages.
#[derive(Clone, Copy, PartialEq, Eq, Structural, Debug)]
pub struct EfiMemoryDescriptor {
    pub memory_type: EfiMemoryType,
    pub physical_start: u64,
    pub virtual_start: u64,
    pub number_of_pages: u64,
    pub attribute: u64,
}

impl EfiMemoryDescriptor {
    /// A descriptor from its fields.
    pub fn new(
        memory_type: EfiMemoryType,
        physical_start: u64,
        virtual_start: u64,
        number_of_pages: u64,
        attribute: u64,
    ) -> (r: EfiMemoryDescriptor)
        ensures
            r == (EfiMemoryDescriptor {
                memory_type,
                physical_start,
                virtual_start,
                number_of_pages,
                attribute,
            }),
    {
        EfiMemoryDescriptor { memory_type, physical_start, virtual_start, number_of_pages, attribute }
    }

    /// The descriptor's usability classification.
    pub fn memory_type(&self) -> (r: EfiMemoryType)
        ensures
            r == self.memory_type,
    {
        self.memory_type
    }

    /// The descriptor's extent in pages.
    pub fn number_of_pages(&self) -> (r: u64)
        ensures
            r == self.number_of_pages,
    {
        self.number_of_pages
    }

    /// The descriptor's starting physical address.
    pub fn physical_start(&self) -> (r: u64)
        ensures
            r == self.physical_start,
    {
        self.physical_start
    }
}

/// Holds one acquired memory map as a sequence of descriptors. The firmware
/// fills a raw byte buffer; decoding that buffer is the boot code's business,
/// and what arrives here is the decoded records.
pub struct MemoryMapHolder {
    descriptors: Vec<EfiMemoryDescriptor>,
}

impl View for MemoryMapHolder {
    type V = Seq<EfiMemoryDescriptor>;

    closed spec fn view(&self) -> Seq<EfiMemoryDescriptor> {
        self.descriptors@
    }
}

impl MemoryMapHolder {
    /// An empty holder, ready to receive a map.
    pub fn new() -> (r: MemoryMapHolder)
        ensures
            r@ =~= Seq::<EfiMemoryDescriptor>::empty(),
    {
        MemoryMapHolder { descriptors: Vec::new() }
    }

    /// Appends one decoded descriptor to the map.
    pub fn add_descriptor(&mut self, d: EfiMemoryDescriptor)
        ensures
            final(self)@ =~= old(self)@.push(d),
    {
        self.descriptors.push(d);
    }

    /// Number of descriptors in the map.
    pub fn len(&self) -> (r: usize)
        ensures
            r == self@.len(),
    {
        self.descriptors.len()
    }

    /// The descriptor at position `i`.
    pub fn descriptor_at(&self, i: usize) -> (r: &EfiMemoryDescriptor)
        requires
            i < self@.len(),
        ensures
            *r == self@[i as int],
    {
        &self.descriptors[i]
    }

    /// A cursor over the map's descriptors, starting at the first.
    pub fn iter(&self) -> (r: MemoryMapIterator<'_>)
        ensures
            r.map@ == self@,
            r.ofs == 0,
    {
        MemoryMapIterator { map: self, ofs: 0 }
    }
}

impl Default for MemoryMapHolder {
    /// An empty holder, as `new` builds it.
    fn default() -> (r: Self)
        ensures
            r@ =~= Seq::<EfiMemoryDescriptor>::empty(),
    {
        MemoryMapHolder::new()
    }
}

/// A cursor over a memory map's descriptors.
pub struct MemoryMapIterator<'a> {
    pub map: &'a MemoryMapHolder,
    pub ofs: usize,
}

impl<'a> MemoryMapIterator<'a> {
    /// The descriptor under the cursor, advancing past it; `None` once the
    /// map is exhausted.
    pub fn next(&mut self) -> (r: Option<&'a EfiMemoryDescriptor>)
        ensures
            final(self).map == old(self).map,
            old(self).ofs < old(self).map@.len() ==> {
                &&& final(self).ofs == old(self).ofs + 1
                &&& r matches Some(d) && *d == old(self).map@[old(self).ofs as int]
            },
            old(self).ofs >= old(self).map@.len() ==> {
                &&& final(self).ofs == old(self).ofs
                &&& r is None
            },
    {
        if self.ofs >= self.map.len() {
            None
        } else {
            let e = self.map.descriptor_at(self.ofs);
            self.ofs = self.ofs + 1;
            Some(e)
        }
    }
}

} // verus!

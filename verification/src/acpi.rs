//! Models of the ACPI records the runtime reads: system description table
//! headers, the XSDT directory of tables, and the HPET descriptor's generic
//! address. Discovering these tables in firmware memory is raw-pointer work
//! that lives outside this library; here each table is plain data.

use vstd::prelude::*;

verus! {

/// Common header of every ACPI system description table: a four-byte
/// signature and the table's total byte length.
#[derive(Clone, Copy, Debug)]
pub struct SystemDescriptionTableHeader {
    pub signature: [u8; 4],
    pub length: u32,
}

/// Byte footprint of a system description table header (signature, length and
/// reserved fields).
pub const DESCRIPTION_HEADER_SIZE: usize = 36;

/// Byte footprint of one XSDT directory entry (a 64-bit table pointer).
pub const XSDT_ENTRY_SIZE: usize = 8;

/// The two four-byte signatures match.
pub fn signatures_match(a: &[u8; 4], b: &[u8; 4]) -> (r: bool)
    ensures
        r == (a@ =~= b@),
{
    let r = a[0] == b[0] && a[1] == b[1] && a[2] == b[2] && a[3] == b[3];
    proof {
        if r {
            assert(a@ =~= b@);
        } else {
            assert(!(a@ =~= b@));
        }
    }
    r
}

impl SystemDescriptionTableHeader {
    /// A header from its fields.
    pub fn new(signature: [u8; 4], length: u32) -> (r: SystemDescriptionTableHeader)
        ensures
            r.signature@ =~= signature@,
            r.length == length,
    {
        SystemDescriptionTableHeader { signature, length }
    }

    /// Checked claim that this table carries the expected signature; a
    /// mismatch means the caller is reading the wrong table, which is a
    /// caller contract violation excluded here by precondition.
    pub fn expect_signature(&self, sig: &[u8; 4])
        requires
            self.signature@ =~= sig@,
    {
    }

    /// The table's signature.
    pub fn signature(&self) -> (r: &[u8; 4])
        ensures
            r@ =~= self.signature@,
    {
        &self.signature
    }
}

/// The Extended System Description Table: the directory that lists every
/// other system description table. Its own length field determines how many
/// directory entries follow the header.
pub struct Xsdt {
    pub header: SystemDescriptionTableHeader,
    pub entries: Vec<SystemDescriptionTableHeader>,
}

impl Xsdt {
    /// The directory is consistent: its length field accounts for exactly the
    /// header plus one entry slot per listed table.
    pub open spec fn wf(&self) -> bool {
        &&& self.header.length >= DESCRIPTION_HEADER_SIZE
        &&& self.entries@.len() == (self.header.length - DESCRIPTION_HEADER_SIZE as int) / (
        XSDT_ENTRY_SIZE as int)
    }

    /// A directory over the given tables, with a consistent length field.
    pub fn new(entries: Vec<SystemDescriptionTableHeader>) -> (r: Xsdt)
        requires
            DESCRIPTION_HEADER_SIZE + entries@.len() * XSDT_ENTRY_SIZE <= u32::MAX,
        ensures
            r.wf(),
            r.entries@ =~= entries@,
            r.header.length == DESCRIPTION_HEADER_SIZE + entries@.len() * XSDT_ENTRY_SIZE,
            r.header.signature@ =~= xsdt_signature(),
    {
        let n = entries.len();
        let length: u32 = (DESCRIPTION_HEADER_SIZE + n * XSDT_ENTRY_SIZE) as u32;
        let signature: [u8; 4] = [88, 83, 68, 84];
        let r = Xsdt { header: SystemDescriptionTableHeader { signature, length }, entries };
        proof {
            vstd::arithmetic::div_mod::lemma_div_by_multiple(n as int, XSDT_ENTRY_SIZE as int);
            assert(signature@ =~= xsdt_signature());
        }
        r
    }

    /// Byte footprint of the directory's own header.
    pub fn header_size(&self) -> (r: usize)
        ensures
            r == DESCRIPTION_HEADER_SIZE,
    {
        DESCRIPTION_HEADER_SIZE
    }

    /// Number of directory entries, derived from the length field.
    pub fn num_of_entiries(&self) -> (r: usize)
        requires
            self.wf(),
        ensures
            r == self.entries@.len(),
    {
        ((self.header.length as usize) - self.header_size()) / XSDT_ENTRY_SIZE
    }

    /// The first listed table carrying the given signature, or `None` when no
    /// listed table carries it.
    pub fn find_table(&self, sig: &[u8; 4]) -> (r: Option<&SystemDescriptionTableHeader>)
        requires
            self.wf(),
        ensures
            r is Some <==> exists|i: int|
                0 <= i < self.entries@.len() && (#[trigger] self.entries@[i]).signature@ =~= sig@,
            r matches Some(h) ==> exists|i: int|
                {
                    &&& 0 <= i < self.entries@.len()
                    &&& *h == #[trigger] self.entries@[i]
                    &&& h.signature@ =~= sig@
                    &&& forall|j: int| 0 <= j < i ==> !((#[trigger] self.entries@[j]).signature@ =~= sig@)
                },
    {
        let mut it = self.iter();
        loop
            invariant
                self.wf(),
                it.table == self,
                it.index <= self.entries@.len(),
                forall|j: int|
                    0 <= j < it.index ==> !((#[trigger] self.entries@[j]).signature@ =~= sig@),
            decreases self.entries@.len() - it.index,
        {
            let ghost at = it.index;
            match it.next() {
                Some(h) => {
                    if signatures_match(h.signature(), sig) {
                        proof {
                            assert(*h == self.entries@[at as int]);
                        }
                        return Some(h);
                    }
                },
                None => {
                    return None;
                },
            }
        }
    }

    /// A cursor over the directory's entries, starting at the first.
    pub fn iter(&self) -> (r: XsdtIterator<'_>)
        ensures
            r.table == self,
            r.index == 0,
    {
        XsdtIterator::new(self)
    }
}

/// A cursor over an XSDT's directory entries.
pub struct XsdtIterator<'a> {
    pub table: &'a Xsdt,
    pub index: usize,
}

impl<'a> XsdtIterator<'a> {
    /// A cursor at the first entry of the directory.
    pub fn new(table: &'a Xsdt) -> (r: Self)
        ensures
            r.table == table,
            r.index == 0,
    {
        XsdtIterator { table, index: 0 }
    }

    /// The entry under the cursor, advancing past it; `None` once the
    /// directory is exhausted.
    pub fn next(&mut self) -> (r: Option<&'a SystemDescriptionTableHeader>)
        requires
            old(self).table.wf(),
        ensures
            final(self).table == old(self).table,
            old(self).index < old(self).table.entries@.len() ==> {
                &&& final(self).index == old(self).index + 1
                &&& r matches Some(h) && *h == old(self).table.entries@[old(self).index as int]
            },
            old(self).index >= old(self).table.entries@.len() ==> {
                &&& final(self).index == old(self).index
                &&& r is None
            },
    {
        if self.index >= self.table.num_of_entiries() {
            None
        } else {
            self.index = self.index + 1;
            Some(&self.table.entries[self.index - 1])
        }
    }
}

/// An ACPI generic address: which address space a register block lives in,
/// and its address there.
#[derive(Clone, Copy, Debug)]
pub struct GenericAddress {
    pub address_space_id: u8,
    pub address: u64,
}

impl GenericAddress {
    /// A generic address from its fields.
    pub fn new(address_space_id: u8, address: u64) -> (r: GenericAddress)
        ensures
            r.address_space_id == address_space_id,
            r.address == address,
    {
        GenericAddress { address_space_id, address }
    }

    /// The address, provided it designates system memory (address space 0);
    /// an address in any other space is reported as an error.
    pub fn address_in_memory_space(&self) -> (r: Result<usize, &'static str>)
        ensures
            self.address_space_id == 0 ==> r == Ok::<usize, &'static str>(self.address as usize),
            self.address_space_id != 0 ==> (r matches Err(e) && e@ =~= "ACPI Generic Address is not in system memory space"@),
    {
        if self.address_space_id == 0 {
            Ok(self.address as usize)
        } else {
            Err("ACPI Generic Address is not in system memory space")
        }
    }
}

/// The ACPI HPET description table: the header plus the generic address of
/// the HPET register block.
#[derive(Clone, Copy, Debug)]
pub struct AcpiHpetDescriptor {
    pub header: SystemDescriptionTableHeader,
    pub address: GenericAddress,
}

impl AcpiHpetDescriptor {
    /// A descriptor from its fields.
    pub fn new(header: SystemDescriptionTableHeader, address: GenericAddress) -> (r:
        AcpiHpetDescriptor)
        ensures
            r.header == header,
            r.address == address,
    {
        AcpiHpetDescriptor { header, address }
    }

    /// The memory address of the HPET register block, provided the table
    /// places it in system memory. Turning the address into a register
    /// reference is raw-pointer work left to the caller.
    pub fn base_address(&self) -> (r: Result<usize, &'static str>)
        ensures
            self.address.address_space_id == 0 ==> r == Ok::<usize, &'static str>(
                self.address.address as usize,
            ),
            self.address.address_space_id != 0 ==> (r matches Err(e) && e@
                =~= "ACPI Generic Address is not in system memory space"@),
    {
        self.address.address_in_memory_space()
    }
}

/// The ACPI Root System Description Pointer as handed over by firmware,
/// together with the XSDT it designates.
pub struct AcpiRsdpStruct {
    pub signature: [u8; 8],
    pub checksum: u8,
    pub oem_id: [u8; 6],
    pub rebision: u8,
    pub rsdt_address: u32,
    pub length: u32,
    pub xsdt: Xsdt,
}

impl AcpiRsdpStruct {
    /// The first HPET table listed in the XSDT, or `None` when none is
    /// listed.
    pub fn hpet(&self) -> (r: Option<&SystemDescriptionTableHeader>)
        requires
            self.xsdt.wf(),
        ensures
            r is Some <==> exists|i: int|
                0 <= i < self.xsdt.entries@.len() && (#[trigger] self.xsdt.entries@[i]).signature@
                    =~= hpet_signature(),
            r matches Some(h) ==> h.signature@ =~= hpet_signature(),
    {
        let sig: [u8; 4] = [72, 80, 69, 84];
        proof {
            assert(sig@ =~= hpet_signature());
        }
        let xsdt = &self.xsdt;
        xsdt.find_table(&sig)
    }
}

/// The four signature bytes of an HPET table, spelling "HPET".
pub open spec fn hpet_signature() -> Seq<u8> {
    seq![72u8, 80u8, 69u8, 84u8]
}

/// The four signature bytes of the XSDT, spelling "XSDT".
pub open spec fn xsdt_signature() -> Seq<u8> {
    seq![88u8, 83u8, 68u8, 84u8]
}

} // verus!

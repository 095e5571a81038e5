//! A task's address space as the memory syscalls see it: page-table
//! entries keyed by virtual page number, with their flag bits.
//!
//! Physical frames are not modelled: an entry holds only its flags.
use vstd::prelude::*;
use std::collections::HashMap;

verus! {

broadcast use vstd::std_specs::hash::group_hash_axioms;

/// Bytes in a page.
pub const PAGE_SIZE: usize = 4096;

/// Page-table entry flag: the entry maps a page.
pub const PTE_V: u8 = 1;

/// Map permission: readable.
pub const MAP_PERM_R: u8 = 2;

/// Map permission: writable.
pub const MAP_PERM_W: u8 = 4;

/// Map permission: executable.
pub const MAP_PERM_X: u8 = 8;

/// Map permission: accessible from user mode.
pub const MAP_PERM_U: u8 = 16;

/// The virtual page that holds address `va`.
pub open spec fn vpn_floor(va: usize) -> int {
    va as int / PAGE_SIZE as int
}

/// The first virtual page that starts at or after address `va`.
pub open spec fn vpn_ceil(va: usize) -> int {
    (va as int + PAGE_SIZE as int - 1) / PAGE_SIZE as int
}

/// `va` is the first byte of a page.
pub open spec fn is_page_aligned(va: usize) -> bool {
    va % PAGE_SIZE == 0
}

/// The page number of the page holding `va`.
pub fn floor(va: usize) -> (vpn: usize)
    ensures
        vpn == vpn_floor(va),
{
    va / PAGE_SIZE
}

/// The page number of the first page boundary at or after `va`.
pub fn ceil(va: usize) -> (vpn: usize)
    ensures
        vpn == vpn_ceil(va),
{
    let q = va / PAGE_SIZE;
    if va % PAGE_SIZE == 0 {
        q
    } else {
        q + 1
    }
}

/// Whether `va` is page aligned.
pub fn aligned(va: usize) -> (is_aligned: bool)
    ensures
        is_aligned == is_page_aligned(va),
{
    va % PAGE_SIZE == 0
}

/// A page-table entry, reduced to its flag bits.
#[derive(Clone, Copy, Debug, PartialEq, Eq, Structural)]
pub struct PageTableEntry {
    pub flags: u8,
}

impl PageTableEntry {
    /// The entry maps a page: its valid bit, bit 0, is set.
    pub open spec fn valid(self) -> bool {
        self.flags % 2 == 1
    }

    /// The entry that maps nothing.
    pub fn empty() -> (pte: PageTableEntry)
        ensures
            pte.flags == 0,
            !pte.valid(),
    {
        PageTableEntry { flags: 0 }
    }

    /// Whether the entry maps a page.
    pub fn is_valid(&self) -> (is_valid: bool)
        ensures
            is_valid == self.valid(),
    {
        let flags = self.flags;
        assert((flags & 1u8 != 0) == (flags % 2 == 1)) by (bit_vector);
        self.flags & PTE_V != 0
    }
}

/// Every page in `[lo, hi)` has an entry, and it is valid.
pub open spec fn range_mapped(entries: Map<usize, PageTableEntry>, lo: int, hi: int) -> bool {
    forall|vpn: usize|
        lo <= vpn < hi ==> #[trigger] entries.contains_key(vpn) && entries[vpn].valid()
}

/// No page in `[lo, hi)` has a valid entry.
pub open spec fn range_unmapped(entries: Map<usize, PageTableEntry>, lo: int, hi: int) -> bool {
    forall|vpn: usize|
        lo <= vpn < hi ==> !(#[trigger] entries.contains_key(vpn) && entries[vpn].valid())
}

/// `entries` with every page in `[lo, hi)` given the entry `pte`.
pub open spec fn set_range(
    entries: Map<usize, PageTableEntry>,
    lo: int,
    hi: int,
    pte: PageTableEntry,
) -> Map<usize, PageTableEntry> {
    Map::new(
        |vpn: usize| entries.contains_key(vpn) || lo <= vpn < hi,
        |vpn: usize|
            if lo <= vpn < hi {
                pte
            } else {
                entries[vpn]
            },
    )
}

/// A task's memory set, seen through its page table.
pub struct AddressSpace {
    pub page_table: HashMap<usize, PageTableEntry>,
}

impl AddressSpace {
    /// The page-table entries, by virtual page number.
    pub open spec fn entries(&self) -> Map<usize, PageTableEntry> {
        self.page_table@
    }

    /// An address space with no page-table entries.
    pub fn new() -> (space: Self)
        ensures
            space.entries() == Map::<usize, PageTableEntry>::empty(),
    {
        AddressSpace { page_table: HashMap::new() }
    }

    /// The entry for page `vpn`, if the page table has one.
    pub fn translate(&self, vpn: usize) -> (pte: Option<PageTableEntry>)
        ensures
            pte == (if self.entries().contains_key(vpn) {
                Some(self.entries()[vpn])
            } else {
                None
            }),
    {
        match self.page_table.get(&vpn) {
            Some(pte) => Some(*pte),
            None => None,
        }
    }

    /// Map every page that `[start_va, end_va)` touches with `permission`.
    pub fn insert_framed_area(&mut self, start_va: usize, end_va: usize, permission: u8)
        ensures
            final(self).entries() == set_range(
                old(self).entries(),
                vpn_floor(start_va),
                vpn_ceil(end_va),
                PageTableEntry { flags: permission | PTE_V },
            ),
            (PageTableEntry { flags: permission | PTE_V }).valid(),
    {
        assert((permission | 1u8) % 2 == 1) by (bit_vector);
        let pte = PageTableEntry { flags: permission | PTE_V };
        let start_vpn = floor(start_va);
        let end_vpn = ceil(end_va);
        let ghost old_entries = self.entries();
        let mut vpn = start_vpn;
        while vpn < end_vpn
            invariant
                start_vpn <= vpn,
                vpn <= end_vpn || vpn == start_vpn,
                start_vpn == vpn_floor(start_va),
                end_vpn == vpn_ceil(end_va),
                self.entries() == set_range(old_entries, start_vpn as int, vpn as int, pte),
            decreases end_vpn - vpn,
        {
            self.page_table.insert(vpn, pte);
            vpn = vpn + 1;
            assert(self.entries() =~= set_range(old_entries, start_vpn as int, vpn as int, pte));
        }
        assert(self.entries() =~= set_range(old_entries, start_vpn as int, end_vpn as int, pte));
    }

    /// Unmap every page in `[start_vpn, end_vpn)`: its entry becomes empty.
    /// Unmapping a page that is not mapped is a kernel panic, so every page
    /// of the range must be mapped.
    pub fn munmap_vpn_range(&mut self, start_vpn: usize, end_vpn: usize)
        requires
            range_mapped(old(self).entries(), start_vpn as int, end_vpn as int),
        ensures
            final(self).entries() == set_range(
                old(self).entries(),
                start_vpn as int,
                end_vpn as int,
                PageTableEntry { flags: 0 },
            ),
    {
        let ghost old_entries = self.entries();
        let mut vpn = start_vpn;
        while vpn < end_vpn
            invariant
                start_vpn <= vpn,
                vpn <= end_vpn || vpn == start_vpn,
                self.entries() == set_range(
                    old_entries,
                    start_vpn as int,
                    vpn as int,
                    PageTableEntry { flags: 0 },
                ),
            decreases end_vpn - vpn,
        {
            self.page_table.insert(vpn, PageTableEntry::empty());
            vpn = vpn + 1;
            assert(self.entries() =~= set_range(
                old_entries,
                start_vpn as int,
                vpn as int,
                PageTableEntry { flags: 0 },
            ));
        }
        assert(self.entries() =~= set_range(
            old_entries,
            start_vpn as int,
            end_vpn as int,
            PageTableEntry { flags: 0 },
        ));
    }
}

} // verus!

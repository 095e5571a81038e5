use os::memory::{AddressSpace, PageTableEntry, PAGE_SIZE};
use os::process::{sys_mmap, sys_munmap};

fn flags(space: &AddressSpace, vpn: usize) -> Option<u8> {
    space.translate(vpn).map(|pte| pte.flags)
}

#[test]
fn mmap_maps_every_page_of_the_range() {
    let mut space = AddressSpace::new();
    assert_eq!(sys_mmap(&mut space, 0x1000, 0x2000, 0b011), 0);
    // valid | read | write | user
    assert_eq!(flags(&space, 1), Some(0b1_0111));
    assert_eq!(flags(&space, 2), Some(0b1_0111));
    assert_eq!(flags(&space, 0), None);
    assert_eq!(flags(&space, 3), None);
}

#[test]
fn mmap_flags_follow_prot() {
    // prot -> valid | prot << 1 | user
    for (prot, expected) in [(1usize, 0b1_0011u8), (3, 0b1_0111), (4, 0b1_1001), (5, 0b1_1011), (7, 0b1_1111)] {
        let mut space = AddressSpace::new();
        assert_eq!(sys_mmap(&mut space, 0, PAGE_SIZE, prot), 0);
        assert_eq!(flags(&space, 0), Some(expected));
        assert!(space.translate(0).unwrap().is_valid());
    }
}

#[test]
fn mmap_rounds_the_end_up_to_a_page() {
    let mut space = AddressSpace::new();
    assert_eq!(sys_mmap(&mut space, 0x4000, 1, 1), 0);
    assert!(flags(&space, 4).is_some());
    assert_eq!(flags(&space, 5), None);
    let mut space = AddressSpace::new();
    assert_eq!(sys_mmap(&mut space, 0x4000, 0x1001, 1), 0);
    assert!(flags(&space, 4).is_some());
    assert!(flags(&space, 5).is_some());
    assert_eq!(flags(&space, 6), None);
}

#[test]
fn mmap_of_zero_bytes_maps_nothing() {
    let mut space = AddressSpace::new();
    assert_eq!(sys_mmap(&mut space, 0x4000, 0, 1), 0);
    assert_eq!(flags(&space, 4), None);
}

#[test]
fn mmap_rejects_prot_it_does_not_accept() {
    for prot in [0usize, 2, 6, 8, 9, 0xff] {
        let mut space = AddressSpace::new();
        assert_eq!(sys_mmap(&mut space, 0x1000, 0x1000, prot), -1);
        assert_eq!(flags(&space, 1), None);
    }
}

#[test]
fn mmap_rejects_an_unaligned_start() {
    let mut space = AddressSpace::new();
    assert_eq!(sys_mmap(&mut space, 0x1001, 0x1000, 1), -1);
    assert_eq!(flags(&space, 1), None);
}

#[test]
fn mmap_rejects_a_range_with_a_mapped_page() {
    let mut space = AddressSpace::new();
    assert_eq!(sys_mmap(&mut space, 0x3000, 0x1000, 1), 0);
    assert_eq!(sys_mmap(&mut space, 0x1000, 0x3000, 3), -1);
    assert_eq!(flags(&space, 1), None);
    assert_eq!(flags(&space, 2), None);
    assert_eq!(flags(&space, 3), Some(0b1_0011));
    // the same range again is refused too
    assert_eq!(sys_mmap(&mut space, 0x3000, 0x1000, 7), -1);
}

#[test]
fn mmap_over_an_unmapped_entry_succeeds() {
    let mut space = AddressSpace::new();
    space.page_table.insert(2, PageTableEntry::empty());
    assert_eq!(sys_mmap(&mut space, 0x2000, 0x1000, 5), 0);
    assert_eq!(flags(&space, 2), Some(0b1_1011));
}

#[test]
fn munmap_of_unmapped_pages_fails() {
    let mut space = AddressSpace::new();
    assert_eq!(sys_munmap(&mut space, 0x1000, 0x1000), -1);
    space.page_table.insert(1, PageTableEntry::empty());
    assert_eq!(sys_munmap(&mut space, 0x1000, 0x1000), -1);
    assert_eq!(flags(&space, 1), Some(0));
}

#[test]
fn munmap_rejects_an_unaligned_start() {
    let mut space = AddressSpace::new();
    assert_eq!(sys_mmap(&mut space, 0x1000, 0x1000, 1), 0);
    assert_eq!(sys_munmap(&mut space, 0x1800, 0x100), -1);
    assert_eq!(flags(&space, 1), Some(0b1_0011));
}

#[test]
fn munmap_of_a_partly_mapped_range_changes_nothing() {
    let mut space = AddressSpace::new();
    assert_eq!(sys_mmap(&mut space, 0x1000, 0x1000, 1), 0);
    assert_eq!(sys_munmap(&mut space, 0x1000, 0x2000), -1);
    assert_eq!(flags(&space, 1), Some(0b1_0011));
}

#[test]
fn munmap_undoes_mmap() {
    let mut space = AddressSpace::new();
    assert_eq!(sys_mmap(&mut space, 0x8000, 0x1000, 1), 0);
    assert_eq!(sys_mmap(&mut space, 0x1000, 0x2000, 3), 0);
    assert_eq!(sys_munmap(&mut space, 0x1000, 0x2000), 0);
    assert_eq!(flags(&space, 1), Some(0));
    assert_eq!(flags(&space, 2), Some(0));
    assert!(!space.translate(1).unwrap().is_valid());
    assert_eq!(flags(&space, 8), Some(0b1_0011));
    // a second munmap fails, a new mmap succeeds
    assert_eq!(sys_munmap(&mut space, 0x1000, 0x2000), -1);
    assert_eq!(sys_mmap(&mut space, 0x1000, 0x2000, 7), 0);
    assert_eq!(flags(&space, 2), Some(0b1_1111));
}

#[test]
fn munmap_can_release_part_of_a_mapping() {
    let mut space = AddressSpace::new();
    assert_eq!(sys_mmap(&mut space, 0, 0x3000, 3), 0);
    assert_eq!(sys_munmap(&mut space, 0x1000, 0x1000), 0);
    assert_eq!(flags(&space, 0), Some(0b1_0111));
    assert_eq!(flags(&space, 1), Some(0));
    assert_eq!(flags(&space, 2), Some(0b1_0111));
}

#[test]
fn mmap_over_an_overlapping_range_fails() {
    let mut space = AddressSpace::new();
    assert_eq!(sys_mmap(&mut space, 0x3000, 0x2000, 1), 0);
    // overlaps the first page, the last page, and covers the whole range
    assert_eq!(sys_mmap(&mut space, 0x1000, 0x2001, 3), -1);
    assert_eq!(sys_mmap(&mut space, 0x4000, 0x3000, 7), -1);
    assert_eq!(sys_mmap(&mut space, 0x0, 0x10000, 1), -1);
    assert_eq!(flags(&space, 2), None);
    assert_eq!(flags(&space, 5), None);
    // the pages right next to it are free
    assert_eq!(sys_mmap(&mut space, 0x1000, 0x2000, 3), 0);
    assert_eq!(sys_mmap(&mut space, 0x5000, 0x1000, 3), 0);
}

#[test]
fn mmap_then_munmap_leaves_the_same_valid_pages() {
    let mut space = AddressSpace::new();
    assert_eq!(sys_mmap(&mut space, 0x7000, 0x1000, 1), 0);
    let valid_before: Vec<usize> = (0..16).filter(|v| space.translate(*v).map_or(false, |p| p.is_valid())).collect();
    assert_eq!(sys_mmap(&mut space, 0x1000, 0x3000, 5), 0);
    assert_eq!(sys_munmap(&mut space, 0x1000, 0x3000), 0);
    let valid_after: Vec<usize> = (0..16).filter(|v| space.translate(*v).map_or(false, |p| p.is_valid())).collect();
    assert_eq!(valid_before, valid_after);
}

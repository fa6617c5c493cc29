use rcore_os::address::{PhysPageNum, VirtPageNum};
use rcore_os::frame::PhysMemory;
use rcore_os::page_table::{translated_byte_buffer, PTEFlags, PageSlice, PageTable, PageTableEntry};

fn rw_user() -> PTEFlags {
    PTEFlags { bits: PTEFlags::R | PTEFlags::W | PTEFlags::U }
}

#[test]
fn entry_packs_page_number_and_flags() {
    let pte = PageTableEntry::new(PhysPageNum(0x1234), rw_user());
    assert_eq!(pte.bits, (0x1234 << 10) | 0x16);
    assert_eq!(pte.ppn(), PhysPageNum(0x1234));
    assert_eq!(pte.flags(), rw_user());
    assert!(!pte.is_valid());
    assert!(pte.readable());
    assert!(pte.writable());
    assert!(!pte.executable());
}

#[test]
fn entry_page_number_is_44_bits() {
    let pte = PageTableEntry { bits: u64::MAX };
    assert_eq!(pte.ppn(), PhysPageNum((1 << 44) - 1));
    assert_eq!(pte.flags().bits(), 0xff);
    assert!(pte.is_valid() && pte.readable() && pte.writable() && pte.executable());
}

#[test]
fn empty_entry_is_invalid() {
    let pte = PageTableEntry::empty();
    assert_eq!(pte.bits, 0);
    assert!(!pte.is_valid());
    assert_eq!(pte.flags(), PTEFlags::empty());
}

#[test]
fn flag_operations() {
    let a = PTEFlags { bits: PTEFlags::R | PTEFlags::V };
    let b = PTEFlags { bits: PTEFlags::W | PTEFlags::V };
    assert_eq!(a.union(b).bits(), 7);
    assert_eq!(a.intersection(b).bits(), 1);
    assert!(a.intersection(PTEFlags { bits: PTEFlags::X }).is_empty());
    assert_eq!(PTEFlags::from_bits(0xa5), Some(PTEFlags { bits: 0xa5 }));
}

#[test]
fn new_table_maps_nothing() {
    let mut mem = PhysMemory::new(0x80000, 8);
    let pt = PageTable::new(&mut mem);
    assert_eq!(pt.token(), 0x8000_0000_0000_0000 | 0x80000);
    assert!(pt.translate(&mem, VirtPageNum(0)).is_none());
    assert!(pt.translate(&mem, VirtPageNum(0x7ff_ffff)).is_none());
}

#[test]
fn map_then_translate_gives_back_page_and_flags() {
    let mut mem = PhysMemory::new(0x80000, 8);
    let mut pt = PageTable::new(&mut mem);
    pt.map(&mut mem, VirtPageNum(0x10), PhysPageNum(0x1234), rw_user());
    let pte = pt.translate(&mem, VirtPageNum(0x10)).unwrap();
    assert_eq!(pte.ppn(), PhysPageNum(0x1234));
    assert_eq!(pte.flags().bits(), PTEFlags::R | PTEFlags::W | PTEFlags::U | PTEFlags::V);
    assert!(pte.is_valid());
    // A neighbour in the same leaf table reaches a clear entry.
    assert_eq!(pt.translate(&mem, VirtPageNum(0x11)), Some(PageTableEntry::empty()));
    // A page under another root entry is not reached at all.
    assert!(pt.translate(&mem, VirtPageNum(1 << 18)).is_none());
}

#[test]
fn map_creates_tables_from_fresh_frames() {
    let mut mem = PhysMemory::new(0x80000, 8);
    let mut pt = PageTable::new(&mut mem);
    pt.map(&mut mem, VirtPageNum(0), PhysPageNum(0x42), rw_user());
    // root is frame 0x80000, the second-level table 0x80001, the leaf table 0x80002.
    let root_entry = PageTableEntry { bits: mem.read(PhysPageNum(0x80000), 0) };
    assert_eq!(root_entry.ppn(), PhysPageNum(0x80001));
    assert_eq!(root_entry.flags().bits(), PTEFlags::V);
    let mid_entry = PageTableEntry { bits: mem.read(PhysPageNum(0x80001), 0) };
    assert_eq!(mid_entry.ppn(), PhysPageNum(0x80002));
    let leaf = PageTableEntry { bits: mem.read(PhysPageNum(0x80002), 0) };
    assert_eq!(leaf.ppn(), PhysPageNum(0x42));
    // A second page in the same leaf table allocates nothing more.
    pt.map(&mut mem, VirtPageNum(1), PhysPageNum(0x43), rw_user());
    let next = mem.alloc_frame();
    assert_eq!(next, Some(PhysPageNum(0x80003)));
}

#[test]
fn unmap_clears_only_that_page() {
    let mut mem = PhysMemory::new(0x80000, 8);
    let mut pt = PageTable::new(&mut mem);
    pt.map(&mut mem, VirtPageNum(5), PhysPageNum(0x100), rw_user());
    pt.map(&mut mem, VirtPageNum(6), PhysPageNum(0x200), rw_user());
    pt.unmap(&mut mem, VirtPageNum(5));
    assert_eq!(pt.translate(&mem, VirtPageNum(5)), Some(PageTableEntry::empty()));
    assert_eq!(pt.translate(&mem, VirtPageNum(6)).unwrap().ppn(), PhysPageNum(0x200));
    // Mapping it again after unmapping works.
    pt.map(&mut mem, VirtPageNum(5), PhysPageNum(0x300), rw_user());
    assert_eq!(pt.translate(&mem, VirtPageNum(5)).unwrap().ppn(), PhysPageNum(0x300));
}

#[test]
fn table_from_token_sees_same_mappings() {
    let mut mem = PhysMemory::new(0x80000, 8);
    let mut pt = PageTable::new(&mut mem);
    pt.map(&mut mem, VirtPageNum(0x12345), PhysPageNum(0x777), rw_user());
    let view = PageTable::from_token(pt.token());
    assert_eq!(view.token(), pt.token());
    assert_eq!(view.translate(&mem, VirtPageNum(0x12345)), pt.translate(&mem, VirtPageNum(0x12345)));
}

#[test]
fn two_tables_share_memory_without_interfering() {
    let mut mem = PhysMemory::new(0x80000, 16);
    let mut a = PageTable::new(&mut mem);
    let mut b = PageTable::new(&mut mem);
    a.map(&mut mem, VirtPageNum(7), PhysPageNum(0xa), rw_user());
    b.map(&mut mem, VirtPageNum(7), PhysPageNum(0xb), rw_user());
    assert_eq!(a.translate(&mem, VirtPageNum(7)).unwrap().ppn(), PhysPageNum(0xa));
    assert_eq!(b.translate(&mem, VirtPageNum(7)).unwrap().ppn(), PhysPageNum(0xb));
}

#[test]
fn frames_run_out() {
    let mut mem = PhysMemory::new(0x10, 1);
    assert_eq!(mem.alloc_frame(), Some(PhysPageNum(0x10)));
    assert_eq!(mem.alloc_frame(), None);
}

#[test]
fn allocated_frames_are_cleared() {
    let mut mem = PhysMemory::new(0x10, 2);
    let f = mem.alloc_frame().unwrap();
    mem.write(f, 3, 99);
    assert_eq!(mem.read(f, 3), 99);
    let g = mem.alloc_frame().unwrap();
    assert_eq!(mem.read(g, 3), 0);
}

#[test]
fn byte_buffer_split_across_pages() {
    let mut mem = PhysMemory::new(0x80000, 8);
    let mut pt = PageTable::new(&mut mem);
    pt.map(&mut mem, VirtPageNum(1), PhysPageNum(0x100), rw_user());
    pt.map(&mut mem, VirtPageNum(2), PhysPageNum(0x200), rw_user());
    let slices = translated_byte_buffer(&mem, pt.token(), 0x1ff0, 0x20);
    assert_eq!(
        slices,
        vec![
            PageSlice { ppn: PhysPageNum(0x100), start: 0xff0, end: 0x1000 },
            PageSlice { ppn: PhysPageNum(0x200), start: 0, end: 0x10 },
        ]
    );
    let total: u64 = slices.iter().map(|s| s.end - s.start).sum();
    assert_eq!(total, 0x20);
}

#[test]
fn byte_buffer_whole_page_and_inside_page() {
    let mut mem = PhysMemory::new(0x80000, 8);
    let mut pt = PageTable::new(&mut mem);
    pt.map(&mut mem, VirtPageNum(1), PhysPageNum(0x100), rw_user());
    assert_eq!(
        translated_byte_buffer(&mem, pt.token(), 0x1000, 0x1000),
        vec![PageSlice { ppn: PhysPageNum(0x100), start: 0, end: 0x1000 }]
    );
    assert_eq!(
        translated_byte_buffer(&mem, pt.token(), 0x1010, 0x20),
        vec![PageSlice { ppn: PhysPageNum(0x100), start: 0x10, end: 0x30 }]
    );
    assert!(translated_byte_buffer(&mem, pt.token(), 0x1010, 0).is_empty());
}

#[test]
fn unmap_undoes_map() {
    let mut mem = PhysMemory::new(0x80000, 8);
    let mut pt = PageTable::new(&mut mem);
    pt.map(&mut mem, VirtPageNum(9), PhysPageNum(0x900), rw_user());
    let before: Vec<bool> = (0..16u64)
        .map(|v| pt.translate(&mem, VirtPageNum(v)).map_or(false, |e| e.is_valid()))
        .collect();
    pt.map(&mut mem, VirtPageNum(10), PhysPageNum(0xa00), rw_user());
    pt.unmap(&mut mem, VirtPageNum(10));
    let after: Vec<bool> = (0..16u64)
        .map(|v| pt.translate(&mem, VirtPageNum(v)).map_or(false, |e| e.is_valid()))
        .collect();
    assert_eq!(before, after);
    assert_eq!(pt.translate(&mem, VirtPageNum(9)).unwrap().ppn(), PhysPageNum(0x900));
}

#[test]
fn high_page_numbers_share_the_low_27_bits() {
    let mut mem = PhysMemory::new(0x80000, 8);
    let mut pt = PageTable::new(&mut mem);
    pt.map(&mut mem, VirtPageNum((1 << 27) | 3), PhysPageNum(0x33), rw_user());
    assert_eq!(pt.translate(&mem, VirtPageNum(3)).unwrap().ppn(), PhysPageNum(0x33));
}

#[test]
fn empty_buffer_needs_no_table() {
    let mem = PhysMemory::new(0, 0);
    assert!(translated_byte_buffer(&mem, 0, 0x1000, 0).is_empty());
    assert!(translated_byte_buffer(&mem, 0, 0x1234, 0).is_empty());
}

#[test]
fn byte_buffer_in_upper_half() {
    let mut mem = PhysMemory::new(0x80000, 8);
    let mut pt = PageTable::new(&mut mem);
    pt.map(&mut mem, VirtPageNum(0x400_0001), PhysPageNum(0x100), rw_user());
    pt.map(&mut mem, VirtPageNum(0x400_0002), PhysPageNum(0x200), rw_user());
    assert_eq!(
        translated_byte_buffer(&mem, pt.token(), 0xffff_ffc0_0000_1ff0, 0x20),
        vec![
            PageSlice { ppn: PhysPageNum(0x100), start: 0xff0, end: 0x1000 },
            PageSlice { ppn: PhysPageNum(0x200), start: 0, end: 0x10 },
        ]
    );
}

#[test]
fn byte_buffer_at_top_of_address_space() {
    let mut mem = PhysMemory::new(0x80000, 8);
    let mut pt = PageTable::new(&mut mem);
    pt.map(&mut mem, VirtPageNum(0x7ff_ffff), PhysPageNum(0x300), rw_user());
    assert_eq!(
        translated_byte_buffer(&mem, pt.token(), 0xffff_ffff_ffff_f000, 0xfff),
        vec![PageSlice { ppn: PhysPageNum(0x300), start: 0, end: 0xfff }]
    );
}

#[test]
fn creating_tables_twice_reuses_them() {
    let mut mem = PhysMemory::new(0x80000, 8);
    let mut pt = PageTable::new(&mut mem);
    pt.map(&mut mem, VirtPageNum(0x40), PhysPageNum(1), rw_user());
    let root_entry = mem.read(PhysPageNum(0x80000), 0);
    pt.map(&mut mem, VirtPageNum(0x41), PhysPageNum(2), rw_user());
    assert_eq!(mem.read(PhysPageNum(0x80000), 0), root_entry);
    assert_eq!(mem.alloc_frame(), Some(PhysPageNum(0x80003)));
}

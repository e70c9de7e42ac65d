//! Addresses, page tables, user memory and address spaces.
use rcore::mm::address::{PhysPageNum, VirtAddr, VirtPageNum};
use rcore::mm::entry::{PTEFlags, PageTableEntry, PTE_A, PTE_D, PTE_G, PTE_R, PTE_U, PTE_V, PTE_W, PTE_X};
use rcore::mm::memory::PhysMemory;
use rcore::mm::memory_set::MemorySet;
use rcore::mm::page_table::PageTable;
use rcore::mm::user::{
    check_not_mapped, check_walk, pa_copyto_uva, translated_byte_buffer, translated_ref, translated_refmut,
    translated_str, translated_ua2read, translated_ua2write, uva_copyto_pa, Segment,
};
use rcore::mm::user_buffer::UserBuffer;

const RW: u8 = PTE_R | PTE_W | PTE_U;

fn flags(bits: u8) -> PTEFlags {
    PTEFlags { bits }
}

/// A page table with pages 1 and 2 mapped to frames 0x80018 and 0x80011.
fn two_pages(bits: u8) -> (PhysMemory, PageTable) {
    let mut mem = PhysMemory::new(0x80000, 32);
    let mut table = PageTable::new(&mut mem);
    table.map(&mut mem, VirtPageNum(1), PhysPageNum(0x80018), flags(bits));
    table.map(&mut mem, VirtPageNum(2), PhysPageNum(0x80011), flags(bits));
    (mem, table)
}

#[test]
fn addresses_are_cut_and_extended() {
    assert_eq!(VirtAddr::from_word(0x1234).0, 0x1234);
    assert_eq!(VirtAddr::from_word(0xffff_ffff_ffff_f000).0, 0x7f_ffff_f000);
    assert_eq!(VirtAddr(0x7f_ffff_f000).to_word(), 0xffff_ffff_ffff_f000);
    assert_eq!(VirtAddr(0x3f_ffff_ffff).to_word(), 0x3f_ffff_ffff);
    assert_eq!(VirtAddr(0x40_0000_0000).to_word(), 0xffff_ffc0_0000_0000);
}

#[test]
fn pages_of_addresses() {
    assert_eq!(VirtAddr(0x1fff).floor().0, 1);
    assert_eq!(VirtAddr(0x1fff).ceil().0, 2);
    assert_eq!(VirtAddr(0x2000).ceil().0, 2);
    assert_eq!(VirtAddr(0).ceil().0, 0);
    assert_eq!(VirtAddr(0x2345).page_offset(), 0x345);
    assert!(VirtAddr(0x3000).aligned());
    assert!(!VirtAddr(0x3001).aligned());
    let page = VirtPageNum(3 * 512 * 512 + 5 * 512 + 7);
    assert_eq!(page.indexes(), [3, 5, 7]);
}

#[test]
fn entry_holds_page_and_flags() {
    let pte = PageTableEntry::new(PhysPageNum(0x80201), flags(PTE_V | PTE_W | PTE_U));
    assert_eq!(pte.bits, 0x80201 << 10 | 0b1_0101);
    assert_eq!(pte.ppn(), PhysPageNum(0x80201));
    assert_eq!(pte.flags(), flags(0b1_0101));
    assert!(pte.is_valid() && pte.writable() && pte.is_user_accessible());
    assert!(!pte.readable() && !pte.executable());
    let empty = PageTableEntry::empty();
    assert_eq!(empty.bits, 0);
    assert!(!empty.is_valid());
    let code = PageTableEntry::new(PhysPageNum(1), flags(PTE_R | PTE_X));
    assert!(code.readable() && code.executable() && !code.is_valid());
}

#[test]
fn flag_sets() {
    assert_eq!(PTEFlags::empty().bits, 0);
    assert_eq!(flags(PTE_R).union(flags(PTE_W)).bits, 6);
    assert_eq!(flags(6).intersection(flags(PTE_W | PTE_X)).bits, 4);
    assert_eq!(PTEFlags::from_bits(0xff), Some(flags(0xff)));
    assert_eq!(PTE_G | PTE_A | PTE_D, 0xe0);
}

#[test]
fn map_translate_unmap() {
    let (mut mem, mut table) = two_pages(RW);
    let pte = table.translate(&mem, VirtPageNum(1)).unwrap();
    assert_eq!(pte.ppn(), PhysPageNum(0x80018));
    assert_eq!(pte.flags(), flags(RW | PTE_V));
    assert_eq!(table.translate_va(&mem, VirtAddr(0x1234)).unwrap().0, 0x8001_8234);
    assert!(table.check_mapped_one(&mem, VirtPageNum(2)));
    assert!(!table.check_mapped_one(&mem, VirtPageNum(3)));
    // The last-level table is there, so page 3 has an entry that is not valid.
    assert_eq!(table.translate(&mem, VirtPageNum(3)), Some(PageTableEntry::empty()));
    // No table leads to page 512.
    assert_eq!(table.translate(&mem, VirtPageNum(512)), None);
    assert_eq!(table.translate_va(&mem, VirtAddr(512 * 4096)), None);
    table.unmap(&mut mem, VirtPageNum(1));
    assert!(!table.check_mapped_one(&mem, VirtPageNum(1)));
    assert_eq!(table.translate(&mem, VirtPageNum(2)).unwrap().ppn(), PhysPageNum(0x80011));
}

#[test]
fn new_table_maps_nothing() {
    let mut mem = PhysMemory::new(0x80000, 4);
    let table = PageTable::new(&mut mem);
    for vpn in [0, 1, 511, 512, 0x7ff_ffff] {
        assert_eq!(table.translate(&mem, VirtPageNum(vpn)), None);
    }
}

#[test]
fn map_takes_frames_for_tables() {
    let mut mem = PhysMemory::new(0x80000, 32);
    let mut table = PageTable::new(&mut mem);
    assert_eq!(mem.free_frames(), 31);
    assert_eq!(table.missing_tables(&mem, VirtPageNum(0)), 2);
    table.map(&mut mem, VirtPageNum(0), PhysPageNum(0x8001f), flags(RW));
    assert_eq!(mem.free_frames(), 29);
    assert_eq!(table.missing_tables(&mem, VirtPageNum(1)), 0);
    assert_eq!(table.missing_tables(&mem, VirtPageNum(512)), 1);
    table.map(&mut mem, VirtPageNum(512), PhysPageNum(0x8001e), flags(RW));
    assert_eq!(mem.free_frames(), 28);
}

#[test]
fn token_names_the_table() {
    let (mem, table) = two_pages(RW);
    assert_eq!(table.token(), 8 << 60 | 0x80000);
    let again = PageTable::from_token(table.token());
    assert_eq!(again.translate(&mem, VirtPageNum(2)).unwrap().ppn(), PhysPageNum(0x80011));
}

#[test]
fn byte_buffer_is_split_at_pages() {
    let (mem, table) = two_pages(RW);
    let v = translated_byte_buffer(&mem, table.token(), 0x1f00, 0x300);
    let want = vec![
        Segment { ppn: PhysPageNum(0x80018), start: 0xf00, end: 0x1000 },
        Segment { ppn: PhysPageNum(0x80011), start: 0, end: 0x200 },
    ];
    assert_eq!(v, want);
    assert!(translated_byte_buffer(&mem, table.token(), 0x1f00, 0).is_empty());
    let whole = translated_byte_buffer(&mem, table.token(), 0x1000, 0x1000);
    assert_eq!(whole, vec![Segment { ppn: PhysPageNum(0x80018), start: 0, end: 0x1000 }]);
}

#[test]
fn user_access_needs_permission() {
    let (mem, table) = two_pages(PTE_R | PTE_U);
    let token = table.token();
    assert!(translated_ua2read(&mem, token, 0x1ff0, 0x20).is_some());
    assert!(translated_ua2write(&mem, token, 0x1ff0, 0x20).is_none());
    // Page 3 is not mapped.
    assert!(translated_ua2read(&mem, token, 0x2ff0, 0x20).is_none());
    // No table leads to page 512.
    assert!(translated_ua2read(&mem, token, 512 * 4096, 1).is_none());
    let (mem, table) = two_pages(PTE_R | PTE_W);
    assert!(translated_ua2read(&mem, table.token(), 0x1000, 1).is_none());
    assert_eq!(translated_ua2write(&mem, table.token(), 0x1000, 0), Some(vec![]));
}

#[test]
fn denied_page_ends_a_walk_without_end() {
    // From these words no sequence of pages leads to the end of the range.
    let far = 0x1000_0000_0000_0000;
    let mut mem = PhysMemory::new(0x80000, 32);
    let empty = PageTable::new(&mut mem).token();
    assert!(translated_ua2write(&mem, empty, far, 16).is_none());
    assert!(translated_ua2read(&mem, empty, far, 16).is_none());
    assert!(!pa_copyto_uva(&mut mem, empty, &[9u8; 16], far, 16));
    let mut back = vec![5u8; 16];
    assert!(!uva_copyto_pa(&mem, empty, far, 16, &mut back));
    assert_eq!(back, vec![5u8; 16]);
    // Pages 1 and 2 can be read, page 3 cannot.
    let (mem, table) = two_pages(PTE_R | PTE_U);
    assert!(translated_ua2read(&mem, table.token(), 0x1000, (1 << 40) + 0x3000).is_none());
    assert!(translated_ua2write(&mem, table.token(), 0x1000, 1 << 40).is_none());
    // The first stretch would end before it begins.
    assert!(translated_ua2read(&mem, table.token(), 0x7fff_ffff_fff8, 16).is_none());
}

#[test]
fn walks_can_be_checked() {
    let (mem, table) = two_pages(PTE_R | PTE_U);
    let token = table.token();
    assert!(check_walk(&mem, token, 0x1ff0, 0x2010, false));
    assert!(check_walk(&mem, token, 0x3000, 0x1000, false));
    assert!(check_walk(&mem, token, 0x1000_0000_0000_0000, 0x1000_0000_0000_0010, true));
    // The walk comes back to page 1 again and again.
    assert!(!check_walk(&mem, token, 0x1000, (1 << 40) + 0x1000, false));
    // It stops at the start of page 3, which cannot be read.
    assert!(check_walk(&mem, token, 0x1000, (1 << 40) + 0x3000, false));
    // It stays in page 2, which can be read but not written.
    assert!(!check_walk(&mem, token, 0x1000, (1 << 40) + 0x2800, false));
    assert!(check_walk(&mem, token, 0x1000, (1 << 40) + 0x2800, true));
}

#[test]
fn copy_out_and_in_across_pages() {
    let (mut mem, table) = two_pages(RW);
    let token = table.token();
    let data: Vec<u8> = (1..=16).collect();
    assert!(pa_copyto_uva(&mut mem, token, &data, 0x1ff8, 16));
    let mut back = vec![0u8; 16];
    assert!(uva_copyto_pa(&mem, token, 0x1ff8, 16, &mut back));
    assert_eq!(back, data);
    // The first 8 bytes end frame 0x80018, the rest begin frame 0x80011.
    assert_eq!(mem.read_frame(PhysPageNum(0x80018), 0xff8, 0x1000), &data[..8]);
    assert_eq!(mem.read_frame(PhysPageNum(0x80011), 0, 8), &data[8..]);
}

#[test]
fn copy_stops_where_the_kernel_side_is_short() {
    let (mut mem, table) = two_pages(RW);
    let token = table.token();
    // 12 bytes fill the stretch in page 1 but not the one in page 2.
    let data = vec![7u8; 12];
    assert!(!pa_copyto_uva(&mut mem, token, &data, 0x1ff8, 16));
    assert_eq!(mem.read_frame(PhysPageNum(0x80018), 0xff8, 0x1000), &[7u8; 8]);
    assert_eq!(mem.read_frame(PhysPageNum(0x80011), 0, 8), &[0u8; 8]);
    let mut back = vec![1u8; 12];
    assert!(!uva_copyto_pa(&mem, token, 0x1ff8, 16, &mut back));
    assert_eq!(back, vec![7, 7, 7, 7, 7, 7, 7, 7, 1, 1, 1, 1]);
}

#[test]
fn refused_copy_changes_nothing() {
    let (mut mem, table) = two_pages(PTE_R | PTE_U);
    assert!(!pa_copyto_uva(&mut mem, table.token(), &[9u8; 4], 0x1000, 4));
    assert_eq!(mem.read_frame(PhysPageNum(0x80018), 0, 4), &[0u8; 4]);
    let (mem, table) = two_pages(PTE_W | PTE_U);
    let mut back = vec![5u8; 4];
    assert!(!uva_copyto_pa(&mem, table.token(), 0x1000, 4, &mut back));
    assert_eq!(back, vec![5u8; 4]);
}

#[test]
fn string_is_read_up_to_zero() {
    let (mut mem, table) = two_pages(RW);
    let token = table.token();
    assert!(pa_copyto_uva(&mut mem, token, b"hello\0rest", 0x1ffd, 10));
    assert_eq!(translated_str(&mem, token, 0x1ffd), "hello");
    assert_eq!(translated_str(&mem, token, 0x2002), "");
    // Each byte is the character with that number.
    assert!(pa_copyto_uva(&mut mem, token, &[0x61, 0xe9, 0], 0x1000, 3));
    assert_eq!(translated_str(&mem, token, 0x1000), "a\u{e9}");
}

#[test]
fn references_are_translated() {
    let (mem, table) = two_pages(RW);
    assert_eq!(translated_ref(&mem, table.token(), 0x2008).0, 0x8001_1008);
    assert_eq!(translated_refmut(&mem, table.token(), 0x1ffc).0, 0x8001_8ffc);
}

#[test]
fn stored_value_is_read_back() {
    let (mut mem, table) = two_pages(RW);
    let pa = translated_refmut(&mem, table.token(), 0x1234);
    assert!(mem.holds(pa, 4));
    mem.write_at(pa, &[4, 3, 2, 1]);
    assert_eq!(translated_ref(&mem, table.token(), 0x1234), pa);
    assert_eq!(mem.read_frame(PhysPageNum(0x80018), 0x234, 0x238), &[4, 3, 2, 1]);
}

#[test]
fn user_buffer_walks_every_byte() {
    let (mem, table) = two_pages(RW);
    let buffer = UserBuffer::new(translated_byte_buffer(&mem, table.token(), 0x1ffe, 5));
    assert_eq!(buffer.len(), 5);
    let mut bytes = buffer.into_iter();
    let mut seen = Vec::new();
    while let Some(pa) = bytes.next() {
        seen.push(pa.0);
    }
    assert_eq!(seen, vec![0x8001_8ffe, 0x8001_8fff, 0x8001_1000, 0x8001_1001, 0x8001_1002]);
    assert!(bytes.next().is_none());
    assert_eq!(UserBuffer::new(vec![]).len(), 0);
}

#[test]
fn not_mapped_is_checked_over_a_range() {
    let (mem, table) = two_pages(RW);
    let token = table.token();
    assert!(check_not_mapped(&mem, token, VirtPageNum(3), VirtPageNum(600)));
    assert!(!check_not_mapped(&mem, token, VirtPageNum(0), VirtPageNum(2)));
    assert!(check_not_mapped(&mem, token, VirtPageNum(1), VirtPageNum(1)));
}

#[test]
fn frames_come_back() {
    let mut mem = PhysMemory::new(0x80000, 2);
    let a = mem.frame_alloc().unwrap();
    let b = mem.frame_alloc().unwrap();
    assert_eq!((a.ppn.0, b.ppn.0), (0x80000, 0x80001));
    assert!(mem.frame_alloc().is_none());
    mem.write_frame(a.ppn, 0, &[1, 2, 3]);
    mem.frame_dealloc(a);
    let c = mem.frame_alloc().unwrap();
    assert_eq!(c.ppn.0, 0x80000);
    assert_eq!(mem.read_frame(c.ppn, 0, 3), &[0, 0, 0]);
    assert!(mem.is_backed(PhysPageNum(0x80001)) && !mem.is_backed(PhysPageNum(0x80002)));
}

#[test]
fn area_is_mapped_and_unmapped() {
    let mut mem = PhysMemory::new(0x80000, 16);
    let mut space = MemorySet::new_bare(&mut mem);
    assert!(space.mmap(&mut mem, VirtPageNum(4), VirtPageNum(7), flags(RW)));
    // One root, two tables, three pages.
    assert_eq!(mem.free_frames(), 10);
    assert!(!space.all_unmapped(&mem, VirtPageNum(6), VirtPageNum(9)));
    assert!(space.all_unmapped(&mem, VirtPageNum(7), VirtPageNum(9)));
    // Only exactly the pages of an area can be unmapped.
    assert!(!space.munmap(&mut mem, VirtPageNum(4), VirtPageNum(6)));
    assert!(space.munmap(&mut mem, VirtPageNum(4), VirtPageNum(7)));
    assert!(!space.munmap(&mut mem, VirtPageNum(4), VirtPageNum(7)));
    assert_eq!(mem.free_frames(), 13);
    assert!(space.all_unmapped(&mem, VirtPageNum(0), VirtPageNum(9)));
}

#[test]
fn area_that_does_not_fit_is_given_up() {
    let mut mem = PhysMemory::new(0x80000, 5);
    let mut space = MemorySet::new_bare(&mut mem);
    // Four frames are left: two tables and two of the three pages.
    assert!(!space.mmap(&mut mem, VirtPageNum(4), VirtPageNum(7), flags(RW)));
    assert!(space.all_unmapped(&mem, VirtPageNum(0), VirtPageNum(9)));
    assert_eq!(mem.free_frames(), 2);
    assert!(space.mmap(&mut mem, VirtPageNum(4), VirtPageNum(6), flags(RW)));
    assert_eq!(mem.free_frames(), 0);
}

#[test]
fn area_grows_and_shrinks() {
    let mut mem = PhysMemory::new(0x80000, 12);
    let mut space = MemorySet::new_bare(&mut mem);
    assert!(space.mmap(&mut mem, VirtPageNum(4), VirtPageNum(4), flags(RW)));
    assert!(space.append_to(&mut mem, VirtPageNum(4), VirtPageNum(6)));
    assert!(!space.all_unmapped(&mem, VirtPageNum(5), VirtPageNum(6)));
    assert!(space.shrink_to(&mut mem, VirtPageNum(4), VirtPageNum(5)));
    assert!(space.all_unmapped(&mem, VirtPageNum(5), VirtPageNum(6)));
    assert!(!space.all_unmapped(&mem, VirtPageNum(4), VirtPageNum(5)));
    // There is no area at page 9.
    assert!(!space.append_to(&mut mem, VirtPageNum(9), VirtPageNum(10)));
    assert!(!space.shrink_to(&mut mem, VirtPageNum(9), VirtPageNum(9)));
    // Page 6 is taken, so the area cannot grow over it.
    assert!(space.mmap(&mut mem, VirtPageNum(6), VirtPageNum(7), flags(RW)));
    assert!(!space.append_to(&mut mem, VirtPageNum(4), VirtPageNum(8)));
    assert!(space.munmap(&mut mem, VirtPageNum(4), VirtPageNum(5)));
}

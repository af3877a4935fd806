use os::arch::riscv64::csr::mcause::MCause;
use os::arch::riscv64::csr::satp::{decode, encode, Mode, Satp};
use os::arch::riscv64::paging::{init, virt_to_physical, Entry};
use os::arch::x86_64::framebuffer::{draw_pixel, set_pixel_in, Color, FrameInfo, PixelFormat, Position};
use os::heap::block::{BlockInfo, FreeBlockInfo, FreeBlockIter, FreePointer, Memory};
use os::util::bits::{get_bits, read_be32, read_be64, u32_from_bytes};

#[test]
fn entry_points_to_table() {
    let mut e = Entry(0);
    e.set_table(0x8040_3000);
    assert_eq!(e.0, (0x8040_3000 >> 2) | 1);
    assert_eq!(e.get_table(), 0x8040_3000);
    e.set_valid(false);
    assert_eq!(e.0, 0x8040_3000 >> 2);
    e.set_valid(true);
    assert_eq!(e.0 & 1, 1);
    e.clear();
    assert_eq!(e.0, 0);
}

#[test]
fn entry_maps_page() {
    let mut e = Entry(0xffff);
    e.set_addr(0x8000_5000);
    assert_eq!(e.0, (0x8000_5000 >> 2) | 0b1111);
    assert_eq!(e.get_addr(), 0x8000_5000);
    // Bits above 53 do not belong to the page number.
    let high = Entry((1u64 << 60) | (0x5 << 10));
    assert_eq!(high.get_addr(), 0x5000);
}

#[test]
fn init_lays_out_tables() {
    let base = 0x8020_0000u64;
    // 8 MiB: 2048 pages, four leaf tables, one second-level table.
    let (t, end) = init(8 << 20, base);
    assert_eq!(t.base, base);
    assert_eq!(t.lvl1.len(), 1);
    assert_eq!(t.lvl0.len(), 4);
    assert_eq!(t.root.entries.len(), 512);
    assert_eq!(t.root.entries[0].get_table(), base + 4096 * 4096);
    assert_eq!(t.root.entries[1].0, 0);
    let lvl0_base = base + 4096 * 4096 + 4096;
    assert_eq!(t.lvl1[0].entries[3].get_table(), lvl0_base + 3 * 4096);
    assert_eq!(t.lvl1[0].entries[4].0, 0);
    assert_eq!(t.lvl0[2].entries[7].get_addr(), (2 * 512 + 7) * 4096);
    assert_eq!(t.lvl0[3].entries[511].get_addr(), 2047 * 4096);
    assert_eq!(end, lvl0_base + 4 * 4096);
}

#[test]
fn init_with_partial_leaf_table() {
    // 600 pages: the second leaf table maps 88 of them.
    let (t, end) = init(600 * 4096 + 100, 0x1000);
    assert_eq!(t.lvl0.len(), 2);
    assert_eq!(t.lvl0[1].entries[87].get_addr(), 599 * 4096);
    assert_eq!(t.lvl0[1].entries[88].0, 0);
    assert_eq!(end, 0x1000 + 4096 * 4096 + 3 * 4096);
}

#[test]
fn virt_to_physical_is_identity_below_mem_end() {
    let (t, _) = init(8 << 20, 0x8020_0000);
    assert_eq!(virt_to_physical(&t, 0x1234), Some(0x1234));
    assert_eq!(virt_to_physical(&t, 0x7f_fabc), Some(0x7f_fabc));
    assert_eq!(virt_to_physical(&t, 0), Some(0));
    // Past the last leaf table the second-level entry is empty: no table lies at 0.
    assert_eq!(virt_to_physical(&t, 9 << 20), None);
}

#[test]
fn satp_decode_encode() {
    let v = (8u64 << 60) | (0x1234 << 44) | 0x80200;
    let s = decode(v);
    assert_eq!(s, Satp { mode: Mode::Sv39, asid: 0x1234, ppn: 0x8020_0000 });
    assert_eq!(encode(&s), v);
    let bare = Satp { mode: Mode::Bare, asid: 0, ppn: 0x8040_3000 };
    assert_eq!(encode(&bare), 0x80403);
    assert_eq!(Mode::from_bits(15), Mode::Custom2);
    assert_eq!(Mode::Sv48.bits(), 9);
}

#[test]
fn mcause_codes() {
    assert_eq!(MCause::decode(2), Some(MCause::IllegalInstruction));
    assert_eq!(MCause::decode((1 << 63) | 7), Some(MCause::MachineTimerInterrupt));
    assert_eq!(MCause::decode(14), None);
    assert_eq!(MCause::decode(7), Some(MCause::StoreAMOAccessFault));
    assert_eq!(MCause::StoreAMOGuestPageFault.code(), 23);
    assert_eq!(MCause::SupervisorSoftwareInterrupt.code(), (1 << 63) | 1);
}

#[test]
fn bits_and_words() {
    assert_eq!(get_bits(0xabcd, 4, 11), 0xbc);
    assert_eq!(get_bits(u64::MAX, 0, 62), u64::MAX >> 1);
    assert_eq!(u32_from_bytes(&[1, 2, 3, 4]), Some(0x0403_0201));
    assert_eq!(u32_from_bytes(&[1, 2, 3]), None);
    assert_eq!(read_be32(&[9, 1, 2, 3, 4], 1), 0x0102_0304);
    assert_eq!(read_be64(&[0, 0, 0, 1, 0, 0, 0, 2], 0), 0x1_0000_0002);
}

fn info(format: PixelFormat) -> FrameInfo {
    FrameInfo { byte_len: 4 * 3 * 4, width: 3, height: 3, pixel_format: format, bytes_per_pixel: 4, stride: 4 }
}

#[test]
fn set_pixel_formats() {
    let c = Color { red: 30, green: 61, blue: 90 };
    let mut buf = vec![0u8; 48];
    set_pixel_in(&mut buf, &info(PixelFormat::Rgb), Position { x: 1, y: 2 }, c);
    let at = (2 * 4 + 1) * 4;
    assert_eq!(&buf[at..at + 4], &[30, 61, 90, 0]);
    let mut buf = vec![0u8; 48];
    set_pixel_in(&mut buf, &info(PixelFormat::Bgr), Position { x: 0, y: 0 }, c);
    assert_eq!(&buf[..4], &[90, 61, 30, 0]);
    let mut buf = vec![7u8; 48];
    set_pixel_in(&mut buf, &info(PixelFormat::U8), Position { x: 2, y: 1 }, c);
    let at = (4 + 2) * 4;
    assert_eq!(buf[at], 10 + 20 + 30);
    assert_eq!(buf[at + 1], 7);
    assert_eq!(buf.iter().filter(|b| **b != 7).count(), 1);
}

#[test]
fn draw_pixel_clips() {
    let c = Color { red: 1, green: 2, blue: 3 };
    let mut buf = vec![0u8; 48];
    draw_pixel(&mut buf, &info(PixelFormat::Rgb), Position { x: 3, y: 0 }, c);
    assert!(buf.iter().all(|b| *b == 0));
    draw_pixel(&mut buf, &info(PixelFormat::Rgb), Position { x: 0, y: 3 }, c);
    assert!(buf.iter().all(|b| *b == 0));
    draw_pixel(&mut buf, &info(PixelFormat::Rgb), Position { x: 2, y: 2 }, c);
    assert_eq!(&buf[40..43], &[1, 2, 3]);
}

#[test]
fn first_heap_headers() {
    let b = BlockInfo::new(true, 64);
    assert_eq!(b.0, 65);
    assert!(b.prev_used());
    assert_eq!(b.size(), 64);
    let c = BlockInfo::new(false, 64);
    assert!(!c.prev_used());
    assert_eq!(c.size(), 64);
    assert_eq!(FreePointer::null(), FreePointer(0));
    let it = FreeBlockIter::from(0x4000);
    assert_eq!(it.end, FreePointer(0x4000));
    assert_eq!(it.prev, FreePointer(0x4000));
}

/// A free list of three 32-byte blocks at 0x1000 (the head), 0x1020 and 0x1040.
fn three_free_blocks() -> Memory {
    let mut mem = Memory { start: 0x1000, words: vec![0; 12] };
    let head = FreePointer(0x1000);
    let n1 = FreePointer(0x1020);
    let n2 = FreePointer(0x1040);
    FreePointer::new(0x1000, FreeBlockInfo { size: 32, prev: n2, next: n1 }, &mut mem);
    FreePointer::new(0x1020, FreeBlockInfo { size: 32, prev: head, next: n2 }, &mut mem);
    FreePointer::new(0x1040, FreeBlockInfo { size: 32, prev: n1, next: head }, &mut mem);
    mem
}

#[test]
fn free_pointer_new_writes_info_and_end() {
    let mut mem = Memory { start: 0x2000, words: vec![0; 8] };
    let p = FreePointer::new(
        0x2000,
        FreeBlockInfo { size: 64, prev: FreePointer(0x3000), next: FreePointer(0x4000) },
        &mut mem,
    );
    assert_eq!(p, FreePointer(0x2000));
    assert_eq!(mem.words, vec![64, 0x3000, 0x4000, 0, 0, 0, 0, 0x2000]);
    assert_eq!(mem.read(0x2038), 0x2000);
}

#[test]
fn free_block_iter_walks_the_list() {
    let mem = three_free_blocks();
    let mut it = FreeBlockIter::from(0x1000);
    assert_eq!(it.next(&mem), Some(FreePointer(0x1020)));
    assert_eq!(it.next(&mem), Some(FreePointer(0x1040)));
    assert_eq!(it.next(&mem), None);
    // The walk leaves the list as it was.
    assert_eq!(mem.words, three_free_blocks().words);
}

#[test]
fn free_block_iter_on_lone_head() {
    let mut mem = Memory { start: 0x1000, words: vec![0; 4] };
    let head = FreePointer(0x1000);
    FreePointer::new(0x1000, FreeBlockInfo { size: 32, prev: head, next: head }, &mut mem);
    let mut it = FreeBlockIter::from(0x1000);
    assert_eq!(it.next(&mem), None);
}

#[test]
fn to_used_unlinks_block() {
    let mut mem = three_free_blocks();
    let used = FreePointer(0x1020).to_used(&mut mem);
    assert_eq!(used, 0x1020);
    // The head now points on to the last block, and that block back to the head.
    assert_eq!(mem.read(0x1010), 0x1040);
    assert_eq!(mem.read(0x1048), 0x1000);
    let mut it = FreeBlockIter::from(0x1000);
    assert_eq!(it.next(&mem), Some(FreePointer(0x1040)));
    assert_eq!(it.next(&mem), None);
}

#[test]
fn insert_new_moves_block_on() {
    let mut mem = Memory { start: 0x1000, words: vec![0; 12] };
    let head = FreePointer(0x1000);
    let n1 = FreePointer(0x1020);
    FreePointer::new(0x1000, FreeBlockInfo { size: 32, prev: n1, next: n1 }, &mut mem);
    FreePointer::new(0x1020, FreeBlockInfo { size: 64, prev: head, next: head }, &mut mem);
    let mut p = n1;
    let used = p.insert_new(16, &mut mem);
    assert_eq!(used, 0x1020);
    assert_eq!(p, FreePointer(0x1030));
    assert_eq!(mem.read(0x1030), 48);
    assert_eq!(mem.read(0x1038), 0x1000);
    assert_eq!(mem.read(0x1040), 0x1000);
    assert_eq!(mem.read(0x1008), 0x1030);
    assert_eq!(mem.read(0x1010), 0x1030);
    let mut it = FreeBlockIter::from(0x1000);
    assert_eq!(it.next(&mem), Some(FreePointer(0x1030)));
    assert_eq!(it.next(&mem), None);
}

use os::mem::heap::{Block, BlockInfo, BlockLine, Heap, FREE_SIZE};

fn counts(h: &Heap) -> (usize, usize) {
    let mut free = 0;
    let mut it = h.iter_free();
    while let Some(_) = it.next(h) {
        free += 1;
    }
    let mut total = 0;
    let mut it = h.iter_block();
    while let Some(_) = it.next(h) {
        total += 1;
    }
    (free, total - free)
}

/// Where the listings show the list head.
const HEAD: usize = 0x9000;

fn fresh(start: usize, end: usize) -> Heap {
    let mut h = Heap::empty();
    h.init(&(start..end));
    h
}

#[test]
fn block_info_bits() {
    let b = BlockInfo::new(48);
    assert_eq!(b.0, 49);
    assert!(b.prev_used());
    assert_eq!(b.size(), 48);
    let mut c = BlockInfo(64);
    assert!(!c.prev_used());
    c.set_prev_used();
    assert_eq!(c.0, 65);
    c.unset_prev_used();
    assert_eq!(c.0, 64);
    assert_eq!(c.size(), 64);
}

#[test]
fn init_is_one_free_block() {
    let h = fresh(0x1000, 0x2000);
    assert_eq!(counts(&h), (1, 0));
    assert_eq!(h.end(), 0x2000);
}

#[test]
fn alloc_returns_address_after_header() {
    let mut h = fresh(0x1000, 0x2000);
    let p = h.allocate(10);
    assert_eq!(p, 0x1008);
    // 10 bytes + 8 header rounded to 24, raised to the minimum of 32
    let q = h.allocate(10);
    assert_eq!(q, 0x1008 + FREE_SIZE);
    assert_eq!(counts(&h), (1, 2));
}

#[test]
fn alloc_rounds_to_eight() {
    let mut h = fresh(0x1000, 0x2000);
    let p = h.allocate(100);
    // 100 + 8 = 108, rounded up to 112
    let q = h.allocate(1);
    assert_eq!(q - p, 112);
}

#[test]
fn alloc_too_large_is_null() {
    let mut h = fresh(0x1000, 0x1100);
    assert_eq!(h.allocate(0x100), 0);
    assert_eq!(counts(&h), (1, 0));
}

#[test]
fn alloc_consumes_small_leftover() {
    // 64 bytes: asking for 32 + 8 leaves 24, too small for a free block
    let mut h = fresh(0x1000, 0x1040);
    let p = h.allocate(32);
    assert_eq!(p, 0x1008);
    assert_eq!(counts(&h), (0, 1));
    assert_eq!(h.allocate(1), 0);
    h.deallocate(p);
    assert_eq!(counts(&h), (1, 0));
}

#[test]
fn vec() {
    let mut h = fresh(0x1000, 0x3000);
    let a = h.allocate(3 * 8);
    let a2 = h.allocate(6 * 8);
    h.deallocate(a);
    assert_eq!(counts(&h), (2, 1));
    let b = h.allocate(4 * 8);
    assert_eq!(counts(&h), (2, 2));
    h.deallocate(b);
    assert_eq!(counts(&h), (2, 1));
    h.deallocate(a2);
    assert_eq!(counts(&h), (1, 0));
}

#[test]
fn vec_vec() {
    let mut h = fresh(0x1000, 0x3000);
    let outer = h.allocate(4 * 24);
    let mut inner = Vec::new();
    for _ in 0..4 {
        inner.push(h.allocate(4 * 8));
    }
    assert_eq!(counts(&h).1, 5);
    for p in inner {
        h.deallocate(p);
    }
    h.deallocate(outer);
    assert_eq!(counts(&h), (1, 0));
}

#[test]
fn reuse() {
    let mut h = fresh(0x1000, 0x9000);
    let size = 0x8000;
    for _ in 0..10 {
        let p = h.allocate(size / 2);
        assert!(p != 0);
        h.deallocate(p);
    }
    assert_eq!(counts(&h), (1, 0));
}

#[test]
fn dealloc_merges_both_sides() {
    let mut h = fresh(0x1000, 0x2000);
    let a = h.allocate(8);
    let b = h.allocate(8);
    let c = h.allocate(8);
    h.deallocate(a);
    h.deallocate(c);
    assert_eq!(counts(&h), (2, 1));
    h.deallocate(b);
    assert_eq!(counts(&h), (1, 0));
    // the joined block is used again from its start
    assert_eq!(h.allocate(8), 0x1008);
}

#[test]
fn freed_block_goes_to_front_of_free_list() {
    let mut h = fresh(0x1000, 0x2000);
    let a = h.allocate(8);
    let _b = h.allocate(8);
    h.deallocate(a);
    let mut it = h.iter_free();
    assert_eq!(it.next(&h), Some(0x1000));
    assert_eq!(it.next(&h), Some(0x1040));
    assert_eq!(it.next(&h), None);
    // and the cursor starts over
    assert_eq!(it.next(&h), Some(0x1000));
}

#[test]
fn reset_restarts() {
    let mut h = fresh(0x1000, 0x2000);
    let _ = h.allocate(100);
    h.reset(&(0x4000..0x5000));
    assert_eq!(counts(&h), (1, 0));
    assert_eq!(h.allocate(8), 0x4008);
    let mut it = h.iter_block();
    assert_eq!(it.next(&h), Some(0x4000));
    assert_eq!(it.next(&h), Some(0x4020));
    assert_eq!(it.next(&h), None);
}

#[test]
fn block_view_type() {
    let b = Block { addr: 0x1000, size: 32, free: true };
    assert_eq!(b, Block { addr: 0x1000, size: 32, free: true });
}

#[test]
fn report_fresh_heap() {
    let h = fresh(0x1000, 0x2000);
    assert_eq!(
        h.report(HEAD),
        vec![BlockLine { addr: 0x1000, size: 0x1000, used: false, prev_used: true, links: Some((HEAD, HEAD)) }]
    );
    assert_eq!(h.head_line(HEAD), (false, 0x1000, 0x1000));
}

#[test]
fn report_after_allocations() {
    let mut h = fresh(0x1000, 0x2000);
    let p = h.allocate(10);
    let q = h.allocate(100);
    h.deallocate(p);
    let r = h.report(HEAD);
    assert_eq!(r.len(), 3);
    assert_eq!(r[0], BlockLine { addr: 0x1000, size: 32, used: false, prev_used: true, links: Some((HEAD, 0x1090)) });
    assert_eq!(r[1], BlockLine { addr: 0x1020, size: 112, used: true, prev_used: false, links: None });
    assert_eq!(q, 0x1028);
    assert_eq!(
        r[2],
        BlockLine { addr: 0x1090, size: 0x1000 - 32 - 112, used: false, prev_used: true, links: Some((0x1000, HEAD)) }
    );
    // The last block is free; the head's links run to both ends of the free list.
    assert_eq!(h.head_line(HEAD), (false, 0x1090, 0x1000));
}

#[test]
fn report_full_heap() {
    let mut h = fresh(0x1000, 0x1040);
    let p = h.allocate(0x30);
    assert_eq!(p, 0x1008);
    let r = h.report(HEAD);
    assert_eq!(r, vec![BlockLine { addr: 0x1000, size: 0x40, used: true, prev_used: true, links: None }]);
    // With no free block the head links to itself.
    assert_eq!(h.head_line(HEAD), (true, HEAD, HEAD));
}

#[test]
fn empty_heap_walks_nothing() {
    let h = Heap::empty();
    assert!(h.report(HEAD).is_empty());
    assert_eq!(h.head_line(HEAD), (false, 0, 0));
    let mut it = h.iter_block();
    assert!(it.next(&h).is_none());
}

#[test]
fn init_keeps_the_head_header() {
    let mut h = fresh(0x1000, 0x1040);
    h.allocate(0x30);
    assert_eq!(h.head_line(HEAD), (true, HEAD, HEAD));
    // Setting up again rebuilds the block and the head's links, but not the head's header.
    h.init(&(0x2000..0x2040));
    assert_eq!(h.head_line(HEAD), (true, 0x2000, 0x2000));
}

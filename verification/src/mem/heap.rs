//! A first-fit heap over a doubly linked list of free blocks, with boundary tags.
//!
//! The managed region `[start, end)` is split into blocks.  Every block starts with a
//! header word holding its size in bytes, with bit 0 telling whether the block just
//! before it is in use.  A free block also holds the addresses of its neighbours in
//! the free list (the words after the header) and, in its last word, its own address,
//! so that the block after it can find it when merging.  The list head lives in the
//! `Heap` itself; its address is written as `end`, which is also where the block after
//! the last one would start, so that the head's header carries the "previous block is
//! in use" bit of the last block.  The listing (`report`, `head_line`) shows the head
//! at the address where the caller keeps the `Heap`.
//!
//! The words of the region are held in `mem`, indexed by `(address - start) / 8`.
use vstd::prelude::*;
use core::ops::Range;

verus! {

pub const ALIGN: usize = 8;
pub const ALIGN_MASK: usize = !7usize;
/// Bytes of a pointer into the heap.
pub const PTR_SIZE: usize = 8;
/// Bytes of a used block's header.
pub const USED_SIZE: usize = 8;
/// Smallest block: header, two free-list links and the trailing back pointer.
pub const FREE_SIZE: usize = 32;

pub type FreePointer = usize;
pub type BlockPointer = usize;

/// A block header: the size in bytes, with bit 0 set when the block before is in use.
pub struct BlockInfo(pub usize);

pub proof fn lemma_tag_bits(size: usize, b: usize)
    requires
        size % 8 == 0,
        b <= 1,
    ensures
        (size + b) as usize & !1usize == size,
        (size + b) as usize & 1usize == b,
        ((size + b) as usize | 1usize) == size + 1,
        (size | 1usize) == size + 1,
{
    assert((size + b) as usize & !1usize == size) by (bit_vector)
        requires size % 8 == 0, b <= 1;
    assert((size + b) as usize & 1usize == b) by (bit_vector)
        requires size % 8 == 0, b <= 1;
    assert(((size + b) as usize | 1usize) == size + 1) by (bit_vector)
        requires size % 8 == 0, b <= 1;
    assert((size | 1usize) == size + 1) by (bit_vector)
        requires size % 8 == 0;
}

impl BlockInfo {
    /// A header for a block of `size` bytes whose previous block is in use.
    pub fn new(size: usize) -> (r: Self)
        ensures
            r.0 == size | 1usize,
            size % 8 == 0 ==> r.0 == size + 1,
    {
        proof {
            if size % 8 == 0 {
                lemma_tag_bits(size, 0);
            }
        }
        BlockInfo(size | 1usize)
    }

    pub fn prev_used(&self) -> (r: bool)
        ensures
            r == (self.0 & 1usize == 1usize),
    {
        self.0 & 1 == 1
    }

    pub fn set_prev_used(&mut self)
        ensures
            final(self).0 == old(self).0 | 1usize,
    {
        self.0 = self.0 | 1;
    }

    pub fn unset_prev_used(&mut self)
        ensures
            final(self).0 == old(self).0 & !1usize,
    {
        self.0 = self.0 & !1usize;
    }

    pub fn size(&self) -> (r: usize)
        ensures
            r == self.0 & !1usize,
    {
        self.0 & !1usize
    }
}

/// The start of a free block: its header and its free-list links.
pub struct FreeBlockInfo {
    pub info: BlockInfo,
    pub prev: FreePointer,
    pub next: FreePointer,
}

impl FreeBlockInfo {
    pub fn prev_used(&self) -> (r: bool)
        ensures
            r == (self.info.0 & 1usize == 1usize),
    {
        self.info.prev_used()
    }

    pub fn size(&self) -> (r: usize)
        ensures
            r == self.info.0 & !1usize,
    {
        self.info.size()
    }
}

/// One block of the heap as the contracts see it.
#[derive(Clone, Copy, Debug, PartialEq, Eq)]
pub struct Block {
    pub addr: usize,
    pub size: usize,
    pub free: bool,
}

/// The blocks tile `[start, end)` in order, each at least `FREE_SIZE` bytes and a
/// multiple of 8.
pub open spec fn tiling(b: Seq<Block>, start: int, end: int) -> bool {
    &&& b.len() >= 1
    &&& b[0].addr == start
    &&& forall|i: int| #![trigger b[i].addr, b[i - 1].size] 0 < i < b.len() ==> b[i].addr == b[i - 1].addr + b[i - 1].size
    &&& b.last().addr + b.last().size == end
    &&& forall|i: int| 0 <= i < b.len() ==> #[trigger] b[i].size >= FREE_SIZE && b[i].size % 8 == 0
}

pub proof fn lemma_tiling_ordered(b: Seq<Block>, start: int, end: int)
    requires
        tiling(b, start, end),
    ensures
        forall|i: int, j: int|
            0 <= i < j < b.len() ==> #[trigger] b[i].addr + b[i].size <= #[trigger] b[j].addr,
        forall|i: int|
            0 <= i < b.len() ==> start <= #[trigger] b[i].addr && b[i].addr + b[i].size <= end
                && (b[i].addr - start) % 8 == 0,
{
    assert forall|j: int| 0 <= j < b.len() implies start <= #[trigger] b[j].addr
        && (b[j].addr - start) % 8 == 0 && (forall|i: int| 0 <= i < j ==> #[trigger] b[i].addr + b[i].size <= b[j].addr) by {
        lemma_tiling_prefix(b, start, end, j);
    }
    assert forall|i: int| 0 <= i < b.len() implies b[i].addr + b[i].size <= end by {
        lemma_tiling_suffix(b, start, end, i);
    }
}

proof fn lemma_tiling_prefix(b: Seq<Block>, start: int, end: int, j: int)
    requires
        tiling(b, start, end),
        0 <= j < b.len(),
    ensures
        start <= b[j].addr,
        (b[j].addr - start) % 8 == 0,
        forall|i: int| 0 <= i < j ==> #[trigger] b[i].addr + b[i].size <= b[j].addr,
    decreases j,
{
    if j > 0 {
        lemma_tiling_prefix(b, start, end, j - 1);
        assert(b[j].addr == b[j - 1].addr + b[j - 1].size);
    }
}

proof fn lemma_tiling_suffix(b: Seq<Block>, start: int, end: int, i: int)
    requires
        tiling(b, start, end),
        0 <= i < b.len(),
    ensures
        b[i].addr + b[i].size <= end,
    decreases b.len() - i,
{
    if i < b.len() - 1 {
        lemma_tiling_suffix(b, start, end, i + 1);
        assert(b[i + 1].addr == b[i + 1 - 1].addr + b[i + 1 - 1].size);
        assert(b[i + 1].size >= FREE_SIZE);
    }
}

} // verus!

verus! {

/// The block at `i` is preceded by a block in use (the first block counts as such).
pub open spec fn prev_in_use(b: Seq<Block>, i: int) -> bool {
    i == 0 || !b[i - 1].free
}

/// `a` is the address of a free block.
pub open spec fn is_free_block(b: Seq<Block>, a: int) -> bool {
    exists|i: int| 0 <= i < b.len() && #[trigger] b[i].addr == a && b[i].free
}

/// Index of the block that starts at `a`.
pub open spec fn index_of(b: Seq<Block>, a: int) -> int {
    choose|i: int| 0 <= i < b.len() && #[trigger] b[i].addr == a
}

pub struct Heap {
    head: FreeBlockInfo,
    start: usize,
    end: usize,
    mem: Vec<usize>,
    blocks: Ghost<Seq<Block>>,
    free: Ghost<Seq<usize>>,
}

impl Heap {
    /// The blocks of the heap, in address order.
    pub closed spec fn blocks(&self) -> Seq<Block> {
        self.blocks@
    }

    /// The free blocks' addresses, in free-list order.
    pub closed spec fn free_list(&self) -> Seq<usize> {
        self.free@
    }

    pub closed spec fn heap_start(&self) -> int {
        self.start as int
    }

    pub closed spec fn heap_end(&self) -> int {
        self.end as int
    }

    /// The list head's header word: bit 0 tells whether the last block is in use.
    pub closed spec fn head_word(&self) -> usize {
        self.head.info.0
    }

    /// The list head's link to the last free block.
    pub closed spec fn head_prev(&self) -> usize {
        self.head.prev
    }

    /// The list head's link to the first free block.
    pub closed spec fn head_next(&self) -> usize {
        self.head.next
    }

    /// The word that the heap holds at address `a` of its region (zero elsewhere).
    pub closed spec fn word(&self, a: int) -> usize {
        if self.start <= a < self.end {
            self.sl(self.idx(a))
        } else {
            0
        }
    }

    /// A heap with no blocks over an empty region, as `empty` makes it: walking it
    /// yields nothing.
    pub open spec fn bare(&self) -> bool {
        &&& self.blocks().len() == 0
        &&& self.free_list().len() == 0
        &&& self.heap_start() == self.heap_end()
    }

    /// The word stored in slot `k`: the region's words for `k >= 0`, and the list
    /// head's next link, previous link and header for `-1`, `-2` and `-3`.
    pub closed spec fn sl(&self, k: int) -> usize {
        if k == -1 {
            self.head.next
        } else if k == -2 {
            self.head.prev
        } else if k == -3 {
            self.head.info.0
        } else if 0 <= k < self.mem@.len() {
            self.mem@[k]
        } else {
            0
        }
    }

    pub closed spec fn idx(&self, a: int) -> int {
        (a - self.start) / 8
    }

    pub closed spec fn hslot(&self, a: int) -> int {
        if a == self.end { -3 } else { self.idx(a) }
    }

    pub closed spec fn pslot(&self, a: int) -> int {
        if a == self.end { -2 } else { self.idx(a) + 1 }
    }

    pub closed spec fn nslot(&self, a: int) -> int {
        if a == self.end { -1 } else { self.idx(a) + 2 }
    }

    pub closed spec fn fslot(&self, a: int, size: int) -> int {
        self.idx(a) + size / 8 - 1
    }

    pub closed spec fn shape_ok(&self) -> bool {
        &&& self.start % 8 == 0
        &&& self.end - self.start >= FREE_SIZE
        &&& (self.end - self.start) % 8 == 0
        &&& self.mem@.len() == (self.end - self.start) / 8
        &&& tiling(self.blocks@, self.start as int, self.end as int)
    }

    #[verifier::opaque]
    pub closed spec fn headers_ok(&self) -> bool {
        let b = self.blocks@;
        &&& forall|i: int|
            0 <= i < b.len() ==> self.sl(self.idx(#[trigger] b[i].addr as int)) == b[i].size + (
            if prev_in_use(b, i) {
                1int
            } else {
                0int
            })
        &&& self.head.info.0 == (if b.last().free { 0usize } else { 1usize })
    }

    #[verifier::opaque]
    pub closed spec fn footers_ok(&self) -> bool {
        let b = self.blocks@;
        forall|i: int|
            0 <= i < b.len() && #[trigger] b[i].free ==> self.sl(
                self.fslot(b[i].addr as int, b[i].size as int),
            ) == b[i].addr
    }

    #[verifier::opaque]
    pub closed spec fn coalesced(&self) -> bool {
        let b = self.blocks@;
        forall|i: int| #![trigger b[i - 1].free, b[i].free] 0 < i < b.len() ==> !(b[i - 1].free && b[i].free)
    }

    #[verifier::opaque]
    pub closed spec fn members_ok(&self) -> bool {
        let b = self.blocks@;
        let fl = self.free@;
        &&& fl.no_duplicates()
        &&& forall|k: int| 0 <= k < fl.len() ==> is_free_block(b, #[trigger] fl[k] as int)
        &&& forall|i: int| 0 <= i < b.len() && #[trigger] b[i].free ==> fl.contains(b[i].addr)
    }

    /// The links stored for the free list `fl`: the list head points at its ends, and
    /// each entry at its neighbours, the head standing for both ends.
    pub closed spec fn list_links(&self, fl: Seq<usize>) -> bool {
        &&& self.head.next == (if fl.len() > 0 { fl[0] } else { self.end })
        &&& self.head.prev == (if fl.len() > 0 { fl.last() } else { self.end })
        &&& forall|k: int|
            0 <= k < fl.len() ==> #[trigger] self.sl(self.idx(fl[k] as int) + 2) == (if k + 1
                < fl.len() {
                fl[k + 1]
            } else {
                self.end
            })
        &&& forall|k: int|
            0 <= k < fl.len() ==> #[trigger] self.sl(self.idx(fl[k] as int) + 1) == (if k > 0 {
                fl[k - 1]
            } else {
                self.end
            })
    }

    #[verifier::opaque]
    pub closed spec fn links_ok(&self) -> bool {
        self.list_links(self.free@)
    }

    /// The heap is set up and its words agree with its blocks and free list.
    pub closed spec fn wf(&self) -> bool {
        &&& self.shape_ok()
        &&& self.headers_ok()
        &&& self.footers_ok()
        &&& self.coalesced()
        &&& self.members_ok()
        &&& self.links_ok()
    }

    /// A heap with no memory.
    pub fn empty() -> (r: Self)
        ensures
            r.blocks() == Seq::<Block>::empty(),
            r.free_list() == Seq::<usize>::empty(),
            r.heap_start() == 0,
            r.heap_end() == 0,
            r.head_word() == 0,
            r.head_prev() == 0,
            r.head_next() == 0,
            r.bare(),
    {
        Heap {
            head: FreeBlockInfo { info: BlockInfo(0), prev: 0, next: 0 },
            start: 0,
            end: 0,
            mem: Vec::new(),
            blocks: Ghost(Seq::empty()),
            free: Ghost(Seq::empty()),
        }
    }

    /// Takes `range` as the heap's memory: one free block that spans it.
    pub fn init(&mut self, range: &Range<usize>)
        requires
            range.start % 8 == 0,
            range.start + FREE_SIZE <= range.end,
            (range.end - range.start) % 8 == 0,
        ensures
            old(self).head_word() == 0 ==> final(self).wf(),
            final(self).head_word() == old(self).head_word(),
            final(self).head_prev() == range.start,
            final(self).head_next() == range.start,
            final(self).word(range.start as int) == range.end - range.start + 1,
            final(self).word(range.start + 8) == range.end,
            final(self).word(range.start + 16) == range.end,
            final(self).word(range.end - 8) == range.start,
            final(self).heap_start() == range.start,
            final(self).heap_end() == range.end,
            final(self).blocks() == seq![
                Block { addr: range.start, size: (range.end - range.start) as usize, free: true },
            ],
            final(self).free_list() == seq![range.start],
    {
        let start = range.start;
        let end = range.end;
        let size = end - start;
        let n = size / 8;
        let mut mem: Vec<usize> = Vec::new();
        while mem.len() < n
            invariant
                mem.len() <= n,
            decreases n - mem.len(),
        {
            mem.push(0);
        }
        // the free block's header, links and back pointer
        mem.set(0, BlockInfo::new(size).0);
        mem.set(1, end);
        mem.set(2, end);
        mem.set(n - 1, start);
        self.head.next = start;
        self.head.prev = start;
        self.start = start;
        self.end = end;
        self.mem = mem;
        proof {
            self.blocks@ = seq![Block { addr: start, size, free: true }];
            self.free@ = seq![start];
            reveal(Heap::headers_ok);
            reveal(Heap::footers_ok);
            reveal(Heap::coalesced);
            reveal(Heap::members_ok);
            reveal(Heap::links_ok);
            let b = self.blocks@;
            let fl = self.free@;
            assert(self.idx(start as int) == 0);
            assert(self.sl(0) == size + 1);
            assert(b.last() == b[0]);
            assert(b[0].addr == fl[0] && b[0].free);
            assert(is_free_block(b, fl[0] as int));
            assert(fl.contains(b[0].addr));
            assert(self.fslot(start as int, size as int) == n - 1);
            lemma_tag_bits(size, 0);
            assert(self.idx(start + 8) == 1);
            assert(self.idx(start + 16) == 2);
            assert(self.idx(end - 8) == n - 1);
        }
    }
}

} // verus!

verus! {

/// Bytes that `alloc` reserves for a request of `n` bytes: the header and the data,
/// rounded up to `ALIGN`, and never less than `FREE_SIZE`.
pub open spec fn alloc_size(n: int) -> int {
    let s = ((n + USED_SIZE + 7) / 8) * 8;
    if s < FREE_SIZE {
        FREE_SIZE as int
    } else {
        s
    }
}

/// Position in `fl`, from `k` on, of the first free block of at least `need` bytes;
/// `fl.len()` when there is none.
pub open spec fn first_fit(b: Seq<Block>, fl: Seq<usize>, need: int, k: int) -> int
    decreases fl.len() - k,
{
    if k < 0 || k >= fl.len() {
        fl.len() as int
    } else if b[index_of(b, fl[k] as int)].size >= need {
        k
    } else {
        first_fit(b, fl, need, k + 1)
    }
}

/// The block at `i` cut in two: `need` bytes in use, then the rest free.
#[verifier::opaque]
pub open spec fn split_blocks(b: Seq<Block>, i: int, need: int) -> Seq<Block> {
    b.subrange(0, i) + seq![
        Block { addr: b[i].addr, size: need as usize, free: false },
        Block { addr: (b[i].addr + need) as usize, size: (b[i].size - need) as usize, free: true },
    ] + b.subrange(i + 1, b.len() as int)
}

pub proof fn lemma_split_blocks(b: Seq<Block>, i: int, need: int, start: int, end: int)
    requires
        tiling(b, start, end),
        end <= usize::MAX,
        0 <= i < b.len(),
        need % 8 == 0,
        need >= FREE_SIZE,
        b[i].size - need >= FREE_SIZE,
    ensures
        split_blocks(b, i, need).len() == b.len() + 1,
        forall|j: int|
            0 <= j < b.len() + 1 ==> #[trigger] split_blocks(b, i, need)[j] == if j < i {
                b[j]
            } else if j == i {
                Block { addr: b[i].addr, size: need as usize, free: false }
            } else if j == i + 1 {
                Block { addr: (b[i].addr + need) as usize, size: (b[i].size - need) as usize, free: true }
            } else {
                b[j - 1]
            },
        tiling(split_blocks(b, i, need), start, end),
{
    let b2 = split_blocks(b, i, need);
    lemma_tiling_suffix(b, start, end, i);
    lemma_split_index(b, i, need);
    let u = Block { addr: b[i].addr, size: need as usize, free: false };
    let f = Block { addr: (b[i].addr + need) as usize, size: (b[i].size - need) as usize, free: true };
    assert(b2[i] == u);
    assert(b2[i + 1] == f);
    assert(f.addr == b[i].addr + need);
    assert forall|j: int| #![trigger b2[j].addr, b2[j - 1].size] 0 < j < b2.len() implies b2[j].addr == b2[j - 1].addr + b2[j - 1].size by {
        if j < i {
            assert(b2[j] == b[j]);
            assert(b2[j - 1] == b[j - 1]);
        } else if j == i {
            assert(b2[j - 1] == b[j - 1]);
        } else if j == i + 1 {
        } else if j == i + 2 {
            assert(b2[j] == b[j - 1]);
            assert(b[i + 1].addr == b[i + 1 - 1].addr + b[i + 1 - 1].size);
        } else {
            assert(b2[j] == b[j - 1]);
            assert(b2[j - 1] == b[j - 2]);
            assert(b[j - 1].addr == b[j - 1 - 1].addr + b[j - 1 - 1].size);
        }
    }
    assert forall|j: int| 0 <= j < b2.len() implies #[trigger] b2[j].size >= FREE_SIZE && b2[j].size % 8 == 0 by {
        if j < i {
            assert(b2[j] == b[j]);
        } else if j == i {
        } else if j == i + 1 {
        } else {
            assert(b2[j] == b[j - 1]);
            assert(b[j - 1].size >= FREE_SIZE);
        }
    }
    if i == 0 {
        assert(b2[0] == u);
    } else {
        assert(b2[0] == b[0]);
    }
    if i == b.len() - 1 {
        assert(b2.last() == b2[i + 1]);
    } else {
        assert(b2.last() == b2[b.len() as int]);
        assert(b2[b.len() as int] == b[b.len() - 1]);
    }
}

proof fn lemma_split_index(b: Seq<Block>, i: int, need: int)
    requires
        0 <= i < b.len(),
    ensures
        split_blocks(b, i, need).len() == b.len() + 1,
        forall|j: int|
            0 <= j < b.len() + 1 ==> #[trigger] split_blocks(b, i, need)[j] == if j < i {
                b[j]
            } else if j == i {
                Block { addr: b[i].addr, size: need as usize, free: false }
            } else if j == i + 1 {
                Block { addr: (b[i].addr + need) as usize, size: (b[i].size - need) as usize, free: true }
            } else {
                b[j - 1]
            },
{
    reveal(split_blocks);
    let b2 = split_blocks(b, i, need);
    let s1 = b.subrange(0, i);
    let s2 = seq![
        Block { addr: b[i].addr, size: need as usize, free: false },
        Block { addr: (b[i].addr + need) as usize, size: (b[i].size - need) as usize, free: true },
    ];
    let s3 = b.subrange(i + 1, b.len() as int);
    assert(b2 == s1 + s2 + s3);
    assert forall|j: int| 0 <= j < b.len() + 1 implies #[trigger] b2[j] == if j < i {
        b[j]
    } else if j == i {
        s2[0]
    } else if j == i + 1 {
        s2[1]
    } else {
        b[j - 1]
    } by {
        if j < i {
            assert(b2[j] == s1[j]);
        } else if j < i + 2 {
            assert(b2[j] == (s1 + s2)[j]);
        } else {
            assert(b2[j] == s3[j - i - 2]);
        }
    }
}

/// What `alloc_result` is once the first fit is known to be at position `k`.
proof fn lemma_alloc_found(b: Seq<Block>, fl: Seq<usize>, n: int, k: int)
    requires
        0 <= k < fl.len(),
        first_fit(b, fl, alloc_size(n), 0) == k,
    ensures
        ({
            let need = alloc_size(n);
            let a = fl[k];
            let i = index_of(b, a as int);
            let fs = b[i].size;
            alloc_result(b, fl, n) == if fs - need < FREE_SIZE {
                (b.update(i, Block { addr: a, size: fs, free: false }), fl.remove(k), a + USED_SIZE)
            } else {
                (split_blocks(b, i, need), fl.update(k, (a + need) as usize), a + USED_SIZE)
            }
        }),
{
}

/// The blocks, free list and result after `alloc(n)`.
pub open spec fn alloc_result(b: Seq<Block>, fl: Seq<usize>, n: int) -> (Seq<Block>, Seq<usize>, int) {
    let need = alloc_size(n);
    let k = first_fit(b, fl, need, 0);
    if k >= fl.len() {
        (b, fl, 0)
    } else {
        let a = fl[k];
        let i = index_of(b, a as int);
        let fs = b[i].size;
        if fs - need < FREE_SIZE {
            (b.update(i, Block { addr: a, size: fs, free: false }), fl.remove(k), a + USED_SIZE)
        } else {
            (split_blocks(b, i, need), fl.update(k, (a + need) as usize), a + USED_SIZE)
        }
    }
}

impl Heap {
    pub closed spec fn addr_ok(&self, a: int) -> bool {
        self.start <= a && a + FREE_SIZE <= self.end && (a - self.start) % 8 == 0
    }

    /// `other` has the same region, blocks and free list as `self`.
    pub closed spec fn same_frame(&self, other: &Heap) -> bool {
        &&& self.start == other.start
        &&& self.end == other.end
        &&& self.blocks@ == other.blocks@
        &&& self.free@ == other.free@
        &&& self.mem@.len() == other.mem@.len()
    }

    proof fn lemma_layout(&self)
        requires
            self.shape_ok(),
        ensures
            forall|i: int, j: int|
                0 <= i < j < self.blocks@.len() ==> #[trigger] self.idx(self.blocks@[i].addr as int)
                    + self.blocks@[i].size / 8 <= #[trigger] self.idx(self.blocks@[j].addr as int),
            forall|i: int|
                0 <= i < self.blocks@.len() ==> {
                    &&& 0 <= #[trigger] self.idx(self.blocks@[i].addr as int)
                    &&& self.idx(self.blocks@[i].addr as int) * 8 == self.blocks@[i].addr - self.start
                    &&& self.idx(self.blocks@[i].addr as int) + self.blocks@[i].size / 8 <= self.mem@.len()
                    &&& self.addr_ok(self.blocks@[i].addr as int)
                },
    {
        lemma_tiling_ordered(self.blocks@, self.start as int, self.end as int);
    }

    fn read_word(&self, a: usize) -> (r: usize)
        requires
            self.shape_ok(),
            self.start <= a < self.end,
            (a - self.start) % 8 == 0,
        ensures
            r == self.sl(self.idx(a as int)),
    {
        self.mem[(a - self.start) / 8]
    }

    fn write_word(&mut self, a: usize, v: usize)
        requires
            old(self).shape_ok(),
            old(self).start <= a < old(self).end,
            (a - old(self).start) % 8 == 0,
        ensures
            final(self).same_frame(old(self)),
            final(self).shape_ok(),
            forall|j: int| #[trigger]
                final(self).sl(j) == if j == old(self).idx(a as int) {
                    v
                } else {
                    old(self).sl(j)
                },
    {
        let i = (a - self.start) / 8;
        self.mem.set(i, v);
    }

    /// The header word of the block at `a` (`a == end` is the list head).
    fn header(&self, a: usize) -> (r: usize)
        requires
            self.shape_ok(),
            a == self.end || self.addr_ok(a as int),
        ensures
            r == self.sl(self.hslot(a as int)),
    {
        if a == self.end {
            self.head.info.0
        } else {
            self.read_word(a)
        }
    }

    fn set_header(&mut self, a: usize, v: usize)
        requires
            old(self).shape_ok(),
            a == old(self).end || old(self).addr_ok(a as int),
        ensures
            final(self).same_frame(old(self)),
            final(self).shape_ok(),
            forall|j: int| #[trigger]
                final(self).sl(j) == if j == old(self).hslot(a as int) {
                    v
                } else {
                    old(self).sl(j)
                },
    {
        if a == self.end {
            self.head.info.0 = v;
        } else {
            self.write_word(a, v);
        }
    }

    /// The free-list link to the previous free block of the free block at `a`.
    fn get_prev(&self, a: usize) -> (r: usize)
        requires
            self.shape_ok(),
            a == self.end || self.addr_ok(a as int),
        ensures
            r == self.sl(self.pslot(a as int)),
    {
        if a == self.end {
            self.head.prev
        } else {
            self.read_word(a + 8)
        }
    }

    /// The free-list link to the next free block of the free block at `a`.
    fn get_next(&self, a: usize) -> (r: usize)
        requires
            self.shape_ok(),
            a == self.end || self.addr_ok(a as int),
        ensures
            r == self.sl(self.nslot(a as int)),
    {
        if a == self.end {
            self.head.next
        } else {
            self.read_word(a + 16)
        }
    }

    fn set_prev(&mut self, a: usize, v: usize)
        requires
            old(self).shape_ok(),
            a == old(self).end || old(self).addr_ok(a as int),
        ensures
            final(self).same_frame(old(self)),
            final(self).shape_ok(),
            forall|j: int| #[trigger]
                final(self).sl(j) == if j == old(self).pslot(a as int) {
                    v
                } else {
                    old(self).sl(j)
                },
    {
        if a == self.end {
            self.head.prev = v;
        } else {
            self.write_word(a + 8, v);
        }
    }

    fn set_next(&mut self, a: usize, v: usize)
        requires
            old(self).shape_ok(),
            a == old(self).end || old(self).addr_ok(a as int),
        ensures
            final(self).same_frame(old(self)),
            final(self).shape_ok(),
            forall|j: int| #[trigger]
                final(self).sl(j) == if j == old(self).nslot(a as int) {
                    v
                } else {
                    old(self).sl(j)
                },
    {
        if a == self.end {
            self.head.next = v;
        } else {
            self.write_word(a + 16, v);
        }
    }
}

} // verus!

verus! {

impl Heap {
    /// Writes a free block at `addr`: header, links and the back pointer in its last word.
    fn create_free(&mut self, addr: FreePointer, info: FreeBlockInfo)
        requires
            old(self).shape_ok(),
            old(self).addr_ok(addr as int),
            info.info.0 & !1usize >= FREE_SIZE,
            (info.info.0 & !1usize) % 8 == 0,
            addr + (info.info.0 & !1usize) <= old(self).end,
        ensures
            final(self).same_frame(old(self)),
            final(self).shape_ok(),
            forall|j: int| #[trigger]
                final(self).sl(j) == if j == old(self).fslot(
                    addr as int,
                    (info.info.0 & !1usize) as int,
                ) {
                    addr
                } else if j == old(self).idx(addr as int) + 2 {
                    info.next
                } else if j == old(self).idx(addr as int) + 1 {
                    info.prev
                } else if j == old(self).idx(addr as int) {
                    info.info.0
                } else {
                    old(self).sl(j)
                },
    {
        let len = info.info.size();
        self.set_header(addr, info.info.0);
        self.set_prev(addr, info.prev);
        self.set_next(addr, info.next);
        self.write_word(addr + len - PTR_SIZE, addr);
    }

    /// Creates a free block of `size` bytes at `addr` and links it between `prev` and
    /// `next` in the free list.
    fn insert_free(&mut self, prev: FreePointer, next: FreePointer, addr: FreePointer, size: usize)
        requires
            old(self).shape_ok(),
            old(self).addr_ok(addr as int),
            prev == old(self).end || old(self).addr_ok(prev as int),
            next == old(self).end || old(self).addr_ok(next as int),
            size >= FREE_SIZE,
            size % 8 == 0,
            addr + size <= old(self).end,
        ensures
            final(self).same_frame(old(self)),
            final(self).shape_ok(),
            forall|j: int| #[trigger]
                final(self).sl(j) == if j == old(self).pslot(next as int) {
                    addr
                } else if j == old(self).nslot(prev as int) {
                    addr
                } else if j == old(self).fslot(addr as int, size as int) {
                    addr
                } else if j == old(self).idx(addr as int) + 2 {
                    next
                } else if j == old(self).idx(addr as int) + 1 {
                    prev
                } else if j == old(self).idx(addr as int) {
                    (size + 1) as usize
                } else {
                    old(self).sl(j)
                },
    {
        let info = BlockInfo::new(size);
        proof {
            lemma_tag_bits(size, 1);
        }
        self.create_free(addr, FreeBlockInfo { info, prev, next });
        self.set_next(prev, addr);
        self.set_prev(next, addr);
    }

    /// Unlinks the free block at `block` from the free list.
    fn remove_free(&mut self, block: FreePointer)
        requires
            old(self).shape_ok(),
            old(self).addr_ok(block as int),
            old(self).sl(old(self).idx(block as int) + 1) == old(self).end || old(self).addr_ok(
                old(self).sl(old(self).idx(block as int) + 1) as int,
            ),
            old(self).sl(old(self).idx(block as int) + 2) == old(self).end || old(self).addr_ok(
                old(self).sl(old(self).idx(block as int) + 2) as int,
            ),
        ensures
            final(self).same_frame(old(self)),
            final(self).shape_ok(),
            ({
                let p = old(self).sl(old(self).idx(block as int) + 1);
                let n = old(self).sl(old(self).idx(block as int) + 2);
                forall|j: int| #[trigger]
                    final(self).sl(j) == if j == old(self).nslot(p as int) {
                        n
                    } else if j == old(self).pslot(n as int) {
                        p
                    } else {
                        old(self).sl(j)
                    }
            }),
    {
        let next = self.get_next(block);
        let prev = self.get_prev(block);
        self.set_prev(next, prev);
        self.set_next(prev, next);
    }
}

} // verus!

verus! {

impl Heap {
    /// Facts about the free block at position `k` of the free list and its neighbours.
    proof fn lemma_free_entry(&self, k: int)
        requires
            self.wf(),
            0 <= k < self.free@.len(),
        ensures
            ({
                let b = self.blocks@;
                let fl = self.free@;
                let i = index_of(b, fl[k] as int);
                &&& 0 <= i < b.len()
                &&& b[i].addr == fl[k]
                &&& b[i].free
                &&& self.sl(self.idx(fl[k] as int) + 1) == (if k > 0 { fl[k - 1] } else { self.end })
                &&& self.sl(self.idx(fl[k] as int) + 2) == (if k + 1 < fl.len() { fl[k + 1] } else { self.end })
            }),
    {
        let b = self.blocks@;
        let fl = self.free@;
        reveal(Heap::members_ok);
        reveal(Heap::links_ok);
        assert(is_free_block(b, fl[k] as int));
        let i2 = choose|i2: int| 0 <= i2 < b.len() && #[trigger] b[i2].addr == fl[k] as int && b[i2].free;
        let i = index_of(b, fl[k] as int);
        assert(b[i2].addr == fl[k]);
        assert(0 <= i < b.len() && b[i].addr == fl[k]);
        self.lemma_layout();
        if i < i2 {
            assert(self.idx(b[i].addr as int) + b[i].size / 8 <= self.idx(b[i2].addr as int));
        } else if i2 < i {
            assert(self.idx(b[i2].addr as int) + b[i2].size / 8 <= self.idx(b[i].addr as int));
        }
    }

    /// Every address in the free list is a block start, and any two blocks' starts
    /// differ; the index of a listed address names a free block.
    proof fn lemma_index_unique(&self, m: int, a: int)
        requires
            self.shape_ok(),
            0 <= m < self.blocks@.len(),
            self.blocks@[m].addr == a,
        ensures
            index_of(self.blocks@, a) == m,
    {
        let b = self.blocks@;
        let i = index_of(b, a);
        assert(0 <= i < b.len() && b[i].addr == a);
        self.lemma_layout();
        if i < m {
            assert(self.idx(b[i].addr as int) + b[i].size / 8 <= self.idx(b[m].addr as int));
        } else if m < i {
            assert(self.idx(b[m].addr as int) + b[m].size / 8 <= self.idx(b[i].addr as int));
        }
    }
}

} // verus!

verus! {

impl Heap {
    /// The words after `alloc` cuts the free block at list position `k`: a used block of
    /// `need` bytes, then a free block of the rest that takes its place in the list.
    pub closed spec fn split_slots(&self, k: int, need: int, j: int) -> usize {
        let a = self.free@[k] as int;
        let fs = self.blocks@[index_of(self.blocks@, a)].size as int;
        let p = self.sl(self.idx(a) + 1);
        let n = self.sl(self.idx(a) + 2);
        let nf = a + need;
        if j == self.idx(a) {
            (need + 1) as usize
        } else if j == self.pslot(n as int) {
            nf as usize
        } else if j == self.nslot(p as int) {
            nf as usize
        } else if j == self.fslot(nf, fs - need) {
            nf as usize
        } else if j == self.idx(nf) + 2 {
            n
        } else if j == self.idx(nf) + 1 {
            p
        } else if j == self.idx(nf) {
            (fs - need + 1) as usize
        } else {
            self.sl(j)
        }
    }

    pub closed spec fn split_step(&self, h1: &Heap, k: int, need: int) -> bool {
        let b = self.blocks@;
        let fl = self.free@;
        &&& self.wf()
        &&& 0 <= k < fl.len()
        &&& need % 8 == 0
        &&& need >= FREE_SIZE
        &&& b[index_of(b, fl[k] as int)].size - need >= FREE_SIZE
        &&& h1.start == self.start
        &&& h1.end == self.end
        &&& h1.mem@.len() == self.mem@.len()
        &&& h1.blocks@ == split_blocks(b, index_of(b, fl[k] as int), need)
        &&& h1.free@ == fl.update(k, (fl[k] + need) as usize)
        &&& forall|j: int| #[trigger] h1.sl(j) == self.split_slots(k, need, j)
    }

    proof fn lemma_split_common(&self, h1: &Heap, k: int, need: int)
        requires
            self.split_step(h1, k, need),
        ensures
            h1.shape_ok(),
            ({
                let b = self.blocks@;
                let fl = self.free@;
                let i = index_of(b, fl[k] as int);
                &&& 0 <= i < b.len()
                &&& b[i].addr == fl[k]
                &&& b[i].free
                &&& forall|j: int|
                    0 <= j < b.len() + 1 ==> #[trigger] h1.blocks@[j] == if j < i {
                        b[j]
                    } else if j == i {
                        Block { addr: b[i].addr, size: need as usize, free: false }
                    } else if j == i + 1 {
                        Block {
                            addr: (b[i].addr + need) as usize,
                            size: (b[i].size - need) as usize,
                            free: true,
                        }
                    } else {
                        b[j - 1]
                    }
                &&& h1.blocks@.len() == b.len() + 1
                &&& b[i].addr + b[i].size <= self.end
            }),
    {
        let b = self.blocks@;
        let fl = self.free@;
        self.lemma_free_entry(k);
        let i = index_of(b, fl[k] as int);
        lemma_tiling_ordered(b, self.start as int, self.end as int);
        lemma_split_blocks(b, i, need, self.start as int, self.end as int);
    }
}

} // verus!

verus! {

impl Heap {
    /// Neighbours in the free list of the entry at `k`, as block indices (or `-1` for
    /// the list head).
    proof fn lemma_neighbours(&self, k: int) -> (r: (int, int))
        requires
            self.wf(),
            0 <= k < self.free@.len(),
        ensures
            ({
                let b = self.blocks@;
                let fl = self.free@;
                let p = self.sl(self.idx(fl[k] as int) + 1);
                let n = self.sl(self.idx(fl[k] as int) + 2);
                let i = index_of(b, fl[k] as int);
                &&& (p == self.end) == (k == 0)
                &&& (n == self.end) == (k + 1 == fl.len())
                &&& p != self.end ==> (0 <= r.0 < b.len() && b[r.0].addr == p && b[r.0].free && r.0 != i
                    && p == fl[k - 1] && self.addr_ok(p as int))
                &&& n != self.end ==> (0 <= r.1 < b.len() && b[r.1].addr == n && b[r.1].free && r.1 != i
                    && n == fl[k + 1] && self.addr_ok(n as int))
                &&& p == self.end ==> r.0 == -1
                &&& n == self.end ==> r.1 == -1
                &&& (p != self.end && n != self.end) ==> r.0 != r.1
            }),
    {
        let b = self.blocks@;
        let fl = self.free@;
        reveal(Heap::members_ok);
        self.lemma_free_entry(k);
        self.lemma_layout();
        lemma_tiling_ordered(b, self.start as int, self.end as int);
        let mut ip: int = -1;
        let mut inx: int = -1;
        if k > 0 {
            self.lemma_free_entry(k - 1);
            ip = index_of(b, fl[k - 1] as int);
            assert(fl[k - 1] != fl[k]);
            assert(b[ip].addr + b[ip].size <= self.end);
        }
        if k + 1 < fl.len() {
            self.lemma_free_entry(k + 1);
            inx = index_of(b, fl[k + 1] as int);
            assert(fl[k + 1] != fl[k]);
            assert(b[inx].addr + b[inx].size <= self.end);
        }
        if k > 0 && k + 1 < fl.len() {
            assert(fl[k - 1] != fl[k + 1]);
        }
        (ip, inx)
    }

    #[verifier::spinoff_prover]
    #[verifier::rlimit(50)]
    proof fn lemma_split_headers(&self, h1: &Heap, k: int, need: int)
        requires
            self.split_step(h1, k, need),
        ensures
            h1.headers_ok(),
    {
        self.lemma_split_common(h1, k, need);
        self.lemma_free_entry(k);
        self.lemma_layout();
        let (ip, inx) = self.lemma_neighbours(k);
        reveal(Heap::headers_ok);
        reveal(Heap::coalesced);
        let b = self.blocks@;
        let fl = self.free@;
        let b1 = h1.blocks@;
        let i = index_of(b, fl[k] as int);
        let a = fl[k] as int;
        let fs = b[i].size as int;
        let p = self.sl(self.idx(a) + 1);
        let n = self.sl(self.idx(a) + 2);
        if ip >= 0 {
            assert(self.idx(b[ip].addr as int) == self.idx(p as int));
        }
        if inx >= 0 {
            assert(self.idx(b[inx].addr as int) == self.idx(n as int));
        }
        assert(self.idx(a + need) == self.idx(a) + need / 8);
        assert forall|j: int| 0 <= j < b1.len() implies h1.sl(h1.idx(#[trigger] b1[j].addr as int))
            == b1[j].size + (if prev_in_use(b1, j) { 1int } else { 0int }) by {
            assert(h1.idx(b1[j].addr as int) == self.idx(b1[j].addr as int));
            if j < i {
                assert(b1[j] == b[j]);
                if j > 0 {
                    assert(b1[j - 1] == b[j - 1]);
                }
                assert(self.idx(b[j].addr as int) + b[j].size / 8 <= self.idx(b[i].addr as int));
            } else if j == i {
                if i > 0 {
                    assert(b1[j - 1] == b[j - 1]);
                    assert(!b[i - 1].free);
                }
            } else if j == i + 1 {
            } else {
                assert(b1[j] == b[j - 1]);
                assert(self.idx(b[i].addr as int) + b[i].size / 8 <= self.idx(b[j - 1].addr as int));
                if j == i + 2 {
                } else {
                    assert(b1[j - 1] == b[j - 2]);
                }
            }
        }
        if i == b.len() - 1 {
            assert(b1.last() == b1[i + 1]);
        } else {
            assert(b1.last() == b1[b.len() as int]);
            assert(b1[b.len() as int] == b[b.len() - 1]);
        }
        assert(h1.sl(-3) == self.sl(-3));
    }
}

} // verus!

verus! {

impl Heap {
    proof fn lemma_split_footers(&self, h1: &Heap, k: int, need: int)
        requires
            self.split_step(h1, k, need),
        ensures
            h1.footers_ok(),
            h1.coalesced(),
    {
        self.lemma_split_common(h1, k, need);
        self.lemma_free_entry(k);
        self.lemma_layout();
        let (ip, inx) = self.lemma_neighbours(k);
        reveal(Heap::footers_ok);
        reveal(Heap::coalesced);
        let b = self.blocks@;
        let fl = self.free@;
        let b1 = h1.blocks@;
        let i = index_of(b, fl[k] as int);
        let a = fl[k] as int;
        let p = self.sl(self.idx(a) + 1);
        let n = self.sl(self.idx(a) + 2);
        if ip >= 0 {
            assert(self.idx(b[ip].addr as int) == self.idx(p as int));
        }
        if inx >= 0 {
            assert(self.idx(b[inx].addr as int) == self.idx(n as int));
        }
        assert(self.idx(a + need) == self.idx(a) + need / 8);
        assert forall|j: int| 0 <= j < b1.len() && #[trigger] b1[j].free implies h1.sl(
            h1.fslot(b1[j].addr as int, b1[j].size as int),
        ) == b1[j].addr by {
            assert(h1.fslot(b1[j].addr as int, b1[j].size as int) == self.fslot(b1[j].addr as int, b1[j].size as int));
            if j < i {
                assert(b1[j] == b[j]);
                assert(self.idx(b[j].addr as int) + b[j].size / 8 <= self.idx(b[i].addr as int));
            } else if j == i {
            } else if j == i + 1 {
                assert(self.fslot(a + need, b[i].size - need) == self.idx(a) + b[i].size / 8 - 1);
            } else {
                assert(b1[j] == b[j - 1]);
                assert(self.idx(b[i].addr as int) + b[i].size / 8 <= self.idx(b[j - 1].addr as int));
            }
        }
        assert forall|j: int| #![trigger b1[j - 1].free, b1[j].free] 0 < j < b1.len() implies !(b1[j - 1].free && b1[j].free) by {
            if j < i {
                assert(b1[j] == b[j]);
                assert(b1[j - 1] == b[j - 1]);
                assert(!(b[j - 1].free && b[j].free));
            } else if j == i {
                assert(!b1[j].free);
            } else if j == i + 1 {
                assert(!b1[j - 1].free);
            } else if j == i + 2 {
                assert(b1[j] == b[i + 1]);
                assert(!(b[i + 1 - 1].free && b[i + 1].free));
            } else {
                assert(b1[j] == b[j - 1]);
                assert(b1[j - 1] == b[j - 2]);
                assert(!(b[j - 2].free && b[j - 1].free));
            }
        }
    }

    proof fn lemma_split_members(&self, h1: &Heap, k: int, need: int)
        requires
            self.split_step(h1, k, need),
        ensures
            h1.members_ok(),
    {
        self.lemma_split_common(h1, k, need);
        self.lemma_free_entry(k);
        self.lemma_layout();
        reveal(Heap::members_ok);
        let b = self.blocks@;
        let fl = self.free@;
        let b1 = h1.blocks@;
        let fl1 = h1.free@;
        let i = index_of(b, fl[k] as int);
        let a = fl[k] as int;
        let nf = (a + need) as usize;
        assert(fl1[k] == nf);
        assert forall|k2: int| 0 <= k2 < fl.len() && k2 != k implies #[trigger] fl[k2] != nf
            && fl1[k2] == fl[k2] && (index_of(b, fl[k2] as int) < i ==> b1[index_of(b, fl[k2] as int)]
            == b[index_of(b, fl[k2] as int)]) && (index_of(b, fl[k2] as int) > i ==> b1[index_of(b, fl[k2] as int) + 1]
            == b[index_of(b, fl[k2] as int)]) && index_of(b, fl[k2] as int) != i by {
            self.lemma_free_entry(k2);
            let m = index_of(b, fl[k2] as int);
            assert(fl[k2] != fl[k]);
            if m < i {
                assert(self.idx(b[m].addr as int) + b[m].size / 8 <= self.idx(b[i].addr as int));
            } else if m > i {
                assert(self.idx(b[i].addr as int) + b[i].size / 8 <= self.idx(b[m].addr as int));
            }
        }
        assert forall|x: int, y: int| 0 <= x < fl1.len() && 0 <= y < fl1.len() && x != y implies fl1[x] != fl1[y] by {
            if x != k && y != k {
                assert(fl[x] != fl[y]);
            }
        }
        assert(fl1.no_duplicates());
        assert forall|k2: int| 0 <= k2 < fl1.len() implies is_free_block(b1, #[trigger] fl1[k2] as int) by {
            if k2 == k {
                assert(b1[i + 1].addr == fl1[k2] && b1[i + 1].free);
            } else {
                self.lemma_free_entry(k2);
                let m = index_of(b, fl[k2] as int);
                if m < i {
                    assert(b1[m].addr == fl1[k2] && b1[m].free);
                } else {
                    assert(b1[m + 1].addr == fl1[k2] && b1[m + 1].free);
                }
            }
        }
        assert forall|j: int| 0 <= j < b1.len() && #[trigger] b1[j].free implies fl1.contains(b1[j].addr) by {
            if j == i + 1 {
                assert(fl1[k] == b1[j].addr);
            } else {
                let m = if j < i { j } else { j - 1 };
                assert(b1[j] == b[m]);
                assert(b[m].free);
                assert(fl.contains(b[m].addr));
                let k2 = choose|k2: int| 0 <= k2 < fl.len() && fl[k2] == b[m].addr;
                if k2 == k {
                    self.lemma_index_unique(m, a);
                }
                assert(fl1[k2] == b1[j].addr);
            }
        }
    }

    /// The links of the free-list entry at `k2`, other than the one that was cut, and
    /// of its block, stay where they were.
    proof fn lemma_split_link_entry(&self, h1: &Heap, k: int, need: int, k2: int)
        requires
            self.split_step(h1, k, need),
            0 <= k2 < self.free@.len(),
            k2 != k,
        ensures
            ({
                let fl = self.free@;
                let a = fl[k] as int;
                let p = self.sl(self.idx(a) + 1);
                let n = self.sl(self.idx(a) + 2);
                let nf = (a + need) as usize;
                &&& h1.sl(h1.idx(fl[k2] as int) + 2) == if k2 == k - 1 { nf } else { self.sl(self.idx(fl[k2] as int) + 2) }
                &&& h1.sl(h1.idx(fl[k2] as int) + 1) == if k2 == k + 1 { nf } else { self.sl(self.idx(fl[k2] as int) + 1) }
            }),
    {
        self.lemma_split_common(h1, k, need);
        self.lemma_free_entry(k);
        self.lemma_free_entry(k2);
        self.lemma_layout();
        let (ip, inx) = self.lemma_neighbours(k);
        let b = self.blocks@;
        let fl = self.free@;
        let i = index_of(b, fl[k] as int);
        let a = fl[k] as int;
        let p = self.sl(self.idx(a) + 1);
        let n = self.sl(self.idx(a) + 2);
        let m = index_of(b, fl[k2] as int);
        reveal(Heap::members_ok);
        assert(fl[k2] != fl[k]);
        assert(m != i);
        assert(h1.idx(fl[k2] as int) == self.idx(b[m].addr as int));
        assert(self.idx(b[m].addr as int) + b[m].size / 8 <= self.idx(b[i].addr as int)
            || self.idx(b[i].addr as int) + b[i].size / 8 <= self.idx(b[m].addr as int));
        if ip >= 0 {
            assert(self.idx(b[ip].addr as int) == self.idx(p as int));
            if m != ip {
                assert(self.idx(b[m].addr as int) + b[m].size / 8 <= self.idx(b[ip].addr as int)
                    || self.idx(b[ip].addr as int) + b[ip].size / 8 <= self.idx(b[m].addr as int));
            }
        }
        if inx >= 0 {
            assert(self.idx(b[inx].addr as int) == self.idx(n as int));
            if m != inx {
                assert(self.idx(b[m].addr as int) + b[m].size / 8 <= self.idx(b[inx].addr as int)
                    || self.idx(b[inx].addr as int) + b[inx].size / 8 <= self.idx(b[m].addr as int));
            }
        }
        if k2 == k - 1 {
            self.lemma_index_unique(ip, fl[k2] as int);
        } else if ip >= 0 {
            assert(fl[k2] != fl[k - 1]);
        }
        if k2 == k + 1 {
            self.lemma_index_unique(inx, fl[k2] as int);
        } else if inx >= 0 {
            assert(fl[k2] != fl[k + 1]);
        }
        assert(self.idx(a + need) == self.idx(a) + need / 8);
    }

    proof fn lemma_split_links(&self, h1: &Heap, k: int, need: int)
        requires
            self.split_step(h1, k, need),
        ensures
            h1.links_ok(),
    {
        self.lemma_split_common(h1, k, need);
        self.lemma_free_entry(k);
        self.lemma_layout();
        let (ip, inx) = self.lemma_neighbours(k);
        let b = self.blocks@;
        let fl = self.free@;
        let fl1 = h1.free@;
        let i = index_of(b, fl[k] as int);
        let a = fl[k] as int;
        let p = self.sl(self.idx(a) + 1);
        let n = self.sl(self.idx(a) + 2);
        let nf = a + need;
        if ip >= 0 {
            assert(self.idx(b[ip].addr as int) == self.idx(p as int));
        }
        if inx >= 0 {
            assert(self.idx(b[inx].addr as int) == self.idx(n as int));
        }
        assert(self.idx(nf) == self.idx(a) + need / 8);
        assert(h1.sl(-1) == self.split_slots(k, need, -1));
        assert(h1.sl(-2) == self.split_slots(k, need, -2));
        assert(fl1.len() == fl.len());
        assert(h1.sl(h1.idx(nf) + 2) == n);
        assert(h1.sl(h1.idx(nf) + 1) == p);
        reveal(Heap::links_ok);
        assert forall|k2: int| 0 <= k2 < fl1.len() implies #[trigger] h1.sl(h1.idx(fl1[k2] as int) + 2) == (if k2
            + 1 < fl1.len() {
            fl1[k2 + 1]
        } else {
            h1.end
        }) by {
            if k2 != k {
                self.lemma_split_link_entry(h1, k, need, k2);
                assert(self.sl(self.idx(fl[k2] as int) + 2) == (if k2 + 1 < fl.len() { fl[k2 + 1] } else { self.end }));
            }
        }
        assert forall|k2: int| 0 <= k2 < fl1.len() implies #[trigger] h1.sl(h1.idx(fl1[k2] as int) + 1) == (if k2 > 0 {
            fl1[k2 - 1]
        } else {
            h1.end
        }) by {
            if k2 != k {
                self.lemma_split_link_entry(h1, k, need, k2);
                assert(self.sl(self.idx(fl[k2] as int) + 1) == (if k2 > 0 { fl[k2 - 1] } else { self.end }));
            }
        }
    }

    proof fn lemma_split_wf(&self, h1: &Heap, k: int, need: int)
        requires
            self.split_step(h1, k, need),
        ensures
            h1.wf(),
    {
        self.lemma_split_common(h1, k, need);
        self.lemma_split_headers(h1, k, need);
        self.lemma_split_footers(h1, k, need);
        self.lemma_split_members(h1, k, need);
        self.lemma_split_links(h1, k, need);
    }
}

} // verus!

verus! {

impl Heap {
    /// The words after `alloc` hands out the whole free block at list position `k`.
    pub closed spec fn consume_slots(&self, k: int, j: int) -> usize {
        let a = self.free@[k] as int;
        let fs = self.blocks@[index_of(self.blocks@, a)].size as int;
        let p = self.sl(self.idx(a) + 1);
        let n = self.sl(self.idx(a) + 2);
        let nx = a + fs;
        if j == self.idx(a) {
            (fs + 1) as usize
        } else if j == self.nslot(p as int) {
            n
        } else if j == self.pslot(n as int) {
            p
        } else if j == self.hslot(nx) {
            self.sl(self.hslot(nx)) | 1usize
        } else {
            self.sl(j)
        }
    }

    pub closed spec fn consume_step(&self, h1: &Heap, k: int) -> bool {
        let b = self.blocks@;
        let fl = self.free@;
        let i = index_of(b, fl[k] as int);
        &&& self.wf()
        &&& 0 <= k < fl.len()
        &&& h1.start == self.start
        &&& h1.end == self.end
        &&& h1.mem@.len() == self.mem@.len()
        &&& h1.blocks@ == b.update(i, Block { addr: b[i].addr, size: b[i].size, free: false })
        &&& h1.free@ == fl.remove(k)
        &&& forall|j: int| #[trigger] h1.sl(j) == self.consume_slots(k, j)
    }

    proof fn lemma_consume_common(&self, h1: &Heap, k: int)
        requires
            self.consume_step(h1, k),
        ensures
            h1.shape_ok(),
            ({
                let b = self.blocks@;
                let i = index_of(b, self.free@[k] as int);
                &&& 0 <= i < b.len()
                &&& b[i].addr == self.free@[k]
                &&& b[i].free
                &&& b[i].addr + b[i].size <= self.end
                &&& h1.blocks@.len() == b.len()
            }),
    {
        let b = self.blocks@;
        self.lemma_free_entry(k);
        let i = index_of(b, self.free@[k] as int);
        lemma_tiling_ordered(b, self.start as int, self.end as int);
        let b1 = h1.blocks@;
        assert forall|j: int| #![trigger b1[j].addr, b1[j - 1].size] 0 < j < b1.len() implies b1[j].addr == b1[j - 1].addr + b1[j - 1].size by {
            assert(b[j].addr == b[j - 1].addr + b[j - 1].size);
        }
        assert forall|j: int| 0 <= j < b1.len() implies #[trigger] b1[j].size >= FREE_SIZE && b1[j].size % 8 == 0 by {
            assert(b[j].size >= FREE_SIZE);
        }
        assert(b1.last().addr == b.last().addr);
    }

    #[verifier::spinoff_prover]
    #[verifier::rlimit(50)]
    proof fn lemma_consume_headers(&self, h1: &Heap, k: int)
        requires
            self.consume_step(h1, k),
        ensures
            h1.headers_ok(),
            h1.footers_ok(),
            h1.coalesced(),
    {
        self.lemma_consume_common(h1, k);
        self.lemma_free_entry(k);
        self.lemma_layout();
        let (ip, inx) = self.lemma_neighbours(k);
        reveal(Heap::headers_ok);
        reveal(Heap::footers_ok);
        reveal(Heap::coalesced);
        let b = self.blocks@;
        let fl = self.free@;
        let b1 = h1.blocks@;
        let i = index_of(b, fl[k] as int);
        let a = fl[k] as int;
        let fs = b[i].size as int;
        let p = self.sl(self.idx(a) + 1);
        let n = self.sl(self.idx(a) + 2);
        if ip >= 0 {
            assert(self.idx(b[ip].addr as int) == self.idx(p as int));
        }
        if inx >= 0 {
            assert(self.idx(b[inx].addr as int) == self.idx(n as int));
        }
        if i + 1 < b.len() {
            assert(b[i + 1].addr == b[i + 1 - 1].addr + b[i + 1 - 1].size);
            assert(!b[i + 1].free);
            assert(self.sl(self.idx(b[i + 1].addr as int)) == b[i + 1].size + 0);
            lemma_tag_bits(b[i + 1].size, 0);
            assert(self.hslot(a + fs) == self.idx(b[i + 1].addr as int));
        } else {
            assert(b.last() == b[i]);
            assert(a + fs == self.end);
            assert(self.sl(-3) == 0);
            assert(0usize | 1usize == 1usize) by (bit_vector);
        }
        assert forall|j: int| 0 <= j < b1.len() implies h1.sl(h1.idx(#[trigger] b1[j].addr as int))
            == b1[j].size + (if prev_in_use(b1, j) { 1int } else { 0int }) by {
            assert(h1.idx(b1[j].addr as int) == self.idx(b1[j].addr as int));
            if j < i {
                assert(self.idx(b[j].addr as int) + b[j].size / 8 <= self.idx(b[i].addr as int));
                if i + 1 < b.len() {
                    assert(self.idx(b[j].addr as int) + b[j].size / 8 <= self.idx(b[i + 1].addr as int));
                }
            } else if j == i {
                if i > 0 {
                    assert(!b[i - 1].free);
                }
            } else if j == i + 1 {
            } else {
                assert(self.idx(b[i + 1].addr as int) + b[i + 1].size / 8 <= self.idx(b[j].addr as int));
            }
        }
        assert(h1.head.info.0 == h1.sl(-3));
        assert(h1.sl(-3) == self.consume_slots(k, -3));
        if i == b.len() - 1 {
            assert(b1.last() == b1[i]);
            assert(self.hslot(a + fs) == -3);
            assert(h1.sl(-3) == 1usize);
        } else {
            assert(b1.last() == b[b.len() - 1]);
            assert(self.hslot(a + fs) != -3);
            assert(h1.sl(-3) == self.sl(-3));
        }
        assert forall|j: int| 0 <= j < b1.len() && #[trigger] b1[j].free implies h1.sl(
            h1.fslot(b1[j].addr as int, b1[j].size as int),
        ) == b1[j].addr by {
            assert(h1.fslot(b1[j].addr as int, b1[j].size as int) == self.fslot(b1[j].addr as int, b1[j].size as int));
            assert(j != i);
            assert(b1[j] == b[j]);
            if j < i {
                assert(self.idx(b[j].addr as int) + b[j].size / 8 <= self.idx(b[i].addr as int));
            } else {
                assert(self.idx(b[i].addr as int) + b[i].size / 8 <= self.idx(b[j].addr as int));
                if j > i + 1 {
                    assert(self.idx(b[i + 1].addr as int) + b[i + 1].size / 8 <= self.idx(b[j].addr as int));
                }
            }
        }
        assert forall|j: int| #![trigger b1[j - 1].free, b1[j].free] 0 < j < b1.len() implies !(b1[j - 1].free && b1[j].free) by {
            assert(!(b[j - 1].free && b[j].free));
        }
    }

    proof fn lemma_consume_members(&self, h1: &Heap, k: int)
        requires
            self.consume_step(h1, k),
        ensures
            h1.members_ok(),
    {
        self.lemma_consume_common(h1, k);
        self.lemma_free_entry(k);
        reveal(Heap::members_ok);
        let b = self.blocks@;
        let fl = self.free@;
        let b1 = h1.blocks@;
        let fl1 = h1.free@;
        let i = index_of(b, fl[k] as int);
        assert forall|x: int| 0 <= x < fl1.len() implies #[trigger] fl1[x] == fl[if x < k { x } else { x + 1 }] by {}
        assert forall|x: int, y: int| 0 <= x < fl1.len() && 0 <= y < fl1.len() && x != y implies fl1[x] != fl1[y] by {
            let x2 = if x < k { x } else { x + 1 };
            let y2 = if y < k { y } else { y + 1 };
            assert(fl[x2] != fl[y2]);
        }
        assert(fl1.no_duplicates());
        assert forall|k2: int| 0 <= k2 < fl1.len() implies is_free_block(b1, #[trigger] fl1[k2] as int) by {
            let x2 = if k2 < k { k2 } else { k2 + 1 };
            self.lemma_free_entry(x2);
            let m = index_of(b, fl[x2] as int);
            assert(fl[x2] != fl[k]);
            assert(b1[m].addr == fl1[k2] && b1[m].free);
        }
        assert forall|j: int| 0 <= j < b1.len() && #[trigger] b1[j].free implies fl1.contains(b1[j].addr) by {
            assert(j != i);
            assert(b1[j] == b[j]);
            assert(fl.contains(b[j].addr));
            let k2 = choose|k2: int| 0 <= k2 < fl.len() && fl[k2] == b[j].addr;
            if k2 == k {
                self.lemma_index_unique(j, fl[k] as int);
            }
            let x = if k2 < k { k2 } else { k2 - 1 };
            assert(fl1[x] == b1[j].addr);
        }
    }

    proof fn lemma_consume_link_entry(&self, h1: &Heap, k: int, k2: int)
        requires
            self.consume_step(h1, k),
            0 <= k2 < self.free@.len(),
            k2 != k,
        ensures
            ({
                let fl = self.free@;
                let a = fl[k] as int;
                let p = self.sl(self.idx(a) + 1);
                let n = self.sl(self.idx(a) + 2);
                &&& h1.sl(h1.idx(fl[k2] as int) + 2) == if k2 == k - 1 { n } else { self.sl(self.idx(fl[k2] as int) + 2) }
                &&& h1.sl(h1.idx(fl[k2] as int) + 1) == if k2 == k + 1 { p } else { self.sl(self.idx(fl[k2] as int) + 1) }
            }),
    {
        self.lemma_consume_common(h1, k);
        self.lemma_free_entry(k);
        self.lemma_free_entry(k2);
        self.lemma_layout();
        let (ip, inx) = self.lemma_neighbours(k);
        let b = self.blocks@;
        let fl = self.free@;
        let i = index_of(b, fl[k] as int);
        let a = fl[k] as int;
        let fs = b[i].size as int;
        let p = self.sl(self.idx(a) + 1);
        let n = self.sl(self.idx(a) + 2);
        let m = index_of(b, fl[k2] as int);
        reveal(Heap::members_ok);
        assert(fl[k2] != fl[k]);
        assert(m != i);
        assert(h1.idx(fl[k2] as int) == self.idx(b[m].addr as int));
        assert(self.idx(b[m].addr as int) + b[m].size / 8 <= self.idx(b[i].addr as int)
            || self.idx(b[i].addr as int) + b[i].size / 8 <= self.idx(b[m].addr as int));
        if i + 1 < b.len() {
            assert(b[i + 1].addr == b[i + 1 - 1].addr + b[i + 1 - 1].size);
            assert(self.hslot(a + fs) == self.idx(b[i + 1].addr as int));
            if m != i + 1 {
                assert(self.idx(b[m].addr as int) + b[m].size / 8 <= self.idx(b[i + 1].addr as int)
                    || self.idx(b[i + 1].addr as int) + b[i + 1].size / 8 <= self.idx(b[m].addr as int));
            }
        } else {
            assert(b.last() == b[i]);
        }
        if ip >= 0 {
            assert(self.idx(b[ip].addr as int) == self.idx(p as int));
            if m != ip {
                assert(self.idx(b[m].addr as int) + b[m].size / 8 <= self.idx(b[ip].addr as int)
                    || self.idx(b[ip].addr as int) + b[ip].size / 8 <= self.idx(b[m].addr as int));
            }
        }
        if inx >= 0 {
            assert(self.idx(b[inx].addr as int) == self.idx(n as int));
            if m != inx {
                assert(self.idx(b[m].addr as int) + b[m].size / 8 <= self.idx(b[inx].addr as int)
                    || self.idx(b[inx].addr as int) + b[inx].size / 8 <= self.idx(b[m].addr as int));
            }
        }
        if k2 == k - 1 {
            self.lemma_index_unique(ip, fl[k2] as int);
        } else if ip >= 0 {
            assert(fl[k2] != fl[k - 1]);
        }
        if k2 == k + 1 {
            self.lemma_index_unique(inx, fl[k2] as int);
        } else if inx >= 0 {
            assert(fl[k2] != fl[k + 1]);
        }
    }

    proof fn lemma_consume_links(&self, h1: &Heap, k: int)
        requires
            self.consume_step(h1, k),
        ensures
            h1.links_ok(),
    {
        self.lemma_consume_common(h1, k);
        self.lemma_free_entry(k);
        self.lemma_layout();
        let (ip, inx) = self.lemma_neighbours(k);
        let b = self.blocks@;
        let fl = self.free@;
        let fl1 = h1.free@;
        let i = index_of(b, fl[k] as int);
        let a = fl[k] as int;
        let fs = b[i].size as int;
        let p = self.sl(self.idx(a) + 1);
        let n = self.sl(self.idx(a) + 2);
        if i + 1 < b.len() {
            assert(b[i + 1].addr == b[i + 1 - 1].addr + b[i + 1 - 1].size);
            assert(self.hslot(a + fs) == self.idx(b[i + 1].addr as int));
        } else {
            assert(b.last() == b[i]);
        }
        if ip >= 0 {
            assert(self.idx(b[ip].addr as int) == self.idx(p as int));
        }
        if inx >= 0 {
            assert(self.idx(b[inx].addr as int) == self.idx(n as int));
        }
        assert(h1.sl(-1) == self.consume_slots(k, -1));
        assert(h1.sl(-2) == self.consume_slots(k, -2));
        assert forall|x: int| 0 <= x < fl1.len() implies #[trigger] fl1[x] == fl[if x < k { x } else { x + 1 }] by {}
        reveal(Heap::links_ok);
        assert forall|x: int| 0 <= x < fl1.len() implies #[trigger] h1.sl(h1.idx(fl1[x] as int) + 2) == (if x
            + 1 < fl1.len() {
            fl1[x + 1]
        } else {
            h1.end
        }) by {
            let k2 = if x < k { x } else { x + 1 };
            self.lemma_consume_link_entry(h1, k, k2);
            assert(self.sl(self.idx(fl[k2] as int) + 2) == (if k2 + 1 < fl.len() { fl[k2 + 1] } else { self.end }));
        }
        assert forall|x: int| 0 <= x < fl1.len() implies #[trigger] h1.sl(h1.idx(fl1[x] as int) + 1) == (if x > 0 {
            fl1[x - 1]
        } else {
            h1.end
        }) by {
            let k2 = if x < k { x } else { x + 1 };
            self.lemma_consume_link_entry(h1, k, k2);
            assert(self.sl(self.idx(fl[k2] as int) + 1) == (if k2 > 0 { fl[k2 - 1] } else { self.end }));
        }
    }

    proof fn lemma_consume_wf(&self, h1: &Heap, k: int)
        requires
            self.consume_step(h1, k),
        ensures
            h1.wf(),
    {
        self.lemma_consume_common(h1, k);
        self.lemma_consume_headers(h1, k);
        self.lemma_consume_members(h1, k);
        self.lemma_consume_links(h1, k);
    }
}

} // verus!

verus! {

proof fn lemma_mask_low3(x: usize)
    ensures
        x & !7usize == x - x % 8,
{
    assert(x & !7usize == x - x % 8) by (bit_vector);
}

proof fn lemma_round_up(s: usize)
    requires
        1 <= s,
        s <= usize::MAX - 7,
    ensures
        ((s - 1) as usize & ALIGN_MASK) + ALIGN == ((s + 7) / 8) * 8,
{
    let x = (s - 1) as usize;
    lemma_mask_low3(x);
    assert(x - x % 8 + 8 == ((x + 8) / 8) * 8);
}

impl Heap {
    /// Hands out the whole free block at list position `k`.
    fn alloc_consume(&mut self, k: Ghost<int>, free: FreePointer, free_size: usize)
        requires
            old(self).wf(),
            0 <= k@ < old(self).free@.len(),
            old(self).free@[k@] == free,
            free_size == old(self).blocks@[index_of(old(self).blocks@, free as int)].size,
        ensures
            final(self).wf(),
            final(self).start == old(self).start,
            final(self).end == old(self).end,
            final(self).blocks@ == old(self).blocks@.update(
                index_of(old(self).blocks@, free as int),
                Block { addr: free, size: free_size, free: false },
            ),
            final(self).free@ == old(self).free@.remove(k@),
            old(self).consume_step(&*final(self), k@),
    {
        let ghost h0 = *self;
        let ghost b = self.blocks@;
        let ghost i = index_of(b, free as int);
        proof {
            self.lemma_free_entry(k@);
            self.lemma_layout();
            lemma_tiling_ordered(b, self.start as int, self.end as int);
            let _ = self.lemma_neighbours(k@);
            if i + 1 < b.len() {
                assert(b[i + 1].addr == b[i + 1 - 1].addr + b[i + 1 - 1].size);
            } else {
                assert(b.last() == b[i]);
            }
        }
        // the block after this one (or the list head) now follows a used block
        let next_used = free + free_size;
        let mut next_info = BlockInfo(self.header(next_used));
        next_info.set_prev_used();
        self.set_header(next_used, next_info.0);
        let ghost h1 = *self;
        proof {
            assert(self.sl(self.idx(free as int) + 1) == h0.sl(h0.idx(free as int) + 1));
            assert(self.sl(self.idx(free as int) + 2) == h0.sl(h0.idx(free as int) + 2));
        }
        self.remove_free(free);
        let ghost h2 = *self;
        let info = BlockInfo::new(free_size);
        self.set_header(free, info.0);
        let ghost h3 = *self;
        proof {
            let p = h0.sl(h0.idx(free as int) + 1);
            let n = h0.sl(h0.idx(free as int) + 2);
            self.blocks@ = b.update(i, Block { addr: free, size: free_size, free: false });
            self.free@ = h0.free@.remove(k@);
            assert forall|j: int| #[trigger] self.sl(j) == h0.consume_slots(k@, j) by {
                assert(self.sl(j) == h3.sl(j));
                assert(h3.sl(j) == if j == h0.idx(free as int) { info.0 } else { h2.sl(j) });
                assert(h2.sl(j) == if j == h0.nslot(p as int) { n } else if j == h0.pslot(n as int) { p } else { h1.sl(j) });
                assert(h1.sl(j) == if j == h0.hslot(next_used as int) { next_info.0 } else { h0.sl(j) });
            }
            assert(self.start == h0.start && self.end == h0.end && self.mem@.len() == h0.mem@.len());
            assert(b[i].addr == free && b[i].size == free_size);
            h0.lemma_consume_wf(self, k@);
        }
    }

    /// Cuts `size` bytes off the front of the free block at list position `k`; the rest
    /// stays free and takes the block's place in the free list.
    fn alloc_split(&mut self, k: Ghost<int>, free: FreePointer, free_size: usize, size: usize)
        requires
            old(self).wf(),
            0 <= k@ < old(self).free@.len(),
            old(self).free@[k@] == free,
            free_size == old(self).blocks@[index_of(old(self).blocks@, free as int)].size,
            size % 8 == 0,
            size >= FREE_SIZE,
            free_size - size >= FREE_SIZE,
        ensures
            final(self).wf(),
            final(self).start == old(self).start,
            final(self).end == old(self).end,
            final(self).blocks@ == split_blocks(old(self).blocks@, index_of(old(self).blocks@, free as int), size as int),
            final(self).free@ == old(self).free@.update(k@, (free + size) as usize),
            old(self).split_step(&*final(self), k@, size as int),
    {
        let ghost h0 = *self;
        let ghost b = self.blocks@;
        let ghost i = index_of(b, free as int);
        proof {
            self.lemma_free_entry(k@);
            self.lemma_layout();
            lemma_tiling_ordered(b, self.start as int, self.end as int);
            let _ = self.lemma_neighbours(k@);
        }
        let prev = self.get_prev(free);
        let next = self.get_next(free);
        let new_free = free + size;
        let leftover = free_size - size;
        self.insert_free(prev, next, new_free, leftover);
        let ghost h1 = *self;
        let info = BlockInfo::new(size);
        self.set_header(free, info.0);
        let ghost h2 = *self;
        proof {
            assert(h0.idx(free as int) != h0.idx(new_free as int));
            self.blocks@ = split_blocks(b, i, size as int);
            self.free@ = h0.free@.update(k@, (free + size) as usize);
            assert forall|j: int| #[trigger] self.sl(j) == h0.split_slots(k@, size as int, j) by {
                assert(self.sl(j) == h2.sl(j));
                assert(h2.sl(j) == if j == h0.hslot(free as int) { info.0 } else { h1.sl(j) });
            }
            assert(self.start == h0.start && self.end == h0.end && self.mem@.len() == h0.mem@.len());
            assert(b[i].addr == free && b[i].size == free_size);
            h0.lemma_split_wf(self, k@, size as int);
        }
    }

    proof fn lemma_head_links(&self)
        requires
            self.wf(),
        ensures
            self.head.next == (if self.free@.len() > 0 { self.free@[0] } else { self.end }),
            self.head.prev == (if self.free@.len() > 0 { self.free@.last() } else { self.end }),
    {
        reveal(Heap::links_ok);
    }

    /// One step of the search for a free block: the size of the block at list position
    /// `k`, where its next link leads, and how the first fit goes on from there.
    proof fn lemma_fit_step(&self, k: int, need: int)
        requires
            self.wf(),
            0 <= k < self.free@.len(),
        ensures
            ({
                let b = self.blocks@;
                let fl = self.free@;
                let i = index_of(b, fl[k] as int);
                &&& fl[k] != self.end
                &&& self.addr_ok(fl[k] as int)
                &&& self.sl(self.hslot(fl[k] as int)) & !1usize == b[i].size
                &&& self.sl(self.nslot(fl[k] as int)) == (if k + 1 < fl.len() { fl[k + 1] } else { self.end })
                &&& first_fit(b, fl, need, k) == (if b[i].size >= need { k } else { first_fit(b, fl, need, k + 1) })
            }),
    {
        let b = self.blocks@;
        let fl = self.free@;
        self.lemma_free_entry(k);
        self.lemma_layout();
        let i = index_of(b, fl[k] as int);
        lemma_tag_bits(b[i].size, if prev_in_use(b, i) { 1usize } else { 0usize });
        reveal(Heap::headers_ok);
    }

    /// First fit: takes the first block in free-list order that holds a header and
    /// `size` bytes, and returns the address just after the header; 0 when no free
    /// block is large enough.
    #[verifier::rlimit(100)]
    pub fn allocate(&mut self, size: usize) -> (r: usize)
        requires
            old(self).wf(),
            size <= isize::MAX,
        ensures
            final(self).wf(),
            final(self).heap_start() == old(self).heap_start(),
            final(self).heap_end() == old(self).heap_end(),
            ({
                let res = alloc_result(old(self).blocks(), old(self).free_list(), size as int);
                &&& final(self).blocks() == res.0
                &&& final(self).free_list() == res.1
                &&& r == res.2
            }),
            forall|a: int|
                used_data(old(self).blocks(), a) && (a - old(self).heap_start()) % 8 == 0
                    ==> #[trigger] final(self).word(a) == old(self).word(a),
    {
        let ghost n = size as int;
        // the header and the data, rounded up to the alignment
        let mut need = size + USED_SIZE;
        proof {
            lemma_round_up(need);
        }
        need = ((need - 1) & ALIGN_MASK) + ALIGN;
        if need < FREE_SIZE {
            need = FREE_SIZE;
        }
        assert(need == alloc_size(n));
        let ghost b = self.blocks@;
        let ghost fl = self.free@;
        proof {
            self.lemma_head_links();
        }
        // search the free list for the first block that is large enough
        let mut cur = self.head.next;
        let mut fit = false;
        let mut free_size: usize = 0;
        let ghost mut k: int = 0;
        while !fit && cur != self.end
            invariant
                self.wf(),
                b == self.blocks@,
                fl == self.free@,
                need == alloc_size(n),
                need % 8 == 0,
                need >= FREE_SIZE,
                0 <= k <= fl.len(),
                cur == (if k < fl.len() { fl[k] } else { self.end }),
                !fit ==> first_fit(b, fl, need as int, 0) == first_fit(b, fl, need as int, k),
                fit ==> (k < fl.len() && first_fit(b, fl, need as int, 0) == k
                    && free_size == b[index_of(b, fl[k] as int)].size && free_size >= need),
            decreases fl.len() - k + (if fit { 0int } else { 1int }),
        {
            proof {
                self.lemma_fit_step(k, need as int);
            }
            free_size = self.header(cur) & !1usize;
            if free_size >= need {
                fit = true;
            } else {
                cur = self.get_next(cur);
                proof {
                    k = k + 1;
                }
            }
        }
        if !fit {
            proof {
                if k < fl.len() {
                    self.lemma_fit_step(k, need as int);
                }
                assert(first_fit(b, fl, need as int, k) == fl.len());
            }
            return 0;
        }
        let free = cur;
        let leftover = free_size - need;
        proof {
            lemma_alloc_found(b, fl, n, k);
            self.lemma_fit_step(k, need as int);
        }
        let ghost h0 = *self;
        if leftover < FREE_SIZE {
            // not enough left for another free block: hand out all of it
            self.alloc_consume(Ghost(k), free, free_size);
            proof {
                assert forall|a: int| used_data(b, a) && (a - h0.start) % 8 == 0 implies #[trigger] self.word(a)
                    == h0.word(a) by {
                    h0.lemma_consume_keeps_data(self, k, a);
                }
            }
        } else {
            // cut the block, the rest stays free
            self.alloc_split(Ghost(k), free, free_size, need);
            proof {
                assert forall|a: int| used_data(b, a) && (a - h0.start) % 8 == 0 implies #[trigger] self.word(a)
                    == h0.word(a) by {
                    h0.lemma_split_keeps_data(self, k, need as int, a);
                }
            }
        }
        free + USED_SIZE
    }
}

} // verus!

verus! {

impl Heap {
    /// The entries of `fl` are distinct block starts at least a minimal block apart, so
    /// that their link words are distinct.
    pub closed spec fn separated(&self, fl: Seq<usize>) -> bool {
        &&& fl.no_duplicates()
        &&& forall|k: int| 0 <= k < fl.len() ==> self.addr_ok(#[trigger] fl[k] as int)
        &&& forall|k1: int, k2: int|
            0 <= k1 < fl.len() && 0 <= k2 < fl.len() && k1 != k2 ==> self.idx(#[trigger] fl[k1] as int)
                + 4 <= self.idx(#[trigger] fl[k2] as int) || self.idx(fl[k2] as int) + 4 <= self.idx(
                fl[k1] as int,
            )
    }

    proof fn lemma_wf_separated(&self)
        requires
            self.wf(),
        ensures
            self.separated(self.free@),
            self.list_links(self.free@),
    {
        reveal(Heap::members_ok);
        reveal(Heap::links_ok);
        let b = self.blocks@;
        let fl = self.free@;
        self.lemma_layout();
        assert forall|k: int| 0 <= k < fl.len() implies self.addr_ok(#[trigger] fl[k] as int) by {
            self.lemma_free_entry(k);
        }
        assert forall|k1: int, k2: int|
            0 <= k1 < fl.len() && 0 <= k2 < fl.len() && k1 != k2 implies self.idx(#[trigger] fl[k1] as int)
                + 4 <= self.idx(#[trigger] fl[k2] as int) || self.idx(fl[k2] as int) + 4 <= self.idx(
                fl[k1] as int,
            ) by {
            self.lemma_free_entry(k1);
            self.lemma_free_entry(k2);
            let i1 = index_of(b, fl[k1] as int);
            let i2 = index_of(b, fl[k2] as int);
            assert(fl[k1] != fl[k2]);
            if i1 < i2 {
                assert(self.idx(b[i1].addr as int) + b[i1].size / 8 <= self.idx(b[i2].addr as int));
            } else {
                assert(self.idx(b[i2].addr as int) + b[i2].size / 8 <= self.idx(b[i1].addr as int));
            }
        }
    }

    /// Unlinking the entry at `k` leaves the links of the list without it.
    #[verifier::spinoff_prover]
    proof fn lemma_list_remove(&self, h1: &Heap, fl: Seq<usize>, k: int)
        requires
            self.list_links(fl),
            self.separated(fl),
            0 <= k < fl.len(),
            h1.start == self.start,
            h1.end == self.end,
            h1.mem@.len() == self.mem@.len(),
            ({
                let p = self.sl(self.idx(fl[k] as int) + 1);
                let n = self.sl(self.idx(fl[k] as int) + 2);
                forall|j: int| #[trigger]
                    h1.sl(j) == if j == self.nslot(p as int) {
                        n
                    } else if j == self.pslot(n as int) {
                        p
                    } else {
                        self.sl(j)
                    }
            }),
        ensures
            h1.list_links(fl.remove(k)),
            h1.separated(fl.remove(k)),
    {
        let fl1 = fl.remove(k);
        let p = self.sl(self.idx(fl[k] as int) + 1);
        let n = self.sl(self.idx(fl[k] as int) + 2);
        assert(p == (if k > 0 { fl[k - 1] } else { self.end }));
        assert(n == (if k + 1 < fl.len() { fl[k + 1] } else { self.end }));
        assert forall|x: int| 0 <= x < fl1.len() implies #[trigger] fl1[x] == fl[if x < k { x } else { x + 1 }] by {}
        assert(h1.sl(-1) == if k == 0 { n } else { self.sl(-1) });
        assert(h1.sl(-2) == if k + 1 == fl.len() { p } else { self.sl(-2) });
        if fl1.len() > 0 {
            assert(fl1.last() == fl1[fl1.len() - 1]);
            assert(fl.last() == fl[fl.len() - 1]);
        }
        assert forall|x: int| 0 <= x < fl1.len() implies #[trigger] h1.sl(h1.idx(fl1[x] as int) + 2) == (if x
            + 1 < fl1.len() {
            fl1[x + 1]
        } else {
            h1.end
        }) by {
            let y = if x < k { x } else { x + 1 };
            assert(self.sl(self.idx(fl[y] as int) + 2) == (if y + 1 < fl.len() { fl[y + 1] } else { self.end }));
            if k > 0 && y != k - 1 {
                assert(self.idx(fl[y] as int) + 4 <= self.idx(fl[k - 1] as int) || self.idx(fl[k - 1] as int) + 4 <= self.idx(fl[y] as int));
            }
            if k + 1 < fl.len() && y != k + 1 {
                assert(self.idx(fl[y] as int) + 4 <= self.idx(fl[k + 1] as int) || self.idx(fl[k + 1] as int) + 4 <= self.idx(fl[y] as int));
            }
            assert(self.addr_ok(fl[y] as int));
        }
        assert forall|x: int| 0 <= x < fl1.len() implies #[trigger] h1.sl(h1.idx(fl1[x] as int) + 1) == (if x > 0 {
            fl1[x - 1]
        } else {
            h1.end
        }) by {
            let y = if x < k { x } else { x + 1 };
            assert(self.sl(self.idx(fl[y] as int) + 1) == (if y > 0 { fl[y - 1] } else { self.end }));
            if k > 0 && y != k - 1 {
                assert(self.idx(fl[y] as int) + 4 <= self.idx(fl[k - 1] as int) || self.idx(fl[k - 1] as int) + 4 <= self.idx(fl[y] as int));
            }
            if k + 1 < fl.len() && y != k + 1 {
                assert(self.idx(fl[y] as int) + 4 <= self.idx(fl[k + 1] as int) || self.idx(fl[k + 1] as int) + 4 <= self.idx(fl[y] as int));
            }
            assert(self.addr_ok(fl[y] as int));
        }
        assert forall|x1: int, x2: int| 0 <= x1 < fl1.len() && 0 <= x2 < fl1.len() && x1 != x2 implies fl1[x1] != fl1[x2] by {
            let y1 = if x1 < k { x1 } else { x1 + 1 };
            let y2 = if x2 < k { x2 } else { x2 + 1 };
            assert(fl[y1] != fl[y2]);
        }
        assert forall|x1: int, x2: int|
            0 <= x1 < fl1.len() && 0 <= x2 < fl1.len() && x1 != x2 implies h1.idx(#[trigger] fl1[x1] as int)
                + 4 <= h1.idx(#[trigger] fl1[x2] as int) || h1.idx(fl1[x2] as int) + 4 <= h1.idx(
                fl1[x1] as int,
            ) by {
            let y1 = if x1 < k { x1 } else { x1 + 1 };
            let y2 = if x2 < k { x2 } else { x2 + 1 };
            assert(self.idx(fl[y1] as int) + 4 <= self.idx(fl[y2] as int) || self.idx(fl[y2] as int) + 4 <= self.idx(fl[y1] as int));
        }
        assert forall|x: int| 0 <= x < fl1.len() implies h1.addr_ok(#[trigger] fl1[x] as int) by {
            let y = if x < k { x } else { x + 1 };
            assert(self.addr_ok(fl[y] as int));
        }
    }

    /// Writing a free block of `size` bytes at `x` and linking it in front of the list.
    #[verifier::spinoff_prover]
    proof fn lemma_list_push(&self, h1: &Heap, fl: Seq<usize>, x: usize, size: int)
        requires
            self.list_links(fl),
            self.separated(fl),
            self.addr_ok(x as int),
            size >= FREE_SIZE,
            size % 8 == 0,
            x + size <= self.end,
            forall|k: int|
                0 <= k < fl.len() ==> self.idx(#[trigger] fl[k] as int) + 4 <= self.idx(x as int)
                    || self.idx(x as int) + size / 8 <= self.idx(fl[k] as int),
            h1.start == self.start,
            h1.end == self.end,
            h1.mem@.len() == self.mem@.len(),
            ({
                let hn = self.head.next;
                forall|j: int| #[trigger]
                    h1.sl(j) == if j == self.pslot(hn as int) {
                        x
                    } else if j == self.nslot(self.end as int) {
                        x
                    } else if j == self.fslot(x as int, size) {
                        x
                    } else if j == self.idx(x as int) + 2 {
                        hn
                    } else if j == self.idx(x as int) + 1 {
                        self.end
                    } else if j == self.idx(x as int) {
                        (size + 1) as usize
                    } else {
                        self.sl(j)
                    }
            }),
        ensures
            h1.list_links(seq![x] + fl),
            h1.separated(seq![x] + fl),
    {
        let fl1 = seq![x] + fl;
        let hn = self.head.next;
        assert forall|y: int| 0 <= y < fl1.len() implies #[trigger] fl1[y] == if y == 0 { x } else { fl[y - 1] } by {}
        assert(x != self.end);
        assert forall|k: int| 0 <= k < fl.len() implies fl[k] != x by {
            assert(self.idx(fl[k] as int) + 4 <= self.idx(x as int) || self.idx(x as int) + size / 8 <= self.idx(fl[k] as int));
        }
        assert(h1.sl(-1) == x);
        if fl.len() > 0 {
            assert(hn == fl[0]);
            assert(self.addr_ok(fl[0] as int));
            assert(h1.sl(-2) == self.sl(-2));
            assert(fl1.last() == fl.last());
        } else {
            assert(hn == self.end);
            assert(h1.sl(-2) == x);
        }
        assert(self.fslot(x as int, size) >= self.idx(x as int) + 3);
        assert forall|y: int| 0 <= y < fl1.len() implies #[trigger] h1.sl(h1.idx(fl1[y] as int) + 2) == (if y
            + 1 < fl1.len() {
            fl1[y + 1]
        } else {
            h1.end
        }) by {
            if y > 0 {
                let k = y - 1;
                assert(self.sl(self.idx(fl[k] as int) + 2) == (if k + 1 < fl.len() { fl[k + 1] } else { self.end }));
                assert(self.addr_ok(fl[k] as int));
                assert(self.idx(fl[k] as int) + 4 <= self.idx(x as int) || self.idx(x as int) + size / 8 <= self.idx(fl[k] as int));
                if k > 0 {
                    assert(self.idx(fl[k] as int) + 4 <= self.idx(fl[0] as int) || self.idx(fl[0] as int) + 4 <= self.idx(fl[k] as int));
                }
            }
        }
        assert forall|y: int| 0 <= y < fl1.len() implies #[trigger] h1.sl(h1.idx(fl1[y] as int) + 1) == (if y > 0 {
            fl1[y - 1]
        } else {
            h1.end
        }) by {
            if y > 0 {
                let k = y - 1;
                assert(self.sl(self.idx(fl[k] as int) + 1) == (if k > 0 { fl[k - 1] } else { self.end }));
                assert(self.addr_ok(fl[k] as int));
                assert(self.idx(fl[k] as int) + 4 <= self.idx(x as int) || self.idx(x as int) + size / 8 <= self.idx(fl[k] as int));
                if k > 0 {
                    assert(self.idx(fl[k] as int) + 4 <= self.idx(fl[0] as int) || self.idx(fl[0] as int) + 4 <= self.idx(fl[k] as int));
                }
            }
        }
        assert forall|y1: int, y2: int| 0 <= y1 < fl1.len() && 0 <= y2 < fl1.len() && y1 != y2 implies fl1[y1] != fl1[y2] by {
            if y1 > 0 && y2 > 0 {
                assert(fl[y1 - 1] != fl[y2 - 1]);
            }
        }
        assert forall|y1: int, y2: int|
            0 <= y1 < fl1.len() && 0 <= y2 < fl1.len() && y1 != y2 implies h1.idx(#[trigger] fl1[y1] as int)
                + 4 <= h1.idx(#[trigger] fl1[y2] as int) || h1.idx(fl1[y2] as int) + 4 <= h1.idx(
                fl1[y1] as int,
            ) by {
            if y1 > 0 && y2 > 0 {
                assert(self.idx(fl[y1 - 1] as int) + 4 <= self.idx(fl[y2 - 1] as int) || self.idx(fl[y2 - 1] as int) + 4 <= self.idx(fl[y1 - 1] as int));
            } else if y1 > 0 {
                assert(self.idx(fl[y1 - 1] as int) + 4 <= self.idx(x as int) || self.idx(x as int) + size / 8 <= self.idx(fl[y1 - 1] as int));
            } else if y2 > 0 {
                assert(self.idx(fl[y2 - 1] as int) + 4 <= self.idx(x as int) || self.idx(x as int) + size / 8 <= self.idx(fl[y2 - 1] as int));
            }
        }
        assert forall|y: int| 0 <= y < fl1.len() implies h1.addr_ok(#[trigger] fl1[y] as int) by {
            if y > 0 {
                assert(self.addr_ok(fl[y - 1] as int));
            }
        }
    }
}

} // verus!

verus! {

/// `p` is what `alloc` returned for a block that is still in use.
pub open spec fn is_allocated(b: Seq<Block>, p: int) -> bool {
    exists|i: int| 0 <= i < b.len() && #[trigger] b[i].addr + USED_SIZE == p && !b[i].free
}

/// Position of `a` in the free list.
pub open spec fn pos_of(fl: Seq<usize>, a: int) -> int {
    choose|k: int| 0 <= k < fl.len() && fl[k] == a
}

/// The blocks `lo..=hi` joined into one free block.
#[verifier::opaque]
pub open spec fn merge_blocks(b: Seq<Block>, lo: int, hi: int) -> Seq<Block> {
    b.subrange(0, lo) + seq![
        Block { addr: b[lo].addr, size: (b[hi].addr + b[hi].size - b[lo].addr) as usize, free: true },
    ] + b.subrange(hi + 1, b.len() as int)
}

proof fn lemma_merge_index(b: Seq<Block>, lo: int, hi: int)
    requires
        0 <= lo <= hi < b.len(),
    ensures
        merge_blocks(b, lo, hi).len() == b.len() - (hi - lo),
        forall|j: int|
            0 <= j < b.len() - (hi - lo) ==> #[trigger] merge_blocks(b, lo, hi)[j] == if j < lo {
                b[j]
            } else if j == lo {
                Block { addr: b[lo].addr, size: (b[hi].addr + b[hi].size - b[lo].addr) as usize, free: true }
            } else {
                b[j + (hi - lo)]
            },
{
    reveal(merge_blocks);
    let m = merge_blocks(b, lo, hi);
    let s1 = b.subrange(0, lo);
    let s2 = seq![Block { addr: b[lo].addr, size: (b[hi].addr + b[hi].size - b[lo].addr) as usize, free: true }];
    let s3 = b.subrange(hi + 1, b.len() as int);
    assert(m == s1 + s2 + s3);
    assert forall|j: int| 0 <= j < b.len() - (hi - lo) implies #[trigger] m[j] == if j < lo {
        b[j]
    } else if j == lo {
        s2[0]
    } else {
        b[j + (hi - lo)]
    } by {
        if j < lo {
            assert(m[j] == s1[j]);
        } else if j == lo {
            assert(m[j] == (s1 + s2)[j]);
        } else {
            assert(m[j] == s3[j - lo - 1]);
        }
    }
}

pub proof fn lemma_merge_blocks(b: Seq<Block>, lo: int, hi: int, start: int, end: int)
    requires
        tiling(b, start, end),
        end <= usize::MAX,
        0 <= lo <= hi < b.len(),
    ensures
        merge_blocks(b, lo, hi).len() == b.len() - (hi - lo),
        forall|j: int|
            0 <= j < b.len() - (hi - lo) ==> #[trigger] merge_blocks(b, lo, hi)[j] == if j < lo {
                b[j]
            } else if j == lo {
                Block { addr: b[lo].addr, size: (b[hi].addr + b[hi].size - b[lo].addr) as usize, free: true }
            } else {
                b[j + (hi - lo)]
            },
        tiling(merge_blocks(b, lo, hi), start, end),
        b[hi].addr + b[hi].size - b[lo].addr >= FREE_SIZE,
        (b[hi].addr + b[hi].size - b[lo].addr) % 8 == 0,
{
    let m = merge_blocks(b, lo, hi);
    lemma_merge_index(b, lo, hi);
    lemma_tiling_ordered(b, start, end);
    let mb = Block { addr: b[lo].addr, size: (b[hi].addr + b[hi].size - b[lo].addr) as usize, free: true };
    assert(m[lo] == mb);
    assert(b[lo].addr + b[lo].size <= b[hi].addr + b[hi].size) by {
        if lo < hi {
            assert(b[lo].addr + b[lo].size <= b[hi].addr);
        }
    }
    assert((b[hi].addr + b[hi].size - b[lo].addr) % 8 == 0) by {
        assert((b[hi].addr - start) % 8 == 0);
        assert((b[lo].addr - start) % 8 == 0);
        assert(b[hi].size % 8 == 0);
    }
    assert forall|j: int| #![trigger m[j].addr, m[j - 1].size] 0 < j < m.len() implies m[j].addr == m[j - 1].addr + m[j - 1].size by {
        if j < lo {
            assert(m[j] == b[j]);
            assert(m[j - 1] == b[j - 1]);
            assert(b[j].addr == b[j - 1].addr + b[j - 1].size);
        } else if j == lo {
            assert(m[j - 1] == b[j - 1]);
            assert(b[j].addr == b[j - 1].addr + b[j - 1].size);
        } else if j == lo + 1 {
            assert(m[j] == b[hi + 1]);
            assert(b[hi + 1].addr == b[hi + 1 - 1].addr + b[hi + 1 - 1].size);
        } else {
            assert(m[j] == b[j + (hi - lo)]);
            assert(m[j - 1] == b[j - 1 + (hi - lo)]);
            assert(b[j + (hi - lo)].addr == b[j + (hi - lo) - 1].addr + b[j + (hi - lo) - 1].size);
        }
    }
    assert forall|j: int| 0 <= j < m.len() implies #[trigger] m[j].size >= FREE_SIZE && m[j].size % 8 == 0 by {
        if j < lo {
            assert(m[j] == b[j]);
            assert(b[j].size >= FREE_SIZE);
        } else if j == lo {
        } else {
            assert(m[j] == b[j + (hi - lo)]);
            assert(b[j + (hi - lo)].size >= FREE_SIZE);
        }
    }
    if lo == 0 {
        assert(m[0] == mb);
    } else {
        assert(m[0] == b[0]);
    }
    if hi == b.len() - 1 {
        assert(m.last() == m[lo]);
        assert(b.last() == b[hi]);
    } else {
        assert(m.last() == m[m.len() - 1]);
        assert(m[m.len() - 1] == b[b.len() - 1]);
    }
}

/// The blocks and free list after `dealloc(p)`: the block is joined with free
/// neighbours, which leave the free list, and the joined block goes to its front.
pub open spec fn dealloc_result(b: Seq<Block>, fl: Seq<usize>, p: int) -> (Seq<Block>, Seq<usize>) {
    let i = index_of(b, p - USED_SIZE);
    let mp = i > 0 && b[i - 1].free;
    let mn = i + 1 < b.len() && b[i + 1].free;
    let lo = if mp { i - 1 } else { i };
    let hi = if mn { i + 1 } else { i };
    let fl1 = if mp { fl.remove(pos_of(fl, b[i - 1].addr as int)) } else { fl };
    let fl2 = if mn { fl1.remove(pos_of(fl1, b[i + 1].addr as int)) } else { fl1 };
    (merge_blocks(b, lo, hi), seq![b[lo].addr] + fl2)
}

} // verus!

verus! {

proof fn lemma_remove_contains(fl: Seq<usize>, k: int, a: usize)
    requires
        0 <= k < fl.len(),
        fl.no_duplicates(),
    ensures
        fl.remove(k).contains(a) <==> (fl.contains(a) && a != fl[k]),
{
    let fl1 = fl.remove(k);
    assert forall|x: int| 0 <= x < fl1.len() implies #[trigger] fl1[x] == fl[if x < k { x } else { x + 1 }] by {}
    if fl1.contains(a) {
        let x = choose|x: int| 0 <= x < fl1.len() && fl1[x] == a;
        let y = if x < k { x } else { x + 1 };
        assert(fl[y] == a);
    }
    if fl.contains(a) && a != fl[k] {
        let y = choose|y: int| 0 <= y < fl.len() && fl[y] == a;
        let x = if y < k { y } else { y - 1 };
        assert(fl1[x] == a);
    }
}

impl Heap {
    /// `j` is one of the head's links or a link word of an entry of `fl`.
    pub closed spec fn link_slot(&self, fl: Seq<usize>, j: int) -> bool {
        j == -1 || j == -2 || exists|k: int|
            0 <= k < fl.len() && (j == self.idx(#[trigger] fl[k] as int) + 1 || j == self.idx(fl[k] as int) + 2)
    }

    /// Unlinking an entry writes only link words of the list.
    #[verifier::spinoff_prover]
    proof fn lemma_remove_touches(&self, h1: &Heap, fl: Seq<usize>, k: int)
        requires
            self.list_links(fl),
            self.separated(fl),
            0 <= k < fl.len(),
            h1.start == self.start,
            h1.end == self.end,
            ({
                let p = self.sl(self.idx(fl[k] as int) + 1);
                let n = self.sl(self.idx(fl[k] as int) + 2);
                forall|j: int| #[trigger]
                    h1.sl(j) == if j == self.nslot(p as int) {
                        n
                    } else if j == self.pslot(n as int) {
                        p
                    } else {
                        self.sl(j)
                    }
            }),
        ensures
            forall|j: int| !self.link_slot(fl, j) ==> #[trigger] h1.sl(j) == self.sl(j),
            forall|j: int| self.link_slot(fl.remove(k), j) ==> #[trigger] self.link_slot(fl, j),
    {
        let p = self.sl(self.idx(fl[k] as int) + 1);
        let n = self.sl(self.idx(fl[k] as int) + 2);
        assert forall|j: int| !self.link_slot(fl, j) implies #[trigger] h1.sl(j) == self.sl(j) by {
            if k > 0 {
                assert(p == fl[k - 1]);
                assert(self.addr_ok(fl[k - 1] as int));
                if j == self.nslot(p as int) {
                    assert(j == self.idx(fl[k - 1] as int) + 2);
                }
            }
            if k + 1 < fl.len() {
                assert(n == fl[k + 1]);
                assert(self.addr_ok(fl[k + 1] as int));
                if j == self.pslot(n as int) {
                    assert(j == self.idx(fl[k + 1] as int) + 1);
                }
            }
        }
        let fl1 = fl.remove(k);
        assert forall|j: int| self.link_slot(fl1, j) implies #[trigger] self.link_slot(fl, j) by {
            if j != -1 && j != -2 {
                let x = choose|x: int|
                    0 <= x < fl1.len() && (j == self.idx(#[trigger] fl1[x] as int) + 1 || j == self.idx(fl1[x] as int) + 2);
                let y = if x < k { x } else { x + 1 };
                assert(fl1[x] == fl[y]);
            }
        }
    }

    proof fn lemma_link_slot_remove(&self, fl: Seq<usize>, k: int)
        requires
            0 <= k < fl.len(),
        ensures
            forall|j: int| #[trigger] self.link_slot(fl.remove(k), j) ==> self.link_slot(fl, j),
    {
        let fl1 = fl.remove(k);
        assert forall|j: int| #[trigger] self.link_slot(fl1, j) implies self.link_slot(fl, j) by {
            if j != -1 && j != -2 {
                let x = choose|x: int|
                    0 <= x < fl1.len() && (j == self.idx(#[trigger] fl1[x] as int) + 1 || j == self.idx(fl1[x] as int) + 2);
                let y = if x < k { x } else { x + 1 };
                assert(fl1[x] == fl[y]);
            }
        }
    }

    proof fn lemma_d_fl1_links(&self, ptr: int)
        requires
            self.wf(),
            is_allocated(self.blocks@, ptr),
        ensures
            forall|j: int| #[trigger] self.link_slot(self.d_fl1(ptr), j) ==> self.link_slot(self.free@, j),
    {
        if self.d_mp(ptr) {
            self.lemma_d_prev_list(ptr);
            self.lemma_link_slot_remove(self.free@, pos_of(self.free@, self.blocks@[self.d_i(ptr) - 1].addr as int));
        }
    }

    /// A block's header word, and a free block's last word, are no link words.
    proof fn lemma_not_link(&self, m: int)
        requires
            self.wf(),
            0 <= m < self.blocks@.len(),
        ensures
            !self.link_slot(self.free@, self.idx(self.blocks@[m].addr as int)),
            !self.link_slot(
                self.free@,
                self.fslot(self.blocks@[m].addr as int, self.blocks@[m].size as int),
            ),
    {
        let b = self.blocks@;
        let fl = self.free@;
        self.lemma_layout();
        let h = self.idx(b[m].addr as int);
        let f = self.fslot(b[m].addr as int, b[m].size as int);
        assert forall|k: int| 0 <= k < fl.len() implies !(h == self.idx(#[trigger] fl[k] as int) + 1 || h
            == self.idx(fl[k] as int) + 2) && !(f == self.idx(fl[k] as int) + 1 || f == self.idx(
            fl[k] as int,
        ) + 2) by {
            self.lemma_free_entry(k);
            let q = index_of(b, fl[k] as int);
            if q < m {
                assert(self.idx(b[q].addr as int) + b[q].size / 8 <= self.idx(b[m].addr as int));
            } else if q > m {
                assert(self.idx(b[m].addr as int) + b[m].size / 8 <= self.idx(b[q].addr as int));
            }
        }
    }
}

} // verus!

verus! {

impl Heap {
    /// Index of the block that `dealloc(ptr)` frees.
    pub closed spec fn d_i(&self, ptr: int) -> int {
        index_of(self.blocks@, ptr - USED_SIZE)
    }

    /// `dealloc(ptr)` joins the block with the free block before it.
    pub closed spec fn d_mp(&self, ptr: int) -> bool {
        self.d_i(ptr) > 0 && self.blocks@[self.d_i(ptr) - 1].free
    }

    /// `dealloc(ptr)` joins the block with the free block after it.
    pub closed spec fn d_mn(&self, ptr: int) -> bool {
        self.d_i(ptr) + 1 < self.blocks@.len() && self.blocks@[self.d_i(ptr) + 1].free
    }

    pub closed spec fn d_lo(&self, ptr: int) -> int {
        if self.d_mp(ptr) { self.d_i(ptr) - 1 } else { self.d_i(ptr) }
    }

    pub closed spec fn d_hi(&self, ptr: int) -> int {
        if self.d_mn(ptr) { self.d_i(ptr) + 1 } else { self.d_i(ptr) }
    }

    pub closed spec fn d_addr(&self, ptr: int) -> int {
        self.blocks@[self.d_lo(ptr)].addr as int
    }

    pub closed spec fn d_size(&self, ptr: int) -> int {
        self.blocks@[self.d_hi(ptr)].addr + self.blocks@[self.d_hi(ptr)].size - self.blocks@[self.d_lo(ptr)].addr
    }

    /// Where the block after the freed one starts (the list head past the last block).
    pub closed spec fn d_next(&self, ptr: int) -> int {
        self.blocks@[self.d_i(ptr)].addr + self.blocks@[self.d_i(ptr)].size
    }

    /// The state after `dealloc(ptr)`, before the proof that it is well formed.
    pub closed spec fn dealloc_step(&self, h4: &Heap, ptr: int) -> bool {
        let res = dealloc_result(self.blocks@, self.free@, ptr);
        let addr = self.d_addr(ptr);
        let size = self.d_size(ptr);
        let nx = self.hslot(self.d_next(ptr));
        &&& self.wf()
        &&& is_allocated(self.blocks@, ptr)
        &&& h4.start == self.start
        &&& h4.end == self.end
        &&& h4.mem@.len() == self.mem@.len()
        &&& h4.blocks@ == res.0
        &&& h4.free@ == res.1
        &&& h4.list_links(res.1)
        &&& h4.separated(res.1)
        &&& forall|j: int|
            (!self.link_slot(self.free@, j) && !(self.idx(addr) <= j < self.idx(addr) + size / 8) && j != nx)
                ==> #[trigger] h4.sl(j) == self.sl(j)
        &&& h4.sl(self.idx(addr)) == size + 1
        &&& h4.sl(self.fslot(addr, size)) == addr
        &&& !self.d_mn(ptr) ==> h4.sl(nx) == self.sl(nx) & !1usize
    }

    /// Facts about the block that `dealloc(ptr)` frees and its neighbours.
    proof fn lemma_dealloc_setup(&self, ptr: int)
        requires
            self.wf(),
            is_allocated(self.blocks@, ptr),
        ensures
            ({
                let b = self.blocks@;
                let i = self.d_i(ptr);
                &&& 0 <= i < b.len()
                &&& b[i].addr + USED_SIZE == ptr
                &&& !b[i].free
                &&& self.addr_ok(b[i].addr as int)
                &&& self.sl(self.idx(b[i].addr as int)) == b[i].size + (if prev_in_use(b, i) { 1int } else { 0int })
                &&& self.d_next(ptr) <= self.end
                &&& (self.d_next(ptr) == self.end) == (i + 1 == b.len())
                &&& i + 1 < b.len() ==> b[i + 1].addr == self.d_next(ptr)
                &&& i > 0 ==> b[i - 1].addr + b[i - 1].size == b[i].addr
            }),
    {
        let b = self.blocks@;
        let w = choose|w: int| 0 <= w < b.len() && #[trigger] b[w].addr + USED_SIZE == ptr && !b[w].free;
        self.lemma_index_unique(w, ptr - USED_SIZE);
        let i = self.d_i(ptr);
        self.lemma_layout();
        lemma_tiling_ordered(b, self.start as int, self.end as int);
        reveal(Heap::headers_ok);
        if i + 1 < b.len() {
            assert(b[i + 1].addr == b[i + 1 - 1].addr + b[i + 1 - 1].size);
        } else {
            assert(b.last() == b[i]);
        }
        if i > 0 {
            assert(b[i].addr == b[i - 1].addr + b[i - 1].size);
        }
    }

    /// The block after `block` (the list head after the last block).
    fn next(&self, block: BlockPointer) -> (r: BlockPointer)
        requires
            self.shape_ok(),
            self.addr_ok(block as int),
            block + (self.sl(self.idx(block as int)) & !1usize) <= self.end,
        ensures
            r == block + (self.sl(self.idx(block as int)) & !1usize),
    {
        let info = BlockInfo(self.header(block));
        block + info.size()
    }

    fn is_end(&self, block: BlockPointer) -> (r: bool)
        ensures
            r == (block == self.end),
    {
        block == self.end
    }

    /// Whether `block` is in use, from the header of the block after it.
    fn is_used(&self, block: BlockPointer) -> (r: bool)
        requires
            self.shape_ok(),
            self.addr_ok(block as int),
            block + (self.sl(self.idx(block as int)) & !1usize) == self.end || self.addr_ok(
                block + (self.sl(self.idx(block as int)) & !1usize),
            ),
        ensures
            r == (self.sl(self.hslot(block + (self.sl(self.idx(block as int)) & !1usize))) & 1usize
                == 1usize),
    {
        let next = self.next(block);
        BlockInfo(self.header(next)).prev_used()
    }

    fn is_free(&self, block: BlockPointer) -> (r: bool)
        requires
            self.shape_ok(),
            self.addr_ok(block as int),
            block + (self.sl(self.idx(block as int)) & !1usize) == self.end || self.addr_ok(
                block + (self.sl(self.idx(block as int)) & !1usize),
            ),
        ensures
            r == !(self.sl(self.hslot(block + (self.sl(self.idx(block as int)) & !1usize))) & 1usize
                == 1usize),
    {
        !self.is_used(block)
    }
}

} // verus!

verus! {

impl Heap {
    /// Unlinks the free block just before the block at `used` from the free list, and
    /// returns its address, which its last word holds.
    fn unlink_prev(&mut self, ptr: Ghost<int>, used: BlockPointer) -> (prev: FreePointer)
        requires
            old(self).wf(),
            is_allocated(old(self).blocks@, ptr@),
            old(self).d_mp(ptr@),
            used == ptr@ - USED_SIZE,
        ensures
            prev == old(self).blocks@[old(self).d_i(ptr@) - 1].addr,
            old(self).addr_ok(prev as int),
            final(self).sl(old(self).idx(prev as int)) & !1usize == old(self).blocks@[old(self).d_i(ptr@) - 1].size,
            final(self).start == old(self).start,
            final(self).end == old(self).end,
            final(self).mem@.len() == old(self).mem@.len(),
            final(self).blocks@ == old(self).blocks@,
            final(self).free@ == old(self).free@,
            final(self).list_links(old(self).d_fl1(ptr@)),
            final(self).separated(old(self).d_fl1(ptr@)),
            forall|j: int| !old(self).link_slot(old(self).free@, j) ==> #[trigger] final(self).sl(j) == old(self).sl(j),
            forall|j: int| #[trigger] old(self).link_slot(old(self).d_fl1(ptr@), j) ==> old(self).link_slot(old(self).free@, j),
    {
        let ghost h0 = *self;
        let ghost fl = self.free@;
        proof {
            self.lemma_dealloc_setup(ptr@);
            self.lemma_d_prev(ptr@);
            self.lemma_d_prev_list(ptr@);
            self.lemma_wf_separated();
            self.lemma_not_link(self.d_i(ptr@) - 1);
        }
        let prev = self.read_word(used - PTR_SIZE);
        let ghost kp = pos_of(fl, prev as int);
        self.remove_free(prev);
        proof {
            h0.lemma_list_remove(self, fl, kp);
            h0.lemma_remove_touches(self, fl, kp);
        }
        prev
    }

    /// Unlinks the free block `next`, just after the block that `dealloc(ptr)` frees.
    fn unlink_next(&mut self, h0: Ghost<Heap>, ptr: Ghost<int>, next: BlockPointer)
        requires
            h0@.wf(),
            is_allocated(h0@.blocks@, ptr@),
            h0@.d_mn(ptr@),
            next == h0@.d_next(ptr@),
            old(self).start == h0@.start,
            old(self).end == h0@.end,
            old(self).mem@.len() == h0@.mem@.len(),
            old(self).blocks@ == h0@.blocks@,
            old(self).free@ == h0@.free@,
            old(self).list_links(h0@.d_fl1(ptr@)),
            old(self).separated(h0@.d_fl1(ptr@)),
            forall|j: int| !h0@.link_slot(h0@.free@, j) ==> #[trigger] old(self).sl(j) == h0@.sl(j),
        ensures
            final(self).start == h0@.start,
            final(self).end == h0@.end,
            final(self).mem@.len() == h0@.mem@.len(),
            final(self).blocks@ == h0@.blocks@,
            final(self).free@ == h0@.free@,
            final(self).list_links(h0@.d_fl2(ptr@)),
            final(self).separated(h0@.d_fl2(ptr@)),
            forall|j: int| !h0@.link_slot(h0@.d_fl1(ptr@), j) ==> #[trigger] final(self).sl(j) == old(self).sl(j),
            forall|j: int| #[trigger] h0@.link_slot(h0@.d_fl1(ptr@), j) ==> h0@.link_slot(h0@.free@, j),
    {
        let ghost h1 = *self;
        let ghost fl1 = h0@.d_fl1(ptr@);
        proof {
            h0@.lemma_dealloc_setup(ptr@);
            h0@.lemma_d_next(&h1, fl1, ptr@);
            h0@.lemma_d_fl2_links(ptr@);
            h0@.lemma_d_fl1_links(ptr@);
            assert(next == h0@.blocks@[h0@.d_i(ptr@) + 1].addr);
            assert(h0@.d_fl2(ptr@) == fl1.remove(pos_of(fl1, next as int)));
        }
        let ghost kn = pos_of(fl1, next as int);
        self.remove_free(next);
        proof {
            h1.lemma_list_remove(self, fl1, kn);
            h1.lemma_remove_touches(self, fl1, kn);
        }
    }

    /// Frees the block that `allocate` handed out at `ptr`, joins it with free
    /// neighbours and puts the result at the front of the free list.
    #[verifier::spinoff_prover]
    #[verifier::rlimit(100)]
    pub fn deallocate(&mut self, ptr: usize)
        requires
            old(self).wf(),
            is_allocated(old(self).blocks(), ptr as int),
        ensures
            final(self).wf(),
            final(self).heap_start() == old(self).heap_start(),
            final(self).heap_end() == old(self).heap_end(),
            ({
                let res = dealloc_result(old(self).blocks(), old(self).free_list(), ptr as int);
                &&& final(self).blocks() == res.0
                &&& final(self).free_list() == res.1
            }),
            forall|a: int|
                other_used_data(old(self).blocks(), a, ptr - USED_SIZE) && (a - old(self).heap_start()) % 8 == 0
                    ==> #[trigger] final(self).word(a) == old(self).word(a),
    {
        let ghost h0 = *self;
        let ghost b = self.blocks@;
        let ghost fl = self.free@;
        let ghost i = self.d_i(ptr as int);
        proof {
            self.lemma_dealloc_setup(ptr as int);
            self.lemma_wf_separated();
            lemma_tag_bits(b[i].size, if prev_in_use(b, i) { 1usize } else { 0usize });
        }
        let used = ptr - USED_SIZE;
        let info = BlockInfo(self.header(used));
        let mut size = info.size();
        let mut addr = used;
        let next = self.next(used);
        // join with the block before if it is free
        if !info.prev_used() {
            let prev = self.unlink_prev(Ghost(ptr as int), used);
            addr = prev;
            size = size + BlockInfo(self.header(prev)).size();
        }
        let ghost h1 = *self;
        let ghost fl1 = h0.d_fl1(ptr as int);
        proof {
            h0.lemma_d_next(&h1, fl1, ptr as int);
        }
        // join with the block after if it is free
        if !self.is_end(next) && self.is_free(next) {
            size = size + BlockInfo(self.header(next)).size();
            self.unlink_next(Ghost(h0), Ghost(ptr as int), next);
        }
        let ghost fl2 = h0.d_fl2(ptr as int);
        let ghost h2 = *self;
        proof {
            h0.lemma_d_joined(ptr as int);
            h0.lemma_d_fl2(ptr as int);
            assert(fl1 == h0.d_fl1(ptr as int));
            assert(fl2 == h0.d_fl2(ptr as int));
            assert(addr == h0.d_addr(ptr as int));
            assert(size == h0.d_size(ptr as int));
            assert(next == h0.d_next(ptr as int));
        }
        let end = self.end;
        let head_next = self.head.next;
        self.insert_free(end, head_next, addr, size);
        let ghost h3 = *self;
        proof {
            h2.lemma_list_push(self, fl2, addr, size as int);
        }
        // the block after the freed one now follows a free block
        let mut next_info = BlockInfo(self.header(next));
        next_info.unset_prev_used();
        self.set_header(next, next_info.0);
        let ghost h4 = *self;
        proof {
            let res = dealloc_result(b, fl, ptr as int);
            self.blocks@ = res.0;
            self.free@ = res.1;
            assert forall|j: int| #[trigger] self.sl(j) == h4.sl(j) by {}
            h0.lemma_d_finish(&h1, &h2, &h3, self, ptr as int);
            h0.lemma_dealloc_wf(self, ptr as int);
            assert forall|a: int|
                other_used_data(b, a, ptr - USED_SIZE) && (a - h0.start) % 8 == 0 implies #[trigger] self.word(a)
                == h0.word(a) by {
                h0.lemma_dealloc_keeps_data(self, ptr as int, a);
            }
        }
    }
}

} // verus!

verus! {

impl Heap {
    /// What `dealloc(ptr)` reads when the block before the freed one is free.
    #[verifier::rlimit(60)]
    proof fn lemma_d_prev(&self, ptr: int)
        requires
            self.wf(),
            is_allocated(self.blocks@, ptr),
            self.d_mp(ptr),
        ensures
            ({
                let b = self.blocks@;
                let i = self.d_i(ptr);
                let prev = b[i - 1].addr;
                &&& self.sl(self.idx(b[i].addr as int) - 1) == prev
                &&& b[i].addr - PTR_SIZE >= self.start
                &&& self.idx(b[i].addr - PTR_SIZE) == self.idx(b[i].addr as int) - 1
                &&& self.addr_ok(prev as int)
                &&& self.sl(self.idx(prev as int)) & !1usize == b[i - 1].size
            }),
    {
        let b = self.blocks@;
        self.lemma_dealloc_setup(ptr);
        self.lemma_layout();
        let i = self.d_i(ptr);
        reveal(Heap::footers_ok);
        reveal(Heap::headers_ok);
        assert(self.fslot(b[i - 1].addr as int, b[i - 1].size as int) == self.idx(b[i].addr as int) - 1);
        lemma_tag_bits(b[i - 1].size, if prev_in_use(b, i - 1) { 1usize } else { 0usize });
    }

    /// Where the free block before the freed one sits in the free list.
    #[verifier::rlimit(60)]
    proof fn lemma_d_prev_list(&self, ptr: int)
        requires
            self.wf(),
            is_allocated(self.blocks@, ptr),
            self.d_mp(ptr),
        ensures
            ({
                let b = self.blocks@;
                let fl = self.free@;
                let i = self.d_i(ptr);
                let prev = b[i - 1].addr;
                let kp = pos_of(fl, prev as int);
                &&& 0 <= kp < fl.len()
                &&& fl[kp] == prev
                &&& self.sl(self.idx(prev as int) + 1) == self.end || self.addr_ok(self.sl(self.idx(prev as int) + 1) as int)
                &&& self.sl(self.idx(prev as int) + 2) == self.end || self.addr_ok(self.sl(self.idx(prev as int) + 2) as int)
            }),
    {
        let b = self.blocks@;
        let fl = self.free@;
        self.lemma_dealloc_setup(ptr);
        self.lemma_wf_separated();
        let i = self.d_i(ptr);
        reveal(Heap::members_ok);
        assert(fl.contains(b[i - 1].addr));
        let kp = pos_of(fl, b[i - 1].addr as int);
        assert(self.addr_ok(fl[kp] as int));
        if kp > 0 {
            assert(self.addr_ok(fl[kp - 1] as int));
        }
        if kp + 1 < fl.len() {
            assert(self.addr_ok(fl[kp + 1] as int));
        }
    }

    /// What `dealloc(ptr)` reads of the block after the freed one, once the block
    /// before it has left the free list (only link words have changed).
    proof fn lemma_d_next(&self, h1: &Heap, fl1: Seq<usize>, ptr: int)
        requires
            self.wf(),
            is_allocated(self.blocks@, ptr),
            h1.start == self.start,
            h1.end == self.end,
            h1.mem@.len() == self.mem@.len(),
            h1.list_links(fl1),
            h1.separated(fl1),
            forall|j: int| !self.link_slot(self.free@, j) ==> #[trigger] h1.sl(j) == self.sl(j),
            fl1 == (if self.d_mp(ptr) {
                self.free@.remove(pos_of(self.free@, self.blocks@[self.d_i(ptr) - 1].addr as int))
            } else {
                self.free@
            }),
            h1.blocks@ == self.blocks@,
        ensures
            ({
                let b = self.blocks@;
                let i = self.d_i(ptr);
                let nx = self.d_next(ptr);
                &&& i + 1 < b.len() ==> {
                    &&& self.addr_ok(nx)
                    &&& h1.shape_ok()
                    &&& h1.sl(h1.idx(nx)) & !1usize == b[i + 1].size
                    &&& (nx + b[i + 1].size == self.end || self.addr_ok(nx + b[i + 1].size))
                    &&& (h1.sl(h1.hslot(nx + b[i + 1].size)) & 1usize == 1usize) == !b[i + 1].free
                }
                &&& self.d_mn(ptr) ==> {
                    let kn = pos_of(fl1, nx);
                    &&& 0 <= kn < fl1.len()
                    &&& fl1[kn] == nx
                    &&& h1.sl(h1.idx(nx) + 1) == self.end || h1.addr_ok(h1.sl(h1.idx(nx) + 1) as int)
                    &&& h1.sl(h1.idx(nx) + 2) == self.end || h1.addr_ok(h1.sl(h1.idx(nx) + 2) as int)
                }
            }),
    {
        self.lemma_d_next_header(h1, fl1, ptr);
        self.lemma_d_next_links(h1, fl1, ptr);
    }

    #[verifier::spinoff_prover]
    #[verifier::rlimit(60)]
    proof fn lemma_d_next_header(&self, h1: &Heap, fl1: Seq<usize>, ptr: int)
        requires
            self.wf(),
            is_allocated(self.blocks@, ptr),
            h1.start == self.start,
            h1.end == self.end,
            h1.mem@.len() == self.mem@.len(),
            h1.list_links(fl1),
            h1.separated(fl1),
            forall|j: int| !self.link_slot(self.free@, j) ==> #[trigger] h1.sl(j) == self.sl(j),
            fl1 == (if self.d_mp(ptr) {
                self.free@.remove(pos_of(self.free@, self.blocks@[self.d_i(ptr) - 1].addr as int))
            } else {
                self.free@
            }),
            h1.blocks@ == self.blocks@,
        ensures
            ({
                let b = self.blocks@;
                let i = self.d_i(ptr);
                let nx = self.d_next(ptr);
                i + 1 < b.len() ==> {
                    &&& self.addr_ok(nx)
                    &&& h1.shape_ok()
                    &&& h1.sl(h1.idx(nx)) & !1usize == b[i + 1].size
                    &&& (nx + b[i + 1].size == self.end || self.addr_ok(nx + b[i + 1].size))
                    &&& (h1.sl(h1.hslot(nx + b[i + 1].size)) & 1usize == 1usize) == !b[i + 1].free
                }
            }),
    {
        let b = self.blocks@;
        self.lemma_dealloc_setup(ptr);
        self.lemma_layout();
        lemma_tiling_ordered(b, self.start as int, self.end as int);
        self.lemma_wf_separated();
        let i = self.d_i(ptr);
        let nx = self.d_next(ptr);
        if i + 1 < b.len() {
            reveal(Heap::headers_ok);
            self.lemma_not_link(i + 1);
            assert(h1.sl(self.idx(nx)) == self.sl(self.idx(nx)));
            lemma_tag_bits(b[i + 1].size, 1);
            if i + 2 < b.len() {
                assert(b[i + 2].addr == b[i + 2 - 1].addr + b[i + 2 - 1].size);
                self.lemma_not_link(i + 2);
                lemma_tag_bits(b[i + 2].size, if prev_in_use(b, i + 2) { 1usize } else { 0usize });
                assert(h1.sl(self.idx(b[i + 2].addr as int)) == self.sl(self.idx(b[i + 2].addr as int)));
            } else {
                assert(b.last() == b[i + 1]);
                assert(h1.sl(-3) == self.sl(-3));
                assert(0usize & 1usize == 0usize) by (bit_vector);
                assert(1usize & 1usize == 1usize) by (bit_vector);
            }
        }
    }

    #[verifier::spinoff_prover]
    #[verifier::rlimit(60)]
    proof fn lemma_d_next_links(&self, h1: &Heap, fl1: Seq<usize>, ptr: int)
        requires
            self.wf(),
            is_allocated(self.blocks@, ptr),
            h1.start == self.start,
            h1.end == self.end,
            h1.mem@.len() == self.mem@.len(),
            h1.list_links(fl1),
            h1.separated(fl1),
            forall|j: int| !self.link_slot(self.free@, j) ==> #[trigger] h1.sl(j) == self.sl(j),
            fl1 == (if self.d_mp(ptr) {
                self.free@.remove(pos_of(self.free@, self.blocks@[self.d_i(ptr) - 1].addr as int))
            } else {
                self.free@
            }),
            h1.blocks@ == self.blocks@,
        ensures
            ({
                let nx = self.d_next(ptr);
                self.d_mn(ptr) ==> {
                    let kn = pos_of(fl1, nx);
                    &&& 0 <= kn < fl1.len()
                    &&& fl1[kn] == nx
                    &&& h1.sl(h1.idx(nx) + 1) == self.end || h1.addr_ok(h1.sl(h1.idx(nx) + 1) as int)
                    &&& h1.sl(h1.idx(nx) + 2) == self.end || h1.addr_ok(h1.sl(h1.idx(nx) + 2) as int)
                }
            }),
    {
        let b = self.blocks@;
        let fl = self.free@;
        self.lemma_dealloc_setup(ptr);
        self.lemma_layout();
        lemma_tiling_ordered(b, self.start as int, self.end as int);
        self.lemma_wf_separated();
        let i = self.d_i(ptr);
        let nx = self.d_next(ptr);
        if i + 1 < b.len() && b[i + 1].free {
            reveal(Heap::members_ok);
            assert(fl.contains(b[i + 1].addr));
            if self.d_mp(ptr) {
                lemma_remove_contains(fl, pos_of(fl, b[i - 1].addr as int), b[i + 1].addr);
            }
            assert(fl1.contains(nx as usize));
            let kn = pos_of(fl1, nx);
            assert(h1.addr_ok(fl1[kn] as int));
            if kn > 0 {
                assert(h1.addr_ok(fl1[kn - 1] as int));
            }
            if kn + 1 < fl1.len() {
                assert(h1.addr_ok(fl1[kn + 1] as int));
            }
        }
    }

    /// The free list that `dealloc(ptr)` keeps: entries of the old list, none of them
    /// a block that is joined.
    pub closed spec fn d_fl1(&self, ptr: int) -> Seq<usize> {
        if self.d_mp(ptr) {
            self.free@.remove(pos_of(self.free@, self.blocks@[self.d_i(ptr) - 1].addr as int))
        } else {
            self.free@
        }
    }

    pub closed spec fn d_fl2(&self, ptr: int) -> Seq<usize> {
        if self.d_mn(ptr) {
            self.d_fl1(ptr).remove(pos_of(self.d_fl1(ptr), self.blocks@[self.d_i(ptr) + 1].addr as int))
        } else {
            self.d_fl1(ptr)
        }
    }

    /// Which addresses the kept free list holds.
    #[verifier::spinoff_prover]
    proof fn lemma_d_fl2_contains(&self, ptr: int, a: usize)
        requires
            self.wf(),
            is_allocated(self.blocks@, ptr),
        ensures
            self.d_fl2(ptr).contains(a) <==> (self.free@.contains(a) && (self.d_mp(ptr) ==> a
                != self.blocks@[self.d_i(ptr) - 1].addr) && (self.d_mn(ptr) ==> a != self.blocks@[self.d_i(ptr) + 1].addr)),
            self.d_fl1(ptr).no_duplicates(),
    {
        let b = self.blocks@;
        let fl = self.free@;
        let fl1 = self.d_fl1(ptr);
        let i = self.d_i(ptr);
        self.lemma_dealloc_setup(ptr);
        reveal(Heap::members_ok);
        if self.d_mp(ptr) {
            let pa = b[i - 1].addr;
            let kp = pos_of(fl, pa as int);
            assert(fl.contains(pa));
            lemma_remove_contains(fl, kp, a);
            assert forall|x: int, y: int| 0 <= x < fl1.len() && 0 <= y < fl1.len() && x != y implies fl1[x] != fl1[y] by {
                assert(fl1[x] == fl[if x < kp { x } else { x + 1 }]);
                assert(fl1[y] == fl[if y < kp { y } else { y + 1 }]);
            }
        }
        if self.d_mn(ptr) {
            let na = b[i + 1].addr;
            assert(fl.contains(na));
            if self.d_mp(ptr) {
                self.lemma_layout();
                assert(self.idx(b[i - 1].addr as int) + b[i - 1].size / 8 <= self.idx(b[i + 1].addr as int));
                lemma_remove_contains(fl, pos_of(fl, b[i - 1].addr as int), na);
            }
            assert(fl1.contains(na));
            lemma_remove_contains(fl1, pos_of(fl1, na as int), a);
        }
    }

    #[verifier::spinoff_prover]
    proof fn lemma_d_fl2(&self, ptr: int)
        requires
            self.wf(),
            is_allocated(self.blocks@, ptr),
        ensures
            dealloc_result(self.blocks@, self.free@, ptr).1 == seq![self.d_addr(ptr) as usize] + self.d_fl2(ptr),
            dealloc_result(self.blocks@, self.free@, ptr).0 == merge_blocks(self.blocks@, self.d_lo(ptr), self.d_hi(ptr)),
            self.d_fl2(ptr).no_duplicates(),
            forall|k: int|
                0 <= k < self.d_fl2(ptr).len() ==> {
                    let q = index_of(self.blocks@, #[trigger] self.d_fl2(ptr)[k] as int);
                    &&& 0 <= q < self.blocks@.len()
                    &&& self.blocks@[q].addr == self.d_fl2(ptr)[k]
                    &&& self.blocks@[q].free
                    &&& (q < self.d_lo(ptr) || q > self.d_hi(ptr))
                },
    {
        let b = self.blocks@;
        let fl = self.free@;
        let fl1 = self.d_fl1(ptr);
        let fl2 = self.d_fl2(ptr);
        let i = self.d_i(ptr);
        self.lemma_dealloc_setup(ptr);
        self.lemma_d_fl2_contains(ptr, 0);
        reveal(Heap::members_ok);
        if self.d_mn(ptr) {
            let kn = pos_of(fl1, b[i + 1].addr as int);
            self.lemma_d_fl2_contains(ptr, b[i + 1].addr);
            assert(fl1.contains(b[i + 1].addr)) by {
                assert(fl.contains(b[i + 1].addr));
                if self.d_mp(ptr) {
                    self.lemma_layout();
                    assert(self.idx(b[i - 1].addr as int) + b[i - 1].size / 8 <= self.idx(b[i + 1].addr as int));
                    lemma_remove_contains(fl, pos_of(fl, b[i - 1].addr as int), b[i + 1].addr);
                }
            }
            assert forall|x: int, y: int| 0 <= x < fl2.len() && 0 <= y < fl2.len() && x != y implies fl2[x] != fl2[y] by {
                assert(fl2[x] == fl1[if x < kn { x } else { x + 1 }]);
                assert(fl2[y] == fl1[if y < kn { y } else { y + 1 }]);
            }
        }
        assert forall|k: int| 0 <= k < fl2.len() implies {
            let q = index_of(b, #[trigger] fl2[k] as int);
            &&& 0 <= q < b.len()
            &&& b[q].addr == fl2[k]
            &&& b[q].free
            &&& (q < self.d_lo(ptr) || q > self.d_hi(ptr))
        } by {
            assert(fl2.contains(fl2[k]));
            self.lemma_d_fl2_contains(ptr, fl2[k]);
            let kk = choose|kk: int| 0 <= kk < fl.len() && fl[kk] == fl2[k];
            self.lemma_free_entry(kk);
            let q = index_of(b, fl2[k] as int);
            assert(q != i);
            if self.d_mp(ptr) {
                assert(q != i - 1);
            }
            if self.d_mn(ptr) {
                assert(q != i + 1);
            }
        }
    }

    proof fn lemma_d_fl2_links(&self, ptr: int)
        requires
            self.wf(),
            is_allocated(self.blocks@, ptr),
        ensures
            forall|j: int| #[trigger] self.link_slot(self.d_fl2(ptr), j) ==> self.link_slot(self.free@, j),
    {
        let fl = self.free@;
        let fl2 = self.d_fl2(ptr);
        assert forall|j: int| #[trigger] self.link_slot(fl2, j) implies self.link_slot(fl, j) by {
            if j != -1 && j != -2 {
                let x = choose|x: int|
                    0 <= x < fl2.len() && (j == self.idx(#[trigger] fl2[x] as int) + 1 || j == self.idx(fl2[x] as int) + 2);
                assert(fl2.contains(fl2[x]));
                self.lemma_d_fl2_contains(ptr, fl2[x]);
                let kk = choose|kk: int| 0 <= kk < fl.len() && fl[kk] == fl2[x];
                assert(j == self.idx(fl[kk] as int) + 1 || j == self.idx(fl[kk] as int) + 2);
            }
        }
    }

    /// The joined block: where it is, and that the kept free list lies outside it.
    #[verifier::spinoff_prover]
    proof fn lemma_d_joined(&self, ptr: int)
        requires
            self.wf(),
            is_allocated(self.blocks@, ptr),
        ensures
            self.addr_ok(self.d_addr(ptr)),
            self.d_size(ptr) >= FREE_SIZE,
            self.d_size(ptr) % 8 == 0,
            self.d_addr(ptr) + self.d_size(ptr) <= self.end,
            self.idx(self.d_addr(ptr)) + self.d_size(ptr) / 8 == self.idx(
                self.blocks@[self.d_hi(ptr)].addr as int,
            ) + self.blocks@[self.d_hi(ptr)].size / 8,
            self.d_i(ptr) + 1 < self.blocks@.len() ==> self.idx(self.d_addr(ptr)) + 4 <= self.idx(self.d_next(ptr)),
            self.d_next(ptr) <= self.d_addr(ptr) + self.d_size(ptr),
            self.d_mn(ptr) ==> self.idx(self.d_next(ptr)) + 4 <= self.idx(self.d_addr(ptr)) + self.d_size(ptr) / 8,
            !self.d_mn(ptr) ==> self.d_next(ptr) == self.d_addr(ptr) + self.d_size(ptr),
            forall|k: int|
                0 <= k < self.d_fl2(ptr).len() ==> self.idx(#[trigger] self.d_fl2(ptr)[k] as int) + 4
                    <= self.idx(self.d_addr(ptr)) || self.idx(self.d_addr(ptr)) + self.d_size(ptr) / 8
                    <= self.idx(self.d_fl2(ptr)[k] as int),
    {
        let b = self.blocks@;
        let i = self.d_i(ptr);
        let lo = self.d_lo(ptr);
        let hi = self.d_hi(ptr);
        self.lemma_dealloc_setup(ptr);
        self.lemma_layout();
        lemma_tiling_ordered(b, self.start as int, self.end as int);
        lemma_merge_blocks(b, lo, hi, self.start as int, self.end as int);
        self.lemma_d_fl2(ptr);
        if self.d_mn(ptr) {
            assert(b[i + 1].addr == b[i + 1 - 1].addr + b[i + 1 - 1].size);
        }
        let fl2 = self.d_fl2(ptr);
        assert forall|k: int| 0 <= k < fl2.len() implies self.idx(#[trigger] fl2[k] as int) + 4
            <= self.idx(self.d_addr(ptr)) || self.idx(self.d_addr(ptr)) + self.d_size(ptr) / 8
            <= self.idx(fl2[k] as int) by {
            let q = index_of(b, fl2[k] as int);
            if q < lo {
                assert(self.idx(b[q].addr as int) + b[q].size / 8 <= self.idx(b[lo].addr as int));
            } else {
                assert(self.idx(b[hi].addr as int) + b[hi].size / 8 <= self.idx(b[q].addr as int));
            }
        }
    }

    /// Ties the four writes of `dealloc(ptr)` to its result.
    #[verifier::spinoff_prover]
    proof fn lemma_d_finish(&self, h1: &Heap, h2: &Heap, h3: &Heap, h4: &Heap, ptr: int)
        requires
            self.wf(),
            is_allocated(self.blocks@, ptr),
            h1.start == self.start && h1.end == self.end && h1.mem@.len() == self.mem@.len(),
            h2.start == self.start && h2.end == self.end && h2.mem@.len() == self.mem@.len(),
            h3.start == self.start && h3.end == self.end && h3.mem@.len() == self.mem@.len(),
            h4.start == self.start && h4.end == self.end && h4.mem@.len() == self.mem@.len(),
            h4.blocks@ == dealloc_result(self.blocks@, self.free@, ptr).0,
            h4.free@ == dealloc_result(self.blocks@, self.free@, ptr).1,
            forall|j: int| !self.link_slot(self.free@, j) ==> #[trigger] h1.sl(j) == self.sl(j),
            forall|j: int| !self.link_slot(self.d_fl1(ptr), j) ==> #[trigger] h2.sl(j) == h1.sl(j),
            forall|j: int| #[trigger] self.link_slot(self.d_fl1(ptr), j) ==> self.link_slot(self.free@, j),
            h2.list_links(self.d_fl2(ptr)),
            h2.separated(self.d_fl2(ptr)),
            ({
                let hn = h2.head.next;
                let x = self.d_addr(ptr);
                let size = self.d_size(ptr);
                forall|j: int| #[trigger]
                    h3.sl(j) == if j == self.pslot(hn as int) {
                        x as usize
                    } else if j == self.nslot(self.end as int) {
                        x as usize
                    } else if j == self.fslot(x, size) {
                        x as usize
                    } else if j == self.idx(x) + 2 {
                        hn
                    } else if j == self.idx(x) + 1 {
                        self.end
                    } else if j == self.idx(x) {
                        (size + 1) as usize
                    } else {
                        h2.sl(j)
                    }
            }),
            h3.list_links(seq![self.d_addr(ptr) as usize] + self.d_fl2(ptr)),
            h3.separated(seq![self.d_addr(ptr) as usize] + self.d_fl2(ptr)),
            ({
                let nx = self.hslot(self.d_next(ptr));
                forall|j: int| #[trigger] h4.sl(j) == if j == nx { h3.sl(nx) & !1usize } else { h3.sl(j) }
            }),
        ensures
            self.dealloc_step(h4, ptr),
    {
        let b = self.blocks@;
        let fl = self.free@;
        let fl2 = self.d_fl2(ptr);
        let fl3 = seq![self.d_addr(ptr) as usize] + fl2;
        let i = self.d_i(ptr);
        let x = self.d_addr(ptr);
        let size = self.d_size(ptr);
        let nxa = self.d_next(ptr);
        let nx = self.hslot(nxa);
        let hn = h2.head.next;
        self.lemma_dealloc_setup(ptr);
        self.lemma_d_fl2(ptr);
        self.lemma_d_fl2_links(ptr);
        self.lemma_d_joined(ptr);
        self.lemma_wf_separated();
        // the header written last is no link word of the new list
        if i + 1 < b.len() {
            assert(nx == self.idx(nxa));
            assert(b[i + 1].addr == nxa);
            self.lemma_not_link(i + 1);
        }
        assert(hn == self.end || hn == fl2[0]);
        if fl2.len() > 0 {
            assert(self.addr_ok(fl2[0] as int) && self.idx(fl2[0] as int) + 4 <= self.idx(x)
                || self.idx(x) + size / 8 <= self.idx(fl2[0] as int));
        }
        assert forall|k: int| 0 <= k < fl3.len() implies #[trigger] h4.sl(h4.idx(fl3[k] as int) + 2) == h3.sl(h3.idx(fl3[k] as int) + 2)
            && h4.sl(h4.idx(fl3[k] as int) + 1) == h3.sl(h3.idx(fl3[k] as int) + 1) by {
            if k > 0 {
                assert(fl3[k] == fl2[k - 1]);
                assert(self.link_slot(fl2, self.idx(fl2[k - 1] as int) + 1));
                assert(self.link_slot(fl2, self.idx(fl2[k - 1] as int) + 2));
                assert(self.idx(fl2[k - 1] as int) + 4 <= self.idx(x) || self.idx(x) + size / 8 <= self.idx(fl2[k - 1] as int));
            }
        }
        assert(h4.list_links(fl3)) by {
            assert(h4.sl(-1) == h3.sl(-1));
            assert(h4.sl(-2) == h3.sl(-2));
            assert forall|k: int| 0 <= k < fl3.len() implies #[trigger] h4.sl(h4.idx(fl3[k] as int) + 2) == (if k + 1 < fl3.len() {
                fl3[k + 1]
            } else {
                h4.end
            }) by {
                assert(h3.sl(h3.idx(fl3[k] as int) + 2) == (if k + 1 < fl3.len() { fl3[k + 1] } else { h3.end }));
            }
            assert forall|k: int| 0 <= k < fl3.len() implies #[trigger] h4.sl(h4.idx(fl3[k] as int) + 1) == (if k > 0 {
                fl3[k - 1]
            } else {
                h4.end
            }) by {
                assert(h3.sl(h3.idx(fl3[k] as int) + 1) == (if k > 0 { fl3[k - 1] } else { h3.end }));
            }
        }
        assert forall|j: int|
            (!self.link_slot(fl, j) && !(self.idx(x) <= j < self.idx(x) + size / 8) && j != nx)
                implies #[trigger] h4.sl(j) == self.sl(j) by {
            assert(!self.link_slot(self.d_fl1(ptr), j));
            assert(!self.link_slot(fl2, j));
            if hn != self.end {
                assert(self.link_slot(fl2, self.idx(fl2[0] as int) + 1));
            }
        }
        assert(self.fslot(x, size) >= self.idx(x) + 3);
    }

    /// The blocks after `dealloc(ptr)`, block by block.
    proof fn lemma_d_blocks(&self, ptr: int)
        requires
            self.wf(),
            is_allocated(self.blocks@, ptr),
        ensures
            ({
                let b = self.blocks@;
                let lo = self.d_lo(ptr);
                let hi = self.d_hi(ptr);
                let b1 = merge_blocks(b, lo, hi);
                &&& tiling(b1, self.start as int, self.end as int)
                &&& b1.len() == b.len() - (hi - lo)
                &&& 0 <= lo <= hi < b.len()
                &&& forall|j: int|
                    0 <= j < b1.len() ==> #[trigger] b1[j] == if j < lo {
                        b[j]
                    } else if j == lo {
                        Block { addr: b[lo].addr, size: self.d_size(ptr) as usize, free: true }
                    } else {
                        b[j + (hi - lo)]
                    }
                &&& lo == 0 || !b[lo - 1].free
                &&& hi + 1 == b.len() || !b[hi + 1].free
            }),
    {
        let b = self.blocks@;
        let i = self.d_i(ptr);
        self.lemma_dealloc_setup(ptr);
        reveal(Heap::coalesced);
        lemma_merge_blocks(b, self.d_lo(ptr), self.d_hi(ptr), self.start as int, self.end as int);
        if self.d_mp(ptr) && i >= 2 {
            assert(!(b[(i - 1) - 1].free && b[i - 1].free));
        }
        if self.d_mn(ptr) && i + 2 < b.len() {
            assert(!(b[(i + 2) - 1].free && b[i + 2].free));
        }
    }

    #[verifier::rlimit(60)]
    proof fn lemma_d_headers(&self, h4: &Heap, ptr: int)
        requires
            self.dealloc_step(h4, ptr),
        ensures
            h4.headers_ok(),
    {
        let b = self.blocks@;
        let i = self.d_i(ptr);
        let lo = self.d_lo(ptr);
        let hi = self.d_hi(ptr);
        let b1 = h4.blocks@;
        let x = self.d_addr(ptr);
        let size = self.d_size(ptr);
        let nxa = self.d_next(ptr);
        let nx = self.hslot(nxa);
        self.lemma_dealloc_setup(ptr);
        self.lemma_d_blocks(ptr);
        self.lemma_d_fl2(ptr);
        self.lemma_d_joined(ptr);
        self.lemma_layout();
        reveal(Heap::headers_ok);
        assert(b1 == merge_blocks(b, lo, hi));
        assert forall|j: int| 0 <= j < b1.len() implies h4.sl(h4.idx(#[trigger] b1[j].addr as int))
            == b1[j].size + (if prev_in_use(b1, j) { 1int } else { 0int }) by {
            assert(h4.idx(b1[j].addr as int) == self.idx(b1[j].addr as int));
            if j < lo {
                self.lemma_not_link(j);
                assert(self.idx(b[j].addr as int) + b[j].size / 8 <= self.idx(b[lo].addr as int));
                if j > 0 {
                    assert(b1[j - 1] == b[j - 1]);
                }
                if i + 1 < b.len() {
                    assert(self.idx(b[j].addr as int) + b[j].size / 8 <= self.idx(b[i + 1].addr as int));
                }
            } else if j == lo {
                if lo > 0 {
                    assert(b1[lo - 1] == b[lo - 1]);
                }
            } else {
                let m = j + (hi - lo);
                self.lemma_not_link(m);
                assert(self.idx(b[hi].addr as int) + b[hi].size / 8 <= self.idx(b[m].addr as int));
                if m == hi + 1 {
                    assert(b1[j - 1].free);
                    if !self.d_mn(ptr) {
                        assert(m == i + 1);
                        assert(nx == self.idx(b[m].addr as int));
                        lemma_tag_bits(b[m].size, 1);
                    } else {
                        assert(b[m].addr == b[m - 1].addr + b[m - 1].size);
                        assert(nx < self.idx(b[m].addr as int));
                    }
                } else {
                    assert(b1[j - 1] == b[m - 1]);
                    assert(self.idx(b[hi + 1].addr as int) + b[hi + 1].size / 8 <= self.idx(b[m].addr as int));
                    if i + 1 < b.len() {
                        assert(self.idx(b[i + 1].addr as int) < self.idx(b[m].addr as int));
                    }
                }
            }
        }
        assert(h4.head.info.0 == h4.sl(-3));
        assert(!self.link_slot(self.free@, -3)) by {
            self.lemma_wf_separated();
            assert forall|k: int| 0 <= k < self.free@.len() implies self.idx(#[trigger] self.free@[k] as int) >= 0 by {
                assert(self.addr_ok(self.free@[k] as int));
            }
        }
        if hi == b.len() - 1 {
            assert(b1.last() == b1[lo]);
            if !self.d_mn(ptr) {
                assert(nxa == self.end);
                assert(self.sl(-3) == 1usize);
                assert(1usize & !1usize == 0usize) by (bit_vector);
            } else {
                assert(b.last() == b[i + 1]);
                assert(nx != -3);
            }
        } else {
            assert(b1.last() == b1[b1.len() - 1]);
            assert(b1[b1.len() - 1] == b[b.len() - 1]);
            assert(nx != -3);
        }
    }

    #[verifier::rlimit(60)]
    proof fn lemma_d_footers(&self, h4: &Heap, ptr: int)
        requires
            self.dealloc_step(h4, ptr),
        ensures
            h4.footers_ok(),
            h4.coalesced(),
    {
        let b = self.blocks@;
        let i = self.d_i(ptr);
        let lo = self.d_lo(ptr);
        let hi = self.d_hi(ptr);
        let b1 = h4.blocks@;
        let x = self.d_addr(ptr);
        let size = self.d_size(ptr);
        let nxa = self.d_next(ptr);
        let nx = self.hslot(nxa);
        self.lemma_dealloc_setup(ptr);
        self.lemma_d_blocks(ptr);
        self.lemma_d_fl2(ptr);
        self.lemma_d_joined(ptr);
        self.lemma_layout();
        reveal(Heap::footers_ok);
        reveal(Heap::coalesced);
        assert(b1 == merge_blocks(b, lo, hi));
        assert forall|j: int| 0 <= j < b1.len() && #[trigger] b1[j].free implies h4.sl(
            h4.fslot(b1[j].addr as int, b1[j].size as int),
        ) == b1[j].addr by {
            assert(h4.fslot(b1[j].addr as int, b1[j].size as int) == self.fslot(b1[j].addr as int, b1[j].size as int));
            if j < lo {
                self.lemma_not_link(j);
                assert(self.idx(b[j].addr as int) + b[j].size / 8 <= self.idx(b[lo].addr as int));
                if i + 1 < b.len() {
                    assert(self.idx(b[j].addr as int) + b[j].size / 8 <= self.idx(b[i + 1].addr as int));
                }
            } else if j == lo {
            } else {
                let m = j + (hi - lo);
                self.lemma_not_link(m);
                assert(self.idx(b[hi].addr as int) + b[hi].size / 8 <= self.idx(b[m].addr as int));
                if i + 1 < b.len() && m != i + 1 {
                    assert(self.idx(b[i + 1].addr as int) + b[i + 1].size / 8 <= self.idx(b[m].addr as int));
                }
            }
        }
        assert forall|j: int| #![trigger b1[j - 1].free, b1[j].free] 0 < j < b1.len() implies !(b1[j - 1].free && b1[j].free) by {
            if j < lo {
                assert(!(b[j - 1].free && b[j].free));
            } else if j == lo {
            } else if j == lo + 1 {
                assert(b1[j] == b[hi + 1]);
            } else {
                let m = j + (hi - lo);
                assert(b1[j - 1] == b[m - 1]);
                assert(!(b[m - 1].free && b[m].free));
            }
        }
    }

    #[verifier::rlimit(60)]
    proof fn lemma_d_members(&self, h4: &Heap, ptr: int)
        requires
            self.dealloc_step(h4, ptr),
        ensures
            h4.members_ok(),
    {
        let b = self.blocks@;
        let fl = self.free@;
        let i = self.d_i(ptr);
        let lo = self.d_lo(ptr);
        let hi = self.d_hi(ptr);
        let b1 = h4.blocks@;
        let fl2 = self.d_fl2(ptr);
        let fl3 = h4.free@;
        self.lemma_dealloc_setup(ptr);
        self.lemma_d_blocks(ptr);
        self.lemma_d_fl2(ptr);
        self.lemma_layout();
        reveal(Heap::members_ok);
        assert(b1 == merge_blocks(b, lo, hi));
        assert(fl3 == seq![b[lo].addr] + fl2);
        assert forall|y: int| 0 <= y < fl3.len() implies #[trigger] fl3[y] == if y == 0 { b[lo].addr } else { fl2[y - 1] } by {}
        assert forall|k: int| 0 <= k < fl2.len() implies #[trigger] fl2[k] != b[lo].addr by {
            let q = index_of(b, fl2[k] as int);
            if q < lo {
                assert(self.idx(b[q].addr as int) + b[q].size / 8 <= self.idx(b[lo].addr as int));
            } else {
                assert(self.idx(b[lo].addr as int) + b[lo].size / 8 <= self.idx(b[q].addr as int));
            }
        }
        assert forall|y1: int, y2: int| 0 <= y1 < fl3.len() && 0 <= y2 < fl3.len() && y1 != y2 implies fl3[y1] != fl3[y2] by {
            if y1 > 0 && y2 > 0 {
                assert(fl2[y1 - 1] != fl2[y2 - 1]);
            } else if y1 > 0 {
                assert(fl2[y1 - 1] != b[lo].addr);
            } else if y2 > 0 {
                assert(fl2[y2 - 1] != b[lo].addr);
            }
        }
        assert(fl3.no_duplicates());
        assert forall|y: int| 0 <= y < fl3.len() implies is_free_block(b1, #[trigger] fl3[y] as int) by {
            if y == 0 {
                assert(b1[lo].addr == fl3[0] && b1[lo].free);
            } else {
                let q = index_of(b, fl2[y - 1] as int);
                if q < lo {
                    assert(b1[q] == b[q]);
                    assert(b1[q].addr == fl3[y] && b1[q].free);
                } else {
                    let j = q - (hi - lo);
                    assert(b1[j] == b[q]);
                    assert(b1[j].addr == fl3[y] && b1[j].free);
                }
            }
        }
        assert forall|j: int| 0 <= j < b1.len() && #[trigger] b1[j].free implies fl3.contains(b1[j].addr) by {
            if j == lo {
                assert(fl3[0] == b1[j].addr);
            } else {
                let m = if j < lo { j } else { j + (hi - lo) };
                assert(b1[j] == b[m]);
                assert(fl.contains(b[m].addr));
                self.lemma_d_fl2_contains(ptr, b[m].addr);
                if self.d_mp(ptr) {
                    assert(self.idx(b[i - 1].addr as int) + b[i - 1].size / 8 <= self.idx(b[m].addr as int)
                        || self.idx(b[m].addr as int) + b[m].size / 8 <= self.idx(b[i - 1].addr as int));
                }
                if self.d_mn(ptr) {
                    assert(self.idx(b[i + 1].addr as int) + b[i + 1].size / 8 <= self.idx(b[m].addr as int)
                        || self.idx(b[m].addr as int) + b[m].size / 8 <= self.idx(b[i + 1].addr as int));
                }
                assert(fl2.contains(b[m].addr));
                let k = choose|k: int| 0 <= k < fl2.len() && fl2[k] == b[m].addr;
                assert(fl3[k + 1] == b1[j].addr);
            }
        }
    }

    proof fn lemma_dealloc_wf(&self, h4: &Heap, ptr: int)
        requires
            self.dealloc_step(h4, ptr),
        ensures
            h4.wf(),
    {
        self.lemma_d_blocks(ptr);
        self.lemma_d_fl2(ptr);
        self.lemma_d_headers(h4, ptr);
        self.lemma_d_footers(h4, ptr);
        self.lemma_d_members(h4, ptr);
        reveal(Heap::links_ok);
    }
}

} // verus!

verus! {

impl Heap {
    /// Empties the heap and takes `range` as its memory.
    pub fn reset(&mut self, range: &Range<usize>)
        requires
            range.start % 8 == 0,
            range.start + FREE_SIZE <= range.end,
            (range.end - range.start) % 8 == 0,
        ensures
            final(self).wf(),
            final(self).heap_start() == range.start,
            final(self).heap_end() == range.end,
            final(self).blocks() == seq![
                Block { addr: range.start, size: (range.end - range.start) as usize, free: true },
            ],
            final(self).free_list() == seq![range.start],
    {
        *self = Self::empty();
        self.init(range);
    }

    /// The end of the heap's memory, which also names the list head in the free-list
    /// links.
    pub fn end(&self) -> (r: usize)
        ensures
            r == self.heap_end(),
    {
        self.end
    }

    /// A cursor over the free list, from its front.
    pub fn iter_free(&self) -> (r: FreeBlockIter)
        requires
            self.wf(),
        ensures
            r.valid_for(self),
            r.pos() == 0,
    {
        FreeBlockIter { end: self.end, prev: self.end, pos: Ghost(0) }
    }

    /// A cursor over the blocks, in address order.
    pub fn iter_block(&self) -> (r: BlockIter)
        requires
            self.wf() || self.bare(),
        ensures
            r.valid_for(self),
            r.pos() == 0,
    {
        proof {
            if self.wf() {
                assert(self.blocks@[0].addr == self.start);
            }
        }
        BlockIter { cur: self.start, end: self.end, pos: Ghost(0) }
    }
}

/// Walks the free list; after its last entry it yields `None` once and then starts
/// again from the front.
pub struct FreeBlockIter {
    end: FreePointer,
    prev: FreePointer,
    pos: Ghost<int>,
}

impl FreeBlockIter {
    /// How many entries of the free list it has yielded.
    pub closed spec fn pos(&self) -> int {
        self.pos@
    }

    pub closed spec fn valid_for(&self, h: &Heap) -> bool {
        let fl = h.free_list();
        &&& h.wf()
        &&& self.end == h.end
        &&& 0 <= self.pos@ <= fl.len()
        &&& self.prev == (if self.pos@ == 0 { h.end } else { fl[self.pos@ - 1] })
    }

    pub fn next(&mut self, heap: &Heap) -> (r: Option<FreePointer>)
        requires
            old(self).valid_for(heap),
        ensures
            final(self).valid_for(heap),
            old(self).pos() < heap.free_list().len() ==> r == Some(heap.free_list()[old(self).pos()])
                && final(self).pos() == old(self).pos() + 1,
            old(self).pos() == heap.free_list().len() ==> r.is_none() && final(self).pos() == 0,
    {
        let ghost fl = heap.free@;
        proof {
            heap.lemma_head_links();
            if self.pos@ > 0 {
                heap.lemma_fit_step(self.pos@ - 1, 0);
            }
        }
        self.prev = heap.get_next(self.prev);
        if self.prev == self.end {
            proof {
                if self.pos@ < fl.len() {
                    heap.lemma_fit_step(self.pos@, 0);
                }
                self.pos@ = 0;
            }
            None
        } else {
            proof {
                if self.pos@ == fl.len() {
                    heap.lemma_fit_step(self.pos@ - 1, 0);
                }
                self.pos@ = self.pos@ + 1;
            }
            Some(self.prev)
        }
    }
}

/// Walks the blocks in address order by their sizes.
pub struct BlockIter {
    end: usize,
    cur: BlockPointer,
    pos: Ghost<int>,
}

impl BlockIter {
    /// How many blocks it has yielded.
    pub closed spec fn pos(&self) -> int {
        self.pos@
    }

    pub closed spec fn valid_for(&self, h: &Heap) -> bool {
        let b = h.blocks();
        &&& h.wf() || h.bare()
        &&& self.end == h.end
        &&& 0 <= self.pos@ <= b.len()
        &&& self.cur == (if self.pos@ < b.len() { b[self.pos@].addr } else { h.end })
    }

    pub fn next(&mut self, heap: &Heap) -> (r: Option<BlockPointer>)
        requires
            old(self).valid_for(heap),
        ensures
            final(self).valid_for(heap),
            old(self).pos() < heap.blocks().len() ==> r == Some(heap.blocks()[old(self).pos()].addr)
                && final(self).pos() == old(self).pos() + 1,
            old(self).pos() == heap.blocks().len() ==> r.is_none() && final(self).pos() == old(self).pos(),
    {
        let cur = self.cur;
        if cur == self.end {
            proof {
                if self.pos@ < heap.blocks@.len() {
                    heap.lemma_layout();
                    assert(heap.idx(heap.blocks@[self.pos@].addr as int) >= 0);
                }
            }
            return None;
        }
        let ghost b = heap.blocks@;
        let ghost k = self.pos@;
        proof {
            heap.lemma_layout();
            lemma_tiling_ordered(b, heap.start as int, heap.end as int);
            reveal(Heap::headers_ok);
            lemma_tag_bits(b[k].size, if prev_in_use(b, k) { 1usize } else { 0usize });
            if k + 1 < b.len() {
                assert(b[k + 1].addr == b[k + 1 - 1].addr + b[k + 1 - 1].size);
            } else {
                assert(b.last() == b[k]);
            }
        }
        let size = heap.header(cur) & !1usize;
        self.cur = cur + size;
        proof {
            self.pos@ = self.pos@ + 1;
        }
        Some(cur)
    }
}

} // verus!

verus! {

proof fn lemma_first_fit(b: Seq<Block>, fl: Seq<usize>, need: int, k: int)
    requires
        0 <= k <= fl.len(),
    ensures
        k <= first_fit(b, fl, need, k) <= fl.len(),
        first_fit(b, fl, need, k) < fl.len() ==> b[index_of(b, fl[first_fit(b, fl, need, k)] as int)].size
            >= need,
        forall|j: int|
            k <= j < first_fit(b, fl, need, k) ==> #[trigger] b[index_of(b, fl[j] as int)].size < need,
    decreases fl.len() - k,
{
    if k < fl.len() {
        lemma_first_fit(b, fl, need, k + 1);
    }
}

/// In a set-up heap the blocks cover its region in address order, without overlap.
pub proof fn lemma_blocks_disjoint(h: &Heap)
    requires
        h.wf(),
    ensures
        tiling(h.blocks(), h.heap_start(), h.heap_end()),
        forall|i: int, j: int|
            0 <= i < j < h.blocks().len() ==> #[trigger] h.blocks()[i].addr + h.blocks()[i].size
                <= #[trigger] h.blocks()[j].addr,
{
    lemma_tiling_ordered(h.blocks(), h.heap_start(), h.heap_end());
}

/// `alloc(n)` fails exactly when no free block can hold a header and `n` bytes; when
/// it succeeds, the address it returns starts `n` bytes of a block in use, inside the
/// heap and 8-byte aligned relative to its start.
pub proof fn lemma_alloc_room(h: &Heap, n: int)
    requires
        h.wf(),
        0 <= n <= isize::MAX,
    ensures
        ({
            let b = h.blocks();
            let fl = h.free_list();
            let res = alloc_result(b, fl, n);
            &&& (res.2 == 0) <==> (forall|k: int|
                0 <= k < fl.len() ==> #[trigger] b[index_of(b, fl[k] as int)].size < alloc_size(n))
            &&& res.2 != 0 ==> {
                let i = index_of(res.0, res.2 - USED_SIZE);
                &&& 0 <= i < res.0.len()
                &&& res.0[i].addr + USED_SIZE == res.2
                &&& !res.0[i].free
                &&& res.0[i].size >= n + USED_SIZE
                &&& h.heap_start() < res.2
                &&& res.2 + n <= h.heap_end()
                &&& (res.2 - h.heap_start()) % 8 == 0
                &&& is_allocated(res.0, res.2)
            }
        }),
{
    let b = h.blocks();
    let fl = h.free_list();
    let need = alloc_size(n);
    lemma_first_fit(b, fl, need, 0);
    let k = first_fit(b, fl, need, 0);
    lemma_tiling_ordered(b, h.start as int, h.end as int);
    if k < fl.len() {
        h.lemma_free_entry(k);
        let i = index_of(b, fl[k] as int);
        let res = alloc_result(b, fl, n);
        let b1 = res.0;
        if b[i].size - need < FREE_SIZE {
            assert(b1[i].addr + USED_SIZE == res.2);
            h.lemma_consume_common_pure(k);
            assert(b1.len() == b.len());
        } else {
            h.lemma_layout();
            lemma_split_blocks(b, i, need, h.start as int, h.end as int);
            assert(b1[i].addr + USED_SIZE == res.2);
        }
        assert(res.0[i].addr + USED_SIZE == res.2 && !res.0[i].free);
        lemma_tiling_ordered(b1, h.start as int, h.end as int);
        let i2 = index_of(b1, res.2 - USED_SIZE);
        if i2 != i {
            if i2 < i {
                assert(b1[i2].addr + b1[i2].size <= b1[i].addr);
            } else {
                assert(b1[i].addr + b1[i].size <= b1[i2].addr);
            }
        }
    } else {
        assert forall|j: int| 0 <= j < fl.len() implies #[trigger] b[index_of(b, fl[j] as int)].size < alloc_size(n) by {}
    }
}

impl Heap {
    /// The blocks after handing out a whole free block keep tiling the region.
    proof fn lemma_consume_common_pure(&self, k: int)
        requires
            self.wf(),
            0 <= k < self.free@.len(),
        ensures
            ({
                let b = self.blocks@;
                let i = index_of(b, self.free@[k] as int);
                tiling(b.update(i, Block { addr: b[i].addr, size: b[i].size, free: false }), self.start as int, self.end as int)
            }),
    {
        let b = self.blocks@;
        self.lemma_free_entry(k);
        let i = index_of(b, self.free@[k] as int);
        let b1 = b.update(i, Block { addr: b[i].addr, size: b[i].size, free: false });
        assert forall|j: int| #![trigger b1[j].addr, b1[j - 1].size] 0 < j < b1.len() implies b1[j].addr == b1[j - 1].addr + b1[j - 1].size by {
            assert(b[j].addr == b[j - 1].addr + b[j - 1].size);
        }
        assert forall|j: int| 0 <= j < b1.len() implies #[trigger] b1[j].size >= FREE_SIZE && b1[j].size % 8 == 0 by {
            assert(b[j].size >= FREE_SIZE);
        }
        assert(b1.last().addr == b.last().addr);
    }
}

} // verus!

verus! {

proof fn lemma_tiling_index(b: Seq<Block>, start: int, end: int, i: int, a: int)
    requires
        tiling(b, start, end),
        0 <= i < b.len(),
        b[i].addr == a,
    ensures
        index_of(b, a) == i,
{
    lemma_tiling_ordered(b, start, end);
    let j = index_of(b, a);
    assert(0 <= j < b.len() && b[j].addr == a);
    if j < i {
        assert(b[j].addr + b[j].size <= b[i].addr);
    } else if i < j {
        assert(b[i].addr + b[i].size <= b[j].addr);
    }
}

proof fn lemma_front_multiset(fl: Seq<usize>, k: int)
    requires
        0 <= k < fl.len(),
    ensures
        (seq![fl[k]] + fl.remove(k)).to_multiset() == fl.to_multiset(),
{
    let a = fl[k];
    let s0 = fl.subrange(0, k);
    let s2 = fl.subrange(k + 1, fl.len() as int);
    assert(fl =~= (s0 + seq![a]) + s2);
    assert(fl.remove(k) =~= s0 + s2);
    assert(seq![a] + fl.remove(k) =~= (seq![a] + s0) + s2);
    vstd::seq_lib::lemma_multiset_commutative(s0 + seq![a], s2);
    vstd::seq_lib::lemma_multiset_commutative(s0, seq![a]);
    vstd::seq_lib::lemma_multiset_commutative(seq![a] + s0, s2);
    vstd::seq_lib::lemma_multiset_commutative(seq![a], s0);
}

/// The free-list entry that `alloc` uses differs from every other entry, and the
/// address just past the part it hands out is no entry.
proof fn lemma_undo_split_list(h: &Heap, k: int, need: int)
    requires
        h.wf(),
        0 <= k < h.free_list().len(),
        need >= FREE_SIZE,
        h.blocks()[index_of(h.blocks(), h.free_list()[k] as int)].size - need >= FREE_SIZE,
    ensures
        ({
            let fl = h.free_list();
            let fl_mid = fl.update(k, (fl[k] + need) as usize);
            &&& pos_of(fl_mid, fl[k] + need) == k
            &&& fl_mid.remove(k) == fl.remove(k)
        }),
{
    let b = h.blocks();
    let fl = h.free_list();
    h.lemma_free_entry(k);
    lemma_tiling_ordered(b, h.start as int, h.end as int);
    reveal(Heap::members_ok);
    let i = index_of(b, fl[k] as int);
    let a = fl[k];
    let fl_mid = fl.update(k, (a + need) as usize);
    assert forall|x: int| 0 <= x < fl.len() && x != k implies fl_mid[x] != a + need by {
        h.lemma_free_entry(x);
        let q = index_of(b, fl[x] as int);
        assert(fl[x] != fl[k]);
        if q < i {
            assert(b[q].addr + b[q].size <= b[i].addr);
        } else if q > i {
            assert(b[i].addr + b[i].size <= b[q].addr);
        }
    }
    assert(fl_mid[k] == a + need);
    assert(fl_mid.remove(k) =~= fl.remove(k));
}

proof fn lemma_undo_split(h: &Heap, n: int)
    requires
        h.wf(),
        0 <= n <= isize::MAX,
        first_fit(h.blocks(), h.free_list(), alloc_size(n), 0) < h.free_list().len(),
        ({
            let b = h.blocks();
            let fl = h.free_list();
            let k = first_fit(b, fl, alloc_size(n), 0);
            b[index_of(b, fl[k] as int)].size - alloc_size(n) >= FREE_SIZE
        }),
    ensures
        ({
            let b = h.blocks();
            let fl = h.free_list();
            let res = alloc_result(b, fl, n);
            let k = first_fit(b, fl, alloc_size(n), 0);
            dealloc_result(res.0, res.1, res.2) == (b, seq![fl[k]] + fl.remove(k))
        }),
{
    let b = h.blocks();
    let fl = h.free_list();
    let need = alloc_size(n);
    lemma_first_fit(b, fl, need, 0);
    let k = first_fit(b, fl, need, 0);
    h.lemma_free_entry(k);
    reveal(Heap::coalesced);
    let i = index_of(b, fl[k] as int);
    let a = fl[k];
    let fs = b[i].size;
    let res = alloc_result(b, fl, n);
    let b1 = res.0;
    let fl1 = res.1;
    assert(b1 == split_blocks(b, i, need));
    assert(fl1 == fl.update(k, (a + need) as usize));
    assert(res.2 == a + USED_SIZE);
    lemma_tiling_ordered(b, h.start as int, h.end as int);
    lemma_split_blocks(b, i, need, h.start as int, h.end as int);
    lemma_tiling_index(b1, h.start as int, h.end as int, i, a as int);
    assert(index_of(b1, res.2 - USED_SIZE) == i);
    if i > 0 {
        assert(!(b[i - 1].free && b[i].free));
        assert(b1[i - 1] == b[i - 1]);
        assert(!b1[i - 1].free);
    }
    assert(i + 1 < b1.len());
    assert(b1[i + 1].free);
    assert(b1[i + 1].addr == a + need);
    lemma_merge_index(b1, i, i + 1);
    let d = dealloc_result(b1, fl1, res.2);
    assert(d.0 == merge_blocks(b1, i, i + 1));
    assert(d.0.len() == b.len());
    assert forall|j: int| 0 <= j < b.len() implies #[trigger] d.0[j] == b[j] by {
        if j < i {
            assert(d.0[j] == b1[j]);
        } else if j == i {
            assert(d.0[j] == Block { addr: a, size: fs, free: true });
        } else {
            assert(d.0[j] == b1[j + 1]);
        }
    }
    assert(d.0 =~= b);
    lemma_undo_split_list(h, k, need);
    assert(d.1 == seq![b1[i].addr] + fl1.remove(pos_of(fl1, b1[i + 1].addr as int)));
}

/// Freeing what `alloc(n)` just handed out gives back the same blocks; the free list
/// holds the same entries, with the block that was used now at its front.
pub proof fn lemma_dealloc_undoes_alloc(h: &Heap, n: int)
    requires
        h.wf(),
        0 <= n <= isize::MAX,
    ensures
        ({
            let b = h.blocks();
            let fl = h.free_list();
            let res = alloc_result(b, fl, n);
            let k = first_fit(b, fl, alloc_size(n), 0);
            res.2 != 0 ==> {
                &&& is_allocated(res.0, res.2)
                &&& dealloc_result(res.0, res.1, res.2).0 == b
                &&& dealloc_result(res.0, res.1, res.2).1 == seq![fl[k]] + fl.remove(k)
                &&& dealloc_result(res.0, res.1, res.2).1.to_multiset() == fl.to_multiset()
            }
        }),
{
    let b = h.blocks();
    let fl = h.free_list();
    let need = alloc_size(n);
    let res = alloc_result(b, fl, n);
    lemma_alloc_room(h, n);
    lemma_first_fit(b, fl, need, 0);
    let k = first_fit(b, fl, need, 0);
    if res.2 != 0 {
        h.lemma_free_entry(k);
        reveal(Heap::coalesced);
        let i = index_of(b, fl[k] as int);
        let a = fl[k];
        let b1 = res.0;
        let fl1 = res.1;
        let d = dealloc_result(b1, fl1, res.2);
        if i > 0 {
            assert(!(b[i - 1].free && b[i].free));
        }
        if b[i].size - need < FREE_SIZE {
            h.lemma_consume_common_pure(k);
            lemma_tiling_index(b1, h.start as int, h.end as int, i, a as int);
            if i + 1 < b.len() {
                assert(!(b[(i + 1) - 1].free && b[i + 1].free));
            }
            lemma_merge_index(b1, i, i);
            assert(d.0 =~= b);
            assert(d.1 == seq![a] + fl.remove(k));
        } else {
            lemma_undo_split(h, n);
        }
        lemma_front_multiset(fl, k);
    }
}

/// When no block is in use, the heap is one free block over its whole region: every
/// allocation has been given back and joined.
pub proof fn lemma_all_free_is_one_block(h: &Heap)
    requires
        h.wf(),
        forall|i: int| 0 <= i < h.blocks().len() ==> #[trigger] h.blocks()[i].free,
    ensures
        h.blocks() == seq![
            Block { addr: h.heap_start() as usize, size: (h.heap_end() - h.heap_start()) as usize, free: true },
        ],
        h.free_list() == seq![h.heap_start() as usize],
{
    let b = h.blocks();
    let fl = h.free_list();
    reveal(Heap::coalesced);
    reveal(Heap::members_ok);
    if b.len() > 1 {
        assert(b[0].free && b[1].free);
        assert(!(b[1 - 1].free && b[1].free));
    }
    assert(b.len() == 1);
    assert(b.last() == b[0]);
    assert(b[0].free);
    assert(fl.contains(b[0].addr));
    assert forall|k: int| 0 <= k < fl.len() implies fl[k] == b[0].addr by {
        h.lemma_free_entry(k);
    }
    if fl.len() > 1 {
        assert(fl[0] != fl[1]);
    }
    assert(fl =~= seq![h.heap_start() as usize]);
}

} // verus!

verus! {

/// One block as the heap's listing shows it: where it lies, whether it and the block
/// before it are in use, and, for a free block, its neighbours in the free list.
#[derive(Clone, Copy, Debug, PartialEq, Eq)]
pub struct BlockLine {
    pub addr: usize,
    pub size: usize,
    pub used: bool,
    pub prev_used: bool,
    pub links: Option<(usize, usize)>,
}

/// The free-list neighbours of the entry at `k`, the list head (at `end`) standing for
/// both ends.
pub open spec fn list_neighbours(fl: Seq<usize>, end: int, k: int) -> (usize, usize) {
    (
        if k == 0 {
            end as usize
        } else {
            fl[k - 1]
        },
        if k + 1 == fl.len() {
            end as usize
        } else {
            fl[k + 1]
        },
    )
}

/// A link of a heap over `[start, end)` as the listing shows it: the head, whose links
/// name it by `end`, is shown at `head_at`; a heap with no memory yet shows its links as
/// they are.
pub open spec fn shown(link: usize, start: int, end: int, head_at: usize) -> usize {
    if start != end && link == end {
        head_at
    } else {
        link
    }
}

/// The listing's line for block `i`.
pub open spec fn line_of(b: Seq<Block>, fl: Seq<usize>, end: int, i: int) -> BlockLine {
    BlockLine {
        addr: b[i].addr,
        size: b[i].size,
        used: !b[i].free,
        prev_used: prev_in_use(b, i),
        links: if b[i].free {
            Some(list_neighbours(fl, end, pos_of(fl, b[i].addr as int)))
        } else {
            None
        },
    }
}

impl Heap {
    /// The list head's line: whether the last block is in use, and the head's links to
    /// the last and the first free block (the head itself, at `head_at`, when there is
    /// none).
    pub fn head_line(&self, head_at: usize) -> (r: (bool, usize, usize))
        ensures
            r == (
                (self.head_word() & 1usize == 1usize),
                shown(self.head_prev(), self.heap_start(), self.heap_end(), head_at),
                shown(self.head_next(), self.heap_start(), self.heap_end(), head_at),
            ),
            self.wf() ==> r.0 == !self.blocks().last().free,
            self.wf() ==> r.1 == (if self.free_list().len() > 0 {
                self.free_list().last()
            } else {
                head_at
            }),
            self.wf() ==> r.2 == (if self.free_list().len() > 0 {
                self.free_list()[0]
            } else {
                head_at
            }),
    {
        proof {
            if self.wf() {
                reveal(Heap::headers_ok);
                self.lemma_head_links();
                assert(0usize & 1usize == 0usize && 1usize & 1usize == 1usize) by (bit_vector);
                if self.free@.len() > 0 {
                    self.lemma_fit_step(0, 0);
                    self.lemma_fit_step(self.free@.len() - 1, 0);
                }
            }
        }
        let prev = if self.start != self.end && self.head.prev == self.end {
            head_at
        } else {
            self.head.prev
        };
        let next = if self.start != self.end && self.head.next == self.end {
            head_at
        } else {
            self.head.next
        };
        (self.head.info.0 & 1 == 1, prev, next)
    }

    /// What the words say of block `i`: its header gives its size and whether the
    /// block before it is in use, the next header whether it is in use, and, for a free
    /// block, its link words its neighbours in the free list.
    #[verifier::spinoff_prover]
    proof fn lemma_line(&self, i: int)
        requires
            self.wf(),
            0 <= i < self.blocks@.len(),
        ensures
            ({
                let b = self.blocks@;
                let fl = self.free@;
                let a = b[i].addr as int;
                let next = a + b[i].size;
                &&& self.addr_ok(a)
                &&& a != self.end
                &&& self.sl(self.hslot(a)) & !1usize == b[i].size
                &&& (self.sl(self.hslot(a)) & 1usize == 1usize) == prev_in_use(b, i)
                &&& next == (if i + 1 < b.len() { b[i + 1].addr as int } else { self.end as int })
                &&& next <= self.end
                &&& (next == self.end || self.addr_ok(next))
                &&& (self.sl(self.hslot(next)) & 1usize == 1usize) == !b[i].free
                &&& b[i].free ==> self.sl(self.pslot(a)) == list_neighbours(fl, self.end as int, pos_of(fl, a)).0
                    && self.sl(self.nslot(a)) == list_neighbours(fl, self.end as int, pos_of(fl, a)).1
            }),
    {
        let b = self.blocks@;
        let fl = self.free@;
        self.lemma_layout();
        lemma_tiling_ordered(b, self.start as int, self.end as int);
        reveal(Heap::headers_ok);
        lemma_tag_bits(b[i].size, if prev_in_use(b, i) { 1usize } else { 0usize });
        if i + 1 < b.len() {
            assert(b[i + 1].addr == b[i + 1 - 1].addr + b[i + 1 - 1].size);
            lemma_tag_bits(b[i + 1].size, if prev_in_use(b, i + 1) { 1usize } else { 0usize });
        } else {
            assert(b.last() == b[i]);
            assert(0usize & 1usize == 0usize && 1usize & 1usize == 1usize) by (bit_vector);
        }
        if b[i].free {
            reveal(Heap::members_ok);
            reveal(Heap::links_ok);
            assert(fl.contains(b[i].addr));
            let k = pos_of(fl, b[i].addr as int);
            assert(0 <= k < fl.len() && fl[k] == b[i].addr);
            assert(self.sl(self.idx(fl[k] as int) + 2) == (if k + 1 < fl.len() { fl[k + 1] } else { self.end }));
            assert(self.sl(self.idx(fl[k] as int) + 1) == (if k > 0 { fl[k - 1] } else { self.end }));
        }
    }

    /// Every block in address order, as the listing shows it, the list head at
    /// `head_at`.
    pub fn report(&self, head_at: usize) -> (r: Vec<BlockLine>)
        requires
            self.wf() || self.bare(),
        ensures
            r@.len() == self.blocks().len(),
            forall|i: int|
                0 <= i < r@.len() ==> #[trigger] r@[i] == line_of(
                    self.blocks(),
                    self.free_list(),
                    head_at as int,
                    i,
                ),
    {
        let ghost b = self.blocks@;
        let ghost fl = self.free@;
        let mut out: Vec<BlockLine> = Vec::new();
        if self.start == self.end {
            proof {
                if self.wf() {
                    assert(self.end - self.start >= FREE_SIZE);
                }
            }
            return out;
        }
        let mut cur = self.start;
        proof {
            assert(b[0].addr == self.start);
        }
        while cur != self.end
            invariant
                self.wf(),
                b == self.blocks@,
                fl == self.free@,
                b.len() >= 1,
                0 <= out@.len() <= b.len(),
                out@.len() < b.len() ==> cur == b[out@.len() as int].addr,
                out@.len() == b.len() ==> cur == self.end,
                forall|j: int| 0 <= j < out@.len() ==> #[trigger] out@[j] == line_of(b, fl, head_at as int, j),
            decreases b.len() - out@.len(),
        {
            let ghost i = out@.len() as int;
            proof {
                self.lemma_line(i);
            }
            let h = self.header(cur);
            let size = h & !1usize;
            let prev_used = h & 1 == 1;
            let next = cur + size;
            let used = self.header(next) & 1 == 1;
            let links = if used {
                None
            } else {
                proof {
                    let k = pos_of(fl, b[i].addr as int);
                    reveal(Heap::members_ok);
                    assert(fl.contains(b[i].addr));
                    if k > 0 {
                        self.lemma_fit_step(k - 1, 0);
                    }
                    if k + 1 < fl.len() {
                        self.lemma_fit_step(k + 1, 0);
                    }
                }
                let p = self.get_prev(cur);
                let n = self.get_next(cur);
                let p = if p == self.end {
                    head_at
                } else {
                    p
                };
                let n = if n == self.end {
                    head_at
                } else {
                    n
                };
                Some((p, n))
            };
            let line = BlockLine { addr: cur, size, used, prev_used, links };
            assert(line == line_of(b, fl, head_at as int, i));
            out.push(line);
            cur = next;
        }
        proof {
            if out@.len() < b.len() {
                self.lemma_line(out@.len() as int);
            }
        }
        out
    }
}


impl Heap {
    /// What a set-up heap's words and lists say of each other: the free list holds
    /// exactly the free blocks, each once, and no two free blocks are neighbours; each
    /// block's header holds its size and whether the block before it is in use (the list
    /// head's header, for the last block); each free block's last word holds its own
    /// address; and the links of each free-list entry, and of the head (written as the
    /// region's end), lead to its neighbours in the list.
    pub proof fn lemma_wf_facts(&self)
        requires
            self.wf(),
        ensures
            ({
                let b = self.blocks();
                let fl = self.free_list();
                let end = self.heap_end();
                &&& tiling(b, self.heap_start(), end)
                &&& 0 <= self.heap_start()
                &&& self.heap_start() + FREE_SIZE <= end
                &&& end <= usize::MAX
                &&& self.heap_start() % 8 == 0
                &&& fl.no_duplicates()
                &&& forall|k: int| 0 <= k < fl.len() ==> is_free_block(b, #[trigger] fl[k] as int)
                &&& forall|i: int| 0 <= i < b.len() && #[trigger] b[i].free ==> fl.contains(b[i].addr)
                &&& forall|i: int| #![trigger b[i - 1].free, b[i].free] 0 < i < b.len() ==> !(b[i - 1].free && b[i].free)
                &&& forall|i: int|
                    0 <= i < b.len() ==> self.word(#[trigger] b[i].addr as int) == b[i].size + (if prev_in_use(b, i) {
                        1int
                    } else {
                        0int
                    })
                &&& self.head_word() == (if b.last().free { 0usize } else { 1usize })
                &&& forall|i: int|
                    0 <= i < b.len() && #[trigger] b[i].free ==> self.word(b[i].addr + b[i].size - 8) == b[i].addr
                &&& self.head_next() == (if fl.len() > 0 { fl[0] } else { end as usize })
                &&& self.head_prev() == (if fl.len() > 0 { fl.last() } else { end as usize })
                &&& forall|k: int|
                    0 <= k < fl.len() ==> self.word(#[trigger] fl[k] + 16) == (if k + 1 < fl.len() {
                        fl[k + 1]
                    } else {
                        end as usize
                    })
                &&& forall|k: int|
                    0 <= k < fl.len() ==> self.word(#[trigger] fl[k] + 8) == (if k > 0 {
                        fl[k - 1]
                    } else {
                        end as usize
                    })
            }),
    {
        let b = self.blocks@;
        let fl = self.free@;
        self.lemma_layout();
        lemma_tiling_ordered(b, self.start as int, self.end as int);
        reveal(Heap::headers_ok);
        reveal(Heap::footers_ok);
        reveal(Heap::coalesced);
        reveal(Heap::members_ok);
        reveal(Heap::links_ok);
        assert forall|i: int| 0 <= i < b.len() && #[trigger] b[i].free implies self.word(b[i].addr + b[i].size - 8)
            == b[i].addr by {
            assert(self.idx(b[i].addr + b[i].size - 8) == self.fslot(b[i].addr as int, b[i].size as int));
        }
        assert forall|k: int| 0 <= k < fl.len() implies self.word(#[trigger] fl[k] + 16) == (if k + 1 < fl.len() {
            fl[k + 1]
        } else {
            self.end
        }) && self.word(fl[k] + 8) == (if k > 0 { fl[k - 1] } else { self.end }) by {
            self.lemma_free_entry(k);
            let i = index_of(b, fl[k] as int);
            assert(self.idx(fl[k] + 16) == self.idx(fl[k] as int) + 2);
            assert(self.idx(fl[k] + 8) == self.idx(fl[k] as int) + 1);
        }
    }
}


/// How many of the blocks are in use.
pub open spec fn used_count(b: Seq<Block>) -> nat
    decreases b.len(),
{
    if b.len() == 0 {
        0
    } else {
        used_count(b.drop_last()) + if b.last().free {
            0nat
        } else {
            1nat
        }
    }
}

proof fn lemma_used_count_concat(a: Seq<Block>, c: Seq<Block>)
    ensures
        used_count(a + c) == used_count(a) + used_count(c),
    decreases c.len(),
{
    if c.len() > 0 {
        lemma_used_count_concat(a, c.drop_last());
        assert((a + c).drop_last() =~= a + c.drop_last());
        assert((a + c).last() == c.last());
    } else {
        assert(a + c =~= a);
    }
}

proof fn lemma_used_count_one(x: Block)
    ensures
        used_count(seq![x]) == (if x.free { 0nat } else { 1nat }),
{
    assert(seq![x].drop_last() =~= Seq::<Block>::empty());
    assert(used_count(Seq::<Block>::empty()) == 0);
}

/// The blocks `b` as the part before `i`, block `i`, and the part after it.
proof fn lemma_used_count_at(b: Seq<Block>, i: int)
    requires
        0 <= i < b.len(),
    ensures
        used_count(b) == used_count(b.subrange(0, i)) + (if b[i].free { 0nat } else { 1nat }) + used_count(
            b.subrange(i + 1, b.len() as int),
        ),
{
    let s1 = b.subrange(0, i);
    let s3 = b.subrange(i + 1, b.len() as int);
    assert(b =~= s1 + seq![b[i]] + s3);
    lemma_used_count_concat(s1 + seq![b[i]], s3);
    lemma_used_count_concat(s1, seq![b[i]]);
    lemma_used_count_one(b[i]);
}

/// An allocation that succeeds puts exactly one more block in use; one that fails
/// leaves the blocks and the free list as they were.
pub proof fn lemma_alloc_counts(h: &Heap, n: int)
    requires
        h.wf(),
        0 <= n <= isize::MAX,
    ensures
        ({
            let res = alloc_result(h.blocks(), h.free_list(), n);
            &&& res.2 != 0 ==> used_count(res.0) == used_count(h.blocks()) + 1
            &&& res.2 == 0 ==> res.0 == h.blocks() && res.1 == h.free_list()
        }),
{
    let b = h.blocks();
    let fl = h.free_list();
    let need = alloc_size(n);
    let res = alloc_result(b, fl, n);
    lemma_first_fit(b, fl, need, 0);
    let k = first_fit(b, fl, need, 0);
    if k < fl.len() {
        h.lemma_free_entry(k);
        let i = index_of(b, fl[k] as int);
        lemma_used_count_at(b, i);
        let fs = b[i].size;
        if fs - need < FREE_SIZE {
            let b1 = b.update(i, Block { addr: fl[k], size: fs, free: false });
            lemma_used_count_at(b1, i);
            assert(b1.subrange(0, i) =~= b.subrange(0, i));
            assert(b1.subrange(i + 1, b1.len() as int) =~= b.subrange(i + 1, b.len() as int));
        } else {
            let b2 = split_blocks(b, i, need);
            let u = Block { addr: b[i].addr, size: need as usize, free: false };
            let f = Block { addr: (b[i].addr + need) as usize, size: (b[i].size - need) as usize, free: true };
            let s1 = b.subrange(0, i);
            let s3 = b.subrange(i + 1, b.len() as int);
            reveal(split_blocks);
            assert(b2 == s1 + seq![u, f] + s3);
            lemma_used_count_concat(s1 + seq![u, f], s3);
            lemma_used_count_concat(s1, seq![u, f]);
            assert(seq![u, f] =~= seq![u] + seq![f]);
            lemma_used_count_concat(seq![u], seq![f]);
            lemma_used_count_one(u);
            lemma_used_count_one(f);
        }
    }
}

/// Freeing a block in use takes exactly one block out of use.
pub proof fn lemma_dealloc_counts(h: &Heap, p: int)
    requires
        h.wf(),
        is_allocated(h.blocks(), p),
    ensures
        used_count(dealloc_result(h.blocks(), h.free_list(), p).0) + 1 == used_count(h.blocks()),
{
    let b = h.blocks();
    h.lemma_dealloc_setup(p);
    let i = h.d_i(p);
    let mp = i > 0 && b[i - 1].free;
    let mn = i + 1 < b.len() && b[i + 1].free;
    let lo = if mp { i - 1 } else { i };
    let hi = if mn { i + 1 } else { i };
    reveal(merge_blocks);
    let m = merge_blocks(b, lo, hi);
    let mb = Block { addr: b[lo].addr, size: (b[hi].addr + b[hi].size - b[lo].addr) as usize, free: true };
    let s1 = b.subrange(0, lo);
    let s3 = b.subrange(hi + 1, b.len() as int);
    assert(m == s1 + seq![mb] + s3);
    lemma_used_count_concat(s1 + seq![mb], s3);
    lemma_used_count_concat(s1, seq![mb]);
    lemma_used_count_one(mb);
    assert(used_count(Seq::<Block>::empty()) == 0);
    let mid = b.subrange(lo, hi + 1);
    assert(b =~= s1 + mid + s3);
    lemma_used_count_concat(s1 + mid, s3);
    lemma_used_count_concat(s1, mid);
    lemma_used_count_at(mid, i - lo);
    assert(mid[i - lo] == b[i]);
    if mp {
        assert(mid.subrange(0, i - lo) =~= seq![b[i - 1]]);
        lemma_used_count_one(b[i - 1]);
    } else {
        assert(mid.subrange(0, i - lo) =~= Seq::<Block>::empty());
    }
    if mn {
        assert(mid.subrange(i - lo + 1, mid.len() as int) =~= seq![b[i + 1]]);
        lemma_used_count_one(b[i + 1]);
    } else {
        assert(mid.subrange(i - lo + 1, mid.len() as int) =~= Seq::<Block>::empty());
    }
}


/// `a` lies in the data of a block in use: past its header, within the block.
pub open spec fn used_data(b: Seq<Block>, a: int) -> bool {
    exists|j: int| 0 <= j < b.len() && !b[j].free && b[j].addr + USED_SIZE <= a < b[j].addr + #[trigger] b[j].size
}

impl Heap {
    /// Word `t` of block `x` is none of the data words of another block `j`.
    proof fn lemma_other_block_slot(&self, j: int, a: int, x: int, t: int)
        requires
            self.shape_ok(),
            0 <= j < self.blocks@.len(),
            0 <= x < self.blocks@.len(),
            x != j,
            self.blocks@[j].addr + USED_SIZE <= a < self.blocks@[j].addr + self.blocks@[j].size,
            (a - self.start) % 8 == 0,
            0 <= t < self.blocks@[x].size / 8,
        ensures
            self.idx(self.blocks@[x].addr as int) + t != self.idx(a),
            self.idx(self.blocks@[j].addr as int) < self.idx(a),
            0 <= self.idx(a) < self.mem@.len(),
    {
        let b = self.blocks@;
        self.lemma_layout();
        let ia = self.idx(a);
        assert(ia * 8 == a - self.start) by {
            vstd::arithmetic::div_mod::lemma_fundamental_div_mod(a - self.start, 8);
        }
        let ij = self.idx(b[j].addr as int);
        let ix = self.idx(b[x].addr as int);
        assert(ij * 8 == b[j].addr - self.start);
        assert(ix * 8 == b[x].addr - self.start);
        assert(b[j].size % 8 == 0);
        assert(b[j].size == (b[j].size / 8) * 8);
        assert(b[x].size == (b[x].size / 8) * 8);
        if x < j {
            assert(ix + b[x].size / 8 <= ij);
        } else {
            assert(ij + b[j].size / 8 <= ix);
        }
    }

    /// Handing out all of a free block leaves the data words of every block in use as
    /// they were.
    proof fn lemma_consume_keeps_data(&self, h1: &Heap, k: int, a: int)
        requires
            self.consume_step(h1, k),
            used_data(self.blocks@, a),
            (a - self.start) % 8 == 0,
        ensures
            h1.word(a) == self.word(a),
    {
        let b = self.blocks@;
        let fl = self.free@;
        let j = choose|j: int| 0 <= j < b.len() && !b[j].free && b[j].addr + USED_SIZE <= a < b[j].addr + #[trigger] b[j].size;
        self.lemma_free_entry(k);
        self.lemma_layout();
        lemma_tiling_ordered(b, self.start as int, self.end as int);
        let i = index_of(b, fl[k] as int);
        let (ip, inx) = self.lemma_neighbours(k);
        self.lemma_other_block_slot(j, a, i, 0);
        if ip >= 0 {
            self.lemma_other_block_slot(j, a, ip, 2);
        }
        if inx >= 0 {
            self.lemma_other_block_slot(j, a, inx, 1);
        }
        if i + 1 < b.len() {
            assert(b[i + 1].addr == b[i + 1 - 1].addr + b[i + 1 - 1].size);
            if i + 1 != j {
                self.lemma_other_block_slot(j, a, i + 1, 0);
            }
        } else {
            assert(b.last() == b[i]);
        }
        assert(h1.sl(self.idx(a)) == self.consume_slots(k, self.idx(a)));
    }

    /// Cutting a free block leaves the data words of every block in use as they were.
    proof fn lemma_split_keeps_data(&self, h1: &Heap, k: int, need: int, a: int)
        requires
            self.split_step(h1, k, need),
            used_data(self.blocks@, a),
            (a - self.start) % 8 == 0,
        ensures
            h1.word(a) == self.word(a),
    {
        let b = self.blocks@;
        let fl = self.free@;
        let j = choose|j: int| 0 <= j < b.len() && !b[j].free && b[j].addr + USED_SIZE <= a < b[j].addr + #[trigger] b[j].size;
        self.lemma_free_entry(k);
        self.lemma_layout();
        lemma_tiling_ordered(b, self.start as int, self.end as int);
        let i = index_of(b, fl[k] as int);
        let (ip, inx) = self.lemma_neighbours(k);
        let fa = b[i].addr as int;
        let fs = b[i].size as int;
        let nf = fa + need;
        assert(self.idx(nf) == self.idx(fa) + need / 8);
        assert(self.fslot(nf, fs - need) == self.idx(fa) + fs / 8 - 1);
        self.lemma_other_block_slot(j, a, i, 0);
        self.lemma_other_block_slot(j, a, i, need / 8);
        self.lemma_other_block_slot(j, a, i, need / 8 + 1);
        self.lemma_other_block_slot(j, a, i, need / 8 + 2);
        self.lemma_other_block_slot(j, a, i, fs / 8 - 1);
        if ip >= 0 {
            self.lemma_other_block_slot(j, a, ip, 2);
        }
        if inx >= 0 {
            self.lemma_other_block_slot(j, a, inx, 1);
        }
        assert(h1.sl(self.idx(a)) == self.split_slots(k, need, self.idx(a)));
    }
}


/// `a` lies in the data of a block in use other than the one whose header is at `h`.
pub open spec fn other_used_data(b: Seq<Block>, a: int, h: int) -> bool {
    exists|j: int|
        0 <= j < b.len() && !b[j].free && b[j].addr != h && b[j].addr + USED_SIZE <= a < b[j].addr
            + #[trigger] b[j].size
}

impl Heap {
    /// Freeing a block leaves the data words of every other block in use as they were.
    #[verifier::spinoff_prover]
    proof fn lemma_dealloc_keeps_data(&self, h4: &Heap, ptr: int, a: int)
        requires
            self.dealloc_step(h4, ptr),
            other_used_data(self.blocks@, a, ptr - USED_SIZE),
            (a - self.start) % 8 == 0,
        ensures
            h4.word(a) == self.word(a),
    {
        let b = self.blocks@;
        let fl = self.free@;
        let j = choose|j: int|
            0 <= j < b.len() && !b[j].free && b[j].addr != ptr - USED_SIZE && b[j].addr + USED_SIZE <= a < b[j].addr
                + #[trigger] b[j].size;
        self.lemma_dealloc_setup(ptr);
        self.lemma_layout();
        lemma_tiling_ordered(b, self.start as int, self.end as int);
        reveal(Heap::members_ok);
        let i = self.d_i(ptr);
        assert(j != i);
        let lo = self.d_lo(ptr);
        let hi = self.d_hi(ptr);
        self.lemma_other_block_slot(j, a, i, 0);
        let ia = self.idx(a);
        // not in the joined blocks
        assert(!(self.idx(self.d_addr(ptr)) <= ia < self.idx(self.d_addr(ptr)) + self.d_size(ptr) / 8)) by {
            assert(lo <= hi);
            assert(j < lo || j > hi);
            assert(self.idx(b[hi].addr as int) * 8 == b[hi].addr - self.start);
            assert(self.idx(b[lo].addr as int) * 8 == b[lo].addr - self.start);
            assert(b[hi].size == (b[hi].size / 8) * 8);
            assert(self.d_size(ptr) / 8 == self.idx(b[hi].addr as int) + b[hi].size / 8 - self.idx(b[lo].addr as int));
            if j < lo {
                self.lemma_other_block_slot(j, a, lo, 0);
                assert(self.idx(b[j].addr as int) + b[j].size / 8 <= self.idx(b[lo].addr as int));
                assert(ia * 8 == a - self.start) by {
                    vstd::arithmetic::div_mod::lemma_fundamental_div_mod(a - self.start, 8);
                }
                assert(b[j].size == (b[j].size / 8) * 8);
            } else {
                assert(self.idx(b[hi].addr as int) + b[hi].size / 8 <= self.idx(b[j].addr as int));
            }
        }
        // not a link word of the free list
        assert(!self.link_slot(fl, ia)) by {
            if self.link_slot(fl, ia) {
                let k = choose|k: int|
                    0 <= k < fl.len() && (ia == self.idx(#[trigger] fl[k] as int) + 1 || ia == self.idx(fl[k] as int) + 2);
                assert(is_free_block(b, fl[k] as int));
                let x = choose|x: int| 0 <= x < b.len() && #[trigger] b[x].addr == fl[k] && b[x].free;
                self.lemma_other_block_slot(j, a, x, 1);
                self.lemma_other_block_slot(j, a, x, 2);
            }
        }
        // not the header of the block after the freed one
        if i + 1 < b.len() {
            if i + 1 != j {
                self.lemma_other_block_slot(j, a, i + 1, 0);
            }
        }
        assert(ia != self.hslot(self.d_next(ptr)));
        assert(h4.sl(ia) == self.sl(ia));
    }
}

} // verus!

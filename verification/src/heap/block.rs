//! Block headers of the first heap: a header word whose bit 0 tells whether the
//! previous block is in use and whose other bits give the block's size, and free
//! blocks that carry their size and their neighbours in the free list.  Pointers are
//! held as addresses into a `Memory` of words; a free block's size, previous and next
//! links lie in its first three words, and its own address in its last word.
use vstd::prelude::*;

verus! {

/// Size of a free-list link.
pub const PTR_SIZE: usize = 8;

/// Size of a used block's header.
pub const USED_SIZE: usize = 8;

/// Size of a free block's bookkeeping: its size, its two links and the link at its end.
pub const FREE_SIZE: usize = 32;

/// A used block's header word.
pub struct BlockInfo(pub usize);

/// The header word of a block of `size` bytes.
pub open spec fn block_word(prev_used: bool, size: usize) -> usize {
    (if prev_used {
        1usize
    } else {
        0usize
    }) | size
}

impl BlockInfo {
    pub fn new(prev_used: bool, size: usize) -> (r: Self)
        ensures
            r.0 == block_word(prev_used, size),
    {
        let bit: usize = if prev_used {
            1
        } else {
            0
        };
        BlockInfo(bit | size)
    }

    /// Whether the previous block is in use: bit 0.
    pub fn prev_used(&self) -> (r: bool)
        ensures
            r == (self.0 & 1usize == 1usize),
    {
        self.0 & 1 == 1
    }

    /// The block's size: the word without bit 0.
    pub fn size(&self) -> (r: usize)
        ensures
            r == self.0 & !1usize,
    {
        self.0 & !1usize
    }
}

/// A header built from a flag and an even size gives both back.
pub proof fn lemma_block_word(prev_used: bool, size: usize)
    requires
        size % 2 == 0,
    ensures
        (block_word(prev_used, size) & 1usize == 1usize) == prev_used,
        block_word(prev_used, size) & !1usize == size,
{
    if prev_used {
        assert((1usize | size) & 1usize == 1usize && (1usize | size) & !1usize == size) by (bit_vector)
            requires
                size % 2 == 0,
        ;
    } else {
        assert((0usize | size) & 1usize == 0usize && (0usize | size) & !1usize == size) by (bit_vector)
            requires
                size % 2 == 0,
        ;
    }
}

/// The address of a used block's header.
pub struct UsedPointer(pub usize);

/// The address of a free block; zero for none.
#[derive(Clone, Copy, Debug, PartialEq, Eq)]
pub struct FreePointer(pub usize);

/// The start of a free block: its size and its neighbours in the free list.
#[derive(Clone, Copy)]
pub struct FreeBlockInfo {
    pub size: usize,
    pub prev: FreePointer,
    pub next: FreePointer,
}

impl FreePointer {
    /// The pointer to no block.
    pub fn null() -> (r: Self)
        ensures
            r.0 == 0,
    {
        FreePointer(0)
    }
}

/// A walk over the free list, from the head's successor round to the head.
pub struct FreeBlockIter {
    pub end: FreePointer,
    pub prev: FreePointer,
}

impl FreeBlockIter {
    /// A walk that starts at, and ends back at, the head at `head`.
    pub fn from(head: usize) -> (r: Self)
        ensures
            r.end.0 == head,
            r.prev.0 == head,
    {
        FreeBlockIter { end: FreePointer(head), prev: FreePointer(head) }
    }
}


/// The word at `a` of words `w` that start at address `start`.
pub open spec fn wd(start: int, w: Seq<usize>, a: int) -> usize {
    w[(a - start) / 8]
}

/// The words `w` with the word at `a` set to `v`.
pub open spec fn put(start: int, w: Seq<usize>, a: int, v: usize) -> Seq<usize> {
    w.update((a - start) / 8, v)
}

/// `a` is the address of one of the words `w`.
pub open spec fn in_words(start: int, w: Seq<usize>, a: int) -> bool {
    start <= a && a + 8 <= start + 8 * w.len() && (a - start) % 8 == 0
}

/// Words of memory from `start` on: `words[k]` lies at `start + 8 * k`.
pub struct Memory {
    pub start: usize,
    pub words: Vec<usize>,
}

impl Memory {
    /// The words fit in the address space.
    pub open spec fn wf(&self) -> bool {
        self.start + 8 * self.words@.len() <= usize::MAX
    }

    pub open spec fn holds(&self, a: int) -> bool {
        in_words(self.start as int, self.words@, a)
    }

    pub open spec fn word(&self, a: int) -> usize {
        wd(self.start as int, self.words@, a)
    }

    /// The word at `a`.
    pub fn read(&self, a: usize) -> (r: usize)
        requires
            self.wf(),
            self.holds(a as int),
        ensures
            r == self.word(a as int),
    {
        self.words[(a - self.start) / 8]
    }

    /// Sets the word at `a` to `v`.
    pub fn write(&mut self, a: usize, v: usize)
        requires
            old(self).wf(),
            old(self).holds(a as int),
        ensures
            final(self).start == old(self).start,
            final(self).words@ == put(old(self).start as int, old(self).words@, a as int, v),
    {
        let k = (a - self.start) / 8;
        self.words.set(k, v);
    }
}

/// The words after `FreePointer::new(addr, info)`: the info in the block's first three
/// words, the block's address in its last one.
pub open spec fn new_words(start: int, w: Seq<usize>, addr: int, info: FreeBlockInfo) -> Seq<usize> {
    let w1 = put(start, w, addr, info.size);
    let w2 = put(start, w1, addr + 8, info.prev.0);
    let w3 = put(start, w2, addr + 16, info.next.0);
    put(start, w3, addr + info.size - PTR_SIZE, addr as usize)
}

/// The words after `to_used` unlinks the free block at `s`: its previous block's next
/// link takes its next link, then its next block's previous link takes its previous
/// link (both read afresh).
pub open spec fn unlink_words(start: int, w: Seq<usize>, s: int) -> Seq<usize> {
    let p = wd(start, w, s + 8);
    let w1 = put(start, w, p + 16, wd(start, w, s + 16));
    let n = wd(start, w1, s + 16);
    put(start, w1, n + 8, wd(start, w1, s + 8))
}

/// Where `to_used` writes: the unlinked block's links and its neighbours' link words.
pub open spec fn unlink_ok(start: int, w: Seq<usize>, s: int) -> bool {
    let p = wd(start, w, s + 8);
    let w1 = put(start, w, p + 16, wd(start, w, s + 16));
    let n = wd(start, w1, s + 16);
    &&& in_words(start, w, s + 8)
    &&& in_words(start, w, s + 16)
    &&& in_words(start, w, p + 16)
    &&& in_words(start, w, n + 8)
}

/// The words after `insert_new(len)` on the free block at `s`: its info copied `len`
/// bytes on, the copy's size less `len`, and its neighbours linked to the copy.
pub open spec fn insert_words(start: int, w: Seq<usize>, s: int, len: int) -> Seq<usize> {
    let nw = s + len;
    let w1 = put(start, w, nw, wd(start, w, s));
    let w2 = put(start, w1, nw + 8, wd(start, w, s + 8));
    let w3 = put(start, w2, nw + 16, wd(start, w, s + 16));
    let w4 = put(start, w3, nw, (wd(start, w3, nw) - len) as usize);
    let p = wd(start, w4, nw + 8);
    let w5 = put(start, w4, p + 16, nw as usize);
    let n = wd(start, w5, nw + 16);
    put(start, w5, n + 8, nw as usize)
}

/// Where `insert_new(len)` reads and writes lie in the words, and the size it takes
/// `len` from is at least `len`.
pub open spec fn insert_ok(start: int, w: Seq<usize>, s: int, len: int) -> bool {
    let nw = s + len;
    let w1 = put(start, w, nw, wd(start, w, s));
    let w2 = put(start, w1, nw + 8, wd(start, w, s + 8));
    let w3 = put(start, w2, nw + 16, wd(start, w, s + 16));
    let w4 = put(start, w3, nw, (wd(start, w3, nw) - len) as usize);
    let p = wd(start, w4, nw + 8);
    let w5 = put(start, w4, p + 16, nw as usize);
    let n = wd(start, w5, nw + 16);
    &&& in_words(start, w, s)
    &&& in_words(start, w, s + 16)
    &&& in_words(start, w, nw)
    &&& in_words(start, w, nw + 16)
    &&& wd(start, w3, nw) >= len
    &&& in_words(start, w, p + 16)
    &&& in_words(start, w, n + 8)
}

impl FreePointer {
    /// Writes `info` as a free block at `addr`, and the block's address into its last
    /// word.
    pub fn new(addr: usize, info: FreeBlockInfo, mem: &mut Memory) -> (r: Self)
        requires
            old(mem).wf(),
            old(mem).holds(addr as int),
            old(mem).holds(addr + 16),
            old(mem).holds(addr + info.size - PTR_SIZE),
        ensures
            r.0 == addr,
            final(mem).start == old(mem).start,
            final(mem).words@ == new_words(old(mem).start as int, old(mem).words@, addr as int, info),
    {
        let len = info.size;
        mem.write(addr, info.size);
        mem.write(addr + 8, info.prev.0);
        mem.write(addr + 16, info.next.0);
        let end = addr + len - PTR_SIZE;
        mem.write(end, addr);
        FreePointer(addr)
    }

    /// Takes the free block out of the free list; gives its address as a used block's.
    pub fn to_used(self, mem: &mut Memory) -> (r: usize)
        requires
            old(mem).wf(),
            unlink_ok(old(mem).start as int, old(mem).words@, self.0 as int),
        ensures
            r == self.0,
            final(mem).start == old(mem).start,
            final(mem).words@ == unlink_words(old(mem).start as int, old(mem).words@, self.0 as int),
    {
        let s = self.0;
        let p = mem.read(s + 8);
        let n = mem.read(s + 16);
        mem.write(p + 16, n);
        let n2 = mem.read(s + 16);
        let p2 = mem.read(s + 8);
        mem.write(n2 + 8, p2);
        s
    }

    /// Moves the free block `len` bytes on, its size `len` less, and links its
    /// neighbours to it; gives the old address, now a used block's.
    pub fn insert_new(&mut self, len: usize, mem: &mut Memory) -> (r: usize)
        requires
            old(mem).wf(),
            insert_ok(old(mem).start as int, old(mem).words@, old(self).0 as int, len as int),
        ensures
            r == old(self).0,
            final(self).0 == old(self).0 + len,
            final(mem).start == old(mem).start,
            final(mem).words@ == insert_words(old(mem).start as int, old(mem).words@, old(self).0 as int, len as int),
    {
        let old_addr = self.0;
        let new_addr = old_addr + len;
        let size = mem.read(old_addr);
        let prev = mem.read(old_addr + 8);
        let next = mem.read(old_addr + 16);
        mem.write(new_addr, size);
        mem.write(new_addr + 8, prev);
        mem.write(new_addr + 16, next);
        self.0 = new_addr;
        let cur = mem.read(new_addr);
        mem.write(new_addr, cur - len);
        let p = mem.read(new_addr + 8);
        mem.write(p + 16, new_addr);
        let n = mem.read(new_addr + 16);
        mem.write(n + 8, new_addr);
        old_addr
    }
}

impl FreeBlockIter {
    /// The next block of the free list: the one that the last yielded block's (at first,
    /// the head's) next link points to; `None` when that is the head again.
    pub fn next(&mut self, mem: &Memory) -> (r: Option<FreePointer>)
        requires
            mem.wf(),
            mem.holds(old(self).prev.0 + 16),
        ensures
            final(self).end == old(self).end,
            final(self).prev.0 == mem.word(old(self).prev.0 + 16),
            r == (if mem.word(old(self).prev.0 + 16) == old(self).end.0 {
                None
            } else {
                Some(FreePointer(mem.word(old(self).prev.0 + 16)))
            }),
    {
        self.prev = FreePointer(mem.read(self.prev.0 + 16));
        if self.prev.0 == self.end.0 {
            None
        } else {
            Some(self.prev)
        }
    }
}

/// `nodes` is the free list round the head at `head`: the head's next link leads to
/// the first of them, each one's to the one after it, and the last one's back to the
/// head, which is none of them.
pub open spec fn circular(mem: &Memory, head: usize, nodes: Seq<usize>) -> bool {
    &&& mem.holds(head + 16)
    &&& mem.word(head + 16) == (if nodes.len() > 0 { nodes[0] } else { head })
    &&& forall|i: int| 0 <= i < nodes.len() ==> #[trigger] nodes[i] != head && mem.holds(nodes[i] + 16)
    &&& forall|i: int|
        0 <= i < nodes.len() ==> mem.word(#[trigger] nodes[i] + 16) == (if i + 1 < nodes.len() {
            nodes[i + 1]
        } else {
            head
        })
}

/// A walk over a free list yields its blocks in order and then `None`: from the state
/// after `i` of them (the walk starts at the head), `next` can step, and yields the
/// block after them, or `None` when all have been yielded.
pub proof fn lemma_walk(mem: &Memory, head: usize, nodes: Seq<usize>, i: int)
    requires
        circular(mem, head, nodes),
        0 <= i <= nodes.len(),
    ensures
        ({
            let prev = if i == 0 { head } else { nodes[i - 1] };
            &&& mem.holds(prev + 16)
            &&& i < nodes.len() ==> mem.word(prev + 16) == nodes[i] && nodes[i] != head
            &&& i == nodes.len() ==> mem.word(prev + 16) == head
        }),
{
    if i > 0 {
        assert(nodes[i - 1] != head);
        assert(mem.word(nodes[i - 1] + 16) == (if i < nodes.len() { nodes[i] } else { head }));
    }
    if i < nodes.len() {
        assert(nodes[i] != head);
    }
}

} // verus!

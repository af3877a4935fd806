//! Sv39 page tables.
//!
//! A table is 512 entries of 64 bits.  An entry that points to the next level holds the
//! table's address shifted right by two, with the valid bit set; an entry that maps a
//! page holds the page's address shifted right by two, with the valid, read, write and
//! execute bits set.  `init` lays out an identity map of memory below `mem_end`: one
//! root table at `base`, the second-level tables 4096 tables further on, and the
//! leaf tables right after them.
use vstd::prelude::*;
use crate::util::bits::get_bits;

verus! {

pub const PAGE_SIZE: u64 = 4096;

/// Entries in a table.
pub const TABLE_LEN: usize = 512;

/// Bytes in a table.
pub const TABLE_SIZE: u64 = 4096;

/// A page-table entry.
pub struct Entry(pub u64);

/// The entry that points to the table at `addr`.
pub open spec fn table_entry(addr: u64) -> u64 {
    (addr >> 2u64) | 1u64
}

/// The entry that maps the page at `addr`, valid, readable, writable and executable.
pub open spec fn page_entry(addr: u64) -> u64 {
    (addr >> 2u64) | 0b1111u64
}

/// The table address that an entry holds.
pub open spec fn entry_table(e: u64) -> u64 {
    (e & !0x3ffu64) << 2u64
}

/// The page address that an entry holds: its bits 10..=53 as a page number.
pub open spec fn entry_addr(e: u64) -> u64 {
    ((e >> 10u64) & 0xfff_ffff_ffffu64) << 12u64
}

impl Entry {
    /// Points the entry to the table at `addr`.
    pub fn set_table(&mut self, addr: u64)
        ensures
            final(self).0 == table_entry(addr),
    {
        self.0 = addr >> 2u64;
        self.set_valid(true);
    }

    /// Sets or clears the valid bit, leaving the others.
    pub fn set_valid(&mut self, valid: bool)
        ensures
            final(self).0 == if valid {
                old(self).0 | 1u64
            } else {
                old(self).0 & !1u64
            },
    {
        if valid {
            self.0 = self.0 | 1u64;
        } else {
            self.0 = self.0 & !1u64;
        }
    }

    /// Maps the page at `addr`, readable, writable and executable.
    pub fn set_addr(&mut self, addr: u64)
        ensures
            final(self).0 == page_entry(addr),
    {
        self.clear();
        self.0 = self.0 | (addr >> 2u64);
        self.0 = self.0 | 0b1110u64;
        self.set_valid(true);
        assert(((((0u64 | (addr >> 2u64)) | 0b1110u64) | 1u64) == (addr >> 2u64) | 0b1111u64)) by (bit_vector);
    }

    /// The address of the table that the entry points to.
    pub fn get_table(&self) -> (r: u64)
        ensures
            r == entry_table(self.0),
    {
        (self.0 & !0x3ffu64) << 2u64
    }

    /// The address of the page that the entry maps.
    pub fn get_addr(&self) -> (r: u64)
        ensures
            r == entry_addr(self.0),
    {
        let val = self.0;
        let b = get_bits(val, 10, 53);
        assert((((1u64 << 44u64) - 1) as u64) == 0xfff_ffff_ffffu64) by (bit_vector);
        assert(b < 0x1000_0000_0000) by (bit_vector)
            requires
                b == (val >> 10u64) & 0xfff_ffff_ffffu64,
        ;
        b << 12u64
    }

    /// Makes the entry invalid and empty.
    pub fn clear(&mut self)
        ensures
            final(self).0 == 0,
    {
        self.0 = 0;
    }
}

/// An entry that points to a table gives the table's address back.
pub proof fn lemma_table_entry(addr: u64)
    requires
        addr % 4096 == 0,
    ensures
        entry_table(table_entry(addr)) == addr,
{
    assert(((((addr >> 2u64) | 1u64) & !0x3ffu64) << 2u64) == addr) by (bit_vector)
        requires
            addr % 4096 == 0,
    ;
}

/// An entry that maps a page gives the page's address back, for a page in the 56-bit
/// physical space.
pub proof fn lemma_page_entry(addr: u64)
    requires
        addr % 4096 == 0,
        addr < 0x100_0000_0000_0000,
    ensures
        entry_addr(page_entry(addr)) == addr,
{
    assert(((((addr >> 2u64) | 0b1111u64) >> 10u64) & 0xfff_ffff_ffffu64) << 12u64 == addr) by (bit_vector)
        requires
            addr % 4096 == 0,
            addr < 0x100_0000_0000_0000,
    ;
}

/// A table of entries.
pub struct Table {
    pub entries: Vec<Entry>,
}

/// The tables that `init` lays out, at `base`: the root table there, the second-level
/// tables from `base + 4096 * TABLE_SIZE` on, then the leaf tables.
pub struct PageTables {
    pub base: u64,
    pub root: Table,
    pub lvl1: Vec<Table>,
    pub lvl0: Vec<Table>,
}

/// Address of the `j`th second-level table.
pub open spec fn lvl1_addr(base: int, j: int) -> int {
    base + 4096 * 4096 + j * 4096
}

/// Address of the `t`th leaf table, after `n1` second-level tables.
pub open spec fn lvl0_addr(base: int, n1: int, t: int) -> int {
    base + 4096 * 4096 + n1 * 4096 + t * 4096
}

/// Leaf tables for `pages` pages: one at least.
pub open spec fn leaf_tables(pages: int) -> int {
    if pages >= 1 {
        (pages - 1) / 512 + 1
    } else {
        1
    }
}

/// Second-level tables for `n0` leaf tables.
pub open spec fn mid_tables(n0: int) -> int {
    (n0 - 1) / 512 + 1
}

impl PageTables {
    /// Every table has its 512 entries, and the layout fits in the address space.
    pub open spec fn wf(&self) -> bool {
        &&& self.root.entries@.len() == TABLE_LEN
        &&& forall|j: int| 0 <= j < self.lvl1@.len() ==> (#[trigger] self.lvl1@[j]).entries@.len() == TABLE_LEN
        &&& forall|t: int| 0 <= t < self.lvl0@.len() ==> (#[trigger] self.lvl0@[t]).entries@.len() == TABLE_LEN
        &&& lvl0_addr(self.base as int, self.lvl1@.len() as int, self.lvl0@.len() as int) <= u64::MAX
    }

    /// The table at `addr`, if one of these lies there.
    pub open spec fn table_at(&self, addr: int) -> Option<Table> {
        let l1 = lvl1_addr(self.base as int, 0);
        let l0 = lvl0_addr(self.base as int, self.lvl1@.len() as int, 0);
        if addr == self.base {
            Some(self.root)
        } else if l1 <= addr < l0 && (addr - l1) % 4096 == 0 {
            Some(self.lvl1@[(addr - l1) / 4096])
        } else if l0 <= addr < l0 + self.lvl0@.len() * 4096 && (addr - l0) % 4096 == 0 {
            Some(self.lvl0@[(addr - l0) / 4096])
        } else {
            None
        }
    }

    /// The walk of `virt_to_physical`: the root's entry for bits 30..=38 of `addr`, that
    /// table's entry for bits 21..=29, that table's entry for bits 12..=20, and the page
    /// it maps plus the offset in bits 0..=11; `None` when an entry points where no table
    /// lies.
    pub open spec fn translate(&self, addr: u64) -> Option<int> {
        let ppn2 = (addr >> 30u64) & 0x1ffu64;
        let ppn1 = (addr >> 21u64) & 0x1ffu64;
        let ppn0 = (addr >> 12u64) & 0x1ffu64;
        match self.table_at(entry_table(self.root.entries@[ppn2 as int].0) as int) {
            None => None,
            Some(t1) => match self.table_at(entry_table(t1.entries@[ppn1 as int].0) as int) {
                None => None,
                Some(t0) => Some(entry_addr(t0.entries@[ppn0 as int].0) + (addr & 0xfffu64)),
            },
        }
    }

    /// What `init` lays out for memory up to `mem_end` at `base`: the root's first
    /// entries point to the second-level tables, theirs in turn to the leaf tables, and
    /// the leaf tables' entries map page after page of memory; all other entries are
    /// empty.
    pub open spec fn laid_out(&self, mem_end: u64, base: u64) -> bool {
        let pages = mem_end / 4096;
        let n0 = leaf_tables(pages as int);
        let n1 = mid_tables(n0);
        &&& self.base == base
        &&& base % 4096 == 0
        &&& self.lvl1@.len() == n1
        &&& self.lvl0@.len() == n0
        &&& self.wf()
        &&& forall|k: int| 0 <= k < 512 ==> (#[trigger] self.root.entries@[k]).0 == if k < n1 {
            table_entry(lvl1_addr(base as int, k) as u64)
        } else {
            0
        }
        &&& forall|j: int, i: int|
            0 <= j < n1 && 0 <= i < 512 ==> (#[trigger] self.lvl1@[j].entries@[i]).0 == if j * 512 + i < n0 {
                table_entry(lvl0_addr(base as int, n1, j * 512 + i) as u64)
            } else {
                0
            }
        &&& forall|t: int, i: int|
            0 <= t < n0 && 0 <= i < 512 ==> (#[trigger] self.lvl0@[t].entries@[i]).0 == if t * 512 + i < pages {
                page_entry(((t * 512 + i) * 4096) as u64)
            } else {
                0
            }
    }
}


/// A table whose entries point to the tables `first`, `first + 1`, ... of an array of
/// `count` tables at `start`, as far as there are any, and are empty after.
fn pointer_table(first: u64, count: u64, start: u64) -> (r: Table)
    requires
        first + 512 <= u64::MAX,
        start + count * 4096 <= u64::MAX,
    ensures
        r.entries@.len() == TABLE_LEN,
        forall|i: int| 0 <= i < 512 ==> (#[trigger] r.entries@[i]).0 == if first + i < count {
            table_entry((start + (first + i) * 4096) as u64)
        } else {
            0
        },
{
    let mut entries: Vec<Entry> = Vec::new();
    let mut i: u64 = 0;
    while i < 512
        invariant
            first + 512 <= u64::MAX,
            start + count * 4096 <= u64::MAX,
            i <= 512,
            entries@.len() == i,
            forall|k: int| 0 <= k < i ==> (#[trigger] entries@[k]).0 == if first + k < count {
                table_entry((start + (first + k) * 4096) as u64)
            } else {
                0
            },
        decreases 512 - i,
    {
        let mut e = Entry(0);
        if first + i < count {
            assert((first + i) * 4096 <= count * 4096) by (nonlinear_arith)
                requires
                    first + i < count,
            ;
            e.set_table(start + (first + i) * 4096);
        } else {
            e.clear();
        }
        entries.push(e);
        i = i + 1;
    }
    Table { entries }
}

/// A leaf table whose entries map the pages `first`, `first + 1`, ... as far as they
/// lie below `pages`, and are empty after.
fn page_table(first: u64, pages: u64) -> (r: Table)
    requires
        first + 512 <= u64::MAX,
        pages * 4096 <= u64::MAX,
    ensures
        r.entries@.len() == TABLE_LEN,
        forall|i: int| 0 <= i < 512 ==> (#[trigger] r.entries@[i]).0 == if first + i < pages {
            page_entry(((first + i) * 4096) as u64)
        } else {
            0
        },
{
    let mut entries: Vec<Entry> = Vec::new();
    let mut i: u64 = 0;
    while i < 512
        invariant
            first + 512 <= u64::MAX,
            pages * 4096 <= u64::MAX,
            i <= 512,
            entries@.len() == i,
            forall|k: int| 0 <= k < i ==> (#[trigger] entries@[k]).0 == if first + k < pages {
                page_entry(((first + k) * 4096) as u64)
            } else {
                0
            },
        decreases 512 - i,
    {
        let mut e = Entry(0);
        if first + i < pages {
            assert((first + i) * 4096 <= pages * 4096) by (nonlinear_arith)
                requires
                    first + i < pages,
            ;
            e.set_addr((first + i) * PAGE_SIZE);
        } else {
            e.clear();
        }
        entries.push(e);
        i = i + 1;
    }
    Table { entries }
}

/// The page tables that identity-map memory up to `mem_end`, laid out at `base`, and
/// the address just past them.
pub fn init(mem_end: u64, base: u64) -> (r: (PageTables, u64))
    requires
        base % 4096 == 0,
        lvl0_addr(
            base as int,
            mid_tables(leaf_tables((mem_end / 4096) as int)),
            leaf_tables((mem_end / 4096) as int),
        ) <= u64::MAX,
    ensures
        r.0.laid_out(mem_end, base),
        r.1 == lvl0_addr(base as int, r.0.lvl1@.len() as int, r.0.lvl0@.len() as int),
{
    let total_pages = mem_end / 4096;
    let lvl1_count = total_pages.saturating_sub(1) / 512 + 1;
    let lvl2_count = lvl1_count.saturating_sub(1) / 512 + 1;
    let ghost n0 = leaf_tables(total_pages as int);
    let ghost n1 = mid_tables(n0);
    assert(lvl1_count == n0);
    assert(lvl2_count == n1);
    assert(n1 <= n0) by (nonlinear_arith)
        requires
            n0 >= 1,
            n1 == (n0 - 1) / 512 + 1,
    ;
    let lvl1_base = base + 4096 * 4096;
    let lvl0_base = lvl1_base + lvl2_count * 4096;
    let root = pointer_table(0, lvl2_count, lvl1_base);
    let mut lvl1: Vec<Table> = Vec::new();
    let mut j: u64 = 0;
    while j < lvl2_count
        invariant
            lvl2_count == n1,
            lvl1_count == n0,
            1 <= n1 <= n0,
            n1 == (n0 - 1) / 512 + 1,
            lvl0_base == lvl0_addr(base as int, n1, 0),
            lvl0_addr(base as int, n1, n0) <= u64::MAX,
            j <= n1,
            lvl1@.len() == j,
            forall|jj: int| 0 <= jj < j ==> (#[trigger] lvl1@[jj]).entries@.len() == TABLE_LEN,
            forall|jj: int, i: int|
                0 <= jj < j && 0 <= i < 512 ==> (#[trigger] lvl1@[jj].entries@[i]).0 == if jj * 512 + i < n0 {
                    table_entry(lvl0_addr(base as int, n1, jj * 512 + i) as u64)
                } else {
                    0
                },
        decreases n1 - j,
    {
        assert(j * 512 + 512 <= n0 + 511) by (nonlinear_arith)
            requires
                j < n1,
                n1 == (n0 - 1) / 512 + 1,
                n0 >= 1,
        ;
        let t = pointer_table(j * 512, lvl1_count, lvl0_base);
        lvl1.push(t);
        proof {
            assert forall|jj: int, i: int| 0 <= jj < j + 1 && 0 <= i < 512 implies (
            #[trigger] lvl1@[jj].entries@[i]).0 == if jj * 512 + i < n0 {
                table_entry(lvl0_addr(base as int, n1, jj * 512 + i) as u64)
            } else {
                0
            } by {
                if jj == j {
                    assert(lvl0_base + (j * 512 + i) * 4096 == lvl0_addr(base as int, n1, jj * 512 + i));
                }
            }
        }
        j = j + 1;
    }
    let mut lvl0: Vec<Table> = Vec::new();
    let mut t: u64 = 0;
    while t < lvl1_count
        invariant
            lvl1_count == n0,
            n0 == leaf_tables(total_pages as int),
            total_pages == mem_end / 4096,
            total_pages * 4096 <= mem_end,
            t <= n0,
            lvl0@.len() == t,
            forall|tt: int| 0 <= tt < t ==> (#[trigger] lvl0@[tt]).entries@.len() == TABLE_LEN,
            forall|tt: int, i: int|
                0 <= tt < t && 0 <= i < 512 ==> (#[trigger] lvl0@[tt].entries@[i]).0 == if tt * 512 + i < total_pages {
                    page_entry(((tt * 512 + i) * 4096) as u64)
                } else {
                    0
                },
        decreases n0 - t,
    {
        assert(t * 512 + 512 <= total_pages + 1023) by (nonlinear_arith)
            requires
                t < n0,
                n0 == leaf_tables(total_pages as int),
        ;
        let table = page_table(t * 512, total_pages);
        lvl0.push(table);
        t = t + 1;
    }
    let end = lvl0_base + lvl1_count * 4096;
    (PageTables { base, root, lvl1, lvl0 }, end)
}


impl PageTables {
    /// The table at `addr`, if one of these lies there.
    fn find_table(&self, addr: u64) -> (r: Option<&Table>)
        requires
            self.wf(),
        ensures
            r matches Some(t) ==> self.table_at(addr as int) == Some(*t),
            r is None <==> self.table_at(addr as int) is None,
    {
        let l1 = self.base + 4096 * 4096;
        let l0 = l1 + self.lvl1.len() as u64 * 4096;
        let end0 = l0 + self.lvl0.len() as u64 * 4096;
        if addr == self.base {
            Some(&self.root)
        } else if l1 <= addr && addr < l0 && (addr - l1) % 4096 == 0 {
            assert((addr - l1) / 4096 < self.lvl1@.len()) by (nonlinear_arith)
                requires
                    addr - l1 < l0 - l1,
                    l0 - l1 == self.lvl1@.len() * 4096,
            ;
            Some(&self.lvl1[((addr - l1) / 4096) as usize])
        } else if l0 <= addr && addr < end0 && (addr - l0) % 4096 == 0 {
            assert((addr - l0) / 4096 < self.lvl0@.len()) by (nonlinear_arith)
                requires
                    addr - l0 < end0 - l0,
                    end0 - l0 == self.lvl0@.len() * 4096,
            ;
            Some(&self.lvl0[((addr - l0) / 4096) as usize])
        } else {
            None
        }
    }
}

/// The physical address that the tables map the virtual address `addr` to: the walk
/// from the root through the entries that bits 30..=38, 21..=29 and 12..=20 of `addr`
/// pick, plus the offset in its low twelve bits; `None` when an entry on the way points
/// where none of the tables lies.
pub fn virt_to_physical(tables: &PageTables, addr: u64) -> (r: Option<u64>)
    requires
        tables.wf(),
    ensures
        r matches Some(p) ==> tables.translate(addr) == Some(p as int),
        r is None <==> tables.translate(addr) is None,
{
    let ppn2 = get_bits(addr, 30, 38);
    let ppn1 = get_bits(addr, 21, 29);
    let ppn0 = get_bits(addr, 12, 20);
    let offset = get_bits(addr, 0, 11);
    assert((((1u64 << 9u64) - 1) as u64) == 0x1ffu64) by (bit_vector);
    assert((((1u64 << 12u64) - 1) as u64) == 0xfffu64) by (bit_vector);
    assert(addr >> 0u64 == addr) by (bit_vector);
    assert(ppn2 < 512 && ppn1 < 512 && ppn0 < 512 && offset < 4096) by (bit_vector)
        requires
            ppn2 == (addr >> 30u64) & 0x1ffu64,
            ppn1 == (addr >> 21u64) & 0x1ffu64,
            ppn0 == (addr >> 12u64) & 0x1ffu64,
            offset == addr & 0xfffu64,
    ;
    let lvl1 = match tables.find_table(tables.root.entries[ppn2 as usize].get_table()) {
        None => {
            return None;
        },
        Some(t) => t,
    };
    let lvl0 = match tables.find_table(lvl1.entries[ppn1 as usize].get_table()) {
        None => {
            return None;
        },
        Some(t) => t,
    };
    let e = lvl0.entries[ppn0 as usize].0;
    let base = lvl0.entries[ppn0 as usize].get_addr();
    assert(base + offset <= u64::MAX) by (bit_vector)
        requires
            base == ((e >> 10u64) & 0xfff_ffff_ffffu64) << 12u64,
            offset < 4096,
    ;
    Some(base + offset)
}

/// The tables that `init` lays out map each address below `mem_end`, as far as Sv39's
/// 39 bits reach, to itself.
pub proof fn lemma_identity_map(tables: PageTables, mem_end: u64, base: u64, addr: u64)
    requires
        tables.laid_out(mem_end, base),
        addr < (mem_end / 4096) * 4096,
        addr < 0x80_0000_0000,
    ensures
        tables.translate(addr) == Some(addr as int),
{
    let pages = (mem_end / 4096) as int;
    let n0 = leaf_tables(pages);
    let n1 = mid_tables(n0);
    let ppn2 = (addr >> 30u64) & 0x1ffu64;
    let ppn1 = (addr >> 21u64) & 0x1ffu64;
    let ppn0 = (addr >> 12u64) & 0x1ffu64;
    let off = addr & 0xfffu64;
    let p = addr >> 12u64;
    assert(p == ppn2 * 262144 + ppn1 * 512 + ppn0 && addr == p * 4096 + off && ppn0 < 512 && ppn1 < 512
        && ppn2 < 512 && off < 4096) by (bit_vector)
        requires
            addr < 0x80_0000_0000,
            ppn2 == (addr >> 30u64) & 0x1ffu64,
            ppn1 == (addr >> 21u64) & 0x1ffu64,
            ppn0 == (addr >> 12u64) & 0x1ffu64,
            off == addr & 0xfffu64,
            p == addr >> 12u64,
    ;
    let t = ppn2 * 512 + ppn1;
    assert(p < pages) by (nonlinear_arith)
        requires
            addr == p * 4096 + off,
            0 <= off < 4096,
            addr < pages * 4096,
    ;
    assert(t < n0) by (nonlinear_arith)
        requires
            p == t * 512 + ppn0,
            0 <= ppn0 < 512,
            0 <= t,
            p < pages,
            n0 == leaf_tables(pages),
    ;
    assert(ppn2 < n1) by (nonlinear_arith)
        requires
            t == ppn2 * 512 + ppn1,
            0 <= ppn1 < 512,
            0 <= ppn2,
            t < n0,
            n1 == (n0 - 1) / 512 + 1,
    ;
    // The root's entry points to the second-level table `ppn2`.
    let a1 = lvl1_addr(base as int, ppn2 as int);
    vstd::arithmetic::div_mod::lemma_fundamental_div_mod(base as int, 4096);
    vstd::arithmetic::div_mod::lemma_mod_multiples_basic(base / 4096 + 4096 + ppn2, 4096);
    assert(a1 == (base / 4096 + 4096 + ppn2) * 4096) by (nonlinear_arith)
        requires
            a1 == base + 4096 * 4096 + ppn2 * 4096,
            base == 4096 * (base / 4096) + base % 4096,
            base % 4096 == 0,
    ;
    assert(a1 <= u64::MAX) by (nonlinear_arith)
        requires
            a1 == base + 4096 * 4096 + ppn2 * 4096,
            ppn2 < n1,
            n0 >= 1,
            lvl0_addr(base as int, n1, n0) <= u64::MAX,
    ;
    assert(tables.root.entries@[ppn2 as int].0 == table_entry(a1 as u64));
    lemma_table_entry(a1 as u64);
    assert((a1 - lvl1_addr(base as int, 0)) / 4096 == ppn2 && (a1 - lvl1_addr(base as int, 0)) % 4096 == 0)
        by (nonlinear_arith)
        requires
            a1 == base + 4096 * 4096 + ppn2 * 4096,
            ppn2 >= 0,
    ;
    assert(tables.table_at(a1) == Some(tables.lvl1@[ppn2 as int]));
    // That table's entry points to the leaf table `t`.
    let a0 = lvl0_addr(base as int, n1, t);
    vstd::arithmetic::div_mod::lemma_mod_multiples_basic(base / 4096 + 4096 + n1 + t, 4096);
    assert(a0 == (base / 4096 + 4096 + n1 + t) * 4096) by (nonlinear_arith)
        requires
            a0 == base + 4096 * 4096 + n1 * 4096 + t * 4096,
            base == 4096 * (base / 4096) + base % 4096,
            base % 4096 == 0,
    ;
    assert(a0 <= u64::MAX) by (nonlinear_arith)
        requires
            a0 == base + 4096 * 4096 + n1 * 4096 + t * 4096,
            t < n0,
            lvl0_addr(base as int, n1, n0) <= u64::MAX,
    ;
    assert(tables.lvl1@[ppn2 as int].entries@[ppn1 as int].0 == table_entry(a0 as u64));
    lemma_table_entry(a0 as u64);
    assert((a0 - lvl0_addr(base as int, n1, 0)) / 4096 == t && (a0 - lvl0_addr(base as int, n1, 0)) % 4096 == 0)
        by (nonlinear_arith)
        requires
            a0 == base + 4096 * 4096 + n1 * 4096 + t * 4096,
            t >= 0,
    ;
    assert(tables.table_at(a0) == Some(tables.lvl0@[t]));
    // And the leaf table's entry maps page `p`.
    assert(p * 4096 < 0x100_0000_0000_0000 && (p * 4096) % 4096 == 0) by (nonlinear_arith)
        requires
            p * 4096 <= addr,
            addr < 0x80_0000_0000,
    ;
    assert(tables.lvl0@[t].entries@[ppn0 as int].0 == page_entry((p * 4096) as u64));
    lemma_page_entry((p * 4096) as u64);
}

} // verus!

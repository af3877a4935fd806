//! Bit fields and big-endian values.
use vstd::prelude::*;

verus! {

/// The bits `low..=high` of `val`, shifted down to bit 0.
pub open spec fn bits_spec(val: u64, low: u64, high: u64) -> int {
    (val as int / vstd::arithmetic::power2::pow2(low as nat) as int) % vstd::arithmetic::power2::pow2(
        (high - low + 1) as nat,
    ) as int
}

proof fn lemma_bits(val: u64, low: u64, high: u64)
    requires
        low <= high < 64,
        high - low < 63,
    ensures
        1u64 << (high - low + 1) as u64 >= 1,
        (val >> low) & (((1u64 << (high - low + 1) as u64) - 1) as u64) == bits_spec(val, low, high),
{
    let w = (high - low + 1) as u64;
    vstd::bits::lemma_u64_shr_is_div(val, low);
    vstd::bits::lemma_u64_pow2_no_overflow(w as nat);
    vstd::bits::lemma_u64_shl_is_mul(1, w);
    vstd::bits::lemma_u64_low_bits_mask_is_mod(val >> low, w as nat);
    vstd::arithmetic::power2::lemma_pow2_pos(w as nat);
    assert(((1u64 << w) - 1) as u64 == vstd::bits::low_bits_mask(w as nat) as u64);
}

/// The bits `low..=high` of `val`, shifted down to bit 0.
pub fn get_bits(val: u64, low: u64, high: u64) -> (r: u64)
    requires
        low <= high < 64,
        high - low < 63,
    ensures
        r == bits_spec(val, low, high),
        r == (val >> low) & (((1u64 << (high - low + 1) as u64) - 1) as u64),
{
    proof {
        lemma_bits(val, low, high);
    }
    (val >> low) & ((1u64 << (high - low + 1)) - 1)
}

/// The value of four bytes in big-endian order.
pub open spec fn be32(b0: u8, b1: u8, b2: u8, b3: u8) -> int {
    b0 * 0x1000000 + b1 * 0x10000 + b2 * 0x100 + b3
}

/// The value of four bytes in little-endian order, the byte order of the kernel's
/// targets (riscv64 and x86_64).
pub open spec fn le32(b0: u8, b1: u8, b2: u8, b3: u8) -> int {
    be32(b3, b2, b1, b0)
}

/// `x` with its four bytes in reverse order.
pub open spec fn swap32(x: u32) -> int {
    be32((x % 0x100) as u8, ((x / 0x100) % 0x100) as u8, ((x / 0x10000) % 0x100) as u8, (x / 0x1000000) as u8)
}

/// `x` with its eight bytes in reverse order.
pub open spec fn swap64(x: u64) -> int {
    swap32((x % 0x100000000) as u32) * 0x100000000 + swap32((x / 0x100000000) as u32)
}

/// A value stored in big-endian byte order; the targets are little-endian, so reading
/// it reverses its bytes.
pub trait BeRep: Sized {
    spec fn from_be_spec(self) -> Self;

    fn _from_be(&self) -> (r: Self)
        ensures
            r == self.from_be_spec(),
    ;
}

fn swap_u32(x: u32) -> (r: u32)
    ensures
        r == swap32(x),
{
    assert(((x & 0xff) << 24u32) | ((x & 0xff00) << 8u32) | ((x >> 8u32) & 0xff00) | (x >> 24u32)
        == (x % 0x100) * 0x1000000 + ((x / 0x100) % 0x100) * 0x10000 + ((x / 0x10000) % 0x100) * 0x100
        + x / 0x1000000) by (bit_vector);
    ((x & 0xff) << 24u32) | ((x & 0xff00) << 8u32) | ((x >> 8u32) & 0xff00) | (x >> 24u32)
}

fn swap_u64(x: u64) -> (r: u64)
    ensures
        r == swap64(x),
{
    let lo = (x & 0xffff_ffff) as u32;
    let hi = (x >> 32u64) as u32;
    assert(x & 0xffff_ffff == x % 0x100000000) by (bit_vector);
    assert(x >> 32u64 == x / 0x100000000) by (bit_vector);
    let a = swap_u32(lo) as u64;
    let b = swap_u32(hi) as u64;
    assert((a << 32u64) | b == a * 0x100000000 + b) by (bit_vector)
        requires
            a < 0x100000000,
            b < 0x100000000,
    ;
    (a << 32u64) | b
}

impl BeRep for u32 {
    open spec fn from_be_spec(self) -> u32 {
        swap32(self) as u32
    }

    fn _from_be(&self) -> (r: u32) {
        swap_u32(*self)
    }
}

impl BeRep for u64 {
    open spec fn from_be_spec(self) -> u64 {
        swap64(self) as u64
    }

    fn _from_be(&self) -> (r: u64) {
        swap_u64(*self)
    }
}

impl BeRep for usize {
    open spec fn from_be_spec(self) -> usize {
        if usize::BITS == 64 {
            swap64(self as u64) as usize
        } else {
            swap32(self as u32) as usize
        }
    }

    fn _from_be(&self) -> (r: usize) {
        if usize::BITS == 64 {
            swap_u64(*self as u64) as usize
        } else {
            swap_u32(*self as u32) as usize
        }
    }
}

/// A value as it lies in big-endian data.
#[derive(Clone, Copy)]
pub struct Be<T: BeRep>(pub T);

impl<T: BeRep + Copy> Be<T> {
    pub fn get(&self) -> (r: T)
        ensures
            r == self.0.from_be_spec(),
    {
        self.0._from_be()
    }
}

/// The first four bytes as a `u32` in the targets' (little-endian) byte order; `None`
/// when there are fewer than four.
pub fn u32_from_bytes(bytes: &[u8]) -> (r: Option<u32>)
    ensures
        bytes@.len() < 4 ==> r.is_none(),
        bytes@.len() >= 4 ==> r == Some(le32(bytes@[0], bytes@[1], bytes@[2], bytes@[3]) as u32),
{
    if bytes.len() < 4 {
        return None;
    }
    let b0 = bytes[0] as u32;
    let b1 = bytes[1] as u32;
    let b2 = bytes[2] as u32;
    let b3 = bytes[3] as u32;
    assert(b0 | (b1 << 8u32) | (b2 << 16u32) | (b3 << 24u32) == b3 * 0x1000000 + b2 * 0x10000 + b1 * 0x100 + b0)
        by (bit_vector)
        requires
            b0 < 256,
            b1 < 256,
            b2 < 256,
            b3 < 256,
    ;
    Some(b0 | (b1 << 8u32) | (b2 << 16u32) | (b3 << 24u32))
}

/// The big-endian value of the four bytes of `s` at `off`.
pub open spec fn be32_at(s: Seq<u8>, off: int) -> int {
    be32(s[off], s[off + 1], s[off + 2], s[off + 3])
}

/// The big-endian value of the four bytes at `off`.
pub fn read_be32(data: &[u8], off: usize) -> (r: u32)
    requires
        off + 4 <= data@.len(),
    ensures
        r == be32_at(data@, off as int),
{
    let b0 = data[off] as u32;
    let b1 = data[off + 1] as u32;
    let b2 = data[off + 2] as u32;
    let b3 = data[off + 3] as u32;
    assert((b0 << 24u32) | (b1 << 16u32) | (b2 << 8u32) | b3 == b0 * 0x1000000 + b1 * 0x10000 + b2 * 0x100 + b3)
        by (bit_vector)
        requires
            b0 < 256,
            b1 < 256,
            b2 < 256,
            b3 < 256,
    ;
    (b0 << 24u32) | (b1 << 16u32) | (b2 << 8u32) | b3
}

/// The big-endian value of the eight bytes of `s` at `off`.
pub open spec fn be64_at(s: Seq<u8>, off: int) -> int {
    be32_at(s, off) * 0x100000000 + be32_at(s, off + 4)
}

pub fn read_be64(data: &[u8], off: usize) -> (r: u64)
    requires
        off + 8 <= data.len(),
    ensures
        r == be64_at(data@, off as int),
{
    let hi = read_be32(data, off) as u64;
    let lo = read_be32(data, off + 4) as u64;
    assert((hi << 32u64) | lo == hi * 0x100000000 + lo) by (bit_vector)
        requires
            hi < 0x100000000,
            lo < 0x100000000,
    ;
    (hi << 32u64) | lo
}


/// The little-endian value of the four bytes of `s` at `off`: what a load of them
/// gives on the targets.
pub open spec fn le32_at(s: Seq<u8>, off: int) -> int {
    le32(s[off], s[off + 1], s[off + 2], s[off + 3])
}

/// The little-endian value of the eight bytes of `s` at `off`.
pub open spec fn le64_at(s: Seq<u8>, off: int) -> int {
    le32_at(s, off) + le32_at(s, off + 4) * 0x100000000
}

/// The four bytes at `off` as the targets load them.
pub fn read_le32(data: &[u8], off: usize) -> (r: u32)
    requires
        off + 4 <= data@.len(),
    ensures
        r == le32_at(data@, off as int),
{
    let b0 = data[off] as u32;
    let b1 = data[off + 1] as u32;
    let b2 = data[off + 2] as u32;
    let b3 = data[off + 3] as u32;
    assert(b0 | (b1 << 8u32) | (b2 << 16u32) | (b3 << 24u32) == b3 * 0x1000000 + b2 * 0x10000 + b1 * 0x100 + b0)
        by (bit_vector)
        requires
            b0 < 256,
            b1 < 256,
            b2 < 256,
            b3 < 256,
    ;
    b0 | (b1 << 8u32) | (b2 << 16u32) | (b3 << 24u32)
}

/// The eight bytes at `off` as the targets load them.
pub fn read_le64(data: &[u8], off: usize) -> (r: u64)
    requires
        off + 8 <= data.len(),
    ensures
        r == le64_at(data@, off as int),
{
    let lo = read_le32(data, off) as u64;
    let hi = read_le32(data, off + 4) as u64;
    assert(lo | (hi << 32u64) == hi * 0x100000000 + lo) by (bit_vector)
        requires
            hi < 0x100000000,
            lo < 0x100000000,
    ;
    lo | (hi << 32u64)
}

/// Reversing the bytes of a little-endian load gives the big-endian value.
pub proof fn lemma_swap_le32(s: Seq<u8>, off: int)
    requires
        0 <= off,
        off + 4 <= s.len(),
    ensures
        0 <= le32_at(s, off) < 0x100000000,
        swap32(le32_at(s, off) as u32) == be32_at(s, off),
{
    let b0 = s[off] as int;
    let b1 = s[off + 1] as int;
    let b2 = s[off + 2] as int;
    let b3 = s[off + 3] as int;
    let x = le32_at(s, off);
    assert(x == b3 * 0x1000000 + b2 * 0x10000 + b1 * 0x100 + b0);
    vstd::arithmetic::div_mod::lemma_fundamental_div_mod_converse(x, 0x100, b3 * 0x10000 + b2 * 0x100 + b1, b0);
    vstd::arithmetic::div_mod::lemma_fundamental_div_mod_converse(
        b3 * 0x10000 + b2 * 0x100 + b1,
        0x100,
        b3 * 0x100 + b2,
        b1,
    );
    vstd::arithmetic::div_mod::lemma_fundamental_div_mod_converse(x, 0x10000, b3 * 0x100 + b2, b1 * 0x100 + b0);
    vstd::arithmetic::div_mod::lemma_fundamental_div_mod_converse(b3 * 0x100 + b2, 0x100, b3, b2);
    vstd::arithmetic::div_mod::lemma_fundamental_div_mod_converse(x, 0x1000000, b3, b2 * 0x10000 + b1 * 0x100 + b0);
}

/// Reversing the bytes of an eight-byte little-endian load gives the big-endian value.
pub proof fn lemma_swap_le64(s: Seq<u8>, off: int)
    requires
        0 <= off,
        off + 8 <= s.len(),
    ensures
        0 <= le64_at(s, off) < 0x10000000000000000,
        swap64(le64_at(s, off) as u64) == be64_at(s, off),
{
    lemma_swap_le32(s, off);
    lemma_swap_le32(s, off + 4);
    let lo = le32_at(s, off);
    let hi = le32_at(s, off + 4);
    let x = le64_at(s, off);
    vstd::arithmetic::div_mod::lemma_fundamental_div_mod_converse(x, 0x100000000, hi, lo);
}

} // verus!

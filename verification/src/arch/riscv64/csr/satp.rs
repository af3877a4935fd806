//! The `satp` register: the address-translation mode, the address-space id and the
//! physical page of the root page table.
use vstd::prelude::*;

verus! {

/// The translation modes of `satp`, one for each value of its top four bits.
#[derive(Clone, Copy, Debug, PartialEq, Eq)]
pub enum Mode {
    Bare,
    Reserved1,
    Reserved2,
    Reserved3,
    Reserved4,
    Reserved5,
    Reserved6,
    Reserved7,
    Sv39,
    Sv48,
    Sv57,
    Sv64,
    Reserved8,
    Reserved9,
    Custom1,
    Custom2,
}

/// The number that encodes a mode.
pub open spec fn mode_code(m: Mode) -> u64 {
    match m {
        Mode::Bare => 0,
        Mode::Reserved1 => 1,
        Mode::Reserved2 => 2,
        Mode::Reserved3 => 3,
        Mode::Reserved4 => 4,
        Mode::Reserved5 => 5,
        Mode::Reserved6 => 6,
        Mode::Reserved7 => 7,
        Mode::Sv39 => 8,
        Mode::Sv48 => 9,
        Mode::Sv57 => 10,
        Mode::Sv64 => 11,
        Mode::Reserved8 => 12,
        Mode::Reserved9 => 13,
        Mode::Custom1 => 14,
        Mode::Custom2 => 15,
    }
}

/// The mode that a four-bit number encodes: the one whose code it is.
pub open spec fn mode_of(v: u64) -> Mode {
    choose|m: Mode| mode_code(m) == v
}

/// No two modes share a code.
pub proof fn lemma_mode_code(m1: Mode, m2: Mode)
    ensures
        mode_code(m1) == mode_code(m2) ==> m1 == m2,
{
}

/// Each number below 16 is the code of a mode, the one that `mode_of` gives.
pub proof fn lemma_mode_of(v: u64)
    requires
        v < 16,
    ensures
        mode_code(mode_of(v)) == v,
{
    let m = if v == 0 {
        Mode::Bare
    } else if v == 1 {
        Mode::Reserved1
    } else if v == 2 {
        Mode::Reserved2
    } else if v == 3 {
        Mode::Reserved3
    } else if v == 4 {
        Mode::Reserved4
    } else if v == 5 {
        Mode::Reserved5
    } else if v == 6 {
        Mode::Reserved6
    } else if v == 7 {
        Mode::Reserved7
    } else if v == 8 {
        Mode::Sv39
    } else if v == 9 {
        Mode::Sv48
    } else if v == 10 {
        Mode::Sv57
    } else if v == 11 {
        Mode::Sv64
    } else if v == 12 {
        Mode::Reserved8
    } else if v == 13 {
        Mode::Reserved9
    } else if v == 14 {
        Mode::Custom1
    } else {
        Mode::Custom2
    };
    assert(mode_code(m) == v);
}

impl Mode {
    /// The mode that a four-bit number encodes.
    pub fn from_bits(v: u64) -> (r: Mode)
        requires
            v < 16,
        ensures
            mode_code(r) == v,
            r == mode_of(v),
    {
        proof {
            lemma_mode_of(v);
        }
        if v == 0 {
            Mode::Bare
        } else if v == 1 {
            Mode::Reserved1
        } else if v == 2 {
            Mode::Reserved2
        } else if v == 3 {
            Mode::Reserved3
        } else if v == 4 {
            Mode::Reserved4
        } else if v == 5 {
            Mode::Reserved5
        } else if v == 6 {
            Mode::Reserved6
        } else if v == 7 {
            Mode::Reserved7
        } else if v == 8 {
            Mode::Sv39
        } else if v == 9 {
            Mode::Sv48
        } else if v == 10 {
            Mode::Sv57
        } else if v == 11 {
            Mode::Sv64
        } else if v == 12 {
            Mode::Reserved8
        } else if v == 13 {
            Mode::Reserved9
        } else if v == 14 {
            Mode::Custom1
        } else {
            Mode::Custom2
        }
    }

    /// The number that encodes the mode.
    pub fn bits(&self) -> (r: u64)
        ensures
            r == mode_code(*self),
            r < 16,
    {
        match self {
            Mode::Bare => 0,
            Mode::Reserved1 => 1,
            Mode::Reserved2 => 2,
            Mode::Reserved3 => 3,
            Mode::Reserved4 => 4,
            Mode::Reserved5 => 5,
            Mode::Reserved6 => 6,
            Mode::Reserved7 => 7,
            Mode::Sv39 => 8,
            Mode::Sv48 => 9,
            Mode::Sv57 => 10,
            Mode::Sv64 => 11,
            Mode::Reserved8 => 12,
            Mode::Reserved9 => 13,
            Mode::Custom1 => 14,
            Mode::Custom2 => 15,
        }
    }
}

/// The fields of `satp`; `ppn` is the root table's physical address.
#[derive(Clone, Copy, Debug, PartialEq, Eq)]
pub struct Satp {
    pub mode: Mode,
    pub asid: u64,
    pub ppn: u64,
}

/// The fields that a value of the register holds: the mode in bits 60..=63, the
/// address-space id in bits 44..=59 and the root table's page number in bits 0..=43.
pub open spec fn satp_of(v: u64) -> Satp {
    Satp {
        mode: mode_of(v >> 60u64),
        asid: (v >> 44u64) & 0xffffu64,
        ppn: (v & 0xfff_ffff_ffffu64) << 12u64,
    }
}

/// The value of the register that holds `s`, as `write` puts it there.
pub open spec fn satp_value(s: Satp) -> u64 {
    (mode_code(s.mode) << 60u64) | (s.asid << 44u64) | (s.ppn >> 12u64)
}

/// The fields that a value of the register holds.
pub fn decode(v: u64) -> (r: Satp)
    ensures
        r == satp_of(v),
{
    let mode = crate::util::bits::get_bits(v, 60, 63);
    let asid = crate::util::bits::get_bits(v, 44, 59);
    let ppn = crate::util::bits::get_bits(v, 0, 43) << 12u64;
    assert((v >> 60u64) & (((1u64 << 4u64) - 1) as u64) == v >> 60u64) by (bit_vector);
    assert((v >> 60u64) < 16) by (bit_vector);
    assert((1u64 << 16u64) - 1 == 0xffffu64) by (bit_vector);
    assert((v >> 0u64) & (((1u64 << 44u64) - 1) as u64) == v & 0xfff_ffff_ffffu64) by (bit_vector);
    Satp { mode: Mode::from_bits(mode), asid, ppn }
}

/// The value that writing `satp` puts in the register.
pub fn encode(satp: &Satp) -> (r: u64)
    ensures
        r == satp_value(*satp),
{
    (satp.mode.bits() << 60u64) | (satp.asid << 44u64) | (satp.ppn >> 12u64)
}

/// Decoding a value and encoding the fields gives the value back.
pub proof fn lemma_encode_decode(v: u64)
    ensures
        satp_value(satp_of(v)) == v,
{
    let m = v >> 60u64;
    assert(m < 16) by (bit_vector)
        requires
            m == v >> 60u64,
    ;
    lemma_mode_of(m);
    assert((m << 60u64) | (((v >> 44u64) & 0xffffu64) << 44u64) | (((v & 0xfff_ffff_ffffu64) << 12u64) >> 12u64) == v)
        by (bit_vector)
        requires
            m == v >> 60u64,
    ;
}

/// Encoding fields and decoding the value gives the fields back, where the
/// address-space id fits its sixteen bits and the root table's address is a page
/// within the 56-bit physical space.
pub proof fn lemma_decode_encode(s: Satp)
    requires
        s.asid < 0x10000,
        s.ppn % 4096 == 0,
        s.ppn < 0x100_0000_0000_0000,
    ensures
        satp_of(satp_value(s)) == s,
{
    let m = mode_code(s.mode);
    let a = s.asid;
    let p = s.ppn;
    assert(m < 16);
    assert(((m << 60u64) | (a << 44u64) | (p >> 12u64)) >> 60u64 == m
        && ((((m << 60u64) | (a << 44u64) | (p >> 12u64)) >> 44u64) & 0xffffu64) == a
        && ((((m << 60u64) | (a << 44u64) | (p >> 12u64)) & 0xfff_ffff_ffffu64) << 12u64) == p)
        by (bit_vector)
        requires
            m < 16,
            a < 0x10000,
            p % 4096 == 0,
            p < 0x100_0000_0000_0000,
    ;
    lemma_mode_of(m);
    lemma_mode_code(mode_of(m), s.mode);
}

} // verus!

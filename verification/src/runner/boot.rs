//! The bootloaders that an x86_64 image can boot with.
use vstd::prelude::*;

verus! {

#[derive(Clone, Copy, Debug, PartialEq, Eq)]
pub enum Bootloader {
    UEFI,
    BIOS,
}

/// The bootloader's name.
pub open spec fn boot_name(b: Bootloader) -> Seq<char> {
    match b {
        Bootloader::UEFI => "UEFI"@,
        Bootloader::BIOS => "BIOS"@,
    }
}

impl Bootloader {
    pub fn to_str(&self) -> (r: &'static str)
        ensures
            r@ == boot_name(*self),
    {
        match self {
            Bootloader::UEFI => "UEFI",
            Bootloader::BIOS => "BIOS",
        }
    }
}

} // verus!

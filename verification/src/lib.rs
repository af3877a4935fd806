use vstd::prelude::*;

pub mod arch;
pub mod dev;
pub mod fdt;
pub mod heap;
pub mod mem;
pub mod runner;
pub mod util;

verus! {
} // verus!

pub mod riscv64;
pub mod x86_64;

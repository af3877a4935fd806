pub mod mcause;
pub mod satp;

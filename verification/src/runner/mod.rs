pub mod boot;
pub mod target;

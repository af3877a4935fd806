pub mod csr;
pub mod paging;

pub mod fdt;

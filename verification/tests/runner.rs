use os::runner::boot::Bootloader;
use os::runner::target::{decimal, image_path, CommandLine, Target};

fn texts(c: &CommandLine) -> Vec<&str> {
    c.args.iter().map(|s| s.as_str()).collect()
}

#[test]
fn bootloader_names() {
    assert_eq!(Bootloader::UEFI.to_str(), "UEFI");
    assert_eq!(Bootloader::BIOS.to_str(), "BIOS");
}

#[test]
fn default_target_is_riscv64() {
    assert_eq!(Target::default(), Target::Riscv64);
}

#[test]
fn paths() {
    let r = Target::Riscv64;
    assert_eq!(r.rust_target(), "riscv64gc-unknown-none-elf");
    assert_eq!(r.target_folder(), "target/riscv64gc-unknown-none-elf/debug");
    assert_eq!(r.binary_path(), "target/riscv64gc-unknown-none-elf/debug/kernel");
    assert_eq!(r.qemu_bin_path(), "target/riscv64gc-unknown-none-elf/debug/kernel");
    let x = Target::X86_64 { bootloader: Bootloader::UEFI };
    assert_eq!(x.rust_target(), "x86_64-unknown-none");
    assert_eq!(x.qemu_bin_path(), "target/x86_64-unknown-none/debug/kernel-uefi.img");
    let b = Target::X86_64 { bootloader: Bootloader::BIOS };
    assert_eq!(b.qemu_bin_path(), "target/x86_64-unknown-none/debug/kernel-bios.img");
}

#[test]
fn qemu_command_lines() {
    let r = Target::Riscv64.qemu("unused");
    assert_eq!(r.program, "qemu-system-riscv64");
    assert_eq!(
        texts(&r),
        vec![
            "-nographic",
            "-semihosting",
            "-cpu",
            "rv64",
            "-machine",
            "virt",
            "-bios",
            "none",
            "-smp",
            "4",
            "-kernel",
            "target/riscv64gc-unknown-none-elf/debug/kernel",
        ]
    );
    let u = Target::X86_64 { bootloader: Bootloader::UEFI }.qemu("/fw/OVMF.fd");
    assert_eq!(u.program, "qemu-system-x86_64");
    assert_eq!(
        texts(&u),
        vec![
            "-bios",
            "/fw/OVMF.fd",
            "-drive",
            "format=raw,file=target/x86_64-unknown-none/debug/kernel-uefi.img",
            "-device",
            "isa-debug-exit,iobase=0xf4,iosize=0x04",
            "-serial",
            "stdio",
        ]
    );
    let b = Target::X86_64 { bootloader: Bootloader::BIOS }.qemu("/fw/OVMF.fd");
    assert_eq!(texts(&b)[0], "-drive");
    assert_eq!(texts(&b).len(), 6);
}

#[test]
fn gdb_command_lines() {
    let r = Target::Riscv64.gdb();
    assert_eq!(r.program, "gdb");
    assert_eq!(texts(&r), vec!["target/riscv64gc-unknown-none-elf/debug/kernel"]);
    let x = Target::X86_64 { bootloader: Bootloader::BIOS }.gdb();
    assert_eq!(x.program, "rust-gdb");
    assert_eq!(
        texts(&x),
        vec!["-ex", "symbol-file target/x86_64-unknown-none/debug/kernel-bios.img -o 0x8000000000"]
    );
}

#[test]
fn decimal_numbers() {
    assert_eq!(decimal(0), "0");
    assert_eq!(decimal(7), "7");
    assert_eq!(decimal(1234), "1234");
    assert_eq!(decimal(65535), "65535");
    assert_eq!(decimal(1000), "1000");
}

#[test]
fn session_without_debugger() {
    let (q, g) = Target::Riscv64.session(None, "");
    assert!(g.is_none());
    let a = texts(&q);
    assert_eq!(&a[a.len() - 4..], &["-d", "guest_errors", "-m", "4G"]);
}

#[test]
fn session_with_debugger_default_port() {
    let (q, g) = Target::Riscv64.session(Some(None), "");
    let a = texts(&q);
    assert_eq!(&a[a.len() - 3..], &["-S", "-gdb", "tcp::1234"]);
    let g = g.unwrap();
    assert_eq!(g.program, "gdb");
    assert_eq!(
        texts(&g),
        vec!["target/riscv64gc-unknown-none-elf/debug/kernel", "-q", "-ex", "target remote :1234"]
    );
}

#[test]
fn session_with_debugger_port() {
    let (q, g) = Target::X86_64 { bootloader: Bootloader::BIOS }.session(Some(Some(4321)), "");
    let a = texts(&q);
    assert_eq!(a[a.len() - 1], "tcp::4321");
    assert_eq!(texts(&g.unwrap())[4], "target remote :4321");
}

#[test]
fn cargo_build_command_line() {
    let c = Target::X86_64 { bootloader: Bootloader::UEFI }.cargo_build();
    assert_eq!(c.program, "cargo");
    assert_eq!(texts(&c), vec!["build", "--package", "kernel", "--target", "x86_64-unknown-none"]);
}

#[test]
fn image_path_names() {
    assert_eq!(image_path("target/x/debug/kernel", "bios"), "target/x/debug/kernel-bios.img");
    assert_eq!(image_path("k", ""), "k-.img");
}

//! The machines the kernel runs on under QEMU, and the paths and command lines that go
//! with each.
use vstd::prelude::*;
use crate::runner::boot::Bootloader;

verus! {

/// What to build for and run on.
#[derive(Clone, Copy, Debug, PartialEq, Eq)]
pub enum Target {
    X86_64 { bootloader: Bootloader },
    Riscv64,
}

impl Default for Target {
    fn default() -> (r: Self)
        ensures
            r == Target::Riscv64,
    {
        Target::Riscv64
    }
}

/// A program to run and its arguments.
pub struct CommandLine {
    pub program: String,
    pub args: Vec<String>,
}

/// The texts of a list of strings.
pub open spec fn texts(v: Seq<String>) -> Seq<Seq<char>> {
    v.map_values(|s: String| s@)
}

/// What `str::to_lowercase` gives for a text: each character replaced by its
/// lowercase mapping.
pub uninterp spec fn lowercase(s: Seq<char>) -> Seq<char>;

/// A character with `A`-`Z` turned into `a`-`z`.
pub open spec fn ascii_lower_char(c: char) -> char {
    if 'A' <= c <= 'Z' {
        ((c as u32) + 32) as char
    } else {
        c
    }
}

/// A text with `A`-`Z` turned into `a`-`z`.
pub open spec fn ascii_lowercase(s: Seq<char>) -> Seq<char> {
    s.map_values(|c: char| ascii_lower_char(c))
}

/// Calls `str::to_lowercase`, whose result for a text in general is named
/// (`lowercase`); for an ASCII text it is the text with `A`-`Z` turned into `a`-`z`, as
/// the Unicode lowercase mapping has it for those characters.
#[verifier::external_body]
fn to_lowercase(s: &str) -> (r: String)
    ensures
        r@ == lowercase(s@),
        (forall|i: int| 0 <= i < s@.len() ==> s@[i] <= '\u{7f}') ==> r@ == ascii_lowercase(s@),
{
    s.to_lowercase()
}

pub open spec fn rust_target_spec(t: Target) -> Seq<char> {
    match t {
        Target::X86_64 { .. } => "x86_64-unknown-none"@,
        Target::Riscv64 => "riscv64gc-unknown-none-elf"@,
    }
}

pub open spec fn target_folder_spec(t: Target) -> Seq<char> {
    "target/"@ + rust_target_spec(t) + "/debug"@
}

pub open spec fn binary_path_spec(t: Target) -> Seq<char> {
    target_folder_spec(t) + "/kernel"@
}

/// The bootloader's name in lowercase, as the disk image's name has it.
pub open spec fn boot_file_name(b: Bootloader) -> Seq<char> {
    match b {
        Bootloader::UEFI => "uefi"@,
        Bootloader::BIOS => "bios"@,
    }
}

/// The disk image next to the kernel binary `binary` for a bootloader named `lowered`.
pub open spec fn image_path_spec(binary: Seq<char>, lowered: Seq<char>) -> Seq<char> {
    binary + "-"@ + lowered + ".img"@
}

/// The file QEMU boots: the kernel itself on riscv64, a disk image next to it on x86_64.
pub open spec fn qemu_bin_path_spec(t: Target) -> Seq<char> {
    match t {
        Target::X86_64 { bootloader } => image_path_spec(binary_path_spec(t), boot_file_name(bootloader)),
        Target::Riscv64 => binary_path_spec(t),
    }
}

/// The disk image next to the kernel binary `binary` for a bootloader whose name in
/// lowercase is `lowered`.
pub fn image_path(binary: &str, lowered: &str) -> (r: String)
    ensures
        r@ == image_path_spec(binary@, lowered@),
{
    let mut s = string_of(binary);
    s.append("-");
    s.append(lowered);
    s.append(".img");
    s
}

/// The QEMU command line for a target; `firmware` is the UEFI firmware's path, used
/// for an x86_64 image that boots with UEFI.
pub open spec fn qemu_spec(t: Target, firmware: Seq<char>) -> (Seq<char>, Seq<Seq<char>>) {
    match t {
        Target::X86_64 { bootloader } => (
            "qemu-system-x86_64"@,
            (if bootloader == Bootloader::UEFI {
                seq!["-bios"@, firmware]
            } else {
                seq![]
            }) + seq![
                "-drive"@,
                "format=raw,file="@ + qemu_bin_path_spec(t),
                "-device"@,
                "isa-debug-exit,iobase=0xf4,iosize=0x04"@,
                "-serial"@,
                "stdio"@,
            ],
        ),
        Target::Riscv64 => (
            "qemu-system-riscv64"@,
            seq![
                "-nographic"@,
                "-semihosting"@,
                "-cpu"@,
                "rv64"@,
                "-machine"@,
                "virt"@,
                "-bios"@,
                "none"@,
                "-smp"@,
                "4"@,
                "-kernel"@,
                qemu_bin_path_spec(t),
            ],
        ),
    }
}

/// The debugger's command line for a target.
pub open spec fn gdb_spec(t: Target) -> (Seq<char>, Seq<Seq<char>>) {
    match t {
        Target::X86_64 { .. } => (
            "rust-gdb"@,
            seq!["-ex"@, "symbol-file "@ + qemu_bin_path_spec(t) + " -o 0x8000000000"@],
        ),
        Target::Riscv64 => ("gdb"@, seq![qemu_bin_path_spec(t)]),
    }
}

fn string_of(s: &str) -> (r: String)
    ensures
        r@ == s@,
{
    String::from_str(s)
}

/// `a`, then `b`, then `c`, as one string.
fn concat3(a: &str, b: &str, c: &str) -> (r: String)
    ensures
        r@ == a@ + b@ + c@,
{
    let mut s = String::from_str(a);
    s.append(b);
    s.append(c);
    s
}

impl Target {
    pub const X86_64_RUST_TARGET: &'static str = "x86_64-unknown-none";

    pub fn rust_target(&self) -> (r: &'static str)
        ensures
            r@ == rust_target_spec(*self),
    {
        match self {
            Target::X86_64 { .. } => Self::X86_64_RUST_TARGET,
            Target::Riscv64 => "riscv64gc-unknown-none-elf",
        }
    }

    pub fn target_folder(&self) -> (r: String)
        ensures
            r@ == target_folder_spec(*self),
    {
        concat3("target/", self.rust_target(), "/debug")
    }

    pub fn binary_path(&self) -> (r: String)
        ensures
            r@ == binary_path_spec(*self),
    {
        let mut s = self.target_folder();
        s.append("/kernel");
        s
    }

    pub fn qemu_bin_path(&self) -> (r: String)
        ensures
            r@ == qemu_bin_path_spec(*self),
    {
        match self {
            Target::X86_64 { bootloader } => {
                let name = bootloader.to_str();
                let lower = to_lowercase(name);
                proof {
                    reveal_strlit("UEFI");
                    reveal_strlit("BIOS");
                    reveal_strlit("uefi");
                    reveal_strlit("bios");
                    assert(lower@ =~= boot_file_name(*bootloader));
                }
                let binary = self.binary_path();
                image_path(binary.as_str(), lower.as_str())
            },
            Target::Riscv64 => self.binary_path(),
        }
    }

    /// The QEMU command line that runs the kernel; `firmware` is the UEFI firmware's
    /// path, used for an x86_64 image that boots with UEFI.
    pub fn qemu(&self, firmware: &str) -> (r: CommandLine)
        ensures
            r.program@ == qemu_spec(*self, firmware@).0,
            texts(r.args@) == qemu_spec(*self, firmware@).1,
    {
        let mut args: Vec<String> = Vec::new();
        match self {
            Target::X86_64 { bootloader } => {
                if let Bootloader::UEFI = bootloader {
                    args.push(string_of("-bios"));
                    args.push(string_of(firmware));
                }
                let path = self.qemu_bin_path();
                args.push(string_of("-drive"));
                let mut drive = string_of("format=raw,file=");
                drive.append(path.as_str());
                args.push(drive);
                args.push(string_of("-device"));
                args.push(string_of("isa-debug-exit,iobase=0xf4,iosize=0x04"));
                args.push(string_of("-serial"));
                args.push(string_of("stdio"));
                proof {
                    assert(texts(args@) =~= qemu_spec(*self, firmware@).1);
                }
                CommandLine { program: string_of("qemu-system-x86_64"), args }
            },
            Target::Riscv64 => {
                args.push(string_of("-nographic"));
                args.push(string_of("-semihosting"));
                args.push(string_of("-cpu"));
                args.push(string_of("rv64"));
                args.push(string_of("-machine"));
                args.push(string_of("virt"));
                args.push(string_of("-bios"));
                args.push(string_of("none"));
                args.push(string_of("-smp"));
                args.push(string_of("4"));
                args.push(string_of("-kernel"));
                args.push(self.qemu_bin_path());
                proof {
                    assert(texts(args@) =~= qemu_spec(*self, firmware@).1);
                }
                CommandLine { program: string_of("qemu-system-riscv64"), args }
            },
        }
    }

    /// The debugger's command line.
    pub fn gdb(&self) -> (r: CommandLine)
        ensures
            r.program@ == gdb_spec(*self).0,
            texts(r.args@) == gdb_spec(*self).1,
    {
        let mut args: Vec<String> = Vec::new();
        match self {
            Target::X86_64 { .. } => {
                let path = self.qemu_bin_path();
                args.push(string_of("-ex"));
                args.push(concat3("symbol-file ", path.as_str(), " -o 0x8000000000"));
                proof {
                    assert(texts(args@) =~= gdb_spec(*self).1);
                }
                CommandLine { program: string_of("rust-gdb"), args }
            },
            Target::Riscv64 => {
                args.push(self.qemu_bin_path());
                proof {
                    assert(texts(args@) =~= gdb_spec(*self).1);
                }
                CommandLine { program: string_of("gdb"), args }
            },
        }
    }
}


/// The digit `d` as a character.
pub open spec fn digit_char(d: int) -> char {
    if d == 0 {
        '0'
    } else if d == 1 {
        '1'
    } else if d == 2 {
        '2'
    } else if d == 3 {
        '3'
    } else if d == 4 {
        '4'
    } else if d == 5 {
        '5'
    } else if d == 6 {
        '6'
    } else if d == 7 {
        '7'
    } else if d == 8 {
        '8'
    } else {
        '9'
    }
}

/// `n` in decimal, without leading zeros.
pub open spec fn decimal_spec(n: nat) -> Seq<char>
    decreases n,
{
    if n < 10 {
        seq![digit_char(n as int)]
    } else {
        decimal_spec(n / 10) + seq![digit_char((n % 10) as int)]
    }
}

fn digit_str(d: u16) -> (r: &'static str)
    requires
        d < 10,
    ensures
        r@ == seq![digit_char(d as int)],
{
    let r = if d == 0 {
        "0"
    } else if d == 1 {
        "1"
    } else if d == 2 {
        "2"
    } else if d == 3 {
        "3"
    } else if d == 4 {
        "4"
    } else if d == 5 {
        "5"
    } else if d == 6 {
        "6"
    } else if d == 7 {
        "7"
    } else if d == 8 {
        "8"
    } else {
        "9"
    };
    proof {
        reveal_strlit("0");
        reveal_strlit("1");
        reveal_strlit("2");
        reveal_strlit("3");
        reveal_strlit("4");
        reveal_strlit("5");
        reveal_strlit("6");
        reveal_strlit("7");
        reveal_strlit("8");
        reveal_strlit("9");
    }
    assert(r@ =~= seq![digit_char(d as int)]);
    r
}

/// `n` in decimal.
pub fn decimal(n: u16) -> (r: String)
    ensures
        r@ == decimal_spec(n as nat),
    decreases n,
{
    if n < 10 {
        string_of(digit_str(n))
    } else {
        let mut s = decimal(n / 10);
        s.append(digit_str(n % 10));
        s
    }
}

/// The QEMU and debugger command lines for a run: QEMU logs guest errors and has 4 GiB
/// of memory; with a debugger (on `port`, 1234 when none is given) QEMU starts stopped
/// and serves it, and the debugger, quiet, connects to it.
pub open spec fn session_spec(t: Target, gdb: Option<Option<u16>>, firmware: Seq<char>) -> (
    (Seq<char>, Seq<Seq<char>>),
    Option<(Seq<char>, Seq<Seq<char>>)>,
) {
    let q = qemu_spec(t, firmware);
    let base = q.1 + seq!["-d"@, "guest_errors"@, "-m"@, "4G"@];
    match gdb {
        None => ((q.0, base), None),
        Some(p) => {
            let port = match p {
                Some(n) => n,
                None => 1234u16,
            };
            let g = gdb_spec(t);
            (
                (q.0, base + seq!["-S"@, "-gdb"@, "tcp::"@ + decimal_spec(port as nat)]),
                Some((g.0, g.1 + seq!["-q"@, "-ex"@, "target remote :"@ + decimal_spec(port as nat)])),
            )
        },
    }
}

impl Target {
    /// The QEMU command line for a run, and the debugger's when `gdb` asks for one.
    pub fn session(&self, gdb: Option<Option<u16>>, firmware: &str) -> (r: (CommandLine, Option<CommandLine>))
        ensures
            r.0.program@ == session_spec(*self, gdb, firmware@).0.0,
            texts(r.0.args@) == session_spec(*self, gdb, firmware@).0.1,
            r.1 is Some <==> gdb is Some,
            r.1 matches Some(g) ==> g.program@ == session_spec(*self, gdb, firmware@).1.unwrap().0 && texts(g.args@)
                == session_spec(*self, gdb, firmware@).1.unwrap().1,
    {
        let mut qemu = self.qemu(firmware);
        let ghost q0 = texts(qemu.args@);
        qemu.args.push(string_of("-d"));
        qemu.args.push(string_of("guest_errors"));
        qemu.args.push(string_of("-m"));
        qemu.args.push(string_of("4G"));
        proof {
            assert(texts(qemu.args@) =~= q0 + seq!["-d"@, "guest_errors"@, "-m"@, "4G"@]);
        }
        match gdb {
            None => (qemu, None),
            Some(p) => {
                let port = match p {
                    Some(n) => n,
                    None => 1234u16,
                };
                let ghost q1 = texts(qemu.args@);
                qemu.args.push(string_of("-S"));
                qemu.args.push(string_of("-gdb"));
                let mut addr = string_of("tcp::");
                let digits = decimal(port);
                addr.append(digits.as_str());
                qemu.args.push(addr);
                proof {
                    assert(texts(qemu.args@) =~= q1 + seq!["-S"@, "-gdb"@, "tcp::"@ + decimal_spec(port as nat)]);
                }
                let mut debugger = self.gdb();
                let ghost g0 = texts(debugger.args@);
                debugger.args.push(string_of("-q"));
                debugger.args.push(string_of("-ex"));
                let mut remote = string_of("target remote :");
                remote.append(digits.as_str());
                debugger.args.push(remote);
                proof {
                    assert(texts(debugger.args@) =~= g0 + seq!["-q"@, "-ex"@, "target remote :"@ + decimal_spec(port as nat)]);
                }
                (qemu, Some(debugger))
            },
        }
    }

    /// The cargo command line that builds the kernel for this target.
    pub fn cargo_build(&self) -> (r: CommandLine)
        ensures
            r.program@ == "cargo"@,
            texts(r.args@) == seq!["build"@, "--package"@, "kernel"@, "--target"@, rust_target_spec(*self)],
    {
        let mut args: Vec<String> = Vec::new();
        args.push(string_of("build"));
        args.push(string_of("--package"));
        args.push(string_of("kernel"));
        args.push(string_of("--target"));
        args.push(string_of(self.rust_target()));
        proof {
            assert(texts(args@) =~= seq!["build"@, "--package"@, "kernel"@, "--target"@, rust_target_spec(*self)]);
        }
        CommandLine { program: string_of("cargo"), args }
    }
}

/// The number that the decimal digits `s` stand for, most significant first, each
/// character `c` standing for its distance from '0'.
pub open spec fn decimal_value(s: Seq<char>) -> int
    decreases s.len(),
{
    if s.len() == 0 {
        0
    } else {
        decimal_value(s.drop_last()) * 10 + (s.last() as int - '0' as int)
    }
}

/// Each digit is the character that many places after '0'.
proof fn lemma_digit_char(d: int)
    requires
        0 <= d < 10,
    ensures
        digit_char(d) as int == '0' as int + d,
{
}

/// The decimal text of `n` is made of the digits '0' to '9', starts with '0' only when it
/// is "0", and reads back as `n`.
pub proof fn lemma_decimal(n: nat)
    ensures
        decimal_spec(n).len() >= 1,
        forall|i: int|
            0 <= i < decimal_spec(n).len() ==> '0' as int <= #[trigger] decimal_spec(n)[i] as int <= '9' as int,
        decimal_spec(n).len() > 1 ==> decimal_spec(n)[0] != '0',
        decimal_value(decimal_spec(n)) == n,
    decreases n,
{
    let s = decimal_spec(n);
    lemma_digit_char((n % 10) as int);
    if n < 10 {
        assert(s.drop_last() =~= Seq::<char>::empty());
        assert(decimal_value(s.drop_last()) == 0);
    } else {
        let t = decimal_spec(n / 10);
        lemma_decimal(n / 10);
        assert(s.drop_last() =~= t);
        assert(s.last() == digit_char((n % 10) as int));
        assert(decimal_value(s) == decimal_value(t) * 10 + (n % 10));
        assert(forall|i: int| 0 <= i < t.len() ==> s[i] == t[i]);
        if n / 10 < 10 {
            assert(t[0] == digit_char((n / 10) as int));
            lemma_digit_char((n / 10) as int);
        } else {
            assert(t.len() == decimal_spec(n / 10 / 10).len() + 1);
        }
    }
}

} // verus!

# os

A small RISC-V / x86_64 hobby kernel and the runner that builds it and starts it
under QEMU, with the kernel's logic written in Verus and proved against its contracts.

## Layout

- `src/` — the verified library.
  - `mem/heap.rs`: the kernel heap, a first-fit allocator over a doubly linked free
    list with boundary tags, modelled word by word; allocation, freeing, the cursors
    over blocks and the free list, and the listing of the heap's blocks.
  - `heap/block.rs`: the header words and free-list links of the first heap, over a
    word-addressed memory.
  - `fdt.rs`: a flattened device tree read from its bytes (find a node, a property,
    list the nodes, the memory layout); `dev/fdt.rs`: the same format walked node by
    node and property by property, and the memory range of the machine.
  - `arch/riscv64/paging.rs`: Sv39 page-table entries, the identity map that start-up
    lays out, and the walk that translates an address; `arch/riscv64/csr/`: the
    `satp` and `mcause` registers' encodings.
  - `arch/x86_64/framebuffer.rs`: pixels in a linear framebuffer.
  - `util/bits.rs`: bit fields and byte order.
  - `runner/`: targets, their paths, and the QEMU, debugger and cargo command lines.
- `tests/` — tests of the library on concrete values.
- `app/` — the runner program (arguments, processes, firmware download, disk images)
  and the kernel's machine side (locks, console, assembly, raw memory, drawing with
  embedded-graphics), all calling into the library.

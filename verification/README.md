# rcore_mm

The core of a small RISC-V (Sv39) teaching kernel, with its behaviour stated
in contracts and proved.

Physical memory is modelled as an array of 4 KiB frames of 64-bit words
(`mm::phys_mem::PhysMem`); everything the kernel does to memory is stated over
that model.

## Layout

- `src/mm`: addresses and page numbers, page-table entries, the free-list
  frame allocator, three-level page tables (`pt_spec` gives their meaning,
  `pgtbl` the operations; `page_table` a variant that maps each table frame
  it takes into itself), user address spaces (`memory_space`), loading an
  ELF image (`elf`), and the kernel's memory set-up (`mm::init`).
- `src/process`: trap frames with access by register name, process control
  blocks and the table of harts.
- `src/task`: the process table and the choice of the next process to run.
- `src/trap`, `src/syscall.rs`, `src/sbi.rs`, `src/console.rs`: what a trap
  or a system call makes the kernel do, and the supervisor calls it issues.
- `src/batch.rs`: stacks and the table of linked-in applications.
- `tests/`: tests on concrete values, run against the compiled library.
- `app/`: the boot path and trap loop; it owns the machine registers, the
  `ecall` into the supervisor, the global tables behind `spin` locks and the
  reading of the user program image.

//! A small Sv39 RISC-V kernel core: address arithmetic, page-table entries,
//! a free-list frame allocator and three-level page tables over a model of
//! physical memory, user address spaces built from ELF images, process and
//! task bookkeeping, trap frames and the trap/syscall dispatch decisions.
use vstd::prelude::*;

pub mod config;
pub mod mm;

pub mod process;
pub mod trap;
pub mod task;
pub mod sbi;
pub mod console;
pub mod syscall;
pub mod batch;

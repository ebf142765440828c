//! The control block of a task: its state and its address space.
use vstd::prelude::*;
use crate::mm::memory_space::MemorySpace;
use crate::process::trapframe::sv39_satp;
use crate::mm::phys_mem::PhysMem;
use crate::mm::kalloc::Kallocator;
use crate::mm::pgtbl::Pgtbl;
use crate::mm::pte_sv39::PTE;
use crate::mm::pt_spec::{path_ok, leaf_pte, table0, lemma_same_slot, lemma_same_slot_walk, lemma_index_bounds};
use crate::mm::address::vpn_index;
use crate::mm::memory_space::{CONTEXT_VPN, frame_of};
use crate::trap::context::TrapContext;

verus! {

#[derive(Clone, Copy, Debug, PartialEq, Eq, Structural)]
pub enum TaskStatus {
    UnInit,
    Ready,
    Running,
    Exit,
}

#[derive(Clone, Copy)]
pub struct TaskControlBlock {
    status: TaskStatus,
    memory_space: MemorySpace,
}

impl TaskControlBlock {
    pub closed spec fn status(self) -> TaskStatus {
        self.status
    }

    pub closed spec fn space(self) -> MemorySpace {
        self.memory_space
    }

    /// A block that holds no task yet.
    pub fn empty_block() -> (r: TaskControlBlock)
        ensures
            r.status() == TaskStatus::UnInit,
            r.space().page_table.root.0 == 0,
            r.space().entry == 0,
    {
        TaskControlBlock { status: TaskStatus::UnInit, memory_space: MemorySpace::default() }
    }

    pub fn new(status: TaskStatus, memory_space: MemorySpace) -> (r: Self)
        ensures
            r.status() == status,
            r.space() == memory_space,
    {
        Self { status, memory_space }
    }

    pub fn set_status(&mut self, status: TaskStatus)
        ensures
            final(self).status() == status,
            final(self).space() == old(self).space(),
    {
        self.status = status;
    }

    /// The satp value that selects the task's table in Sv39 mode.
    pub fn get_satp(&self) -> (r: u64)
        ensures
            r == sv39_satp(self.space().page_table.root.0),
    {
        self.memory_space.get_root_ppn().0 | 0x8000000000000000
    }

    /// Leaves the block as it is: the satp value always follows the table.
    pub fn set_satp(&mut self, satp: u64)
        ensures
            *final(self) == *old(self),
    {
    }

    /// Virtual address of the task's saved context.
    pub fn get_cx_ptr(&self) -> (r: u64)
        ensures
            r == 0xFFFF_FFFF_FFFF_E000u64,
    {
        MemorySpace::context_addr().0
    }

    pub fn get_status(&self) -> (r: TaskStatus)
        ensures
            r == self.status(),
    {
        self.status
    }

    /// The task's saved context: what the frame that its context page maps
    /// holds.
    pub fn get_context(&self, mem: &mut PhysMem, alloc: &mut Kallocator) -> (r: TrapContext)
        requires
            self.space().page_table.inv(*old(mem), *old(alloc)),
            path_ok(*old(mem), self.space().root(), CONTEXT_VPN),
            old(mem).has_page(frame_of(*old(mem), self.space().root(), CONTEXT_VPN)),
        ensures
            *final(mem) == *old(mem),
            *final(alloc) == *old(alloc),
            r.stored_in(*old(mem), frame_of(*old(mem), self.space().root(), CONTEXT_VPN)),
    {
        let ghost root = self.space().root();
        let va = MemorySpace::context_addr();
        proof {
            lemma_same_slot(va.0 / 4096, CONTEXT_VPN);
            lemma_same_slot_walk(*mem, root, va.0 / 4096, CONTEXT_VPN);
            reveal(Pgtbl::inv);
            assert(crate::mm::pt_spec::walk_frames(*mem, root, va.0 / 4096) == 0);
        }
        let pte_pa = self.memory_space.page_table.walk(mem, alloc, va, false);
        let pte = PTE::from_bits(mem.read_word(pte_pa));
        proof {
            lemma_index_bounds(va.0 / 4096);
            let t0 = table0(*mem, root, va.0 / 4096);
            let i0 = vpn_index(va.0 / 4096, 0) as int;
            assert(pte_pa.0 / 4096 == t0 && (pte_pa.0 % 4096) / 8 == i0) by (nonlinear_arith)
                requires
                    pte_pa.0 == t0 * 4096 + i0 * 8,
                    0 <= i0 < 512,
            ;
            assert(pte@ == leaf_pte(*mem, root, CONTEXT_VPN));
        }
        TrapContext::load(mem, pte.ppn())
    }

    pub fn get_memory_space(&mut self) -> (r: &mut MemorySpace)
        ensures
            *r == old(self).space(),
            final(self).space() == *final(r),
            final(self).status() == old(self).status(),
    {
        &mut self.memory_space
    }
}

} // verus!

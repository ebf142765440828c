//! The register context that a trap saves and restores.
use vstd::prelude::*;
use crate::mm::address::PhysPageNum;
use crate::mm::phys_mem::PhysMem;

verus! {

/// Number of 64-bit words of a saved context, in memory order: the 32
/// general registers, then sstatus, sepc, satp, kernel satp, kernel stack
/// pointer and trap handler.
pub const CONTEXT_WORDS: usize = 38;

#[derive(Clone, Copy, Debug, PartialEq, Eq)]
pub struct TrapContext {
    pub general_reg: [u64; 32],
    pub sstatus: u64,
    pub sepc: u64,
    pub satp: u64,
    // Read only
    pub kernel_satp: u64,
    pub kernel_sp: u64,
    pub trap_handler: u64,
}

/// The sstatus value with its previous-privilege bit (SPP, bit 8) set to
/// user mode.
pub open spec fn user_mode_sstatus(sstatus: u64) -> u64 {
    sstatus & !0x100u64
}

/// Setting SPP to user mode clears bit 8 (SPP) of `sstatus` and keeps every
/// other bit, the upper half (UXL, SD) included.
pub proof fn law_user_mode_keeps_other_bits(sstatus: u64)
    ensures
        user_mode_sstatus(sstatus) & 0x100u64 == 0,
        user_mode_sstatus(sstatus) & !0x100u64 == sstatus & !0x100u64,
{
    assert((sstatus & !0x100u64) & 0x100u64 == 0 && (sstatus & !0x100u64) & !0x100u64 == sstatus & !0x100u64)
        by (bit_vector);
}

/// `sstatus` with SPP set to user mode.
pub fn set_spp_user(sstatus: u64) -> (r: u64)
    ensures
        r == user_mode_sstatus(sstatus),
        r & 0x100u64 == 0,
        r & !0x100u64 == sstatus & !0x100u64,
{
    proof {
            crate::config::lemma_bit_constants();
            law_user_mode_keeps_other_bits(sstatus);
        }
    sstatus & !(1u64 << 8u64)
}

impl TrapContext {
    /// Word `i` of the context as it lies in memory.
    pub open spec fn word(self, i: int) -> u64 {
        if 0 <= i < 32 {
            self.general_reg@[i]
        } else if i == 32 {
            self.sstatus
        } else if i == 33 {
            self.sepc
        } else if i == 34 {
            self.satp
        } else if i == 35 {
            self.kernel_satp
        } else if i == 36 {
            self.kernel_sp
        } else {
            self.trap_handler
        }
    }

    /// Frame `p` of `mem` holds this context.
    pub open spec fn stored_in(self, mem: PhysMem, p: int) -> bool {
        forall|i: int| 0 <= i < CONTEXT_WORDS ==> #[trigger] mem.word(p, i) == self.word(i)
    }

    /// Reads the context that the first words of frame `page` hold.
    pub fn load(mem: &PhysMem, page: PhysPageNum) -> (r: Self)
        requires
            mem.wf(),
            mem.has_page(page.0 as int),
        ensures
            r.stored_in(*mem, page.0 as int),
    {
        let mut general_reg: [u64; 32] = [0; 32];
        let mut i: usize = 0;
        while i < 32
            invariant
                mem.wf(),
                mem.has_page(page.0 as int),
                i <= 32,
                forall|j: int| 0 <= j < i ==> #[trigger] general_reg@[j] == mem.word(page.0 as int, j),
            decreases 32 - i,
        {
            general_reg[i] = mem.read_page_word(page, i as u64);
            i = i + 1;
        }
        TrapContext {
            general_reg,
            sstatus: mem.read_page_word(page, 32),
            sepc: mem.read_page_word(page, 33),
            satp: mem.read_page_word(page, 34),
            kernel_satp: mem.read_page_word(page, 35),
            kernel_sp: mem.read_page_word(page, 36),
            trap_handler: mem.read_page_word(page, 37),
        }
    }

    /// Word `i` of the context as it lies in memory.
    pub fn word_at(&self, i: usize) -> (r: u64)
        requires
            i < CONTEXT_WORDS,
        ensures
            r == self.word(i as int),
    {
        if i < 32 {
            self.general_reg[i]
        } else if i == 32 {
            self.sstatus
        } else if i == 33 {
            self.sepc
        } else if i == 34 {
            self.satp
        } else if i == 35 {
            self.kernel_satp
        } else if i == 36 {
            self.kernel_sp
        } else {
            self.trap_handler
        }
    }

    fn set_sp(&mut self, sp: u64)
        ensures
            final(self).general_reg@ == old(self).general_reg@.update(2, sp),
            final(self).sstatus == old(self).sstatus,
            final(self).sepc == old(self).sepc,
            final(self).satp == old(self).satp,
            final(self).kernel_satp == old(self).kernel_satp,
            final(self).kernel_sp == old(self).kernel_sp,
            final(self).trap_handler == old(self).trap_handler,
    {
        self.general_reg[2] = sp;
    }

    /// The context in which an application starts: at `entry` in user mode,
    /// with stack pointer `sp`, every other general register zero, and the
    /// given address spaces, kernel stack and trap handler. `sstatus` is the
    /// current value of the sstatus register.
    pub fn app_init_context(
        entry: u64,
        sp: u64,
        satp: u64,
        kernel_satp: u64,
        kernel_sp: u64,
        trap_handler: u64,
        sstatus: u64,
    ) -> (r: Self)
        ensures
            r.general_reg@[2] == sp,
            forall|i: int| 0 <= i < 32 && i != 2 ==> r.general_reg@[i] == 0,
            r.sstatus == user_mode_sstatus(sstatus),
            r.sepc == entry,
            r.satp == satp,
            r.kernel_satp == kernel_satp,
            r.kernel_sp == kernel_sp,
            r.trap_handler == trap_handler,
    {
        // set CPU privilege to User after trapping back
        let sstatus = set_spp_user(sstatus);
        let mut cx = Self {
            general_reg: [0; 32],
            sstatus,
            sepc: entry,
            satp,
            kernel_satp,
            kernel_sp,
            trap_handler,
        };
        cx.set_sp(sp);
        cx
    }
}

} // verus!

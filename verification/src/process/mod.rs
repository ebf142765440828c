//! Processes: the control block of a user program and the trap frame it
//! enters and leaves the kernel through.
pub mod trapframe;
pub mod cpu;

use vstd::prelude::*;
use crate::mm::address::{PhysAddr, vpn_index};
use crate::mm::pte_sv39::pte_valid;
use crate::mm::phys_mem::{PhysMem, lemma_same_outside_trans, lemma_same_outside_weaken};
use crate::mm::kalloc::Kallocator;
use crate::mm::pgtbl::{Pgtbl, prefix_set};
use crate::mm::pt_spec::{
    tables,
    leaf_pte,
    walk_frames,
    same_slot,
    is_l1,
    l1_table,
    lemma_index_bounds,
};
use crate::mm::pte_sv39::{pte_with_flags, pte_with_ppn};
use crate::mm::memory_space::{MemorySpace, CONTEXT_VPN};
use crate::trap::context::user_mode_sstatus;
pub use trapframe::TrapFrame;
use trapframe::{TRAPFRAME_WORDS, sv39_satp};

verus! {

pub type Pid = usize;

#[derive(Clone, Copy, Debug, PartialEq, Eq, Structural)]
pub enum PcbState {
    UnInit,
    Ready,
    Running,
    Exit,
}

/// Writing frames that hold no table, and handing out free frames, keeps a
/// page table well formed and keeps what it maps.
pub(crate) proof fn lemma_table_frame(
    pt: Pgtbl,
    mem: PhysMem,
    alloc: Kallocator,
    mem2: PhysMem,
    alloc2: Kallocator,
    changed: Set<int>,
)
    requires
        pt.inv(mem, alloc),
        alloc2.wf(mem2),
        mem.same_outside(mem2, changed),
        changed.disjoint(tables(mem, pt.root.0 as int)),
        alloc2.free_set().subset_of(alloc.free_set()),
    ensures
        pt.inv(mem2, alloc2),
        tables(mem2, pt.root.0 as int) == tables(mem, pt.root.0 as int),
        forall|v: u64| #[trigger] leaf_pte(mem2, pt.root.0 as int, v) == leaf_pte(mem, pt.root.0 as int, v),
        forall|v: u64|
            #[trigger] walk_frames(mem2, pt.root.0 as int, v) == walk_frames(mem, pt.root.0 as int, v),
{
    reveal(Pgtbl::inv);
    let root = pt.root.0 as int;
    alloc2.lemma_wf_facts(mem2);
    crate::mm::pt_spec::lemma_frame(mem, mem2, root, changed);
    assert(tables(mem, root).contains(root));
    assert forall|v: u64| #[trigger] walk_frames(mem2, root, v) == walk_frames(mem, root, v) by {
        lemma_index_bounds(v);
        let i = vpn_index(v, 2) as int;
        assert(mem2.word(root, i) == mem.word(root, i));
        if pte_valid(mem.word(root, i)) {
            assert(is_l1(mem, root, l1_table(mem, root, i)));
            assert(tables(mem, root).contains(l1_table(mem, root, i)));
            assert(mem2.word(l1_table(mem, root, i), vpn_index(v, 1) as int) == mem.word(
                l1_table(mem, root, i),
                vpn_index(v, 1) as int,
            ));
        }
    }
}

/// Word `i` of the trap frame of a new process of `space`: user stack
/// pointer 1024, every other general register zero, user mode on return
/// (from the status value `sstatus`), the entry point and table of `space`,
/// the kernel table `kernel_satp`, the top of the kernel stack frame
/// `stack`, and the trap handler.
pub open spec fn initial_frame_word(
    space: MemorySpace,
    sstatus: u64,
    kernel_satp: u64,
    trap_handler: u64,
    stack: u64,
    i: int,
) -> u64 {
    if i == 2 {
        1024
    } else if 0 <= i < 32 {
        0
    } else if i == 32 {
        user_mode_sstatus(sstatus)
    } else if i == 33 {
        space.entry
    } else if i == 34 {
        sv39_satp(space.page_table.root.0)
    } else if i == 35 {
        kernel_satp
    } else if i == 36 {
        (stack * 4096 + 4096) as u64
    } else {
        trap_handler
    }
}

/// What making a process of `space` does to the memory and the allocator:
/// the first free frame holds its initial trap frame and is mapped at the
/// context page, the second one (its kernel stack) is zeroed, and the walk
/// takes the frames it needs after those two.
pub open spec fn pcb_made(
    space: MemorySpace,
    mem0: PhysMem,
    alloc0: Kallocator,
    mem: PhysMem,
    alloc: Kallocator,
    sstatus: u64,
    kernel_satp: u64,
    trap_handler: u64,
) -> bool {
    let f = alloc0.free_list();
    let root = space.root();
    &&& space.page_table.inv(mem, alloc)
    &&& alloc.free_list() == f.skip(2 + walk_frames(mem0, root, CONTEXT_VPN) as int)
    &&& forall|i: int|
        0 <= i < TRAPFRAME_WORDS ==> #[trigger] mem.word(f[0] as int, i) == initial_frame_word(
            space,
            sstatus,
            kernel_satp,
            trap_handler,
            f[1],
            i,
        )
    &&& forall|i: int| TRAPFRAME_WORDS <= i < 512 ==> #[trigger] mem.word(f[0] as int, i) == 0
    &&& mem.page_is_zero(f[1] as int)
    &&& forall|v: u64|
        #[trigger] space.leaf(mem, v) == if same_slot(v, CONTEXT_VPN) {
            pte_with_flags(pte_with_ppn(space.leaf(mem0, CONTEXT_VPN), f[0]), 7)
        } else {
            space.leaf(mem0, v)
        }
    &&& mem0.same_outside(mem, tables(mem, root).insert(f[0] as int).insert(f[1] as int))
}

#[derive(Clone, Copy)]
pub struct Pcb {
    pub pid: Option<Pid>,
    pub state: PcbState,
    /// Physical address of the frame that holds the trap frame.
    pub trapframe: PhysAddr,
    pub memory_space: MemorySpace,
}

impl Pcb {
    /// A process of `memory_space`, not started: its trap frame goes to a
    /// fresh frame, its kernel stack to the next one, and the trap frame is
    /// mapped at the context page of `memory_space`. `sstatus` and
    /// `kernel_satp` are the current values of the status and address
    /// translation registers.
    pub fn new(
        memory_space: MemorySpace,
        mem: &mut PhysMem,
        alloc: &mut Kallocator,
        sstatus: u64,
        kernel_satp: u64,
        trap_handler: u64,
    ) -> (r: Self)
        requires
            memory_space.page_table.inv(*old(mem), *old(alloc)),
            old(alloc).free_list().len() >= 2 + walk_frames(*old(mem), memory_space.root(), CONTEXT_VPN),
            !pte_valid(memory_space.leaf(*old(mem), CONTEXT_VPN)),
        ensures
            r.pid is None,
            r.state == PcbState::UnInit,
            r.memory_space == memory_space,
            r.trapframe.0 == old(alloc).free_list()[0] * 4096,
            pcb_made(memory_space, *old(mem), *old(alloc), *final(mem), *final(alloc), sstatus, kernel_satp, trap_handler),
    {
        let ghost root = memory_space.root();
        let ghost f = alloc.free_list();
        let ghost mem0 = *mem;
        let ghost alloc0 = *alloc;
        let pt = memory_space.page_table;
        proof {
            reveal(Pgtbl::inv);
            alloc0.lemma_wf_facts(mem0);
            assert(alloc0.free_set().contains(f[0] as int));
            assert(alloc0.free_set().contains(f[1] as int));
        }
        let frame = alloc.kalloc(mem);
        let ghost mem1 = *mem;
        let ghost alloc1 = *alloc;
        proof {
            assert(alloc1.free_set().subset_of(alloc0.free_set())) by {
                assert forall|p: int| alloc1.free_set().contains(p) implies alloc0.free_set().contains(p) by {
                    let k = choose|k: int| 0 <= k < alloc1.free_list().len() && alloc1.free_list()[k] == p;
                    assert(alloc0.free_list()[k + 1] == p);
                }
            }
            lemma_table_frame(pt, mem0, alloc0, mem1, alloc1, set![frame.0 as int]);
        }
        // The kernel stack of a process is one page.
        let stack = alloc.kalloc(mem);
        let ghost mem2 = *mem;
        let ghost alloc2 = *alloc;
        proof {
            assert(alloc2.free_set().subset_of(alloc1.free_set())) by {
                assert forall|p: int| alloc2.free_set().contains(p) implies alloc1.free_set().contains(p) by {
                    let k = choose|k: int| 0 <= k < alloc2.free_list().len() && alloc2.free_list()[k] == p;
                    assert(alloc1.free_list()[k + 1] == p);
                }
            }
            assert(alloc1.free_list()[0] == f[1]);
            lemma_table_frame(pt, mem1, alloc1, mem2, alloc2, set![stack.0 as int]);
            mem0.lemma_page_range(f[1] as int);
            mem0.lemma_page_range(f[0] as int);
        }
        let mut tf = TrapFrame::default(trap_handler);
        tf.from_memory_space(memory_space, sstatus, trap_handler);
        tf.kernel_sp = stack.0 * 4096 + 4096;
        // The kernel runs on one table, shared by every process.
        tf.kernel_satp = kernel_satp;
        tf.store(mem, frame);
        let ghost mem3 = *mem;
        proof {
            assert(alloc2.free_list() == f.skip(2));
            assert(!alloc2.free_set().contains(frame.0 as int)) by {
                if alloc2.free_set().contains(frame.0 as int) {
                    let k = choose|k: int| 0 <= k < alloc2.free_list().len() && alloc2.free_list()[k] == frame.0;
                    assert(f[k + 2] == f[0]);
                }
            }
            assert(set![frame.0 as int].disjoint(alloc2.free_set()));
            alloc2.lemma_wf_frame(mem2, mem3, set![frame.0 as int]);
            lemma_table_frame(pt, mem2, alloc2, mem3, alloc2, set![frame.0 as int]);
        }
        let mut pcb = Pcb { pid: None, state: PcbState::UnInit, trapframe: PhysAddr(frame.0 * 4096), memory_space };
        // Map trapframe
        pcb.memory_space.map_trapframe(mem, alloc, pcb.trapframe);
        proof {
            let w = walk_frames(mem0, root, CONTEXT_VPN) as int;
            assert(!prefix_set(alloc2.free_list(), w).contains(f[0] as int)) by {
                if prefix_set(alloc2.free_list(), w).contains(f[0] as int) {
                    let q = choose|q: int| 0 <= q < w && alloc2.free_list()[q] == f[0];
                    assert(f[q + 2] == f[0]);
                }
            }
            assert(!prefix_set(alloc2.free_list(), w).contains(f[1] as int)) by {
                if prefix_set(alloc2.free_list(), w).contains(f[1] as int) {
                    let q = choose|q: int| 0 <= q < w && alloc2.free_list()[q] == f[1];
                    assert(f[q + 2] == f[1]);
                }
            }
            assert(alloc2.free_list().skip(w) =~= f.skip(2 + w));
            let t = tables(*mem, root);
            let big = t.insert(f[0] as int).insert(f[1] as int);
            lemma_same_outside_weaken(mem0, mem1, set![f[0] as int], big);
            lemma_same_outside_weaken(mem1, mem2, set![f[1] as int], big);
            lemma_same_outside_weaken(mem2, mem3, set![f[0] as int], big);
            lemma_same_outside_weaken(mem3, *mem, t, big);
            lemma_same_outside_trans(mem0, mem1, mem2, big, big);
            lemma_same_outside_trans(mem0, mem2, mem3, big.union(big), big);
            lemma_same_outside_trans(mem0, mem3, *mem, big.union(big).union(big), big);
            assert(big.union(big).union(big).union(big) =~= big);
            assert forall|i: int| 0 <= i < 512 implies #[trigger] mem.word(f[0] as int, i) == mem3.word(f[0] as int, i) by {}
            assert forall|i: int| 0 <= i < 512 implies #[trigger] mem.word(f[1] as int, i) == mem3.word(f[1] as int, i) by {}
            assert forall|i: int| 0 <= i < TRAPFRAME_WORDS implies #[trigger] mem.word(f[0] as int, i)
                == initial_frame_word(memory_space, sstatus, kernel_satp, trap_handler, f[1], i) by {
                assert(tf.stored_in(mem3, f[0] as int));
                assert(mem3.word(f[0] as int, i) == tf.word(i));
            }
        }
        pcb
    }

    pub fn state(&self) -> (r: PcbState)
        ensures
            r == self.state,
    {
        self.state
    }

    /// Moves to `state` and returns the state before.
    pub fn set_state(&mut self, state: PcbState) -> (r: PcbState)
        ensures
            r == old(self).state,
            final(self).state == state,
            final(self).pid == old(self).pid,
            final(self).trapframe == old(self).trapframe,
            final(self).memory_space == old(self).memory_space,
    {
        let old_state = self.state;
        self.state = state;
        old_state
    }

    /// Physical address of the trap frame.
    pub fn trapframe(&self) -> (r: PhysAddr)
        ensures
            r == self.trapframe,
    {
        self.trapframe
    }

    pub fn exit(&mut self)
        ensures
            final(self).state == PcbState::Exit,
            final(self).pid == old(self).pid,
            final(self).trapframe == old(self).trapframe,
            final(self).memory_space == old(self).memory_space,
    {
        // The frames of the process stay allocated.
        self.state = PcbState::Exit;
    }
}

} // verus!

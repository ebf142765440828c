//! The table of processes and the choice of the next one to run.
pub mod tasks;

use vstd::prelude::*;
use crate::config::APP_NUM;
use crate::mm::phys_mem::PhysMem;
use crate::mm::address::PhysPageNum;
use crate::mm::kalloc::Kallocator;
use crate::mm::pte_sv39::pte_valid;
use crate::mm::pt_spec::walk_frames;
use crate::mm::memory_space::{MemorySpace, CONTEXT_VPN};
use crate::process::{Pcb, PcbState, Pid, pcb_made};
use crate::process::cpu::{Cpu, current_hart, current_hart_set_pid, find_hart, first_hart};

verus! {

/// Index of the first free slot of `pcbs` (meaningful where there is one).
pub open spec fn first_free(pcbs: Seq<Option<Pcb>>) -> int {
    choose|i: int|
        0 <= i < pcbs.len() && pcbs[i] is None && forall|j: int| 0 <= j < i ==> #[trigger] pcbs[j] is Some
}

/// The slot holds a process that is ready to run.
pub open spec fn is_ready(slot: Option<Pcb>) -> bool {
    match slot {
        Some(p) => p.state == PcbState::Ready,
        None => false,
    }
}

/// Index of the first ready process of `pcbs` (meaningful where there is
/// one).
pub open spec fn first_ready(pcbs: Seq<Option<Pcb>>) -> int {
    choose|i: int|
        0 <= i < pcbs.len() && is_ready(pcbs[i]) && forall|j: int| 0 <= j < i ==> !is_ready(#[trigger] pcbs[j])
}

pub struct TaskManagerInner {
    pcbs: Vec<Option<Pcb>>,
}

impl TaskManagerInner {
    /// The slots of the table: slot `i` holds the process with id `i`.
    pub closed spec fn slots(self) -> Seq<Option<Pcb>> {
        self.pcbs@
    }

    /// The table has one slot per application, and each process sits in the
    /// slot of its id.
    pub open spec fn wf(self) -> bool {
        &&& self.slots().len() == APP_NUM
        &&& forall|i: int|
            0 <= i < self.slots().len() ==> (#[trigger] self.slots()[i] matches Some(p) ==> p.pid == Some(
                i as usize,
            ))
    }

    /// A table with every slot free.
    pub fn new() -> (r: Self)
        ensures
            r.wf(),
            forall|i: int| 0 <= i < APP_NUM ==> #[trigger] r.slots()[i] is None,
    {
        let mut pcbs: Vec<Option<Pcb>> = Vec::new();
        let mut i: usize = 0;
        while i < APP_NUM
            invariant
                i <= APP_NUM,
                pcbs@.len() == i,
                forall|j: int| 0 <= j < i ==> #[trigger] pcbs@[j] is None,
            decreases APP_NUM - i,
        {
            pcbs.push(None);
            i = i + 1;
        }
        TaskManagerInner { pcbs }
    }

    /// Makes a process of `memory_space`, ready to run, and puts it in the
    /// first free slot, whose index becomes its id. With no free slot the
    /// table stays as it is (the process is still made).
    pub fn load_pcb(
        &mut self,
        memory_space: MemorySpace,
        mem: &mut PhysMem,
        alloc: &mut Kallocator,
        sstatus: u64,
        kernel_satp: u64,
        trap_handler: u64,
    )
        requires
            old(self).wf(),
            memory_space.page_table.inv(*old(mem), *old(alloc)),
            old(alloc).free_list().len() >= 2 + walk_frames(*old(mem), memory_space.root(), CONTEXT_VPN),
            !pte_valid(memory_space.leaf(*old(mem), CONTEXT_VPN)),
        ensures
            final(self).wf(),
            pcb_made(memory_space, *old(mem), *old(alloc), *final(mem), *final(alloc), sstatus, kernel_satp, trap_handler),
            (exists|i: int| 0 <= i < old(self).slots().len() && old(self).slots()[i] is None) ==> final(self).slots()
                == old(self).slots().update(
                first_free(old(self).slots()),
                Some(
                    Pcb {
                        pid: Some(first_free(old(self).slots()) as usize),
                        state: PcbState::Ready,
                        trapframe: crate::mm::address::PhysAddr((old(alloc).free_list()[0] * 4096) as u64),
                        memory_space,
                    },
                ),
            ),
            !(exists|i: int| 0 <= i < old(self).slots().len() && old(self).slots()[i] is None) ==> final(self).slots()
                == old(self).slots(),
    {
        // With every slot taken the new process is dropped.
        let mut pcb = Pcb::new(memory_space, mem, alloc, sstatus, kernel_satp, trap_handler);
        pcb.set_state(PcbState::Ready);
        let mut i: usize = 0;
        while i < self.pcbs.len()
            invariant
                i <= self.pcbs@.len(),
                self.pcbs@ == old(self).pcbs@,
                old(self).wf(),
                forall|j: int| 0 <= j < i ==> #[trigger] self.pcbs@[j] is Some,
                pcb_made(memory_space, *old(mem), *old(alloc), *mem, *alloc, sstatus, kernel_satp, trap_handler),
                pcb.state == PcbState::Ready,
                pcb.memory_space == memory_space,
                pcb.trapframe.0 == old(alloc).free_list()[0] * 4096,
            decreases self.pcbs@.len() - i,
        {
            if self.pcbs[i].is_none() {
                pcb.pid = Some(i);
                proof {
                    let c = first_free(old(self).slots());
                    assert(0 <= i < self.pcbs@.len() && self.pcbs@[i as int] is None && forall|j: int|
                        0 <= j < i ==> #[trigger] self.pcbs@[j] is Some);
                    if c < i {
                        assert(self.pcbs@[c] is Some);
                    } else if c > i {
                        assert(self.pcbs@[i as int] is Some);
                    }
                }
                self.pcbs.set(i, Some(pcb));
                proof {
                    assert forall|j: int| 0 <= j < self.slots().len() implies (#[trigger] self.slots()[j] matches Some(
                        p,
                    ) ==> p.pid == Some(j as usize)) by {
                        if j != i {
                            assert(self.slots()[j] == old(self).slots()[j]);
                        }
                    }
                }
                return;
            }
            i = i + 1;
        }
    }

    /// The process with id `pid`.
    pub fn get_pcb(&self, pid: Pid) -> (r: &Pcb)
        requires
            pid < self.slots().len(),
            self.slots()[pid as int] is Some,
        ensures
            Some(*r) == self.slots()[pid as int],
    {
        match &self.pcbs[pid] {
            Some(p) => p,
            None => {
                proof {
                    assert(false);
                }
                &self.pcbs[0].as_ref().unwrap()
            },
        }
    }

    /// The process that the hart `hartid` runs.
    pub fn current_pcb(&self, harts: &Vec<Cpu>, hartid: u64) -> (r: &Pcb)
        requires
            exists|i: int| 0 <= i < harts@.len() && harts@[i].hartid == hartid,
            harts@[first_hart(harts@, hartid)].pid is Some,
            harts@[first_hart(harts@, hartid)].pid->0 < self.slots().len(),
            self.slots()[harts@[first_hart(harts@, hartid)].pid->0 as int] is Some,
        ensures
            Some(*r) == self.slots()[harts@[first_hart(harts@, hartid)].pid->0 as int],
    {
        let cpu = current_hart(harts, hartid);
        self.get_pcb(cpu.pid.unwrap())
    }

    /// Whether the hart `hartid` is registered and runs a process of the
    /// table (see `runs_process`).
    pub fn has_current(&self, harts: &Vec<Cpu>, hartid: u64) -> (r: bool)
        ensures
            r == self.runs_process(harts@, hartid),
    {
        match find_hart(harts, hartid) {
            None => false,
            Some(cpu) => match cpu.pid {
                None => false,
                Some(pid) => pid < self.pcbs.len() && self.pcbs[pid].is_some(),
            },
        }
    }

    /// Whether the satp slot of the trap frame of every ready process lies
    /// in `mem`, as `schedule_pcb` reads it.
    pub fn ready_frames_in(&self, mem: &PhysMem) -> (r: bool)
        requires
            mem.wf(),
        ensures
            r == forall|i: int|
                0 <= i < self.slots().len() && #[trigger] is_ready(self.slots()[i]) ==> mem.has_addr(
                    satp_slot(self.slots()[i]->0.trapframe.0),
                ),
    {
        let mut i: usize = 0;
        while i < self.pcbs.len()
            invariant
                i <= self.slots().len(),
                mem.wf(),
                forall|j: int|
                    0 <= j < i && #[trigger] is_ready(self.slots()[j]) ==> mem.has_addr(
                        satp_slot(self.slots()[j]->0.trapframe.0),
                    ),
            decreases self.slots().len() - i,
        {
            match &self.pcbs[i] {
                Some(p) => {
                    if p.state == PcbState::Ready {
                        let tf = p.trapframe.0;
                        if tf > u64::MAX - 8 * 34 || !mem.contains_page(PhysPageNum((tf + 8 * 34) / 4096)) {
                            proof {
                                assert(is_ready(self.slots()[i as int]));
                                let a = satp_slot(tf);
                                if mem.has_addr(a) {
                                    mem.lemma_page_range(a / 4096);
                                }
                            }
                            return false;
                        }
                    }
                },
                None => {},
            }
            i = i + 1;
        }
        true
    }

    /// Index of the process that the hart `hartid` runs.
    pub open spec fn current_pid(harts: Seq<Cpu>, hartid: u64) -> int {
        harts[first_hart(harts, hartid)].pid->0 as int
    }

    /// The hart `hartid` is registered and runs a process of the table.
    pub open spec fn runs_process(self, harts: Seq<Cpu>, hartid: u64) -> bool {
        &&& exists|i: int| 0 <= i < harts.len() && harts[i].hartid == hartid
        &&& harts[first_hart(harts, hartid)].pid is Some
        &&& Self::current_pid(harts, hartid) < self.slots().len()
        &&& self.slots()[Self::current_pid(harts, hartid)] is Some
    }

    /// Moves the process that the hart `hartid` runs to `state`.
    fn set_current_state(&mut self, harts: &Vec<Cpu>, hartid: u64, state: PcbState)
        requires
            old(self).wf(),
            old(self).runs_process(harts@, hartid),
        ensures
            final(self).wf(),
            final(self).slots() == old(self).slots().update(
                Self::current_pid(harts@, hartid),
                Some(Pcb { state, ..old(self).slots()[Self::current_pid(harts@, hartid)]->0 }),
            ),
    {
        let cpu = current_hart(harts, hartid);
        let pid = cpu.pid.unwrap();
        let mut pcb = *self.get_pcb(pid);
        pcb.set_state(state);
        self.pcbs.set(pid, Some(pcb));
        proof {
            assert forall|j: int| 0 <= j < self.slots().len() implies (#[trigger] self.slots()[j] matches Some(
                q,
            ) ==> q.pid == Some(j as usize)) by {
                if j != pid {
                    assert(self.slots()[j] == old(self).slots()[j]);
                }
            }
        }
    }

    /// Ends the process that the hart `hartid` runs.
    pub fn exit_current_task(&mut self, harts: &Vec<Cpu>, hartid: u64)
        requires
            old(self).wf(),
            old(self).runs_process(harts@, hartid),
        ensures
            final(self).wf(),
            final(self).slots() == old(self).slots().update(
                Self::current_pid(harts@, hartid),
                Some(Pcb { state: PcbState::Exit, ..old(self).slots()[Self::current_pid(harts@, hartid)]->0 }),
            ),
    {
        self.set_current_state(harts, hartid, PcbState::Exit);
    }

    /// Puts the process that the hart `hartid` runs back among the ready
    /// ones.
    pub fn set_current_task_ready(&mut self, harts: &Vec<Cpu>, hartid: u64)
        requires
            old(self).wf(),
            old(self).runs_process(harts@, hartid),
        ensures
            final(self).wf(),
            final(self).slots() == old(self).slots().update(
                Self::current_pid(harts@, hartid),
                Some(Pcb { state: PcbState::Ready, ..old(self).slots()[Self::current_pid(harts@, hartid)]->0 }),
            ),
    {
        self.set_current_state(harts, hartid, PcbState::Ready);
    }
}

/// Address of the saved satp of the trap frame at `tf`.
pub open spec fn satp_slot(tf: u64) -> int {
    tf + 8 * 34
}

/// Picks the first ready process: marks it running, records it as the
/// process of the hart `hartid`, and returns the satp value saved in its
/// trap frame, with which it is resumed. `None` when no process is ready.
pub fn schedule_pcb(tm: &mut TaskManagerInner, harts: &mut Vec<Cpu>, hartid: u64, mem: &PhysMem) -> (r: Option<u64>)
    requires
        old(tm).wf(),
        mem.wf(),
        forall|i: int|
            0 <= i < old(tm).slots().len() && #[trigger] is_ready(old(tm).slots()[i]) ==> mem.has_addr(
                satp_slot(old(tm).slots()[i]->0.trapframe.0),
            ),
    ensures
        final(tm).wf(),
        (exists|i: int| 0 <= i < old(tm).slots().len() && is_ready(old(tm).slots()[i])) ==> ({
            let i = first_ready(old(tm).slots());
            let p = old(tm).slots()[i]->0;
            &&& 0 <= i < old(tm).slots().len()
            &&& final(tm).slots() == old(tm).slots().update(i, Some(Pcb { state: PcbState::Running, ..p }))
            &&& final(harts)@.len() == old(harts)@.len()
            &&& forall|k: int|
                0 <= k < old(harts)@.len() ==> #[trigger] final(harts)@[k] == if old(harts)@[k].hartid == hartid {
                    Cpu { hartid, pid: Some(i as usize) }
                } else {
                    old(harts)@[k]
                }
            &&& r == Some(mem.word_at(satp_slot(p.trapframe.0)))
        }),
        !(exists|i: int| 0 <= i < old(tm).slots().len() && is_ready(old(tm).slots()[i])) ==> {
            &&& r is None
            &&& *final(tm) == *old(tm)
            &&& *final(harts) == *old(harts)
        },
{
    let mut i: usize = 0;
    while i < tm.pcbs.len()
        invariant
            i <= tm.pcbs@.len(),
            *tm == *old(tm),
            *harts == *old(harts),
            old(tm).wf(),
            mem.wf(),
            forall|j: int| 0 <= j < i ==> !is_ready(#[trigger] tm.pcbs@[j]),
            forall|i: int|
                0 <= i < old(tm).slots().len() && #[trigger] is_ready(old(tm).slots()[i]) ==> mem.has_addr(
                    satp_slot(old(tm).slots()[i]->0.trapframe.0),
                ),
        decreases tm.pcbs@.len() - i,
    {
        if let Some(p) = tm.pcbs[i] {
            if p.state == PcbState::Ready {
                let mut pcb = p;
                pcb.set_state(PcbState::Running);
                proof {
                    assert(is_ready(tm.pcbs@[i as int]));
                    let c = first_ready(old(tm).slots());
                    assert(0 <= i < tm.pcbs@.len() && is_ready(tm.pcbs@[i as int]) && forall|j: int|
                        0 <= j < i ==> !is_ready(#[trigger] tm.pcbs@[j]));
                    if c < i {
                        assert(!is_ready(tm.pcbs@[c]));
                    } else if c > i {
                        assert(!is_ready(tm.pcbs@[i as int]));
                    }
                    assert(mem.has_addr(satp_slot(p.trapframe.0)));
                    mem.lemma_page_range(satp_slot(p.trapframe.0) / 4096);
                }
                current_hart_set_pid(harts, hartid, pcb.pid.unwrap());
                let satp = mem.read_word(crate::mm::address::PhysAddr(pcb.trapframe.0 + 8 * 34));
                tm.pcbs.set(i, Some(pcb));
                proof {
                    assert forall|j: int| 0 <= j < tm.slots().len() implies (#[trigger] tm.slots()[j] matches Some(
                        q,
                    ) ==> q.pid == Some(j as usize)) by {
                        if j != i {
                            assert(tm.slots()[j] == old(tm).slots()[j]);
                        }
                    }
                }
                return Some(satp);
            }
        }
        i = i + 1;
    }
    None
}

} // verus!

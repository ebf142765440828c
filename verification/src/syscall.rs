//! System calls: which call a number selects, and what the calls do to the
//! process table and to the caller's memory.
use vstd::prelude::*;
use crate::mm::phys_mem::PhysMem;
use crate::mm::kalloc::Kallocator;
use crate::mm::address::VirtualAddr;
use crate::mm::pt_spec::{path_ok, lemma_index_bounds, root_entry_ok};
use crate::mm::pgtbl::Pgtbl;
use crate::mm::address::{PhysPageNum, VirtualPageNum, vpn_index};
use crate::mm::pte_sv39::PTE;
use crate::mm::memory_space::{MemorySpace, frame_of, phys_of};
use crate::process::cpu::Cpu;
use crate::process::{Pcb, PcbState};
use crate::task::TaskManagerInner;
use crate::sbi::{SbiCall, PUT_CHAR, is_call};
use crate::console::print;
use vstd::utf8::{valid_utf8, decode_utf8};
use vstd::string::StringSliceAdditionalSpecFns;

verus! {

pub const SYS_WRITE: u64 = 64;
pub const SYS_EXIT: u64 = 93;
pub const SYS_YIELD: u64 = 124;

/// The file descriptor of the console.
pub const FD_STDOUT: u64 = 1;

/// A system call with its arguments.
#[derive(Clone, Copy, Debug, PartialEq, Eq, Structural)]
pub enum Syscall {
    /// Write `len` bytes from the user address `buf` to the file `fd`.
    Write { fd: u64, buf: u64, len: u64 },
    /// End the calling process with exit code `code`.
    Exit { code: u64 },
    /// Give the processor to another process; `frame` is the address of the
    /// caller's trap frame.
    Yield { frame: u64 },
}

/// The call that number `id` selects with the arguments `a0`, `a1`, `a2`;
/// `None` for a number that names no call.
pub open spec fn syscall_of(id: u64, a0: u64, a1: u64, a2: u64) -> Option<Syscall> {
    if id == SYS_WRITE {
        Some(Syscall::Write { fd: a0, buf: a1, len: a2 })
    } else if id == SYS_EXIT {
        Some(Syscall::Exit { code: a0 })
    } else if id == SYS_YIELD {
        Some(Syscall::Yield { frame: a0 })
    } else {
        None
    }
}

/// The call that number `id` selects, with the arguments `param`.
pub fn syscall(id: u64, param: [u64; 3]) -> (r: Option<Syscall>)
    ensures
        r == syscall_of(id, param@[0], param@[1], param@[2]),
{
    if id == SYS_WRITE {
        Some(Syscall::Write { fd: param[0], buf: param[1], len: param[2] })
    } else if id == SYS_EXIT {
        Some(Syscall::Exit { code: param[0] })
    } else if id == SYS_YIELD {
        Some(Syscall::Yield { frame: param[0] })
    } else {
        None
    }
}

/// The `len` bytes from the user address `buf` of `space` can be read as
/// `sys_write` reads them: the walk of the page of `buf` reaches a leaf
/// table, its frame is in memory, and so are the `len` bytes from the
/// physical address of `buf`.
pub open spec fn user_bytes_readable(space: MemorySpace, mem: PhysMem, buf: u64, len: int) -> bool {
    &&& path_ok(mem, space.root(), buf / 4096)
    &&& mem.has_page(frame_of(mem, space.root(), buf / 4096))
    &&& forall|k: int| 0 <= k < len ==> #[trigger] mem.has_addr(phys_of(mem, space.root(), buf) + k)
}

/// Whether the `len` bytes from the user address `buf` of `space` can be
/// read (see `user_bytes_readable`).
pub fn user_buffer_readable(space: &MemorySpace, mem: &PhysMem, alloc: &Kallocator, buf: u64, len: usize) -> (r: bool)
    requires
        space.page_table.inv(*mem, *alloc),
    ensures
        r == user_bytes_readable(*space, *mem, buf, len as int),
{
    let ghost root = space.root();
    let vpn = VirtualPageNum(buf / 4096);
    proof {
        reveal(Pgtbl::inv);
        lemma_index_bounds(vpn.0);
    }
    let root_page = space.page_table.root;
    let e2 = PTE::from_bits(mem.read_page_word(root_page, vpn.vpn_block_sv39(2)));
    if !e2.is_valid() {
        return false;
    }
    proof {
        assert(root_entry_ok(*mem, root, vpn_index(vpn.0, 2) as int));
    }
    let e1 = PTE::from_bits(mem.read_page_word(e2.ppn(), vpn.vpn_block_sv39(1)));
    if !e1.is_valid() {
        return false;
    }
    proof {
        assert(crate::mm::pt_spec::l1_entry_ok(*mem, root, vpn_index(vpn.0, 2) as int, vpn_index(vpn.0, 1) as int));
    }
    let e0 = PTE::from_bits(mem.read_page_word(e1.ppn(), vpn.vpn_block_sv39(0)));
    let frame = e0.ppn();
    proof {
        assert(path_ok(*mem, root, vpn.0));
        assert(e0@ == crate::mm::pt_spec::leaf_pte(*mem, root, vpn.0));
        assert(frame.0 == frame_of(*mem, root, buf / 4096));
    }
    if !mem.contains_page(frame) {
        return false;
    }
    if len == 0 {
        return true;
    }
    proof {
        mem.lemma_page_range(frame.0 as int);
    }
    let first = frame.0 * 4096 + buf % 4096;
    assert(first == phys_of(*mem, root, buf));
    if first > u64::MAX - (len as u64 - 1) {
        proof {
            if mem.has_addr(phys_of(*mem, root, buf) + (len - 1)) {
                mem.lemma_page_range((phys_of(*mem, root, buf) + (len - 1)) / 4096);
            }
        }
        return false;
    }
    let last = first + (len as u64 - 1);
    let ok = mem.contains_page(PhysPageNum(last / 4096));
    proof {
        if ok {
            assert forall|k: int| 0 <= k < len implies #[trigger] mem.has_addr(phys_of(*mem, root, buf) + k) by {
                assert(first / 4096 <= (first + k) / 4096 <= last / 4096) by (nonlinear_arith)
                    requires
                        0 <= k < len,
                        last == first + len - 1,
                ;
            }
        } else {
            assert(!mem.has_addr(phys_of(*mem, root, buf) + (len - 1)));
        }
    }
    ok
}

/// The `len` bytes from the user address `buf` of `space` in `mem`.
pub open spec fn user_bytes(space: MemorySpace, mem: PhysMem, buf: u64, len: int) -> Seq<u8> {
    Seq::new(len as nat, |k: int| mem.byte(phys_of(mem, space.root(), buf) + k))
}

/// The text that the bytes `bytes` encode in UTF-8, with
/// `core::str::from_utf8`. Claimed, as its documentation says: a result
/// exactly where the bytes are valid UTF-8, and the result is those very
/// bytes seen as text.
#[verifier::external_body]
fn utf8_text(bytes: &[u8]) -> (r: Option<&str>)
    ensures
        r is Some <==> valid_utf8(bytes@),
        r matches Some(s) ==> s.spec_bytes() == bytes@,
{
    core::str::from_utf8(bytes).ok()
}

/// The console output of a write of `len` bytes from the user address
/// `buf` of `space`: one call that prints a character for each character
/// that the bytes encode in UTF-8, in order. `None` where `fd` is not the
/// console or the bytes are not valid UTF-8.
pub fn sys_write(
    space: &mut MemorySpace,
    mem: &mut PhysMem,
    alloc: &mut Kallocator,
    fd: u64,
    buf: u64,
    len: usize,
) -> (r: Option<Vec<SbiCall>>)
    requires
        old(space).page_table.inv(*old(mem), *old(alloc)),
        user_bytes_readable(*old(space), *old(mem), buf, len as int),
    ensures
        *final(space) == *old(space),
        *final(mem) == *old(mem),
        *final(alloc) == *old(alloc),
        r is Some <==> fd == FD_STDOUT && valid_utf8(user_bytes(*old(space), *old(mem), buf, len as int)),
        r matches Some(calls) ==> ({
            let text = decode_utf8(user_bytes(*old(space), *old(mem), buf, len as int));
            &&& calls@.len() == text.len()
            &&& forall|i: int| 0 <= i < text.len() ==> #[trigger] is_call(calls@[i], PUT_CHAR, text[i] as u64, 0, 0)
        }),
{
    let mut buffer: Vec<u8> = Vec::new();
    let mut i: usize = 0;
    while i < len
        invariant
            i <= len,
            buffer@.len() == i,
        decreases len - i,
    {
        buffer.push(0);
        i = i + 1;
    }
    space.copy_virtual_address(mem, alloc, VirtualAddr(buf), len, &mut buffer);
    proof {
        assert(buffer@ =~= user_bytes(*old(space), *old(mem), buf, len as int));
    }
    if fd != FD_STDOUT {
        return None;
    }
    let text = match utf8_text(buffer.as_slice()) {
        Some(t) => t,
        None => return None,
    };
    proof {
        vstd::utf8::encode_utf8_decode_utf8(text@);
    }
    Some(print(text))
}

/// Ends the process that the hart `hartid` runs.
pub fn sys_exit(tm: &mut TaskManagerInner, harts: &Vec<Cpu>, hartid: u64)
    requires
        old(tm).wf(),
        old(tm).runs_process(harts@, hartid),
    ensures
        final(tm).wf(),
        final(tm).slots() == old(tm).slots().update(
            TaskManagerInner::current_pid(harts@, hartid),
            Some(Pcb { state: PcbState::Exit, ..old(tm).slots()[TaskManagerInner::current_pid(harts@, hartid)]->0 }),
        ),
{
    tm.exit_current_task(harts, hartid);
}

/// Puts the process that the hart `hartid` runs back among the ready ones;
/// the call returns 0.
pub fn sys_yield(tm: &mut TaskManagerInner, harts: &Vec<Cpu>, hartid: u64) -> (r: i64)
    requires
        old(tm).wf(),
        old(tm).runs_process(harts@, hartid),
    ensures
        r == 0,
        final(tm).wf(),
        final(tm).slots() == old(tm).slots().update(
            TaskManagerInner::current_pid(harts@, hartid),
            Some(Pcb { state: PcbState::Ready, ..old(tm).slots()[TaskManagerInner::current_pid(harts@, hartid)]->0 }),
        ),
{
    tm.set_current_task_ready(harts, hartid);
    0
}

} // verus!

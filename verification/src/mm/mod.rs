//! Memory management.
pub mod address;
pub mod pte_sv39;
pub mod phys_mem;
pub mod kalloc;
pub mod pt_spec;
pub mod pgtbl;
pub mod memory_space;
pub mod elf;
pub mod table_count;
pub mod space_laws;
pub mod page_table;

use vstd::prelude::*;
use crate::mm::address::{PhysAddr, PhysPageNum, VirtualAddr};
use crate::mm::kalloc::{Kallocator, page_run};
use crate::mm::phys_mem::PhysMem;
use crate::mm::pte_sv39::{PTEFlag, pte_with_flags, pte_with_ppn, pte_flag_bits, pte_ppn};
use crate::mm::pgtbl::Pgtbl;
use crate::mm::pt_spec::{leaf_pte, range_frames, same_slot, lemma_same_slot, walk_frames};
use crate::mm::memory_space::{MemorySpace, TRAMPOLINE_VPN};

verus! {

/// At most the tables that mapping the pages `[lo, hi)` into an empty table
/// creates: a level-1 table per block of 2^18 pages and a leaf table per
/// block of 512 pages that the range touches.
pub open spec fn identity_tables(lo: int, hi: int) -> int {
    if lo < hi {
        ((hi - 1) / 0x4_0000 - lo / 0x4_0000 + 1) + ((hi - 1) / 512 - lo / 512 + 1)
    } else {
        0
    }
}

/// Sets up kernel memory: the frames from the page after the address
/// `frames` up to the page of `phys_frame_end` become the free list; a fresh
/// page table maps the kernel's pages, from the page of `skernel` to the
/// page of `phys_frame_end`, to themselves, readable, writable and
/// executable; the trampoline page maps a fresh frame holding `trampoline`.
/// Returns the kernel's address space and one more frame taken from the
/// allocator to try it.
pub fn init(
    mem: &mut PhysMem,
    alloc: &mut Kallocator,
    frames: u64,
    skernel: u64,
    phys_frame_end: u64,
    trampoline: &[u8],
) -> (r: (MemorySpace, PhysPageNum))
    requires
        old(mem).wf(),
        frames / 4096 + 1 < phys_frame_end / 4096,
        old(mem).has_page(frames / 4096 + 1),
        old(mem).has_page(phys_frame_end / 4096 - 1),
        skernel / 4096 <= phys_frame_end / 4096 <= TRAMPOLINE_VPN,
        phys_frame_end / 4096 - (frames / 4096 + 1) >= identity_tables((skernel / 4096) as int, (phys_frame_end / 4096) as int) + 5,
        trampoline@.len() <= 4096,
    ensures
        r.0.page_table.inv(*final(mem), *final(alloc)),
        r.0.page_table.root.0 == frames / 4096 + 1,
        r.0.entry == 0,
        forall|n: u64|
            skernel / 4096 <= n < phys_frame_end / 4096 ==> #[trigger] leaf_pte(*final(mem), r.0.root(), n)
                == pte_with_flags(pte_with_ppn(0, n), 15),
        pte_flag_bits(leaf_pte(*final(mem), r.0.root(), TRAMPOLINE_VPN)) == 11,
        forall|k: int|
            0 <= k < trampoline@.len() ==> #[trigger] final(mem).byte(
                crate::mm::memory_space::phys_of(*final(mem), r.0.root(), 0xFFFF_FFFF_FFFF_F000u64) + k,
            ) == trampoline@[k],
        forall|v: u64|
            !same_slot(v, TRAMPOLINE_VPN) && (forall|n: u64|
                skernel / 4096 <= n < phys_frame_end / 4096 ==> !#[trigger] same_slot(v, n)) ==> #[trigger] leaf_pte(
                *final(mem),
                r.0.root(),
                v,
            ) == 0,
        final(mem).page_is_zero(r.1.0 as int),
        exists|k: int|
            #![trigger page_run((frames / 4096 + 1) as u64, phys_frame_end / 4096).skip(k)]
            0 <= k <= identity_tables((skernel / 4096) as int, (phys_frame_end / 4096) as int) + 5
                && final(alloc).free_list() == page_run((frames / 4096 + 1) as u64, phys_frame_end / 4096).skip(k),
{
    let frame_start = PhysAddr(frames).floor();
    let frame_start = PhysPageNum(frame_start.0 + 1);
    let frame_end = PhysAddr(phys_frame_end).floor();
    alloc.init(mem, frame_start..frame_end);
    let ghost f = alloc.free_list();
    proof {
        assert(f[0] == frame_start.0);
    }
    // Initialize the kernel page table
    let table = Pgtbl::new(mem, alloc);
    let ghost m1 = *mem;
    let ghost a1 = *alloc;
    let ghost root = table.root.0 as int;
    let lo = skernel / 4096;
    let hi = phys_frame_end / 4096;
    proof {
        crate::config::lemma_bit_constants();
        if lo < hi {
            crate::mm::table_count::lemma_missing_l1_blocks(m1, root, lo as int, hi as int);
            crate::mm::table_count::lemma_missing_l0_blocks(m1, root, lo as int, hi as int);
        } else {
            crate::mm::pt_spec::lemma_range_frames_empty(m1, root, lo as int, hi as int);
        }
        assert(range_frames(m1, root, lo as int, hi as int) <= identity_tables(lo as int, hi as int));
    }
    let flags = PTEFlag::v().union(PTEFlag::r()).union(PTEFlag::w()).union(PTEFlag::x());
    proof {
        crate::config::lemma_bit_constants();
    }
    table.mappages(mem, alloc, VirtualAddr(skernel)..VirtualAddr(phys_frame_end), PhysAddr(skernel).floor(), flags);
    let ghost m2 = *mem;
    let mut kernel = MemorySpace::default();
    kernel.page_table = table;
    proof {
        assert forall|n: u64| lo <= n < hi implies !#[trigger] same_slot(TRAMPOLINE_VPN, n) by {
            lemma_same_slot(TRAMPOLINE_VPN, n);
        }
        assert(leaf_pte(m2, root, TRAMPOLINE_VPN) == 0);
        assert(walk_frames(m2, root, TRAMPOLINE_VPN) <= 2);
    }
    let ghost a2 = *alloc;
    kernel.map_trampoline(mem, alloc, trampoline);
    let ghost m3 = *mem;
    let ghost a3 = *alloc;
    proof {
        reveal(Pgtbl::inv);
        a3.lemma_wf_facts(m3);
        assert(a3.free_set().contains(a3.free_list()[0] as int));
    }
    let tried = alloc.kalloc(mem);
    proof {
        let t = tried.0 as int;
        let rf = range_frames(m1, root, lo as int, hi as int) as int;
        let wf = walk_frames(m2, root, TRAMPOLINE_VPN) as int;
        let k = 1 + rf + 1 + wf + 1;
        assert(alloc.free_list() =~= f.skip(k));
        assert(alloc.free_set().subset_of(a3.free_set())) by {
            assert forall|p: int| alloc.free_set().contains(p) implies a3.free_set().contains(p) by {
                let k = choose|k: int| 0 <= k < alloc.free_list().len() && alloc.free_list()[k] == p;
                assert(a3.free_list()[k + 1] == p);
            }
        }
        crate::process::lemma_table_frame(table, m3, a3, *mem, *alloc, set![t]);
        let p = a2.free_list()[0];
        m3.lemma_page_range(p as int);
        assert(pte_ppn(pte_with_flags(pte_with_ppn(0u64, p), 11u64)) == p) by (bit_vector)
            requires
                p < 0x800_0000,
        ;
        assert(same_slot(TRAMPOLINE_VPN, TRAMPOLINE_VPN));
        assert(kernel.leaf(m3, TRAMPOLINE_VPN) == pte_with_flags(pte_with_ppn(0u64, p), 11));
        let tp = crate::mm::memory_space::frame_of(m3, root, TRAMPOLINE_VPN);
        assert(tp == p);
        assert(tp != t);
        let va = 0xFFFF_FFFF_FFFF_F000u64;
        lemma_same_slot(va / 4096, TRAMPOLINE_VPN);
        crate::mm::pt_spec::lemma_same_slot_walk(*mem, root, va / 4096, TRAMPOLINE_VPN);
        crate::mm::pt_spec::lemma_same_slot_walk(m3, root, va / 4096, TRAMPOLINE_VPN);
        let x = pte_with_ppn(0u64, tp as u64);
        assert(pte_with_flags(x, 11) & 0xFF == 11) by (bit_vector);
        assert forall|k: int| 0 <= k < trampoline@.len() implies #[trigger] mem.byte(
            crate::mm::memory_space::phys_of(*mem, root, 0xFFFF_FFFF_FFFF_F000u64) + k,
        ) == trampoline@[k] by {
            assert((tp * 4096 + k) / 4096 == tp && (tp * 4096 + k) % 4096 == k) by (nonlinear_arith)
                requires
                    0 <= k < 4096,
            ;
            assert(crate::mm::memory_space::phys_of(*mem, root, va) + k == tp * 4096 + k);
            assert(m3.byte(p * 4096 + k) == trampoline@[k]);
            assert(mem.word(tp, (k % 4096) / 8) == m3.word(tp, (k % 4096) / 8));
        }
        assert forall|n: u64| lo <= n < hi implies #[trigger] leaf_pte(*mem, root, n) == pte_with_flags(
            pte_with_ppn(0, n),
            15,
        ) by {
            lemma_same_slot(n, TRAMPOLINE_VPN);
            assert(kernel.leaf(m3, n) == leaf_pte(m2, root, n));
            assert(leaf_pte(m2, root, n) == pte_with_flags(pte_with_ppn(leaf_pte(m1, root, n), (lo + (n - lo)) as u64), 15));
        }
        assert forall|v: u64|
            !same_slot(v, TRAMPOLINE_VPN) && (forall|n: u64| lo <= n < hi ==> !#[trigger] same_slot(v, n)) implies #[trigger] leaf_pte(
            *mem,
            root,
            v,
        ) == 0 by {
            assert(kernel.leaf(m3, v) == leaf_pte(m2, root, v));
            assert(leaf_pte(m2, root, v) == leaf_pte(m1, root, v));
        }
    }
    (kernel, tried)
}

} // verus!

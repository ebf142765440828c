//! User address spaces: a page table, the pages mapped in it and the entry
//! point of the program loaded there.
use vstd::prelude::*;
use core::ops::Range;
use crate::config::{PAGE_SIZE, USER_STACK_SIZE};
use crate::mm::address::{PhysAddr, PhysPageNum, VirtualAddr, VirtualPageNum, vpn_index};
use crate::mm::pte_sv39::{
    PTE,
    PTEFlag,
    pte_valid,
    pte_ppn,
    pte_with_ppn,
    pte_with_flags,
    law_set_ppn_keeps_flags,
    law_set_flags_keeps_ppn,
};
use crate::mm::phys_mem::{PhysMem, lemma_zero_word_bytes, lemma_same_outside_trans, lemma_same_outside_weaken};
use crate::trap::context::{TrapContext, CONTEXT_WORDS};
use crate::mm::kalloc::Kallocator;
use crate::mm::pgtbl::{Pgtbl, prefix_set, lemma_prefix_skip};
use crate::mm::pt_spec::{
    pt_wf,
    tables,
    is_l0,
    leaf_pte,
    path_ok,
    table0,
    entry2,
    l0_present,
    walk_frames,
    same_slot,
    lemma_index_bounds,
    lemma_wf_tables,
    lemma_same_slot,
    range_frames,
    missing_leaf,
    lemma_range_step,
    lemma_missing_leaf_step,
    lemma_range_skip_done,
    lemma_range_frames_empty,
    lemma_missing_leaf_empty,
    lemma_walk_frames_le,
    lemma_leaf_missing_counted,
};

verus! {

/// The frame that the leaf entry of `vpn` names.
pub open spec fn frame_of(mem: PhysMem, root: int, vpn: u64) -> int {
    pte_ppn(leaf_pte(mem, root, vpn)) as int
}

/// The physical address that the virtual address `va` translates to.
pub open spec fn phys_of(mem: PhysMem, root: int, va: u64) -> int {
    frame_of(mem, root, va / 4096) * 4096 + va % 4096
}

/// The frame holds program data: it is in memory, holds no table and is
/// not free.
pub open spec fn data_frame(mem: PhysMem, alloc: Kallocator, root: int, p: int) -> bool {
    &&& mem.has_page(p)
    &&& !tables(mem, root).contains(p)
    &&& !alloc.free_set().contains(p)
}

/// One if the leaf entry of `vpn` is invalid (a frame is needed for it).
pub open spec fn leaf_frames(mem: PhysMem, root: int, vpn: u64) -> nat {
    if pte_valid(leaf_pte(mem, root, vpn)) {
        0
    } else {
        1
    }
}

/// What writing the byte `b` at `va` (mapping its page first when needed)
/// does, see `map_byte`.
pub open spec fn map_byte_post(
    pt: Pgtbl,
    m: PhysMem,
    am: Kallocator,
    m2: PhysMem,
    am2: Kallocator,
    va: u64,
    fl: u64,
    b: u8,
) -> bool {
            let root = pt.root.0 as int;
            let vpn = va / 4096;
            let f = am.free_list();
            let w = walk_frames(m, root, vpn) as int;
            let fresh = !pte_valid(leaf_pte(m, root, vpn));
            let n = w + leaf_frames(m, root, vpn);
            &&& pt.inv(m2, am2)
            &&& am2.free_list() == f.skip(n)
            &&& tables(m2, root) == tables(m, root).union(prefix_set(f, w))
            &&& forall|v: u64|
                #[trigger] pte_valid(entry2(m2, root, v)) == (pte_valid(
                    entry2(m, root, v),
                ) || vpn_index(v, 2) == vpn_index(vpn, 2))
            &&& forall|v: u64|
                #[trigger] path_ok(m2, root, v) == (path_ok(m, root, v) || (
                vpn_index(v, 2) == vpn_index(vpn, 2) && vpn_index(v, 1) == vpn_index(vpn, 1)))
            &&& forall|v: u64|
                #[trigger] leaf_pte(m2, root, v) == if same_slot(v, vpn) && fresh {
                    pte_with_flags(pte_with_ppn(leaf_pte(m, root, vpn), f[w]), fl)
                } else {
                    leaf_pte(m, root, v)
                }
            &&& pte_valid(leaf_pte(m2, root, vpn))
            &&& fresh ==> frame_of(m2, root, vpn) == f[w]
            &&& data_frame(m2, am2, root, frame_of(m2, root, vpn))
            &&& forall|p: int|
                data_frame(m, am, root, p) ==> #[trigger] data_frame(
                    m2,
                    am2,
                    root,
                    p,
                )
            &&& m2.byte(phys_of(m2, root, va)) == b
            &&& forall|x: int|
                !tables(m2, root).contains(x / 4096) && !prefix_set(f, n).contains(x / 4096)
                    && x != phys_of(m2, root, va) ==> #[trigger] m2.byte(x) == m.byte(x)
            &&& fresh ==> forall|x: int|
                x / 4096 == f[w] && x != phys_of(m2, root, va) ==> #[trigger] m2.byte(x) == 0
        
}

/// Maps the page of `va` to a fresh zeroed frame with flags `flags | V` if it
/// is not mapped yet, then writes the byte `b` at `va`.
fn map_byte(pt: &Pgtbl, mem: &mut PhysMem, alloc: &mut Kallocator, va: u64, flags: PTEFlag, b: u8)
    requires
        pt.inv(*old(mem), *old(alloc)),
        old(alloc).free_list().len() >= walk_frames(*old(mem), pt.root.0 as int, va / 4096)
            + leaf_frames(*old(mem), pt.root.0 as int, va / 4096),
        pte_valid(leaf_pte(*old(mem), pt.root.0 as int, va / 4096)) ==> data_frame(
            *old(mem),
            *old(alloc),
            pt.root.0 as int,
            frame_of(*old(mem), pt.root.0 as int, va / 4096),
        ),
    ensures
        map_byte_post(*pt, *old(mem), *old(alloc), *final(mem), *final(alloc), va, flags@ | 1, b),
        final(mem).base() == old(mem).base(),
        final(mem).npages() == old(mem).npages(),
{
    let ghost root = pt.root.0 as int;
    let ghost vpn = va / 4096;
    let ghost f = alloc.free_list();
    let ghost mem0 = *mem;
    let ghost alloc0 = *alloc;
    proof {
        reveal(Pgtbl::inv);
        lemma_index_bounds(vpn);
    }
    let pte_pa = pt.walk(mem, alloc, VirtualAddr(va), true);
    let ghost mem1 = *mem;
    let ghost w = walk_frames(mem0, root, vpn) as int;
    let ghost t0 = table0(mem1, root, vpn);
    let ghost i0 = vpn_index(vpn, 0) as int;
    let ghost e = leaf_pte(mem0, root, vpn);
    proof {
        reveal(Pgtbl::inv);
        alloc.lemma_wf_facts(mem1);
        lemma_wf_tables(mem1, root);
        assert(pte_pa.0 / 4096 == t0 && (pte_pa.0 % 4096) / 8 == i0) by (nonlinear_arith)
            requires
                pte_pa.0 == t0 * 4096 + i0 * 8,
                0 <= i0 < 512,
        ;
        assert(mem1.word_at(pte_pa.0 as int) == mem1.word(t0, i0));
        assert(leaf_pte(mem1, root, vpn) == e);
        assert(l0_present(mem1, root, vpn_index(vpn, 2) as int, vpn_index(vpn, 1) as int));
        assert(is_l0(mem1, root, t0));
        assert(tables(mem1, root).contains(t0));
        assert(!alloc.free_set().contains(t0));
    }
    let mut pte = PTE::from_bits(mem.read_word(pte_pa));
    let ghost mem3: PhysMem;
    if !pte.is_valid() {
        let ghost alloc1 = *alloc;
        let page = alloc.kalloc(mem);
        let ghost mem2 = *mem;
        proof {
            assert(alloc1.free_list() == f.skip(w));
            assert(page.0 == f[w]);
            assert(alloc1.free_set().contains(page.0 as int));
            assert(!tables(mem1, root).contains(page.0 as int));
            assert(set![page.0 as int].disjoint(tables(mem1, root)));
            alloc.lemma_wf_facts(mem2);
            crate::mm::pt_spec::lemma_frame(mem1, mem2, root, set![page.0 as int]);
            alloc1.lemma_wf_facts(mem1);
            mem2.lemma_page_range(page.0 as int);
            assert(mem2.word_at(pte_pa.0 as int) == mem1.word_at(pte_pa.0 as int));
        }
        pte.set_ppn(page);
        let fb = flags.bits();
        let fl = flags.union(PTEFlag::v());
        pte.set_flags(fl);
        mem.write_word(pte_pa, pte.bits());
        proof {
            mem3 = *mem;
            let x = pte@;
            let bits = fl@;
            assert(bits == flags@ | 1);
            assert(fb < 256 ==> (fb | 1u64) < 256) by (bit_vector);
            law_set_ppn_keeps_flags(e, page.0);
            law_set_flags_keeps_ppn(pte_with_ppn(e, page.0), bits);
            assert(x & 0xFFu64 == (bits | 1u64) ==> x & 1u64 != 0) by (bit_vector);
            assert((bits | 1u64) == bits) by (bit_vector)
                requires
                    bits == fb | 1u64,
            ;
            crate::mm::pt_spec::lemma_leaf_write(mem2, mem3, root, vpn);
            assert(mem3.word(t0, i0) == x);
            assert(set![t0].disjoint(alloc.free_set()));
            alloc.lemma_wf_frame(mem2, mem3, set![t0]);
            assert forall|i: int| 0 <= i < 512 implies #[trigger] mem3.word(root, i) == mem1.word(root, i) by {
                assert(tables(mem1, root).contains(root));
                assert(mem2.word(root, i) == mem1.word(root, i));
            }
            assert forall|j: int| 0 <= j < 512 implies #[trigger] mem3.word(page.0 as int, j) == 0 by {
                assert(mem2.word(page.0 as int, j) == 0);
            }
        }
    } else {
        proof {
            mem3 = *mem;
        }
    }
    let ghost alloc3 = *alloc;
    let ghost fresh = !pte_valid(e);
    let ghost nn = w + leaf_frames(mem0, root, vpn);
    let ghost frame = frame_of(mem3, root, vpn);
    proof {
        reveal(Pgtbl::inv);
        alloc.lemma_wf_facts(mem3);
        assert(alloc3.free_list() =~= f.skip(nn));
        assert(pt_wf(mem3, root));
        assert(tables(mem3, root) == tables(mem1, root));
        assert(tables(mem3, root).disjoint(alloc3.free_set())) by {
            assert forall|t: int| tables(mem3, root).contains(t) implies !alloc3.free_set().contains(t) by {
                if alloc3.free_set().contains(t) {
                    let k = choose|k: int| 0 <= k < alloc3.free_list().len() && alloc3.free_list()[k] == t;
                    assert(alloc3.free_list()[k] == f[k + nn]);
                    assert(f.skip(w)[k + nn - w] == t);
                }
            }
        }
        assert(pte_valid(leaf_pte(mem3, root, vpn)));
        assert(data_frame(mem3, alloc3, root, frame)) by {
            if fresh {
                assert(frame == f[w]);
                assert forall|k: int| 0 <= k < alloc3.free_list().len() implies alloc3.free_list()[k] != frame by {
                    assert(alloc3.free_list()[k] == f[k + nn]);
                }
                old(alloc).lemma_wf_facts(mem0);
                assert(mem0.has_page(f[w] as int));
            } else {
                assert(leaf_pte(mem3, root, vpn) == e);
                assert(!alloc0.free_set().contains(frame));
                assert(!prefix_set(f, w).contains(frame)) by {
                    if prefix_set(f, w).contains(frame) {
                        let q = choose|q: int| 0 <= q < w && f[q] == frame;
                        assert(alloc0.free_set().contains(frame));
                    }
                }
                if alloc3.free_set().contains(frame) {
                    let k = choose|k: int| 0 <= k < alloc3.free_list().len() && alloc3.free_list()[k] == frame;
                    assert(alloc3.free_list()[k] == f[k + nn]);
                    assert(alloc0.free_set().contains(frame));
                }
            }
        }
        mem3.lemma_page_range(frame);
    }
    let target = pte.ppn().offset_in_page(va % PAGE_SIZE);
    mem.write_byte(target, b);
    proof {
        reveal(Pgtbl::inv);
        let mem4 = *mem;
        assert(target.0 == phys_of(mem3, root, va));
        assert(target.0 / 4096 == frame) by (nonlinear_arith)
            requires
                target.0 == frame * 4096 + va % 4096,
        ;
        assert(mem3.same_outside(mem4, set![frame]));
        assert(set![frame].disjoint(tables(mem3, root)));
        crate::mm::pt_spec::lemma_frame(mem3, mem4, root, set![frame]);
        assert(set![frame].disjoint(alloc3.free_set()));
        alloc.lemma_wf_frame(mem3, mem4, set![frame]);
        assert(tables(mem3, root).contains(root)) by {
            lemma_wf_tables(mem3, root);
        }
        assert forall|v: u64|
            #[trigger] pte_valid(entry2(mem4, root, v)) == (pte_valid(entry2(mem0, root, v))
                || vpn_index(v, 2) == vpn_index(vpn, 2)) by {
            lemma_index_bounds(v);
            let i = vpn_index(v, 2) as int;
            assert(mem4.word(root, i) == mem3.word(root, i));
            assert(mem3.word(root, i) == mem1.word(root, i));
            assert(pte_valid(entry2(mem1, root, v)) == (pte_valid(entry2(mem0, root, v))
                || vpn_index(v, 2) == vpn_index(vpn, 2)));
        }
        if fresh {
            assert forall|x: int|
                x / 4096 == f[w] && x != phys_of(mem4, root, va) implies #[trigger] mem4.byte(x) == 0 by {
                assert(mem4.byte(x) == mem3.byte(x));
                assert(0 <= (x % 4096) / 8 < 512);
                assert(mem3.word(frame, (x % 4096) / 8) == 0);
                lemma_zero_word_bytes((x % 8) as u64);
            }
        }
    }
}

/// Frames that writing the bytes `[a, e)` creates: the missing tables and
/// leaf frames of the pages that hold those bytes.
pub open spec fn area_frames(mem: PhysMem, root: int, a: u64, e: u64) -> nat {
    if a < e {
        range_frames(mem, root, (a / 4096) as int, (e - 1) / 4096 + 1) + missing_leaf(
            mem,
            root,
            (a / 4096) as int,
            (e - 1) / 4096 + 1,
        ).len()
    } else {
        0
    }
}

/// Writing the byte `a` creates its page's missing frames, and the rest of
/// the area needs the remaining ones.
proof fn lemma_fill_count(m: PhysMem, m2: PhysMem, root: int, a: u64, e: u64)
    requires
        a < e,
        forall|v: u64|
            #[trigger] pte_valid(entry2(m2, root, v)) == (pte_valid(entry2(m, root, v)) || vpn_index(
                v,
                2,
            ) == vpn_index(a / 4096, 2)),
        forall|v: u64|
            #[trigger] path_ok(m2, root, v) == (path_ok(m, root, v) || (vpn_index(v, 2)
                == vpn_index(a / 4096, 2) && vpn_index(v, 1) == vpn_index(a / 4096, 1))),
        pte_valid(leaf_pte(m2, root, a / 4096)),
        forall|v: u64|
            !same_slot(v, a / 4096) ==> #[trigger] pte_valid(leaf_pte(m2, root, v)) == pte_valid(
                leaf_pte(m, root, v),
            ),
    ensures
        area_frames(m2, root, (a + 1) as u64, e) + walk_frames(m, root, a / 4096) + leaf_frames(
            m,
            root,
            a / 4096,
        ) == area_frames(m, root, a, e),
        walk_frames(m, root, a / 4096) + leaf_frames(m, root, a / 4096) <= area_frames(m, root, a, e),
{
    let p = a / 4096;
    let hi = (e - 1) / 4096 + 1;
    lemma_range_step(m, m2, root, p, hi);
    lemma_missing_leaf_step(m, m2, root, p, hi);
    if a + 1 == e {
        assert(p + 1 == hi);
        lemma_range_frames_empty(m2, root, p + 1, hi);
        lemma_missing_leaf_empty(m2, root, p + 1, hi);
    } else if (a + 1) / 4096 == p {
        lemma_index_bounds(p);
        assert(path_ok(m2, root, p));
        assert(pte_valid(entry2(m2, root, p)));
        lemma_range_skip_done(m2, root, p, hi);
    } else {
        assert((a + 1) / 4096 == p + 1);
    }
}

/// The byte that goes to offset `k` of an area: zero, or `data[k]`.
pub open spec fn src_byte(data: Seq<u8>, zero: bool, k: int) -> u8 {
    if zero {
        0
    } else {
        data[k]
    }
}

/// The state after writing the bytes `[s, a)` of the area `[s, e)`, starting
/// from `mem0` and `alloc0`.
pub open spec fn fill_inv(
    pt: Pgtbl,
    mem0: PhysMem,
    alloc0: Kallocator,
    mem: PhysMem,
    alloc: Kallocator,
    s: u64,
    a: u64,
    e: u64,
    fl: u64,
    data: Seq<u8>,
    zero: bool,
) -> bool {
    let root = pt.root.0 as int;
    let f = alloc0.free_list();
    let lo = s / 4096;
    let hi = (e - 1) / 4096 + 1;
    let c = area_frames(mem0, root, s, e) - area_frames(mem, root, a, e);
    &&& s <= a <= e
    &&& pt.inv(mem, alloc)
    &&& 0 <= c <= f.len()
    &&& alloc.free_list() == f.skip(c)
    &&& alloc.free_list().len() >= area_frames(mem, root, a, e)
    &&& tables(mem0, root).subset_of(tables(mem, root))
    &&& tables(mem, root).subset_of(tables(mem0, root).union(prefix_set(f, c)))
    &&& forall|v: u64|
        pte_valid(leaf_pte(mem0, root, v)) ==> #[trigger] leaf_pte(mem, root, v) == leaf_pte(
            mem0,
            root,
            v,
        )
    &&& forall|v: u64|
        (forall|b: u64| s <= b < a ==> !#[trigger] same_slot(v, b / 4096)) ==> #[trigger] leaf_pte(
            mem,
            root,
            v,
        ) == leaf_pte(mem0, root, v)
    &&& forall|b: u64| s <= b < a ==> pte_valid(#[trigger] leaf_pte(mem, root, b / 4096))
    &&& forall|n: u64|
        lo <= n < hi && !pte_valid(leaf_pte(mem0, root, n)) && pte_valid(leaf_pte(mem, root, n))
            ==> #[trigger] leaf_pte(mem, root, n) == pte_with_flags(
            pte_with_ppn(leaf_pte(mem0, root, n), frame_of(mem, root, n) as u64),
            fl,
        ) && prefix_set(f, c).contains(frame_of(mem, root, n))
    &&& forall|n: u64|
        lo <= n < hi && pte_valid(leaf_pte(mem, root, n)) ==> #[trigger] data_frame(
            mem,
            alloc,
            root,
            frame_of(mem, root, n),
        )
    &&& forall|n1: u64, n2: u64|
        lo <= n1 < hi && lo <= n2 < hi && !same_slot(n1, n2) && pte_valid(leaf_pte(mem, root, n1))
            && pte_valid(leaf_pte(mem, root, n2)) ==> #[trigger] frame_of(mem, root, n1)
            != #[trigger] frame_of(mem, root, n2)
    &&& forall|b: u64|
        s <= b < a ==> #[trigger] mem.byte(phys_of(mem, root, b)) == src_byte(data, zero, b - s)
    &&& forall|x: int|
        !tables(mem, root).contains(x / 4096) && !prefix_set(f, c).contains(x / 4096) && (forall|
            b: u64,
        |
            s <= b < a ==> x != #[trigger] phys_of(mem, root, b)) ==> #[trigger] mem.byte(x)
            == mem0.byte(x)
    &&& forall|x: int|
        prefix_set(f, c).contains(x / 4096) && !tables(mem, root).contains(x / 4096) && (forall|
            b: u64,
        |
            s <= b < a ==> x != #[trigger] phys_of(mem, root, b)) ==> #[trigger] mem.byte(x) == 0
}

proof fn lemma_prefix_mono(f: Seq<u64>, a: int, b: int)
    requires
        a <= b,
    ensures
        prefix_set(f, a).subset_of(prefix_set(f, b)),
{
}

/// Frame accounting of one step of filling an area.
proof fn lemma_fill_step_count(
    pt: Pgtbl,
    mem0: PhysMem,
    alloc0: Kallocator,
    m: PhysMem,
    am: Kallocator,
    m2: PhysMem,
    am2: Kallocator,
    s: u64,
    a: u64,
    e: u64,
    fl: u64,
    data: Seq<u8>,
    zero: bool,
    b: u8,
)
    requires
        fill_inv(pt, mem0, alloc0, m, am, s, a, e, fl, data, zero),
        a < e,
        map_byte_post(pt, m, am, m2, am2, a, fl, b),
    ensures
        ({
            let root = pt.root.0 as int;
            let f = alloc0.free_list();
            let c = area_frames(mem0, root, s, e) - area_frames(m, root, a, e);
            let n = (walk_frames(m, root, a / 4096) + leaf_frames(m, root, a / 4096)) as int;
            let c2 = area_frames(mem0, root, s, e) - area_frames(m2, root, (a + 1) as u64, e);
            &&& c2 == c + n
            &&& 0 <= c2 <= f.len()
            &&& am2.free_list() == f.skip(c2)
            &&& am2.free_list().len() >= area_frames(m2, root, (a + 1) as u64, e)
            &&& tables(mem0, root).subset_of(tables(m2, root))
            &&& tables(m2, root).subset_of(tables(mem0, root).union(prefix_set(f, c2)))
            &&& prefix_set(f, c).union(prefix_set(am.free_list(), n)) == prefix_set(f, c2)
            &&& prefix_set(am.free_list(), walk_frames(m, root, a / 4096) as int).subset_of(
                prefix_set(f, c2),
            )
        }),
{
    let root = pt.root.0 as int;
    let f = alloc0.free_list();
    let c = area_frames(mem0, root, s, e) - area_frames(m, root, a, e);
    let p = a / 4096;
    let w = walk_frames(m, root, p) as int;
    let n = w + leaf_frames(m, root, p);
    assert forall|v: u64|
        !same_slot(v, p) implies #[trigger] pte_valid(leaf_pte(m2, root, v)) == pte_valid(
        leaf_pte(m, root, v),
    ) by {}
    lemma_fill_count(m, m2, root, a, e);
    lemma_prefix_skip(f, c, n);
    lemma_prefix_mono(am.free_list(), w, n);
    lemma_prefix_mono(f, c, c + n);
}

/// Two page numbers of an area no wider than the 27-bit page space share a
/// slot only when they are equal.
proof fn lemma_slot_in_span(n1: u64, n2: u64, lo: int, hi: int)
    requires
        lo <= n1 < hi,
        lo <= n2 < hi,
        hi - lo <= 0x800_0000,
        same_slot(n1, n2),
    ensures
        n1 == n2,
{
    lemma_same_slot(n1, n2);
}

/// Leaf entries and frames after one step of filling an area.
#[verifier::rlimit(100)]
#[verifier::spinoff_prover]
proof fn lemma_fill_step_leaves(
    pt: Pgtbl,
    mem0: PhysMem,
    alloc0: Kallocator,
    m: PhysMem,
    am: Kallocator,
    m2: PhysMem,
    am2: Kallocator,
    s: u64,
    a: u64,
    e: u64,
    fl: u64,
    data: Seq<u8>,
    zero: bool,
    b: u8,
    c: int,
    c2: int,
)
    requires
        fill_inv(pt, mem0, alloc0, m, am, s, a, e, fl, data, zero),
        a < e,
        (e - 1) / 4096 + 1 - s / 4096 <= 0x800_0000,
        map_byte_post(pt, m, am, m2, am2, a, fl, b),
        c == area_frames(mem0, pt.root.0 as int, s, e) - area_frames(m, pt.root.0 as int, a, e),
        c2 == c + walk_frames(m, pt.root.0 as int, a / 4096) + leaf_frames(m, pt.root.0 as int, a / 4096),
        am.free_list() == alloc0.free_list().skip(c),
        0 <= c,
        c2 <= alloc0.free_list().len(),
        prefix_set(alloc0.free_list(), c).subset_of(prefix_set(alloc0.free_list(), c2)),
    ensures
        ({
            let root = pt.root.0 as int;
            let f = alloc0.free_list();
            let lo = s / 4096;
            let hi = (e - 1) / 4096 + 1;
            &&& forall|v: u64|
                pte_valid(leaf_pte(mem0, root, v)) ==> #[trigger] leaf_pte(m2, root, v) == leaf_pte(
                    mem0,
                    root,
                    v,
                )
            &&& forall|v: u64|
                (forall|x: u64| s <= x < a + 1 ==> !#[trigger] same_slot(v, x / 4096)) ==> #[trigger] leaf_pte(
                    m2,
                    root,
                    v,
                ) == leaf_pte(mem0, root, v)
            &&& forall|x: u64| s <= x < a + 1 ==> pte_valid(#[trigger] leaf_pte(m2, root, x / 4096))
            &&& forall|n: u64|
                lo <= n < hi && !pte_valid(leaf_pte(mem0, root, n)) && pte_valid(leaf_pte(m2, root, n))
                    ==> #[trigger] leaf_pte(m2, root, n) == pte_with_flags(
                    pte_with_ppn(leaf_pte(mem0, root, n), frame_of(m2, root, n) as u64),
                    fl,
                ) && prefix_set(f, c2).contains(frame_of(m2, root, n))
            &&& forall|n: u64|
                lo <= n < hi && pte_valid(leaf_pte(m2, root, n)) ==> #[trigger] data_frame(
                    m2,
                    am2,
                    root,
                    frame_of(m2, root, n),
                )
            &&& forall|n1: u64, n2: u64|
                lo <= n1 < hi && lo <= n2 < hi && !same_slot(n1, n2) && pte_valid(
                    leaf_pte(m2, root, n1),
                ) && pte_valid(leaf_pte(m2, root, n2)) ==> #[trigger] frame_of(m2, root, n1)
                    != #[trigger] frame_of(m2, root, n2)
            &&& forall|x: u64|
                s <= x < a ==> #[trigger] phys_of(m2, root, x) == phys_of(m, root, x)
        }),
{
    let root = pt.root.0 as int;
    let f = alloc0.free_list();
    let lo = s / 4096;
    let hi = (e - 1) / 4096 + 1;
    let p = a / 4096;
    let w = walk_frames(m, root, p) as int;
    let fresh = !pte_valid(leaf_pte(m, root, p));
    let g = am.free_list();
    assert(lo <= p < hi);
    // A page already touched is valid, so it is not the fresh one.
    assert forall|v: u64| fresh && same_slot(v, p) implies !pte_valid(#[trigger] leaf_pte(m, root, v)) by {
        crate::mm::pt_spec::lemma_same_slot_walk(m, root, v, p);
    }
    assert forall|v: u64|
        pte_valid(leaf_pte(mem0, root, v)) implies #[trigger] leaf_pte(m2, root, v) == leaf_pte(
        mem0,
        root,
        v,
    ) by {
        assert(leaf_pte(m, root, v) == leaf_pte(mem0, root, v));
    }
    assert forall|v: u64|
        (forall|x: u64| s <= x < a + 1 ==> !#[trigger] same_slot(v, x / 4096)) implies #[trigger] leaf_pte(
        m2,
        root,
        v,
    ) == leaf_pte(mem0, root, v) by {
        assert(!same_slot(v, a / 4096));
        assert forall|x: u64| s <= x < a implies !#[trigger] same_slot(v, x / 4096) by {}
    }
    assert forall|x: u64| s <= x < a + 1 implies pte_valid(#[trigger] leaf_pte(m2, root, x / 4096)) by {
        if x < a {
            assert(pte_valid(leaf_pte(m, root, x / 4096)));
        }
    }
    assert forall|n: u64|
        lo <= n < hi && !pte_valid(leaf_pte(mem0, root, n)) && pte_valid(leaf_pte(m2, root, n)) implies #[trigger] leaf_pte(
        m2,
        root,
        n,
    ) == pte_with_flags(pte_with_ppn(leaf_pte(mem0, root, n), frame_of(m2, root, n) as u64), fl)
        && prefix_set(f, c2).contains(frame_of(m2, root, n)) by {
        if same_slot(n, p) && fresh {
            lemma_slot_in_span(n, p, lo as int, hi);
            assert(n == p);
            assert forall|x: u64| s <= x < a implies !#[trigger] same_slot(n, x / 4096) by {
                if same_slot(n, x / 4096) {
                    crate::mm::pt_spec::lemma_same_slot_walk(m, root, n, x / 4096);
                    assert(pte_valid(leaf_pte(m, root, x / 4096)));
                }
            }
            assert(leaf_pte(m, root, n) == leaf_pte(mem0, root, n));
            assert(g[w] == f[c + w]);
            assert(frame_of(m2, root, n) == f[c + w]);
            assert(prefix_set(f, c2).contains(f[c + w] as int));
        } else {
            assert(leaf_pte(m2, root, n) == leaf_pte(m, root, n));
        }
    }
    assert forall|n: u64| lo <= n < hi && pte_valid(leaf_pte(m2, root, n)) implies #[trigger] data_frame(
        m2,
        am2,
        root,
        frame_of(m2, root, n),
    ) by {
        if same_slot(n, p) {
            crate::mm::pt_spec::lemma_same_slot_walk(m2, root, n, p);
        } else {
            assert(leaf_pte(m2, root, n) == leaf_pte(m, root, n));
            assert(data_frame(m, am, root, frame_of(m, root, n)));
        }
    }
    assert forall|n1: u64, n2: u64|
        lo <= n1 < hi && lo <= n2 < hi && !same_slot(n1, n2) && pte_valid(leaf_pte(m2, root, n1))
            && pte_valid(leaf_pte(m2, root, n2)) implies #[trigger] frame_of(m2, root, n1)
        != #[trigger] frame_of(m2, root, n2) by {
        if fresh {
            assert(g.len() == f.len() - c);
            assert(w < g.len());
        }
        let fr = if fresh { g[w] } else { 0 };
        if fresh && same_slot(n1, p) {
            crate::mm::pt_spec::lemma_same_slot_walk(m2, root, n1, p);
            crate::mm::pt_spec::lemma_same_slot(n1, p);
            crate::mm::pt_spec::lemma_same_slot(n2, p);
            assert(!same_slot(n2, p));
            assert(leaf_pte(m2, root, n2) == leaf_pte(m, root, n2));
            assert(data_frame(m, am, root, frame_of(m, root, n2)));
            assert(frame_of(m2, root, n1) == fr);
            assert(am.free_list()[w] == fr);
            assert(am.free_set().contains(fr as int));
        } else if fresh && same_slot(n2, p) {
            crate::mm::pt_spec::lemma_same_slot_walk(m2, root, n2, p);
            crate::mm::pt_spec::lemma_same_slot(n1, p);
            crate::mm::pt_spec::lemma_same_slot(n2, p);
            assert(!same_slot(n1, p));
            assert(leaf_pte(m2, root, n1) == leaf_pte(m, root, n1));
            assert(data_frame(m, am, root, frame_of(m, root, n1)));
            assert(frame_of(m2, root, n2) == fr);
            assert(am.free_list()[w] == fr);
            assert(am.free_set().contains(fr as int));
        } else {
            assert(leaf_pte(m2, root, n1) == leaf_pte(m, root, n1));
            assert(leaf_pte(m2, root, n2) == leaf_pte(m, root, n2));
            assert(frame_of(m, root, n1) != frame_of(m, root, n2));
        }
    }
    assert forall|x: u64| s <= x < a implies #[trigger] phys_of(m2, root, x) == phys_of(m, root, x) by {
        assert(pte_valid(leaf_pte(m, root, x / 4096)));
        if fresh && same_slot(x / 4096, p) {
            crate::mm::pt_spec::lemma_same_slot_walk(m, root, x / 4096, p);
        }
        assert(leaf_pte(m2, root, x / 4096) == leaf_pte(m, root, x / 4096));
    }
}

/// Memory bytes after one step of filling an area.
#[verifier::rlimit(100)]
#[verifier::spinoff_prover]
proof fn lemma_fill_step_bytes(
    pt: Pgtbl,
    mem0: PhysMem,
    alloc0: Kallocator,
    m: PhysMem,
    am: Kallocator,
    m2: PhysMem,
    am2: Kallocator,
    s: u64,
    a: u64,
    e: u64,
    fl: u64,
    data: Seq<u8>,
    zero: bool,
    b: u8,
    c: int,
    c2: int,
)
    requires
        fill_inv(pt, mem0, alloc0, m, am, s, a, e, fl, data, zero),
        a < e,
        (e - 1) / 4096 + 1 - s / 4096 <= 0x800_0000,
        map_byte_post(pt, m, am, m2, am2, a, fl, b),
        b == src_byte(data, zero, a - s),
        alloc0.free_list().no_duplicates(),
        c == area_frames(mem0, pt.root.0 as int, s, e) - area_frames(m, pt.root.0 as int, a, e),
        c2 == c + walk_frames(m, pt.root.0 as int, a / 4096) + leaf_frames(m, pt.root.0 as int, a / 4096),
        0 <= c,
        c2 <= alloc0.free_list().len(),
        am.free_list() == alloc0.free_list().skip(c),
        prefix_set(alloc0.free_list(), c).union(
            prefix_set(
                am.free_list(),
                (walk_frames(m, pt.root.0 as int, a / 4096) + leaf_frames(m, pt.root.0 as int, a / 4096)) as int,
            ),
        ) == prefix_set(alloc0.free_list(), c2),
        forall|x: u64|
            s <= x < a ==> #[trigger] phys_of(m2, pt.root.0 as int, x) == phys_of(m, pt.root.0 as int, x),
        forall|x: u64| s <= x < a + 1 ==> pte_valid(#[trigger] leaf_pte(m2, pt.root.0 as int, x / 4096)),
        forall|n1: u64, n2: u64|
            s / 4096 <= n1 < (e - 1) / 4096 + 1 && s / 4096 <= n2 < (e - 1) / 4096 + 1 && !same_slot(n1, n2)
                && pte_valid(leaf_pte(m2, pt.root.0 as int, n1)) && pte_valid(
                leaf_pte(m2, pt.root.0 as int, n2),
            ) ==> #[trigger] frame_of(m2, pt.root.0 as int, n1) != #[trigger] frame_of(
                m2,
                pt.root.0 as int,
                n2,
            ),
    ensures
        ({
            let root = pt.root.0 as int;
            let f = alloc0.free_list();
            &&& forall|x: u64|
                s <= x < a + 1 ==> #[trigger] m2.byte(phys_of(m2, root, x)) == src_byte(data, zero, x - s)
            &&& forall|y: int|
                !tables(m2, root).contains(y / 4096) && !prefix_set(f, c2).contains(y / 4096) && (forall|
                    x: u64,
                |
                    s <= x < a + 1 ==> y != #[trigger] phys_of(m2, root, x)) ==> #[trigger] m2.byte(y)
                    == mem0.byte(y)
            &&& forall|y: int|
                prefix_set(f, c2).contains(y / 4096) && !tables(m2, root).contains(y / 4096) && (forall|
                    x: u64,
                |
                    s <= x < a + 1 ==> y != #[trigger] phys_of(m2, root, x)) ==> #[trigger] m2.byte(y) == 0
        }),
{
    let root = pt.root.0 as int;
    let f = alloc0.free_list();
    let lo = s / 4096;
    let hi = (e - 1) / 4096 + 1;
    let p = a / 4096;
    let w = walk_frames(m, root, p) as int;
    let n = w + leaf_frames(m, root, p);
    let g = am.free_list();
    let fresh = !pte_valid(leaf_pte(m, root, p));
    assert forall|x: u64| s <= x < a + 1 implies #[trigger] m2.byte(phys_of(m2, root, x)) == src_byte(
        data,
        zero,
        x - s,
    ) by {
        if x < a {
            let y = phys_of(m, root, x);
            let q = x / 4096;
            assert(pte_valid(leaf_pte(m, root, q)));
            assert(data_frame(m, am, root, frame_of(m, root, q)));
            assert(y / 4096 == frame_of(m, root, q)) by (nonlinear_arith)
                requires
                    y == frame_of(m, root, q) * 4096 + x % 4096,
            ;
            assert(!prefix_set(g, n).contains(y / 4096)) by {
                if prefix_set(g, n).contains(y / 4096) {
                    let k = choose|k: int| 0 <= k < n && g[k] == y / 4096;
                    assert(am.free_set().contains(y / 4096));
                }
            }
            if same_slot(q, p) {
                lemma_slot_in_span(q, p, lo as int, hi);
                assert(phys_of(m2, root, a) / 4096 == frame_of(m2, root, p)) by (nonlinear_arith)
                    requires
                        phys_of(m2, root, a) == frame_of(m2, root, p) * 4096 + a % 4096,
                ;
            } else {
                assert(frame_of(m2, root, q) != frame_of(m2, root, p));
                assert(phys_of(m2, root, a) / 4096 == frame_of(m2, root, p)) by (nonlinear_arith)
                    requires
                        phys_of(m2, root, a) == frame_of(m2, root, p) * 4096 + a % 4096,
                ;
            }
            assert(y != phys_of(m2, root, a));
            assert(m2.byte(y) == m.byte(y));
        }
    }
    assert forall|y: int|
        !tables(m2, root).contains(y / 4096) && !prefix_set(f, c2).contains(y / 4096) && (forall|x: u64|
            s <= x < a + 1 ==> y != #[trigger] phys_of(m2, root, x)) implies #[trigger] m2.byte(y)
        == mem0.byte(y) by {
        assert(y != phys_of(m2, root, a));
        assert(!prefix_set(g, n).contains(y / 4096));
        assert(m2.byte(y) == m.byte(y));
        assert(!prefix_set(f, c).contains(y / 4096));
        assert forall|x: u64| s <= x < a implies y != #[trigger] phys_of(m, root, x) by {
            assert(phys_of(m2, root, x) == phys_of(m, root, x));
        }
    }
    assert forall|y: int|
        prefix_set(f, c2).contains(y / 4096) && !tables(m2, root).contains(y / 4096) && (forall|x: u64|
            s <= x < a + 1 ==> y != #[trigger] phys_of(m2, root, x)) implies #[trigger] m2.byte(y) == 0 by {
        assert(y != phys_of(m2, root, a));
        assert forall|x: u64| s <= x < a implies y != #[trigger] phys_of(m, root, x) by {
            assert(phys_of(m2, root, x) == phys_of(m, root, x));
        }
        if prefix_set(f, c).contains(y / 4096) {
            let k = choose|k: int| 0 <= k < c && f[k] == y / 4096;
            assert(!prefix_set(g, n).contains(y / 4096)) by {
                if prefix_set(g, n).contains(y / 4096) {
                    let j = choose|j: int| 0 <= j < n && g[j] == y / 4096;
                    assert(g[j] == f[c + j]);
                }
            }
            assert(m2.byte(y) == m.byte(y));
        } else {
            assert(prefix_set(g, n).contains(y / 4096));
            let j = choose|j: int| 0 <= j < n && g[j] == y / 4096;
            if j < w {
                assert(prefix_set(g, w).contains(y / 4096));
            } else {
                assert(j == w && fresh);
            }
        }
    }
}

/// One step of filling an area keeps the fill invariant.
proof fn lemma_fill_step(
    pt: Pgtbl,
    mem0: PhysMem,
    alloc0: Kallocator,
    m: PhysMem,
    am: Kallocator,
    m2: PhysMem,
    am2: Kallocator,
    s: u64,
    a: u64,
    e: u64,
    fl: u64,
    data: Seq<u8>,
    zero: bool,
    b: u8,
)
    requires
        fill_inv(pt, mem0, alloc0, m, am, s, a, e, fl, data, zero),
        a < e,
        (e - 1) / 4096 + 1 - s / 4096 <= 0x800_0000,
        map_byte_post(pt, m, am, m2, am2, a, fl, b),
        b == src_byte(data, zero, a - s),
        alloc0.free_list().no_duplicates(),
    ensures
        fill_inv(pt, mem0, alloc0, m2, am2, s, (a + 1) as u64, e, fl, data, zero),
{
    let root = pt.root.0 as int;
    let f = alloc0.free_list();
    let c = area_frames(mem0, root, s, e) - area_frames(m, root, a, e);
    let c2 = area_frames(mem0, root, s, e) - area_frames(m2, root, (a + 1) as u64, e);
    lemma_fill_step_count(pt, mem0, alloc0, m, am, m2, am2, s, a, e, fl, data, zero, b);
    lemma_prefix_mono(f, c, c2);
    lemma_fill_step_leaves(pt, mem0, alloc0, m, am, m2, am2, s, a, e, fl, data, zero, b, c, c2);
    lemma_fill_step_bytes(pt, mem0, alloc0, m, am, m2, am2, s, a, e, fl, data, zero, b, c, c2);
}

/// The frames that writing the byte `a` creates are among those that the
/// rest of the area needs.
proof fn lemma_byte_frames_le(m: PhysMem, root: int, a: u64, e: u64)
    requires
        a < e,
    ensures
        walk_frames(m, root, a / 4096) + leaf_frames(m, root, a / 4096) <= area_frames(m, root, a, e),
{
    let hi = (e - 1) / 4096 + 1;
    lemma_walk_frames_le(m, root, a / 4096, hi);
    if !pte_valid(leaf_pte(m, root, a / 4096)) {
        lemma_leaf_missing_counted(m, root, a / 4096, hi);
    }
}

/// Writes the bytes of `[s, e)`: zeros when `zero` is set, `data` from its
/// start otherwise; every page of the area that is not mapped yet gets a
/// fresh zeroed frame with flags `flags | V`.
fn fill_area(
    pt: &Pgtbl,
    mem: &mut PhysMem,
    alloc: &mut Kallocator,
    s: u64,
    e: u64,
    flags: PTEFlag,
    data: &[u8],
    zero: bool,
)
    requires
        fill_inv(*pt, *old(mem), *old(alloc), *old(mem), *old(alloc), s, s, e, flags@ | 1, data@, zero),
        s < e,
        (e - 1) / 4096 + 1 - s / 4096 <= 0x800_0000,
        !zero ==> e - s <= data@.len(),
    ensures
        fill_inv(*pt, *old(mem), *old(alloc), *final(mem), *final(alloc), s, e, e, flags@ | 1, data@, zero),
        final(mem).base() == old(mem).base(),
        final(mem).npages() == old(mem).npages(),
{
    let ghost mem0 = *mem;
    let ghost alloc0 = *alloc;
    proof {
        reveal(Pgtbl::inv);
        alloc0.lemma_wf_facts(mem0);
    }
    let mut va = s;
    while va < e
        invariant
            fill_inv(*pt, mem0, alloc0, *mem, *alloc, s, va, e, flags@ | 1, data@, zero),
            s < e,
            (e - 1) / 4096 + 1 - s / 4096 <= 0x800_0000,
            !zero ==> e - s <= data@.len(),
            alloc0.free_list().no_duplicates(),
            mem.base() == mem0.base(),
            mem.npages() == mem0.npages(),
        decreases e - va,
    {
        let byte: u8 = if zero {
            0
        } else {
            data[(va - s) as usize]
        };
        let ghost m = *mem;
        let ghost am = *alloc;
        proof {
            lemma_byte_frames_le(m, pt.root.0 as int, va, e);
        }
        map_byte(pt, mem, alloc, va, flags, byte);
        proof {
            lemma_fill_step(*pt, mem0, alloc0, m, am, *mem, *alloc, s, va, e, flags@ | 1, data@, zero, byte);
        }
        va = va + 1;
    }
}

/// Takes a free frame and maps the page of `va` to it with exactly the flags
/// `flags`; the frame is zeroed and holds program data afterwards.
fn map_fresh_frame(
    pt: &Pgtbl,
    mem: &mut PhysMem,
    alloc: &mut Kallocator,
    va: VirtualAddr,
    flags: PTEFlag,
) -> (p: PhysPageNum)
    requires
        pt.inv(*old(mem), *old(alloc)),
        old(alloc).free_list().len() >= 1 + walk_frames(*old(mem), pt.root.0 as int, va.0 / 4096),
        !pte_valid(leaf_pte(*old(mem), pt.root.0 as int, va.0 / 4096)),
    ensures
        pt.inv(*final(mem), *final(alloc)),
        p.0 == old(alloc).free_list()[0],
        final(alloc).free_list() == old(alloc).free_list().skip(
            1 + walk_frames(*old(mem), pt.root.0 as int, va.0 / 4096) as int,
        ),
        forall|v: u64|
            #[trigger] leaf_pte(*final(mem), pt.root.0 as int, v) == if same_slot(v, va.0 / 4096) {
                pte_with_flags(
                    pte_with_ppn(leaf_pte(*old(mem), pt.root.0 as int, va.0 / 4096), p.0),
                    flags@,
                )
            } else {
                leaf_pte(*old(mem), pt.root.0 as int, v)
            },
        final(mem).page_is_zero(p.0 as int),
        data_frame(*final(mem), *final(alloc), pt.root.0 as int, p.0 as int),
        forall|q: int|
            data_frame(*old(mem), *old(alloc), pt.root.0 as int, q) ==> #[trigger] data_frame(
                *final(mem),
                *final(alloc),
                pt.root.0 as int,
                q,
            ),
        old(mem).same_outside(*final(mem), tables(*final(mem), pt.root.0 as int).insert(p.0 as int)),
{
    let ghost root = pt.root.0 as int;
    let ghost vpn = va.0 / 4096;
    let ghost mem0 = *mem;
    let ghost f = alloc.free_list();
    proof {
        reveal(Pgtbl::inv);
        alloc.lemma_wf_facts(mem0);
        assert(alloc.free_set().contains(f[0] as int));
    }
    let page = alloc.kalloc(mem);
    let ghost mem1 = *mem;
    let ghost alloc1 = *alloc;
    proof {
        reveal(Pgtbl::inv);
        alloc.lemma_wf_facts(mem1);
        assert(!tables(mem0, root).contains(page.0 as int));
        crate::mm::pt_spec::lemma_frame(mem0, mem1, root, set![page.0 as int]);
        lemma_wf_tables(mem0, root);
        lemma_index_bounds(vpn);
        assert(entry2(mem1, root, vpn) == entry2(mem0, root, vpn));
        if pte_valid(entry2(mem0, root, vpn)) {
            assert(crate::mm::pt_spec::entry1(mem1, root, vpn) == crate::mm::pt_spec::entry1(mem0, root, vpn)) by {
                let t1 = crate::mm::pt_spec::l1_table(mem0, root, vpn_index(vpn, 2) as int);
                assert(crate::mm::pt_spec::is_l1(mem0, root, t1));
                assert(tables(mem0, root).contains(t1));
            }
        }
        assert(walk_frames(mem1, root, vpn) == walk_frames(mem0, root, vpn));
        assert(tables(mem1, root).disjoint(alloc1.free_set())) by {
            assert forall|t: int| tables(mem1, root).contains(t) implies !alloc1.free_set().contains(t) by {
                if alloc1.free_set().contains(t) {
                    let k = choose|k: int| 0 <= k < alloc1.free_list().len() && alloc1.free_list()[k] == t;
                    assert(alloc1.free_list()[k] == f[k + 1]);
                    assert(old(alloc).free_set().contains(t));
                }
            }
        }
    }
    pt.map(mem, alloc, va, page, flags);
    proof {
        reveal(Pgtbl::inv);
        let w = walk_frames(mem1, root, vpn) as int;
        let g = alloc1.free_list();
        alloc.lemma_wf_facts(*mem);
        assert(alloc.free_list() =~= f.skip(1 + w));
        assert(!prefix_set(g, w).contains(page.0 as int)) by {
            if prefix_set(g, w).contains(page.0 as int) {
                let q = choose|q: int| 0 <= q < w && g[q] == page.0 as int;
                assert(g[q] == f[q + 1]);
            }
        }
        assert(!tables(*mem, root).contains(page.0 as int));
        assert(!alloc.free_set().contains(page.0 as int)) by {
            if alloc.free_set().contains(page.0 as int) {
                let k = choose|k: int| 0 <= k < alloc.free_list().len() && alloc.free_list()[k] == page.0;
                assert(alloc.free_list()[k] == f[k + 1 + w]);
            }
        }
        assert forall|j: int| 0 <= j < 512 implies #[trigger] mem.word(page.0 as int, j) == 0 by {
            assert(mem1.word(page.0 as int, j) == 0);
        }
        assert forall|q: int|
            data_frame(mem0, *old(alloc), root, q) implies #[trigger] data_frame(*mem, *alloc, root, q) by {
            assert(!old(alloc).free_set().contains(q));
            assert(q != page.0);
            if prefix_set(g, w).contains(q) {
                let k = choose|k: int| 0 <= k < w && g[k] == q;
                assert(g[k] == f[k + 1]);
                assert(old(alloc).free_set().contains(q));
            }
            if alloc.free_set().contains(q) {
                let k = choose|k: int| 0 <= k < alloc.free_list().len() && alloc.free_list()[k] == q;
                assert(alloc.free_list()[k] == f[k + 1 + w]);
                assert(old(alloc).free_set().contains(q));
            }
        }
        lemma_same_outside_weaken(mem0, mem1, set![page.0 as int], tables(*mem, root).insert(page.0 as int));
        lemma_same_outside_weaken(mem1, *mem, tables(*mem, root), tables(*mem, root).insert(page.0 as int));
        lemma_same_outside_trans(mem0, mem1, *mem, tables(*mem, root).insert(page.0 as int), tables(*mem, root).insert(page.0 as int));
        assert(tables(*mem, root).insert(page.0 as int).union(tables(*mem, root).insert(page.0 as int)) =~= tables(*mem, root).insert(page.0 as int));
    }
    page
}

/// The area `[s, e)` can be written: the table and allocator are well
/// formed, the pages of the area lie in one turn of the 27-bit page space,
/// there are enough free frames, every mapped page of the area holds program
/// data, and no two mapped pages of the area share a frame. A page of the
/// area that mapped a table frame, a free frame or the frame of another
/// page would have its bytes written over a table, the free list or the
/// other page; such areas are left out.
pub open spec fn area_ready(pt: Pgtbl, mem: PhysMem, alloc: Kallocator, s: u64, e: u64) -> bool {
    let root = pt.root.0 as int;
    let lo = s / 4096;
    let hi = (e - 1) / 4096 + 1;
    &&& pt.inv(mem, alloc)
    &&& s < e ==> hi - lo <= 0x800_0000
    &&& alloc.free_list().len() >= area_frames(mem, root, s, e)
    &&& forall|n: u64|
        lo <= n < hi && pte_valid(leaf_pte(mem, root, n)) ==> #[trigger] data_frame(
            mem,
            alloc,
            root,
            frame_of(mem, root, n),
        )
    &&& forall|n1: u64, n2: u64|
        lo <= n1 < hi && lo <= n2 < hi && !same_slot(n1, n2) && pte_valid(leaf_pte(mem, root, n1))
            && pte_valid(leaf_pte(mem, root, n2)) ==> #[trigger] frame_of(mem, root, n1)
            != #[trigger] frame_of(mem, root, n2)
}

proof fn lemma_fill_init(
    pt: Pgtbl,
    mem: PhysMem,
    alloc: Kallocator,
    s: u64,
    e: u64,
    fl: u64,
    data: Seq<u8>,
    zero: bool,
)
    requires
        area_ready(pt, mem, alloc, s, e),
        s < e,
    ensures
        fill_inv(pt, mem, alloc, mem, alloc, s, s, e, fl, data, zero),
{
    let f = alloc.free_list();
    assert(f.skip(0) =~= f);
    assert(prefix_set(f, 0) =~= Set::<int>::empty());
    assert(tables(mem, pt.root.0 as int).union(prefix_set(f, 0)) =~= tables(mem, pt.root.0 as int));
}

/// Page of the trampoline code: the last page of the 39-bit space.
pub const TRAMPOLINE_VPN: u64 = 0x7FF_FFFF;

/// Page of the saved trap context: the page below the trampoline.
pub const CONTEXT_VPN: u64 = 0x7FF_FFFE;

#[derive(Clone, Copy)]
pub struct MemorySpace {
    pub page_table: Pgtbl,
    pub entry: u64,
}

impl MemorySpace {
    /// Frame of the root of the page table.
    pub open spec fn root(self) -> int {
        self.page_table.root.0 as int
    }

    /// The leaf entry of the page number `vpn` in `mem`.
    pub open spec fn leaf(self, mem: PhysMem, vpn: u64) -> u64 {
        leaf_pte(mem, self.root(), vpn)
    }

    /// Whether the page number `vpn` is mapped: its leaf entry is valid.
    pub fn is_mapped(&self, mem: &PhysMem, alloc: &Kallocator, vpn: u64) -> (r: bool)
        requires
            self.page_table.inv(*mem, *alloc),
        ensures
            r == pte_valid(self.leaf(*mem, vpn)),
    {
        let ghost root = self.root();
        let page = VirtualPageNum(vpn);
        proof {
            reveal(Pgtbl::inv);
            lemma_index_bounds(vpn);
            crate::config::lemma_bit_constants();
        }
        let e2 = PTE::from_bits(mem.read_page_word(self.page_table.root, page.vpn_block_sv39(2)));
        if !e2.is_valid() {
            return false;
        }
        proof {
            assert(crate::mm::pt_spec::root_entry_ok(*mem, root, vpn_index(vpn, 2) as int));
        }
        let e1 = PTE::from_bits(mem.read_page_word(e2.ppn(), page.vpn_block_sv39(1)));
        if !e1.is_valid() {
            return false;
        }
        proof {
            assert(crate::mm::pt_spec::l1_entry_ok(*mem, root, vpn_index(vpn, 2) as int, vpn_index(vpn, 1) as int));
        }
        let e0 = PTE::from_bits(mem.read_page_word(e1.ppn(), page.vpn_block_sv39(0)));
        e0.is_valid()
    }

    /// An address space with no page table (frame 0) and entry point 0.
    pub fn default() -> (r: Self)
        ensures
            r.page_table.root.0 == 0,
            r.entry == 0,
    {
        Self { page_table: Pgtbl::default(), entry: 0 }
    }

    pub(crate) fn set_entry_point(&mut self, entry: u64)
        ensures
            final(self).entry == entry,
            final(self).page_table == old(self).page_table,
    {
        self.entry = entry
    }

    pub fn trampoline_page() -> (r: VirtualPageNum)
        ensures
            r.0 == TRAMPOLINE_VPN,
    {
        VirtualPageNum::highest_page()
    }

    /// Virtual addresses of the trap entry and of the restore routine of the
    /// trampoline, given the addresses at which the kernel image holds the
    /// two routines.
    pub fn trampoline_entry(alltraps: u64, restore: u64) -> (r: (u64, u64))
        requires
            alltraps <= restore,
            crate::mm::address::signed_offset_ok(
                0xFFFF_FFFF_FFFF_F000,
                (restore - alltraps) as i64,
            ),
        ensures
            r.0 == 0xFFFF_FFFF_FFFF_F000u64,
            r.1 == crate::mm::address::signed_offset(r.0, (restore - alltraps) as i64),
    {
        let alltraps_va = VirtualAddr::from(Self::trampoline_page());
        let restore_va = alltraps_va.offset((restore - alltraps) as i64);
        (alltraps_va.0, restore_va.0)
    }

    pub fn context_page() -> (r: VirtualPageNum)
        ensures
            r.0 == CONTEXT_VPN,
    {
        VirtualPageNum(VirtualPageNum::highest_page().0 - 1)
    }

    pub fn context_addr() -> (r: VirtualAddr)
        ensures
            r.0 == 0xFFFF_FFFF_FFFF_E000u64,
            r.0 / 4096 % 0x800_0000 == CONTEXT_VPN,
    {
        VirtualAddr::from(Self::context_page())
    }

    /// Writes the bytes `data[0 .. end - start]` at the virtual addresses
    /// `[start, end)` of `area`, mapping each page that is not mapped yet to a
    /// fresh zeroed frame with flags `flags | V` (see `fill_inv` for all that
    /// holds afterwards).
    pub fn map_area_data_each_byte(
        &mut self,
        mem: &mut PhysMem,
        alloc: &mut Kallocator,
        area: Range<VirtualAddr>,
        flags: PTEFlag,
        data: &[u8],
    )
        requires
            area_ready(old(self).page_table, *old(mem), *old(alloc), area.start.0, area.end.0),
            area.start.0 < area.end.0 ==> area.end.0 - area.start.0 <= data@.len(),
        ensures
            *final(self) == *old(self),
            area.start.0 < area.end.0 ==> fill_inv(
                old(self).page_table,
                *old(mem),
                *old(alloc),
                *final(mem),
                *final(alloc),
                area.start.0,
                area.end.0,
                area.end.0,
                flags@ | 1,
                data@,
                false,
            ),
            area.start.0 >= area.end.0 ==> *final(mem) == *old(mem) && *final(alloc) == *old(alloc),
            final(mem).base() == old(mem).base(),
            final(mem).npages() == old(mem).npages(),
    {
        let start = area.start;
        let end = area.end;
        if start.0 < end.0 {
            proof {
                lemma_fill_init(self.page_table, *mem, *alloc, start.0, end.0, flags@ | 1, data@, false);
            }
            fill_area(&self.page_table, mem, alloc, start.0, end.0, flags, data, false);
        }
    }

    /// Writes zeros at the addresses `[floor(start), floor(end))`, that is
    /// at the addresses equal to the page numbers of the two ends of `area`,
    /// mapping pages as `map_area_data_each_byte` does.
    pub fn map_area_zero(
        &mut self,
        mem: &mut PhysMem,
        alloc: &mut Kallocator,
        area: Range<VirtualAddr>,
        flags: PTEFlag,
    )
        requires
            area_ready(old(self).page_table, *old(mem), *old(alloc), area.start.0 / 4096, area.end.0 / 4096),
        ensures
            *final(self) == *old(self),
            area.start.0 / 4096 < area.end.0 / 4096 ==> fill_inv(
                old(self).page_table,
                *old(mem),
                *old(alloc),
                *final(mem),
                *final(alloc),
                area.start.0 / 4096,
                area.end.0 / 4096,
                area.end.0 / 4096,
                flags@ | 1,
                Seq::empty(),
                true,
            ),
            area.start.0 / 4096 >= area.end.0 / 4096 ==> *final(mem) == *old(mem) && *final(alloc) == *old(alloc),
            final(mem).base() == old(mem).base(),
            final(mem).npages() == old(mem).npages(),
    {
        let (start, end) = (area.start, area.end);
        let start = VirtualPageNum::from(start);
        let end = VirtualPageNum::from(end);
        let empty: Vec<u8> = Vec::new();
        if start.0 < end.0 {
            proof {
                assert(empty@ =~= Seq::<u8>::empty());
                lemma_fill_init(self.page_table, *mem, *alloc, start.0, end.0, flags@ | 1, empty@, true);
            }
            fill_area(&self.page_table, mem, alloc, start.0, end.0, flags, empty.as_slice(), true);
        }
    }

    /// Maps the context page to a fresh frame, readable and writable, and
    /// writes the saved context `ctx` into it; returns the frame.
    pub fn map_context(&mut self, mem: &mut PhysMem, alloc: &mut Kallocator, ctx: &TrapContext) -> (r:
        PhysPageNum)
        requires
            old(self).page_table.inv(*old(mem), *old(alloc)),
            old(alloc).free_list().len() >= 1 + walk_frames(*old(mem), old(self).root(), CONTEXT_VPN),
            !pte_valid(old(self).leaf(*old(mem), CONTEXT_VPN)),
        ensures
            *final(self) == *old(self),
            final(self).page_table.inv(*final(mem), *final(alloc)),
            r.0 == old(alloc).free_list()[0],
            final(alloc).free_list() == old(alloc).free_list().skip(
                1 + walk_frames(*old(mem), old(self).root(), CONTEXT_VPN) as int,
            ),
            forall|v: u64|
                #[trigger] final(self).leaf(*final(mem), v) == if same_slot(v, CONTEXT_VPN) {
                    pte_with_flags(pte_with_ppn(old(self).leaf(*old(mem), CONTEXT_VPN), r.0), 7)
                } else {
                    old(self).leaf(*old(mem), v)
                },
            forall|i: int| 0 <= i < CONTEXT_WORDS ==> #[trigger] final(mem).word(r.0 as int, i) == ctx.word(i),
            forall|i: int| CONTEXT_WORDS <= i < 512 ==> #[trigger] final(mem).word(r.0 as int, i) == 0,
            data_frame(*final(mem), *final(alloc), old(self).root(), r.0 as int),
            old(mem).same_outside(*final(mem), tables(*final(mem), old(self).root()).insert(r.0 as int)),
    {
        let ghost root = self.root();
        let va = Self::context_addr();
        proof {
            lemma_same_slot(va.0 / 4096, CONTEXT_VPN);
            crate::mm::pt_spec::lemma_same_slot_walk(*mem, root, va.0 / 4096, CONTEXT_VPN);
        }
        let flags = PTEFlag::r().union(PTEFlag::w()).union(PTEFlag::v());
        proof {
            crate::config::lemma_bit_constants();
        }
        let pn = map_fresh_frame(&self.page_table, mem, alloc, va, flags);
        let ghost mem1 = *mem;
        let ghost alloc1 = *alloc;
        let mut i: usize = 0;
        while i < CONTEXT_WORDS
            invariant
                self.page_table.inv(*mem, *alloc),
                *alloc == alloc1,
                data_frame(*mem, *alloc, root, pn.0 as int),
                root == self.root(),
                i <= CONTEXT_WORDS,
                forall|j: int| 0 <= j < i ==> #[trigger] mem.word(pn.0 as int, j) == ctx.word(j),
                forall|j: int| i <= j < 512 ==> #[trigger] mem.word(pn.0 as int, j) == 0,
                mem1.same_outside(*mem, set![pn.0 as int]),
                tables(*mem, root) == tables(mem1, root),
                forall|v: u64| #[trigger] leaf_pte(*mem, root, v) == leaf_pte(mem1, root, v),
            decreases CONTEXT_WORDS - i,
        {
            let ghost m = *mem;
            proof {
                reveal(Pgtbl::inv);
                alloc.lemma_wf_facts(m);
            }
            mem.write_page_word(pn, i as u64, ctx.word_at(i));
            proof {
                reveal(Pgtbl::inv);
                assert(m.same_outside(*mem, set![pn.0 as int]));
                crate::mm::pt_spec::lemma_frame(m, *mem, root, set![pn.0 as int]);
                alloc.lemma_wf_frame(m, *mem, set![pn.0 as int]);
                lemma_same_outside_trans(mem1, m, *mem, set![pn.0 as int], set![pn.0 as int]);
                assert(set![pn.0 as int].union(set![pn.0 as int]) =~= set![pn.0 as int]);
            }
            i = i + 1;
        }
        proof {
            lemma_same_outside_weaken(mem1, *mem, set![pn.0 as int], tables(*mem, root).insert(pn.0 as int));
            lemma_same_outside_trans(*old(mem), mem1, *mem, tables(*mem, root).insert(pn.0 as int), tables(*mem, root).insert(pn.0 as int));
            assert(tables(*mem, root).insert(pn.0 as int).union(tables(*mem, root).insert(pn.0 as int)) =~= tables(*mem, root).insert(pn.0 as int));
            assert forall|v: u64| #[trigger] leaf_pte(*mem, root, v) == if same_slot(v, CONTEXT_VPN) {
                pte_with_flags(pte_with_ppn(leaf_pte(*old(mem), root, CONTEXT_VPN), pn.0), 7)
            } else {
                leaf_pte(*old(mem), root, v)
            } by {
                lemma_same_slot(v, CONTEXT_VPN);
                lemma_same_slot(v, va.0 / 4096);
            }
        }
        pn
    }

    /// Maps the context page to the frame that holds `trapframe`, readable
    /// and writable.
    pub fn map_trapframe(&mut self, mem: &mut PhysMem, alloc: &mut Kallocator, trapframe: PhysAddr)
        requires
            old(self).page_table.inv(*old(mem), *old(alloc)),
            old(alloc).free_list().len() >= walk_frames(*old(mem), old(self).root(), CONTEXT_VPN),
            !pte_valid(old(self).leaf(*old(mem), CONTEXT_VPN)),
        ensures
            *final(self) == *old(self),
            final(self).page_table.inv(*final(mem), *final(alloc)),
            final(alloc).free_list() == old(alloc).free_list().skip(
                walk_frames(*old(mem), old(self).root(), CONTEXT_VPN) as int,
            ),
            forall|v: u64|
                #[trigger] final(self).leaf(*final(mem), v) == if same_slot(v, CONTEXT_VPN) {
                    pte_with_flags(
                        pte_with_ppn(old(self).leaf(*old(mem), CONTEXT_VPN), trapframe.0 / 4096),
                        7,
                    )
                } else {
                    old(self).leaf(*old(mem), v)
                },
            tables(*final(mem), old(self).root()) == tables(*old(mem), old(self).root()).union(
                prefix_set(old(alloc).free_list(), walk_frames(*old(mem), old(self).root(), CONTEXT_VPN) as int),
            ),
            old(mem).same_outside(*final(mem), tables(*final(mem), old(self).root())),
    {
        let ghost root = self.root();
        let va = Self::context_addr();
        proof {
            lemma_same_slot(va.0 / 4096, CONTEXT_VPN);
            crate::mm::pt_spec::lemma_same_slot_walk(*mem, root, va.0 / 4096, CONTEXT_VPN);
        }
        let flags = PTEFlag::r().union(PTEFlag::w()).union(PTEFlag::v());
        proof {
            crate::config::lemma_bit_constants();
        }
        self.page_table.map(mem, alloc, va, PhysAddr(trapframe.0).floor(), flags);
        proof {
            assert forall|v: u64| #[trigger] leaf_pte(*mem, root, v) == if same_slot(v, CONTEXT_VPN) {
                pte_with_flags(pte_with_ppn(leaf_pte(*old(mem), root, CONTEXT_VPN), trapframe.0 / 4096), 7)
            } else {
                leaf_pte(*old(mem), root, v)
            } by {
                lemma_same_slot(v, CONTEXT_VPN);
                lemma_same_slot(v, va.0 / 4096);
            }
        }
    }

    /// Maps the trampoline page to a fresh frame, readable and executable,
    /// and copies the trampoline code into it.
    pub fn map_trampoline(&mut self, mem: &mut PhysMem, alloc: &mut Kallocator, code: &[u8])
        requires
            old(self).page_table.inv(*old(mem), *old(alloc)),
            old(alloc).free_list().len() >= 1 + walk_frames(*old(mem), old(self).root(), TRAMPOLINE_VPN),
            !pte_valid(old(self).leaf(*old(mem), TRAMPOLINE_VPN)),
            code@.len() <= PAGE_SIZE,
        ensures
            *final(self) == *old(self),
            final(self).page_table.inv(*final(mem), *final(alloc)),
            final(alloc).free_list() == old(alloc).free_list().skip(
                1 + walk_frames(*old(mem), old(self).root(), TRAMPOLINE_VPN) as int,
            ),
            forall|v: u64|
                #[trigger] final(self).leaf(*final(mem), v) == if same_slot(v, TRAMPOLINE_VPN) {
                    pte_with_flags(
                        pte_with_ppn(old(self).leaf(*old(mem), TRAMPOLINE_VPN), old(alloc).free_list()[0]),
                        11,
                    )
                } else {
                    old(self).leaf(*old(mem), v)
                },
            forall|k: int|
                0 <= k < code@.len() ==> #[trigger] final(mem).byte(old(alloc).free_list()[0] * 4096 + k)
                    == code@[k],
            forall|k: int|
                code@.len() <= k < 4096 ==> #[trigger] final(mem).byte(old(alloc).free_list()[0] * 4096 + k)
                    == 0,
            data_frame(*final(mem), *final(alloc), old(self).root(), old(alloc).free_list()[0] as int),
            old(mem).same_outside(
                *final(mem),
                tables(*final(mem), old(self).root()).insert(old(alloc).free_list()[0] as int),
            ),
    {
        let ghost root = self.root();
        let page = Self::trampoline_page();
        let va = VirtualAddr::from(page);
        proof {
            crate::mm::address::lemma_page_base_slot(page.0);
            lemma_same_slot(va.0 / 4096, TRAMPOLINE_VPN);
            crate::mm::pt_spec::lemma_same_slot_walk(*mem, root, va.0 / 4096, TRAMPOLINE_VPN);
        }
        let flags = PTEFlag::r().union(PTEFlag::x()).union(PTEFlag::v());
        proof {
            crate::config::lemma_bit_constants();
        }
        let pn = map_fresh_frame(&self.page_table, mem, alloc, va, flags);
        let ghost mem1 = *mem;
        let ghost alloc1 = *alloc;
        proof {
            reveal(Pgtbl::inv);
            alloc.lemma_wf_facts(mem1);
            mem1.lemma_page_range(pn.0 as int);
            assert forall|k: int| 0 <= k < 4096 implies #[trigger] mem1.byte(pn.0 * 4096 + k) == 0 by {
                assert((pn.0 * 4096 + k) / 4096 == pn.0 && (pn.0 * 4096 + k) % 4096 == k) by (nonlinear_arith)
                    requires
                        0 <= k < 4096,
                ;
                assert(mem1.word(pn.0 as int, k / 8) == 0);
                lemma_zero_word_bytes((k % 8) as u64);
                assert((pn.0 * 4096 + k) % 8 == k % 8) by (nonlinear_arith)
                    requires
                        0 <= k,
                ;
            }
        }
        let mut k: usize = 0;
        while k < code.len()
            invariant
                self.page_table.inv(*mem, *alloc),
                *alloc == alloc1,
                data_frame(*mem, *alloc, root, pn.0 as int),
                root == self.root(),
                mem.has_page(pn.0 as int),
                pn.0 < 0x400_0000,
                k <= code@.len(),
                code@.len() <= 4096,
                forall|j: int| 0 <= j < k ==> #[trigger] mem.byte(pn.0 * 4096 + j) == code@[j],
                forall|j: int| k <= j < 4096 ==> #[trigger] mem.byte(pn.0 * 4096 + j) == 0,
                mem1.same_outside(*mem, set![pn.0 as int]),
                tables(*mem, root) == tables(mem1, root),
                forall|v: u64| #[trigger] leaf_pte(*mem, root, v) == leaf_pte(mem1, root, v),
            decreases code@.len() - k,
        {
            let ghost m = *mem;
            proof {
                reveal(Pgtbl::inv);
                alloc.lemma_wf_facts(m);
                assert((pn.0 * 4096 + k) / 4096 == pn.0) by (nonlinear_arith)
                    requires
                        0 <= k < 4096,
                ;
            }
            let addr = pn.offset_in_page(k as u64);
            mem.write_byte(addr, code[k]);
            proof {
                reveal(Pgtbl::inv);
                assert(m.same_outside(*mem, set![pn.0 as int]));
                crate::mm::pt_spec::lemma_frame(m, *mem, root, set![pn.0 as int]);
                alloc.lemma_wf_frame(m, *mem, set![pn.0 as int]);
                lemma_same_outside_trans(mem1, m, *mem, set![pn.0 as int], set![pn.0 as int]);
                assert(set![pn.0 as int].union(set![pn.0 as int]) =~= set![pn.0 as int]);
                assert forall|j: int| 0 <= j < 4096 && j != k implies #[trigger] mem.byte(pn.0 * 4096 + j)
                    == m.byte(pn.0 * 4096 + j) by {
                    assert((pn.0 * 4096 + j) / 4096 == pn.0) by (nonlinear_arith)
                        requires
                            0 <= j < 4096,
                    ;
                }
            }
            k = k + 1;
        }
        proof {
            lemma_same_outside_weaken(mem1, *mem, set![pn.0 as int], tables(*mem, root).insert(pn.0 as int));
            lemma_same_outside_trans(*old(mem), mem1, *mem, tables(*mem, root).insert(pn.0 as int), tables(*mem, root).insert(pn.0 as int));
            assert(tables(*mem, root).insert(pn.0 as int).union(tables(*mem, root).insert(pn.0 as int)) =~= tables(*mem, root).insert(pn.0 as int));
            assert forall|v: u64| #[trigger] leaf_pte(*mem, root, v) == if same_slot(v, TRAMPOLINE_VPN) {
                pte_with_flags(pte_with_ppn(leaf_pte(*old(mem), root, TRAMPOLINE_VPN), pn.0), 11)
            } else {
                leaf_pte(*old(mem), root, v)
            } by {
                lemma_same_slot(v, TRAMPOLINE_VPN);
                lemma_same_slot(v, va.0 / 4096);
            }
        }
    }

    /// Copies `len` bytes that start at the physical address of `src` into
    /// `dst`. The page of `src` must be reachable by the walk.
    pub fn copy_virtual_address(
        &mut self,
        mem: &mut PhysMem,
        alloc: &mut Kallocator,
        src: VirtualAddr,
        len: usize,
        dst: &mut Vec<u8>,
    )
        requires
            old(self).page_table.inv(*old(mem), *old(alloc)),
            path_ok(*old(mem), old(self).root(), src.0 / 4096),
            old(mem).has_page(frame_of(*old(mem), old(self).root(), src.0 / 4096)),
            forall|k: int|
                0 <= k < len ==> #[trigger] old(mem).has_addr(
                    phys_of(*old(mem), old(self).root(), src.0) + k,
                ),
            old(dst)@.len() >= len,
        ensures
            *final(self) == *old(self),
            *final(mem) == *old(mem),
            *final(alloc) == *old(alloc),
            final(dst)@.len() == old(dst)@.len(),
            forall|k: int|
                0 <= k < len ==> #[trigger] final(dst)@[k] == old(mem).byte(
                    phys_of(*old(mem), old(self).root(), src.0) + k,
                ),
            forall|k: int| len <= k < old(dst)@.len() ==> #[trigger] final(dst)@[k] == old(dst)@[k],
    {
        let ghost root = self.root();
        proof {
            reveal(Pgtbl::inv);
            alloc.lemma_wf_facts(*mem);
            mem.lemma_page_range(frame_of(*mem, root, src.0 / 4096));
            assert(walk_frames(*mem, root, src.0 / 4096) == 0);
        }
        let pte_pa = self.page_table.walk(mem, alloc, src, false);
        let pte = PTE::from_bits(mem.read_word(pte_pa));
        proof {
            lemma_index_bounds(src.0 / 4096);
            let t0 = table0(*mem, root, src.0 / 4096);
            let i0 = vpn_index(src.0 / 4096, 0) as int;
            assert(pte_pa.0 / 4096 == t0 && (pte_pa.0 % 4096) / 8 == i0) by (nonlinear_arith)
                requires
                    pte_pa.0 == t0 * 4096 + i0 * 8,
                    0 <= i0 < 512,
            ;
            assert(pte@ == leaf_pte(*mem, root, src.0 / 4096));
        }
        let pa = pte.ppn().offset_in_page(src.page_offset());
        let mut k: usize = 0;
        while k < len
            invariant
                k <= len,
                len <= dst@.len(),
                dst@.len() == old(dst)@.len(),
                mem.wf(),
                pa.0 == phys_of(*mem, root, src.0),
                forall|j: int| 0 <= j < len ==> #[trigger] mem.has_addr(pa.0 + j),
                forall|j: int| 0 <= j < k ==> #[trigger] dst@[j] == mem.byte(pa.0 + j),
                forall|j: int| len <= j < dst@.len() ==> #[trigger] dst@[j] == old(dst)@[j],
            decreases len - k,
        {
            assert(mem.has_addr(pa.0 + k));
            proof {
                mem.lemma_page_range((pa.0 + k) / 4096);
            }
            let b = mem.read_byte(PhysAddr(pa.0 + k as u64));
            dst.set(k, b);
            k = k + 1;
        }
    }

    pub fn get_stack(&self) -> (r: u64)
        ensures
            r == 1024,
    {
        1024
    }

    pub(crate) fn map_user_stack(&mut self, mem: &mut PhysMem, alloc: &mut Kallocator)
        requires
            area_ready(old(self).page_table, *old(mem), *old(alloc), 0, 2),
        ensures
            *final(self) == *old(self),
            fill_inv(
                old(self).page_table,
                *old(mem),
                *old(alloc),
                *final(mem),
                *final(alloc),
                0,
                2,
                2,
                23u64,
                Seq::empty(),
                true,
            ),
            final(mem).base() == old(mem).base(),
            final(mem).npages() == old(mem).npages(),
    {
        // User stack start from 0
        let flags = PTEFlag::u().union(PTEFlag::r()).union(PTEFlag::w());
        proof {
            crate::config::lemma_bit_constants();
        }
        self.map_area_zero(mem, alloc, VirtualAddr(0)..VirtualAddr(USER_STACK_SIZE), flags);
    }

    pub fn get_root_ppn(&self) -> (r: PhysPageNum)
        ensures
            r == self.page_table.root,
    {
        self.page_table.root
    }

    pub fn entry(&self) -> (r: u64)
        ensures
            r == self.entry,
    {
        self.entry
    }
}

} // verus!

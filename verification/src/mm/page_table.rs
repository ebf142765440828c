//! Page tables that map every table frame they take into themselves, at the
//! page of the same number, so that the tables can be read through the
//! table once translation is on.
use vstd::prelude::*;
use crate::config::PTE_SIZE;
use crate::mm::address::{PhysAddr, PhysPageNum, VirtualAddr, VirtualPageNum, vpn_index, law_vpn_indices_compose};
use crate::mm::pte_sv39::{PTE, PTEFlag, pte_valid, pte_leaf, pte_ppn, pte_new, pte_flag_bits, pte_with_flags, law_new_round_trip};
use crate::mm::phys_mem::{PhysMem, lemma_same_outside_trans, lemma_same_outside_weaken};
use crate::mm::kalloc::Kallocator;
use crate::mm::pgtbl::{Pgtbl, prefix_set, lemma_prefix_skip};
use crate::mm::pt_spec::{
    tables,
    leaf_pte,
    leaf_pte_addr,
    path_ok,
    table0,
    l1_table,
    same_slot,
    differs_only_at,
    root_entry_ok,
    l1_entry_ok,
    lemma_index_bounds,
    lemma_frame,
    lemma_install_l1,
    lemma_install_l0,
    lemma_leaf_write,
    lemma_same_slot_walk,
    lemma_wf_tables,
};

verus! {

/// The entry `e` maps, at a page in the slot of `u`, one of the first `k`
/// frames of `f` to itself, readable, writable and valid.
pub open spec fn self_mapped(f: Seq<u64>, k: int, u: u64, e: u64) -> bool {
    exists|q: int| 0 <= q < k && same_slot(u, f[q]) && e == pte_new(f[q], 7)
}

/// What a lookup in the table `pt` makes of `m0` and `a0`: the table stays
/// well formed; the first frames of the free list became tables and nothing
/// else left it; only table frames changed; every valid entry of the old
/// tables stayed, and so did every walk that reached a leaf table; and a
/// leaf entry changed only from invalid to valid, to map one of the frames
/// taken to the page of the same number (readable and writable), or as
/// `extra` allows.
pub open spec fn grows(
    pt: Pgtbl,
    m0: PhysMem,
    a0: Kallocator,
    m1: PhysMem,
    a1: Kallocator,
    extra: spec_fn(u64, u64) -> bool,
) -> bool {
    let root = pt.root.0 as int;
    let f = a0.free_list();
    let k = a0.free_list().len() - a1.free_list().len();
    &&& pt.inv(m1, a1)
    &&& 0 <= k
    &&& a1.free_list() == f.skip(k)
    &&& tables(m1, root) == tables(m0, root).union(prefix_set(f, k))
    &&& m0.same_outside(m1, tables(m1, root))
    &&& forall|t: int, j: int|
        #![trigger m1.word(t, j)]
        tables(m0, root).contains(t) && 0 <= j < 512 && pte_valid(m0.word(t, j)) ==> m1.word(t, j) == m0.word(
            t,
            j,
        )
    &&& forall|u: u64|
        path_ok(m0, root, u) ==> #[trigger] path_ok(m1, root, u) && table0(m1, root, u) == table0(m0, root, u)
    &&& forall|u: u64|
        #[trigger] leaf_pte(m1, root, u) == leaf_pte(m0, root, u) || (!pte_valid(leaf_pte(m0, root, u))
            && pte_valid(leaf_pte(m1, root, u)) && (self_mapped(f, k, u, leaf_pte(m1, root, u)) || extra(
            u,
            leaf_pte(m1, root, u),
        )))
}

/// An entry made of a frame below 2^27 and the flags `flags` holds that
/// frame, and is valid and a leaf as the flags say.
proof fn lemma_new_entry(p: u64, flags: u64)
    requires
        p < 0x800_0000,
        flags < 256,
    ensures
        pte_ppn(pte_new(p, flags)) == p,
        pte_valid(pte_new(p, flags)) == (flags & 1 != 0),
        pte_leaf(pte_new(p, flags)) == (flags & 1 != 0 && (flags & 2 != 0 || flags & 8 != 0)),
{
    law_new_round_trip(p, flags);
    assert(((p << 10u64) | flags) & 1u64 == flags & 1u64 && ((p << 10u64) | flags) & 2u64 == flags & 2u64 && ((p
        << 10u64) | flags) & 8u64 == flags & 8u64) by (bit_vector)
        requires
            flags < 256,
    ;
}

/// An entry made with V among its flags is valid.
proof fn lemma_with_v_valid(p: u64, flags: u64)
    ensures
        pte_valid(pte_new(p, flags | 1)),
{
    assert(((p << 10u64) | (flags | 1u64)) & 1u64 != 0) by (bit_vector);
}

/// The entry `e` maps, at a page in the slot of `u`, a page from `lo` to
/// `hi` to the frame of the same number, with the flags `flags` and V.
pub open spec fn in_area(lo: u64, hi: u64, flags: u64, u: u64, e: u64) -> bool {
    exists|n: u64| lo <= n <= hi && #[trigger] same_slot(u, n) && e == pte_new(n, flags | 1)
}

/// An entry with its flags cleared is not valid.
proof fn lemma_flags_cleared(e: u64)
    ensures
        !pte_valid(pte_with_flags(e, 0)),
{
    assert((((e >> 8u64) << 8u64) | 0u64) & 1u64 == 0) by (bit_vector);
}

/// Two page numbers below 2^27 in the same slot are equal.
proof fn lemma_same_slot_eq(a: u64, b: u64)
    requires
        a < 0x800_0000,
        b < 0x800_0000,
        same_slot(a, b),
    ensures
        a == b,
{
    law_vpn_indices_compose(a);
    law_vpn_indices_compose(b);
}

/// A lookup in `pt` leaves alone a table `other` whose tables are apart
/// from those of `pt`: it stays well formed and apart, with the same tables
/// and leaf entries.
proof fn lemma_other_table(
    other: Pgtbl,
    pt: Pgtbl,
    m0: PhysMem,
    a0: Kallocator,
    m1: PhysMem,
    a1: Kallocator,
    x: spec_fn(u64, u64) -> bool,
)
    requires
        grows(pt, m0, a0, m1, a1, x),
        other.inv(m0, a0),
        tables(m0, other.root.0 as int).disjoint(tables(m0, pt.root.0 as int)),
    ensures
        other.inv(m1, a1),
        tables(m1, other.root.0 as int) == tables(m0, other.root.0 as int),
        tables(m1, other.root.0 as int).disjoint(tables(m1, pt.root.0 as int)),
        forall|u: u64| #[trigger] leaf_pte(m1, other.root.0 as int, u) == leaf_pte(m0, other.root.0 as int, u),
        forall|u: u64| #[trigger] path_ok(m1, other.root.0 as int, u) == path_ok(m0, other.root.0 as int, u),
        forall|u: u64|
            path_ok(m0, other.root.0 as int, u) ==> #[trigger] table0(m1, other.root.0 as int, u) == table0(
                m0,
                other.root.0 as int,
                u,
            ),
        m0.same_outside(m1, tables(m1, pt.root.0 as int)),
{
    reveal(Pgtbl::inv);
    let r = other.root.0 as int;
    let f = a0.free_list();
    let k = a0.free_list().len() - a1.free_list().len();
    let changed = tables(m1, pt.root.0 as int);
    assert(changed.disjoint(tables(m0, r))) by {
        assert forall|t: int| changed.contains(t) implies !tables(m0, r).contains(t) by {
            if prefix_set(f, k).contains(t) {
                let q = choose|q: int| 0 <= q < k && f[q] == t;
                assert(a0.free_set().contains(t));
            }
        }
    }
    a1.lemma_wf_facts(m1);
    lemma_frame(m0, m1, r, changed);
    assert(tables(m1, r).disjoint(a1.free_set())) by {
        assert forall|t: int| a1.free_set().contains(t) implies !tables(m1, r).contains(t) by {
            let q = choose|q: int| 0 <= q < a1.free_list().len() && a1.free_list()[q] == t;
            assert(a1.free_list()[q] == f[q + k]);
            assert(a0.free_set().contains(t));
        }
    }
}

/// A frame of memory that is not free is none of the free frames that a
/// lookup maps to themselves.
proof fn lemma_not_self_mapped(a: Kallocator, mem: PhysMem, k: int, p: u64, e: u64)
    requires
        a.wf(mem),
        0 <= k <= a.free_list().len(),
        mem.has_page(p as int),
        !a.free_set().contains(p as int),
    ensures
        !self_mapped(a.free_list(), k, p, e),
{
    if self_mapped(a.free_list(), k, p, e) {
        let f = a.free_list();
        let q = choose|q: int| 0 <= q < k && same_slot(p, f[q]) && e == pte_new(f[q], 7);
        a.lemma_wf_facts(mem);
        mem.lemma_page_range(f[q] as int);
        mem.lemma_page_range(p as int);
        lemma_same_slot_eq(p, f[q]);
        assert(a.free_set().contains(f[q] as int));
    }
}

/// A table none of whose frames changed stays well formed, with the same
/// tables and leaf entries, while frames only leave the free list.
proof fn lemma_untouched(other: Pgtbl, m0: PhysMem, a0: Kallocator, m1: PhysMem, a1: Kallocator, changed: Set<int>, k: int)
    requires
        other.inv(m0, a0),
        a1.wf(m1),
        0 <= k <= a0.free_list().len(),
        a1.free_list() == a0.free_list().skip(k),
        m0.same_outside(m1, changed),
        changed.disjoint(tables(m0, other.root.0 as int)),
    ensures
        other.inv(m1, a1),
        tables(m1, other.root.0 as int) == tables(m0, other.root.0 as int),
        forall|u: u64| #[trigger] leaf_pte(m1, other.root.0 as int, u) == leaf_pte(m0, other.root.0 as int, u),
{
    reveal(Pgtbl::inv);
    let r = other.root.0 as int;
    a1.lemma_wf_facts(m1);
    lemma_frame(m0, m1, r, changed);
    assert(tables(m1, r).disjoint(a1.free_set())) by {
        assert forall|t: int| a1.free_set().contains(t) implies !tables(m1, r).contains(t) by {
            let q = choose|q: int| 0 <= q < a1.free_list().len() && a1.free_list()[q] == t;
            assert(a1.free_list()[q] == a0.free_list()[q + k]);
            assert(a0.free_set().contains(t));
        }
    }
}

/// The page number of an entry has 27 bits.
proof fn lemma_ppn_bound(e: u64)
    ensures
        pte_ppn(e) < 0x800_0000,
{
    assert((e >> 10u64) & 0x7FF_FFFFu64 < 0x800_0000) by (bit_vector);
}

/// What a lookup in the table `pt` makes of `m0` and `a0` where each table
/// frame it takes is mapped into the kernel's table `kt`, whose frames are
/// apart from those of `pt`: both tables stay well formed and apart; the
/// first frames of the free list became tables of one or the other and
/// nothing else left it; only table frames changed; every valid entry of
/// the old tables stayed, and so did every walk of `pt` that reached a leaf
/// table and every leaf entry of `pt`; a leaf entry of `kt` changed only
/// from invalid to valid, to map one of the frames taken to the page of the
/// same number (readable and writable), or as `extra` allows.
pub open spec fn grows_apart(
    pt: Pgtbl,
    kt: Pgtbl,
    m0: PhysMem,
    a0: Kallocator,
    m1: PhysMem,
    a1: Kallocator,
    extra: spec_fn(u64, u64) -> bool,
) -> bool {
    let r = pt.root.0 as int;
    let kr = kt.root.0 as int;
    let f = a0.free_list();
    let k = a0.free_list().len() - a1.free_list().len();
    &&& pt.inv(m1, a1)
    &&& kt.inv(m1, a1)
    &&& 0 <= k
    &&& a1.free_list() == f.skip(k)
    &&& tables(m1, r).disjoint(tables(m1, kr))
    &&& tables(m0, r).subset_of(tables(m1, r))
    &&& tables(m1, r).subset_of(tables(m0, r).union(prefix_set(f, k)))
    &&& tables(m0, kr).subset_of(tables(m1, kr))
    &&& tables(m1, kr).subset_of(tables(m0, kr).union(prefix_set(f, k)))
    &&& m0.same_outside(m1, tables(m1, r).union(tables(m1, kr)))
    &&& forall|t: int, j: int|
        #![trigger m1.word(t, j)]
        (tables(m0, r).contains(t) || tables(m0, kr).contains(t)) && 0 <= j < 512 && pte_valid(m0.word(t, j))
            ==> m1.word(t, j) == m0.word(t, j)
    &&& forall|u: u64|
        path_ok(m0, r, u) ==> #[trigger] path_ok(m1, r, u) && table0(m1, r, u) == table0(m0, r, u)
    &&& forall|u: u64| #[trigger] leaf_pte(m1, r, u) == leaf_pte(m0, r, u)
    &&& forall|u: u64|
        #[trigger] leaf_pte(m1, kr, u) == leaf_pte(m0, kr, u) || (!pte_valid(leaf_pte(m0, kr, u)) && pte_valid(
            leaf_pte(m1, kr, u),
        ) && (self_mapped(f, k, u, leaf_pte(m1, kr, u)) || extra(u, leaf_pte(m1, kr, u))))
}

/// Nothing done is a lookup into the kernel's table.
proof fn lemma_apart_refl(pt: Pgtbl, kt: Pgtbl, m: PhysMem, a: Kallocator, x: spec_fn(u64, u64) -> bool)
    requires
        pt.inv(m, a),
        kt.inv(m, a),
        tables(m, pt.root.0 as int).disjoint(tables(m, kt.root.0 as int)),
    ensures
        grows_apart(pt, kt, m, a, m, a, x),
{
    assert(a.free_list().skip(0) =~= a.free_list());
}

/// Two lookups into the kernel's table in a row are one; what the second
/// adds to the kernel's table beyond the frames it took may be a frame the
/// first took.
proof fn lemma_apart_trans(
    pt: Pgtbl,
    kt: Pgtbl,
    m0: PhysMem,
    a0: Kallocator,
    m1: PhysMem,
    a1: Kallocator,
    m2: PhysMem,
    a2: Kallocator,
    x1: spec_fn(u64, u64) -> bool,
    x2: spec_fn(u64, u64) -> bool,
    x: spec_fn(u64, u64) -> bool,
)
    requires
        grows_apart(pt, kt, m0, a0, m1, a1, x1),
        grows_apart(pt, kt, m1, a1, m2, a2, x2),
        forall|u: u64, e: u64| #[trigger] x1(u, e) ==> x(u, e),
        forall|u: u64, e: u64|
            #[trigger] x2(u, e) ==> x(u, e) || self_mapped(
                a0.free_list(),
                a0.free_list().len() - a1.free_list().len(),
                u,
                e,
            ),
    ensures
        grows_apart(pt, kt, m0, a0, m2, a2, x),
{
    let r = pt.root.0 as int;
    let kr = kt.root.0 as int;
    let f = a0.free_list();
    let k1 = a0.free_list().len() - a1.free_list().len();
    let k2 = a1.free_list().len() - a2.free_list().len();
    lemma_prefix_skip(f, k1, k2);
    let t1 = tables(m1, r).union(tables(m1, kr));
    let t2 = tables(m2, r).union(tables(m2, kr));
    lemma_same_outside_trans(m0, m1, m2, t1, t2);
    assert(t1.union(t2) =~= t2);
    assert forall|u: u64, e: u64| self_mapped(f.skip(k1), k2, u, e) implies self_mapped(f, k1 + k2, u, e) by {
        let q = choose|q: int| 0 <= q < k2 && same_slot(u, f.skip(k1)[q]) && e == pte_new(f.skip(k1)[q], 7);
        assert(f.skip(k1)[q] == f[k1 + q]);
    }
    assert forall|u: u64, e: u64| self_mapped(f, k1, u, e) implies self_mapped(f, k1 + k2, u, e) by {
        let q = choose|q: int| 0 <= q < k1 && same_slot(u, f[q]) && e == pte_new(f[q], 7);
    }
    assert forall|t: int, j: int|
        (tables(m0, r).contains(t) || tables(m0, kr).contains(t)) && 0 <= j < 512 && pte_valid(m0.word(t, j))
        implies #[trigger] m2.word(t, j) == m0.word(t, j) by {
        assert(m1.word(t, j) == m0.word(t, j));
    }
    assert forall|u: u64| #[trigger]
        leaf_pte(m2, kr, u) == leaf_pte(m0, kr, u) || (!pte_valid(leaf_pte(m0, kr, u)) && pte_valid(
            leaf_pte(m2, kr, u),
        ) && (self_mapped(f, k1 + k2, u, leaf_pte(m2, kr, u)) || x(u, leaf_pte(m2, kr, u)))) by {
        let l0 = leaf_pte(m0, kr, u);
        let l1 = leaf_pte(m1, kr, u);
        let l2 = leaf_pte(m2, kr, u);
        if l2 != l1 {
            assert(!pte_valid(l1));
            assert(l1 == l0);
            if x2(u, l2) {
            }
        } else if l1 != l0 {
            if x1(u, l1) {
            }
        }
    }
    assert(tables(m2, r).subset_of(tables(m0, r).union(prefix_set(f, k1 + k2))));
    assert(tables(m2, kr).subset_of(tables(m0, kr).union(prefix_set(f, k1 + k2))));
}

/// Taking the first free frame as a new table of `pt` (see
/// `lemma_grows_install`) leaves the kernel's table alone.
proof fn lemma_apart_install(
    pt: Pgtbl,
    kt: Pgtbl,
    m0: PhysMem,
    a0: Kallocator,
    m2: PhysMem,
    a1: Kallocator,
)
    requires
        grows(pt, m0, a0, m2, a1, |u: u64, e: u64| false),
        forall|u: u64| #[trigger] leaf_pte(m2, pt.root.0 as int, u) == leaf_pte(m0, pt.root.0 as int, u),
        a0.free_list().len() > 0,
        tables(m2, pt.root.0 as int) == tables(m0, pt.root.0 as int).insert(a0.free_list()[0] as int),
        a1.free_list() == a0.free_list().drop_first(),
        kt.inv(m0, a0),
        tables(m0, pt.root.0 as int).disjoint(tables(m0, kt.root.0 as int)),
    ensures
        grows_apart(pt, kt, m0, a0, m2, a1, |u: u64, e: u64| false),
{
    reveal(Pgtbl::inv);
    let r = pt.root.0 as int;
    let kr = kt.root.0 as int;
    let f = a0.free_list();
    let p = f[0] as int;
    assert(a1.free_list().len() == f.len() - 1);
    assert(a0.free_set().contains(p));
    let changed = tables(m2, r);
    assert(changed.disjoint(tables(m0, kr)));
    assert(a1.free_list() =~= f.skip(1));
    lemma_untouched(kt, m0, a0, m2, a1, changed, 1);
    lemma_same_outside_weaken(m0, m2, changed, changed.union(tables(m2, kr)));
}

/// A lookup in the kernel's table `kt` that leaves a table `pt` apart from
/// it alone is a lookup into the kernel's table on behalf of `pt`.
proof fn lemma_apart_kernel_step(
    pt: Pgtbl,
    kt: Pgtbl,
    m0: PhysMem,
    a0: Kallocator,
    m1: PhysMem,
    a1: Kallocator,
    x: spec_fn(u64, u64) -> bool,
)
    requires
        grows(kt, m0, a0, m1, a1, x),
        pt.inv(m0, a0),
        tables(m0, pt.root.0 as int).disjoint(tables(m0, kt.root.0 as int)),
    ensures
        grows_apart(pt, kt, m0, a0, m1, a1, x),
{
    let r = pt.root.0 as int;
    let kr = kt.root.0 as int;
    let f = a0.free_list();
    let k = a0.free_list().len() - a1.free_list().len();
    lemma_other_table(pt, kt, m0, a0, m1, a1, x);
    lemma_same_outside_weaken(m0, m1, tables(m1, kr), tables(m1, r).union(tables(m1, kr)));
    assert forall|t: int, j: int|
        (tables(m0, r).contains(t) || tables(m0, kr).contains(t)) && 0 <= j < 512 && pte_valid(m0.word(t, j))
        implies #[trigger] m1.word(t, j) == m0.word(t, j) by {
        if tables(m0, r).contains(t) {
            assert(!tables(m1, kr).contains(t));
        }
    }
    assert(tables(m1, kr) =~= tables(m0, kr).union(prefix_set(f, k)));
}

/// The kernel's table, where one is given.
pub open spec fn kernel_table(kernel: Option<&PageTable>) -> Option<Pgtbl> {
    match kernel {
        Some(k) => Some(k.pt()),
        None => None,
    }
}

/// A given kernel's table is well formed and apart from `pt`.
pub open spec fn kernel_apart(pt: Pgtbl, kernel: Option<Pgtbl>, m: PhysMem, a: Kallocator) -> bool {
    kernel matches Some(kt) ==> kt.inv(m, a) && tables(m, pt.root.0 as int).disjoint(tables(m, kt.root.0 as int))
}

/// What a lookup in `pt` does: new tables are mapped into the kernel's
/// table where one is given (see `grows_apart`), else into `pt` itself
/// (see `grows`).
pub open spec fn lookup_step(
    pt: Pgtbl,
    kernel: Option<Pgtbl>,
    m0: PhysMem,
    a0: Kallocator,
    m1: PhysMem,
    a1: Kallocator,
) -> bool {
    match kernel {
        Some(kt) => grows_apart(pt, kt, m0, a0, m1, a1, |u: u64, e: u64| false),
        None => grows(pt, m0, a0, m1, a1, |u: u64, e: u64| false),
    }
}

/// Nothing done is a lookup step.
proof fn lemma_lookup_refl(pt: Pgtbl, kernel: Option<Pgtbl>, m: PhysMem, a: Kallocator)
    requires
        pt.inv(m, a),
        kernel_apart(pt, kernel, m, a),
    ensures
        lookup_step(pt, kernel, m, a, m, a),
{
    match kernel {
        Some(kt) => lemma_apart_refl(pt, kt, m, a, |u: u64, e: u64| false),
        None => lemma_grows_refl(pt, m, a, |u: u64, e: u64| false),
    }
}

/// Two lookup steps in a row are one.
proof fn lemma_lookup_trans(
    pt: Pgtbl,
    kernel: Option<Pgtbl>,
    m0: PhysMem,
    a0: Kallocator,
    m1: PhysMem,
    a1: Kallocator,
    m2: PhysMem,
    a2: Kallocator,
)
    requires
        lookup_step(pt, kernel, m0, a0, m1, a1),
        lookup_step(pt, kernel, m1, a1, m2, a2),
    ensures
        lookup_step(pt, kernel, m0, a0, m2, a2),
{
    let none = |u: u64, e: u64| false;
    match kernel {
        Some(kt) => lemma_apart_trans(pt, kt, m0, a0, m1, a1, m2, a2, none, none, none),
        None => lemma_grows_trans(pt, m0, a0, m1, a1, m2, a2, none, none, none),
    }
}

/// What a lookup step keeps of the table `pt`.
proof fn lemma_lookup_facts(
    pt: Pgtbl,
    kernel: Option<Pgtbl>,
    m0: PhysMem,
    a0: Kallocator,
    m1: PhysMem,
    a1: Kallocator,
)
    requires
        lookup_step(pt, kernel, m0, a0, m1, a1),
    ensures
        pt.inv(m1, a1),
        kernel_apart(pt, kernel, m1, a1),
        a1.free_list().len() <= a0.free_list().len(),
        a1.free_list() == a0.free_list().skip(a0.free_list().len() - a1.free_list().len()),
        tables(m0, pt.root.0 as int).subset_of(tables(m1, pt.root.0 as int)),
        forall|t: int, j: int|
            #![trigger m1.word(t, j)]
            tables(m0, pt.root.0 as int).contains(t) && 0 <= j < 512 && pte_valid(m0.word(t, j)) ==> m1.word(t, j)
                == m0.word(t, j),
        forall|u: u64|
            path_ok(m0, pt.root.0 as int, u) ==> #[trigger] path_ok(m1, pt.root.0 as int, u) && table0(
                m1,
                pt.root.0 as int,
                u,
            ) == table0(m0, pt.root.0 as int, u),
{
}

/// Clearing the flags of the zero entry leaves it zero.
proof fn lemma_flags_cleared_zero()
    ensures
        pte_with_flags(0, 0) == 0,
{
    assert(((0u64 >> 8u64) << 8u64) | 0u64 == 0) by (bit_vector);
}

/// Nothing done is a lookup.
proof fn lemma_grows_refl(pt: Pgtbl, m: PhysMem, a: Kallocator, x: spec_fn(u64, u64) -> bool)
    requires
        pt.inv(m, a),
    ensures
        grows(pt, m, a, m, a, x),
{
    let root = pt.root.0 as int;
    assert(a.free_list().skip(0) =~= a.free_list());
    assert(prefix_set(a.free_list(), 0) =~= Set::empty());
    assert(tables(m, root).union(prefix_set(a.free_list(), 0)) =~= tables(m, root));
}

/// Two lookups in a row are a lookup; what the second adds beyond the
/// frames it took may be a frame the first took.
proof fn lemma_grows_trans(
    pt: Pgtbl,
    m0: PhysMem,
    a0: Kallocator,
    m1: PhysMem,
    a1: Kallocator,
    m2: PhysMem,
    a2: Kallocator,
    x1: spec_fn(u64, u64) -> bool,
    x2: spec_fn(u64, u64) -> bool,
    x: spec_fn(u64, u64) -> bool,
)
    requires
        grows(pt, m0, a0, m1, a1, x1),
        grows(pt, m1, a1, m2, a2, x2),
        forall|u: u64, e: u64| #[trigger] x1(u, e) ==> x(u, e),
        forall|u: u64, e: u64|
            #[trigger] x2(u, e) ==> x(u, e) || self_mapped(
                a0.free_list(),
                a0.free_list().len() - a1.free_list().len(),
                u,
                e,
            ),
    ensures
        grows(pt, m0, a0, m2, a2, x),
{
    let root = pt.root.0 as int;
    let f = a0.free_list();
    let k1 = a0.free_list().len() - a1.free_list().len();
    let k2 = a1.free_list().len() - a2.free_list().len();
    lemma_prefix_skip(f, k1, k2);
    let t0 = tables(m0, root);
    let t1 = tables(m1, root);
    let t2 = tables(m2, root);
    assert(t2 =~= t0.union(prefix_set(f, k1 + k2)));
    lemma_same_outside_trans(m0, m1, m2, t1, t2);
    assert(t1.union(t2) =~= t2);
    assert forall|u: u64, e: u64| self_mapped(f.skip(k1), k2, u, e) implies self_mapped(f, k1 + k2, u, e) by {
        let q = choose|q: int| 0 <= q < k2 && same_slot(u, f.skip(k1)[q]) && e == pte_new(f.skip(k1)[q], 7);
        assert(f.skip(k1)[q] == f[k1 + q]);
    }
    assert forall|u: u64, e: u64| self_mapped(f, k1, u, e) implies self_mapped(f, k1 + k2, u, e) by {
        let q = choose|q: int| 0 <= q < k1 && same_slot(u, f[q]) && e == pte_new(f[q], 7);
    }
    assert forall|t: int, j: int|
        t0.contains(t) && 0 <= j < 512 && pte_valid(m0.word(t, j)) implies #[trigger] m2.word(t, j) == m0.word(
        t,
        j,
    ) by {
        assert(m1.word(t, j) == m0.word(t, j));
        assert(t1.contains(t));
    }
    assert forall|u: u64| #[trigger]
        leaf_pte(m2, root, u) == leaf_pte(m0, root, u) || (!pte_valid(leaf_pte(m0, root, u)) && pte_valid(
            leaf_pte(m2, root, u),
        ) && (self_mapped(f, k1 + k2, u, leaf_pte(m2, root, u)) || x(u, leaf_pte(m2, root, u)))) by {
        let l0 = leaf_pte(m0, root, u);
        let l1 = leaf_pte(m1, root, u);
        let l2 = leaf_pte(m2, root, u);
        if l2 != l1 {
            assert(!pte_valid(l1));
            assert(l1 == l0);
            if x2(u, l2) {
            }
        } else if l1 != l0 {
            if x1(u, l1) {
            }
        }
    }
}

/// Taking the first free frame, zeroed, as a new table under the invalid
/// entry `j` of the root (where `i2` is negative) or of the level-1 table of
/// the valid root entry `i2`, with flags exactly V, is a lookup.
proof fn lemma_grows_install(
    pt: Pgtbl,
    m0: PhysMem,
    a0: Kallocator,
    m1: PhysMem,
    a1: Kallocator,
    m2: PhysMem,
    t: int,
    j: int,
    i2: int,
)
    requires
        pt.inv(m0, a0),
        a0.free_list().len() > 0,
        a1.free_list() == a0.free_list().drop_first(),
        a1.wf(m1),
        m1.page_is_zero(a0.free_list()[0] as int),
        m0.same_outside(m1, set![a0.free_list()[0] as int]),
        0 <= j < 512,
        i2 < 0 ==> t == pt.root.0,
        i2 >= 0 ==> i2 < 512 && pte_valid(m0.word(pt.root.0 as int, i2)) && t == l1_table(m0, pt.root.0 as int, i2),
        !pte_valid(m0.word(t, j)),
        differs_only_at(m1, m2, t, j),
        m2.word(t, j) == pte_new(a0.free_list()[0], 1),
    ensures
        grows(pt, m0, a0, m2, a1, |u: u64, e: u64| false),
        forall|u: u64| #[trigger] leaf_pte(m2, pt.root.0 as int, u) == leaf_pte(m0, pt.root.0 as int, u),
        tables(m2, pt.root.0 as int) == tables(m0, pt.root.0 as int).insert(a0.free_list()[0] as int),
{
    reveal(Pgtbl::inv);
    let root = pt.root.0 as int;
    let f = a0.free_list();
    let p = f[0] as int;
    a0.lemma_wf_facts(m0);
    a1.lemma_wf_facts(m1);
    crate::config::lemma_bit_constants();
    assert(a0.free_set().contains(p));
    assert(!tables(m0, root).contains(p));
    assert(set![p].disjoint(tables(m0, root)));
    lemma_frame(m0, m1, root, set![p]);
    assert(m0.has_page(p));
    m0.lemma_page_range(p);
    lemma_new_entry(f[0], 1);
    assert(tables(m0, root).contains(root));
    if i2 >= 0 {
        lemma_wf_tables(m0, root);
        assert(m1.word(root, i2) == m0.word(root, i2));
        assert(t == l1_table(m1, root, i2));
        lemma_install_l0(m1, m2, root, i2, j, p);
    } else {
        lemma_install_l1(m1, m2, root, j, p);
    }
    assert(tables(m0, root).contains(t)) by {
        if i2 >= 0 {
            assert(crate::mm::pt_spec::is_l1(m0, root, t));
        }
    }
    // the allocator
    a1.lemma_wf_facts(m1);
    assert(!a1.free_set().contains(t)) by {
        if a1.free_set().contains(t) {
            let q = choose|q: int| 0 <= q < a1.free_list().len() && a1.free_list()[q] == t;
            assert(a1.free_list()[q] == f[q + 1]);
            assert(a0.free_set().contains(t));
        }
    }
    a1.lemma_wf_frame(m1, m2, set![t]);
    assert(a1.free_list() =~= f.skip(1));
    assert(prefix_set(f, 1) =~= set![p]) by {
        assert forall|x: int| prefix_set(f, 1).contains(x) <==> x == p by {
            if x == p {
                assert(0 <= 0 < 1 && f[0] == x);
            }
        }
    }
    assert(tables(m2, root) =~= tables(m0, root).union(prefix_set(f, 1)));
    assert(tables(m2, root).disjoint(a1.free_set())) by {
        assert forall|x: int| tables(m2, root).contains(x) implies !a1.free_set().contains(x) by {
            if a1.free_set().contains(x) {
                let q = choose|q: int| 0 <= q < a1.free_list().len() && a1.free_list()[q] == x;
                assert(a1.free_list()[q] == f[q + 1]);
                assert(a0.free_set().contains(x));
                if x == p {
                    assert(f[0] == f[q + 1]);
                }
            }
        }
    }
    lemma_same_outside_trans(m0, m1, m2, set![p], set![t]);
    lemma_same_outside_weaken(m0, m2, set![p].union(set![t]), tables(m2, root));
    assert forall|tt: int, jj: int|
        tables(m0, root).contains(tt) && 0 <= jj < 512 && pte_valid(m0.word(tt, jj)) implies #[trigger] m2.word(
        tt,
        jj,
    ) == m0.word(tt, jj) by {
        assert(m1.word(tt, jj) == m0.word(tt, jj));
    }
}

/// A lookup followed by a write of the valid entry `e` into the invalid
/// leaf entry of `v`, which the lookup made reachable, is a lookup whose
/// extra is that entry.
proof fn lemma_grows_leaf(
    pt: Pgtbl,
    m0: PhysMem,
    a0: Kallocator,
    m1: PhysMem,
    a1: Kallocator,
    m2: PhysMem,
    v: u64,
    e: u64,
)
    requires
        grows(pt, m0, a0, m1, a1, |u: u64, e: u64| false),
        path_ok(m1, pt.root.0 as int, v),
        !pte_valid(leaf_pte(m1, pt.root.0 as int, v)),
        differs_only_at(m1, m2, table0(m1, pt.root.0 as int, v), vpn_index(v, 0) as int),
        m2.word(table0(m1, pt.root.0 as int, v), vpn_index(v, 0) as int) == e,
        pte_valid(e),
    ensures
        grows(pt, m0, a0, m2, a1, |u: u64, x: u64| same_slot(u, v) && x == e),
{
    reveal(Pgtbl::inv);
    let root = pt.root.0 as int;
    let f = a0.free_list();
    let k = a0.free_list().len() - a1.free_list().len();
    let t = table0(m1, root, v);
    let j = vpn_index(v, 0) as int;
    lemma_index_bounds(v);
    lemma_leaf_write(m1, m2, root, v);
    lemma_wf_tables(m1, root);
    assert(tables(m1, root).contains(t)) by {
        assert(crate::mm::pt_spec::is_l0(m1, root, t));
    }
    a1.lemma_wf_facts(m1);
    a1.lemma_wf_frame(m1, m2, set![t]);
    lemma_same_outside_trans(m0, m1, m2, tables(m1, root), set![t]);
    assert(tables(m1, root).union(set![t]) =~= tables(m2, root));
    assert(m1.word(t, j) == leaf_pte(m1, root, v));
    assert forall|tt: int, jj: int|
        tables(m0, root).contains(tt) && 0 <= jj < 512 && pte_valid(m0.word(tt, jj)) implies #[trigger] m2.word(
        tt,
        jj,
    ) == m0.word(tt, jj) by {
        assert(m1.word(tt, jj) == m0.word(tt, jj));
    }
    assert forall|u: u64| #[trigger]
        leaf_pte(m2, root, u) == leaf_pte(m0, root, u) || (!pte_valid(leaf_pte(m0, root, u)) && pte_valid(
            leaf_pte(m2, root, u),
        ) && (self_mapped(f, k, u, leaf_pte(m2, root, u)) || (same_slot(u, v) && leaf_pte(m2, root, u) == e))) by {
        if same_slot(u, v) {
            lemma_same_slot_walk(m1, root, u, v);
            assert(leaf_pte(m1, root, u) == leaf_pte(m0, root, u));
        } else {
            assert(leaf_pte(m2, root, u) == leaf_pte(m1, root, u));
        }
    }
}

/// A frame that a page table handed out.
#[derive(Clone, Copy, Debug)]
pub struct PhysFrameTracker(pub PhysPageNum);

/// A three-level Sv39 page table, given by the frame of its root.
#[derive(Clone, Copy, Debug)]
pub struct PageTable {
    pub root_ppn: PhysPageNum,
}

impl PageTable {
    /// The same table, seen as a `Pgtbl`.
    pub open spec fn pt(self) -> Pgtbl {
        Pgtbl { root: self.root_ppn }
    }

    /// Frame of the root.
    pub open spec fn root(self) -> int {
        self.root_ppn.0 as int
    }

    /// A table with no frame yet (frame 0).
    pub fn default() -> (r: Self)
        ensures
            r.root_ppn.0 == 0,
    {
        PageTable { root_ppn: PhysPageNum(0) }
    }

    /// A table with a fresh root frame, the first free one. Where
    /// `read_page_table` is set, the root frame is mapped into the table
    /// itself at the page of the same number, readable; where `map_parent`
    /// is given, it is mapped there too, readable and writable (see
    /// `map_frame`). `None` where no frame is free, or where the free list
    /// runs out on the way.
    pub fn new(
        mem: &mut PhysMem,
        alloc: &mut Kallocator,
        read_page_table: bool,
        map_parent: Option<&PageTable>,
    ) -> (r: Option<Self>)
        requires
            old(alloc).wf(*old(mem)),
            map_parent matches Some(p) ==> p.pt().inv(*old(mem), *old(alloc)),
        ensures
            old(alloc).free_list().len() == 0 ==> r is None && *final(mem) == *old(mem) && *final(alloc) == *old(
                alloc,
            ),
            r is None && old(alloc).free_list().len() > 0 ==> final(alloc).free_list().len() == 0,
            final(alloc).wf(*final(mem)),
            final(alloc).free_list() == old(alloc).free_list().skip(
                old(alloc).free_list().len() - final(alloc).free_list().len(),
            ),
            r matches Some(t) ==> t.root_ppn.0 == old(alloc).free_list()[0] && t.pt().inv(*final(mem), *final(alloc)),
            r matches Some(t) ==> leaf_pte(*final(mem), t.root(), t.root_ppn.0) == if read_page_table {
                pte_new(t.root_ppn.0, 3)
            } else {
                0
            },
            r matches Some(t) ==> (map_parent matches Some(p) ==> p.pt().inv(*final(mem), *final(alloc)) && tables(
                *final(mem),
                t.root(),
            ).disjoint(tables(*final(mem), p.root())) && leaf_pte(*final(mem), p.root(), t.root_ppn.0) == if pte_valid(
                leaf_pte(*old(mem), p.root(), t.root_ppn.0),
            ) {
                leaf_pte(*old(mem), p.root(), t.root_ppn.0)
            } else {
                pte_new(t.root_ppn.0, 7)
            }),
    {
        if !alloc.has_free(mem, 1) {
            return None;
        }
        let ghost m0 = *mem;
        let ghost a0 = *alloc;
        let pt = Pgtbl::new(mem, alloc);
        let table = PageTable { root_ppn: pt.root };
        let ghost m1 = *mem;
        let ghost a1 = *alloc;
        let ghost root = pt.root.0;
        proof {
            reveal(Pgtbl::inv);
            crate::config::lemma_bit_constants();
            a0.lemma_wf_facts(m0);
            a1.lemma_wf_facts(m1);
            assert(a0.free_set().contains(root as int));
            assert(m1.has_page(root as int));
            assert(tables(m1, root as int).contains(root as int));
            lemma_prefix_skip(a0.free_list(), 1, 0);
            assert(a0.free_list().drop_first() =~= a0.free_list().skip(1));
            if let Some(p) = map_parent {
                let pr = p.root();
                assert(!tables(m0, pr).contains(root as int));
                assert(set![root as int].disjoint(tables(m0, pr)));
                lemma_frame(m0, m1, pr, set![root as int]);
                assert(tables(m1, pr).disjoint(a1.free_set())) by {
                    assert forall|t: int| a1.free_set().contains(t) implies !tables(m1, pr).contains(t) by {
                        let q = choose|q: int| 0 <= q < a1.free_list().len() && a1.free_list()[q] == t;
                        assert(a1.free_list()[q] == a0.free_list()[q + 1]);
                        assert(a0.free_set().contains(t));
                    }
                }
                assert(tables(m1, root as int).disjoint(tables(m1, pr)));
            }
        }
        if read_page_table {
            let ok = table.map_frame(mem, alloc, VirtualPageNum(pt.root.0), PTEFlag::r(), pt.root);
            proof {
                lemma_not_self_mapped(a1, m1, a1.free_list().len() - alloc.free_list().len(), root, leaf_pte(
                    *mem,
                    root as int,
                    root,
                ));
                assert(!pte_valid(leaf_pte(m1, root as int, root)));
                if let Some(p) = map_parent {
                    lemma_other_table(p.pt(), table.pt(), m1, a1, *mem, *alloc, |u: u64, e: u64| same_slot(u, root) && e == pte_new(root, 2u64 | 1));
                }
                lemma_prefix_skip(a0.free_list(), 1, a1.free_list().len() - alloc.free_list().len());
            }
            if ok.is_none() {
                return None;
            }
        }
        let ghost m2 = *mem;
        let ghost a2 = *alloc;
        match map_parent {
            Some(p) => {
                let ok = p.map_frame(mem, alloc, VirtualPageNum(pt.root.0), PTEFlag::r().union(PTEFlag::w()), pt.root);
                proof {
                    reveal(Pgtbl::inv);
                    a2.lemma_wf_facts(m2);
                    assert(tables(m2, root as int).contains(root as int));
                    lemma_not_self_mapped(a2, m2, a2.free_list().len() - alloc.free_list().len(), root, leaf_pte(
                        *mem,
                        p.root(),
                        root,
                    ));
                    lemma_other_table(table.pt(), p.pt(), m2, a2, *mem, *alloc, |u: u64, e: u64| same_slot(u, root) && e == pte_new(root, 6u64 | 1));
                    lemma_prefix_skip(a0.free_list(), a0.free_list().len() - a2.free_list().len(), a2.free_list().len() - alloc.free_list().len());
                }
                if ok.is_none() {
                    return None;
                }
            },
            None => {},
        }
        Some(table)
    }

    /// The address of the leaf entry of the page `vaddr`. A missing table
    /// on the way is made by `alloc_pte`, which maps the new table into the
    /// kernel's table `kernel` where one is given, else into this table.
    /// `None` where the free list runs out before the walk is complete.
    pub fn find_pte(
        &self,
        mem: &mut PhysMem,
        alloc: &mut Kallocator,
        vaddr: VirtualPageNum,
        kernel: Option<&PageTable>,
    ) -> (r: Option<PhysAddr>)
        requires
            self.pt().inv(*old(mem), *old(alloc)),
            kernel_apart(self.pt(), kernel_table(kernel), *old(mem), *old(alloc)),
        ensures
            lookup_step(self.pt(), kernel_table(kernel), *old(mem), *old(alloc), *final(mem), *final(alloc)),
            r is Some <==> path_ok(*final(mem), self.root(), vaddr.0),
            r matches Some(pa) ==> pa.0 == leaf_pte_addr(*final(mem), self.root(), vaddr.0),
            r is None ==> final(alloc).free_list().len() == 0,
            path_ok(*old(mem), self.root(), vaddr.0) ==> r is Some && *final(mem) == *old(mem) && *final(alloc)
                == *old(alloc),
        decreases old(alloc).free_list().len(), 2nat,
    {
        let ghost root = self.root();
        let ghost pt = self.pt();
        let ghost kt = kernel_table(kernel);
        let ghost m0 = *mem;
        let ghost a0 = *alloc;
        proof {
            reveal(Pgtbl::inv);
            lemma_index_bounds(vaddr.0);
            lemma_lookup_refl(pt, kt, m0, a0);
            lemma_wf_tables(m0, root);
            crate::config::lemma_bit_constants();
        }
        let i2 = vaddr.vpn_block_sv39(2);
        let i1 = vaddr.vpn_block_sv39(1);
        let i0 = vaddr.vpn_block_sv39(0);
        let e2 = PTE::from_bits(mem.read_page_word(self.root_ppn, i2));
        if !e2.is_valid() {
            self.alloc_pte(mem, alloc, self.root_ppn, i2, PTEFlag::v(), kernel, Ghost(-1));
        }
        let ghost m1 = *mem;
        let ghost a1 = *alloc;
        proof {
            reveal(Pgtbl::inv);
            lemma_lookup_facts(pt, kt, m0, a0, m1, a1);
            lemma_wf_tables(m1, root);
            assert(tables(m0, root).contains(root));
            assert(root_entry_ok(m1, root, i2 as int));
        }
        let e2 = PTE::from_bits(mem.read_page_word(self.root_ppn, i2));
        if !e2.is_valid() {
            return None;
        }
        let t1 = e2.ppn();
        let e1 = PTE::from_bits(mem.read_page_word(t1, i1));
        proof {
            lemma_lookup_refl(pt, kt, m1, a1);
        }
        if !e1.is_valid() {
            self.alloc_pte(mem, alloc, t1, i1, PTEFlag::v(), kernel, Ghost(i2 as int));
        }
        let ghost m2 = *mem;
        proof {
            reveal(Pgtbl::inv);
            lemma_lookup_trans(pt, kt, m0, a0, m1, a1, m2, *alloc);
            lemma_lookup_facts(pt, kt, m1, a1, m2, *alloc);
            assert(tables(m1, root).contains(root));
            assert(m2.word(root, i2 as int) == m1.word(root, i2 as int));
            assert(tables(m1, root).contains(t1.0 as int)) by {
                assert(crate::mm::pt_spec::is_l1(m1, root, t1.0 as int));
            }
            lemma_wf_tables(m2, root);
        }
        let e1 = PTE::from_bits(mem.read_page_word(t1, i1));
        if !e1.is_valid() {
            return None;
        }
        proof {
            assert(path_ok(m2, root, vaddr.0));
            assert(l1_entry_ok(m2, root, i2 as int, i1 as int));
            m2.lemma_page_range(table0(m2, root, vaddr.0));
        }
        let t0 = e1.ppn();
        proof {
            assert((t0.0 * 4096 + i0 * 8) / 4096 == t0.0) by (nonlinear_arith)
                requires
                    i0 < 512,
            ;
        }
        Some(t0.offset_in_page(i0 * PTE_SIZE))
    }

    /// Maps the page `vaddr` with the flags `flag` and V. Where the page is
    /// not mapped yet, it gets a fresh frame, which is also mapped into the
    /// kernel's table `kernel` (see `PhysFrameTracker::new`); where it is,
    /// `flag` is added to its flags. Gives back the frame that the page
    /// maps. `None` where the free list runs out on the way.
    pub fn map(
        &self,
        mem: &mut PhysMem,
        alloc: &mut Kallocator,
        vaddr: VirtualPageNum,
        flag: PTEFlag,
        kernel: &PageTable,
    ) -> (r: Option<PhysFrameTracker>)
        requires
            self.pt().inv(*old(mem), *old(alloc)),
            kernel.pt().inv(*old(mem), *old(alloc)),
            tables(*old(mem), self.root()).disjoint(tables(*old(mem), kernel.root())),
        ensures
            self.pt().inv(*final(mem), *final(alloc)),
            kernel.pt().inv(*final(mem), *final(alloc)),
            tables(*final(mem), self.root()).disjoint(tables(*final(mem), kernel.root())),
            final(alloc).free_list() == old(alloc).free_list().skip(
                old(alloc).free_list().len() - final(alloc).free_list().len(),
            ),
            r is None ==> final(alloc).free_list().len() == 0,
            pte_valid(leaf_pte(*old(mem), self.root(), vaddr.0)) ==> r == Some(
                PhysFrameTracker(PhysPageNum(pte_ppn(leaf_pte(*old(mem), self.root(), vaddr.0)))),
            ) && leaf_pte(*final(mem), self.root(), vaddr.0) == pte_new(
                pte_ppn(leaf_pte(*old(mem), self.root(), vaddr.0)),
                flag@ | pte_flag_bits(leaf_pte(*old(mem), self.root(), vaddr.0)),
            ),
            r matches Some(t) ==> (!pte_valid(leaf_pte(*old(mem), self.root(), vaddr.0)) ==> prefix_set(
                old(alloc).free_list(),
                old(alloc).free_list().len() - final(alloc).free_list().len(),
            ).contains(t.0.0 as int) && !tables(*final(mem), self.root()).contains(t.0.0 as int)
                && final(mem).page_is_zero(t.0.0 as int)
                && leaf_pte(*final(mem), self.root(), vaddr.0) == pte_new(t.0.0, flag@ | 1)),
            forall|u: u64|
                !same_slot(u, vaddr.0) ==> #[trigger] leaf_pte(*final(mem), self.root(), u) == leaf_pte(
                    *old(mem),
                    self.root(),
                    u,
                ),
    {
        let ghost root = self.root();
        let ghost kr = kernel.root();
        let ghost m0 = *mem;
        let ghost a0 = *alloc;
        let ghost f = a0.free_list();
        let ghost none = |u: u64, e: u64| false;
        proof {
            crate::config::lemma_bit_constants();
            if pte_valid(leaf_pte(m0, root, vaddr.0)) {
                assert(path_ok(m0, root, vaddr.0));
            }
        }
        let found = self.find_pte(mem, alloc, vaddr, Some(kernel));
        let pa = match found {
            Some(pa) => pa,
            None => return None,
        };
        let ghost m1 = *mem;
        let ghost a1 = *alloc;
        let ghost k1 = a0.free_list().len() - a1.free_list().len();
        let ghost t0 = table0(m1, root, vaddr.0);
        let ghost i0 = vpn_index(vaddr.0, 0) as int;
        proof {
            reveal(Pgtbl::inv);
            lemma_index_bounds(vaddr.0);
            lemma_wf_tables(m1, root);
            assert(l1_entry_ok(m1, root, vpn_index(vaddr.0, 2) as int, vpn_index(vaddr.0, 1) as int));
            assert(pa.0 / 4096 == t0 && (pa.0 % 4096) / 8 == i0) by (nonlinear_arith)
                requires
                    pa.0 == t0 * 4096 + i0 * 8,
                    0 <= i0 < 512,
            ;
            assert(m1.word_at(pa.0 as int) == leaf_pte(m1, root, vaddr.0));
            assert(tables(m1, root).contains(t0)) by {
                assert(crate::mm::pt_spec::is_l0(m1, root, t0));
            }
        }
        let pte = PTE::from_bits(mem.read_word(pa));
        let e = if !pte.is_valid() {
            let frame = PhysFrameTracker::new(mem, alloc, true, kernel);
            let ghost m2 = *mem;
            let ghost a2 = *alloc;
            proof {
                reveal(Pgtbl::inv);
                a1.lemma_wf_facts(m1);
                let changed = tables(m2, kr).insert(a1.free_list()[0] as int);
                let k2 = a1.free_list().len() - a2.free_list().len();
                if a1.free_list().len() > 0 {
                    assert(changed.disjoint(tables(m1, root))) by {
                        assert forall|t: int| changed.contains(t) implies !tables(m1, root).contains(t) by {
                            if t == a1.free_list()[0] {
                                assert(a1.free_set().contains(t));
                            } else if !tables(m1, kr).contains(t) {
                                let g = a1.free_list().drop_first();
                                let q = choose|q: int| 0 <= q < k2 - 1 && g[q] == t;
                                assert(g[q] == a1.free_list()[q + 1]);
                                assert(a1.free_set().contains(t));
                            }
                        }
                    }
                    lemma_untouched(self.pt(), m1, a1, m2, a2, changed, k2);
                    assert(m2.word(t0, i0) == m1.word(t0, i0));
                } else {
                    lemma_untouched(self.pt(), m1, a1, m2, a2, Set::empty(), 0);
                }
                lemma_prefix_skip(f, k1, k2);
                assert(tables(m2, root).disjoint(tables(m2, kr))) by {
                    assert forall|t: int| tables(m2, kr).contains(t) implies !tables(m2, root).contains(t) by {
                        if a1.free_list().len() > 0 && !tables(m1, kr).contains(t) {
                            let g = a1.free_list().drop_first();
                            let q = choose|q: int| 0 <= q < k2 - 1 && g[q] == t;
                            assert(g[q] == a1.free_list()[q + 1]);
                            assert(a1.free_set().contains(t));
                        }
                    }
                }
            }
            let frame = match frame {
                Some(t) => t,
                None => return None,
            };
            proof {
                assert(prefix_set(f, k1 + 1).contains(frame.0.0 as int)) by {
                    assert(f[k1] == a1.free_list()[0]);
                }
                lemma_prefix_skip(f, k1 + 1, a1.free_list().len() - alloc.free_list().len() - 1);
                assert(prefix_set(f, k1 + 1).subset_of(prefix_set(f, a0.free_list().len() - alloc.free_list().len())));
                a1.lemma_wf_facts(m1);
                a0.lemma_wf_facts(m0);
                assert(m0.has_page(f[k1] as int));
                m0.lemma_page_range(frame.0.0 as int);
                assert(!tables(m1, root).contains(frame.0.0 as int)) by {
                    assert(a1.free_set().contains(frame.0.0 as int));
                }
            }
            let fl = flag.union(PTEFlag::v());
            let flag_bits: u64 = fl.bits();
            let e = PTE::new(frame.0, fl);
            proof {
                law_new_round_trip(frame.0.0, flag_bits);
            }
            e
        } else {
            proof {
                lemma_ppn_bound(pte@);
                assert(leaf_pte(m1, root, vaddr.0) == leaf_pte(m0, root, vaddr.0));
            }
            let fl = flag.union(pte.flags());
            let flag_bits: u64 = fl.bits();
            let e = PTE::new(pte.ppn(), fl);
            proof {
                law_new_round_trip(pte_ppn(pte@), flag_bits);
            }
            e
        };
        let ghost m3 = *mem;
        let ghost a3 = *alloc;
        proof {
            assert(m3.word_at(pa.0 as int) == m1.word_at(pa.0 as int));
        }
        mem.write_word(pa, e.bits());
        proof {
            reveal(Pgtbl::inv);
            assert(differs_only_at(m3, *mem, t0, i0));
            assert(path_ok(m3, root, vaddr.0) && table0(m3, root, vaddr.0) == t0);
            lemma_leaf_write(m3, *mem, root, vaddr.0);
            a3.lemma_wf_facts(m3);
            assert(tables(m3, root).contains(t0));
            a3.lemma_wf_frame(m3, *mem, set![t0]);
            assert(set![t0].disjoint(tables(m3, kr)));
            assert(a3.free_list().skip(0) =~= a3.free_list());
            lemma_untouched(kernel.pt(), m3, a3, *mem, a3, set![t0], 0);
            assert(mem.word_at(pa.0 as int) == leaf_pte(*mem, root, vaddr.0));
            if !pte_valid(leaf_pte(m0, root, vaddr.0)) {
                let t = pte_ppn(e@);
                assert(t != t0);
                assert forall|i: int| 0 <= i < 512 implies #[trigger] mem.word(t as int, i) == 0 by {
                    assert(m3.word(t as int, i) == 0);
                }
            }
        }
        let t = PTE::from_bits(mem.read_word(pa)).ppn();
        Some(PhysFrameTracker(t))
    }

    /// Maps each page from that of `start` to that of `end`, both included,
    /// to the frame of the same number with the flags `flags` and V (see
    /// `map_frame`), in order.
    pub fn map_on_the_area(
        &self,
        mem: &mut PhysMem,
        alloc: &mut Kallocator,
        start: VirtualAddr,
        end: VirtualAddr,
        flags: PTEFlag,
    )
        requires
            self.pt().inv(*old(mem), *old(alloc)),
        ensures
            grows(
                self.pt(),
                *old(mem),
                *old(alloc),
                *final(mem),
                *final(alloc),
                |u: u64, e: u64| in_area(start.0 / 4096, end.0 / 4096, flags@, u, e),
            ),
            final(alloc).free_list().len() > 0 ==> forall|n: u64|
                start.0 / 4096 <= n <= end.0 / 4096 ==> pte_valid(#[trigger] leaf_pte(*final(mem), self.root(), n)),
    {
        let ghost pt = self.pt();
        let ghost root = self.root();
        let ghost m0 = *mem;
        let ghost a0 = *alloc;
        let start_num = start.floor();
        let end_num = end.floor();
        let ghost area = |u: u64, e: u64| in_area(start_num.0, end_num.0, flags@, u, e);
        proof {
            lemma_grows_refl(pt, m0, a0, area);
        }
        let mut i: u64 = start_num.0;
        while i <= end_num.0
            invariant
                start_num.0 <= i,
                i <= end_num.0 + 1 || i == start_num.0,
                end_num.0 < 0x10_0000_0000_0000,
                pt == self.pt(),
                root == self.root(),
                area == (|u: u64, e: u64| in_area(start_num.0, end_num.0, flags@, u, e)),
                grows(pt, m0, a0, *mem, *alloc, area),
                alloc.free_list().len() > 0 ==> forall|n: u64|
                    start_num.0 <= n < i ==> pte_valid(#[trigger] leaf_pte(*mem, root, n)),
            decreases end_num.0 + 1 - i,
        {
            let ghost m1 = *mem;
            let ghost a1 = *alloc;
            let ghost one = |u: u64, e: u64| same_slot(u, i) && e == pte_new(i, flags@ | 1);
            let r = self.map_frame(mem, alloc, VirtualPageNum(i), flags, PhysPageNum(i));
            proof {
                assert forall|u: u64, e: u64| #[trigger] one(u, e) implies area(u, e) || self_mapped(
                    a0.free_list(),
                    a0.free_list().len() - a1.free_list().len(),
                    u,
                    e,
                ) by {
                    assert(same_slot(u, i) && e == pte_new(i, flags@ | 1));
                    assert(start_num.0 <= i <= end_num.0);
                    assert(in_area(start_num.0, end_num.0, flags@, u, e));
                }
                lemma_grows_trans(pt, m0, a0, m1, a1, *mem, *alloc, area, one, area);
                if alloc.free_list().len() > 0 {
                    assert(a1.free_list().len() > 0);
                    assert forall|n: u64| start_num.0 <= n < i + 1 implies pte_valid(
                        #[trigger] leaf_pte(*mem, root, n),
                    ) by {
                        if n < i {
                            assert(pte_valid(leaf_pte(m1, root, n)));
                        } else {
                            assert(n == i);
                            assert(r is Some);
                        }
                    }
                }
            }
            i = i + 1;
        }
    }

    /// Clears the flags of the leaf entry of the page `vaddr`, which leaves
    /// the page unmapped; tables missing on the way are made first, as
    /// `find_pte` makes them (with `kernel` as there), and nothing is
    /// cleared where the free list runs out on the way.
    pub fn unmap(&self, mem: &mut PhysMem, alloc: &mut Kallocator, vaddr: VirtualPageNum, kernel: Option<&PageTable>)
        requires
            self.pt().inv(*old(mem), *old(alloc)),
            kernel_apart(self.pt(), kernel_table(kernel), *old(mem), *old(alloc)),
        ensures
            self.pt().inv(*final(mem), *final(alloc)),
            kernel_apart(self.pt(), kernel_table(kernel), *final(mem), *final(alloc)),
            final(alloc).free_list().len() <= old(alloc).free_list().len(),
            final(alloc).free_list() == old(alloc).free_list().skip(
                old(alloc).free_list().len() - final(alloc).free_list().len(),
            ),
            path_ok(*old(mem), self.root(), vaddr.0) ==> *final(alloc) == *old(alloc),
            kernel is Some || path_ok(*old(mem), self.root(), vaddr.0) ==> leaf_pte(
                *final(mem),
                self.root(),
                vaddr.0,
            ) == pte_with_flags(leaf_pte(*old(mem), self.root(), vaddr.0), 0) && forall|u: u64|
                !same_slot(u, vaddr.0) ==> #[trigger] leaf_pte(*final(mem), self.root(), u) == leaf_pte(
                    *old(mem),
                    self.root(),
                    u,
                ),
            kernel is None ==> forall|u: u64|
                !same_slot(u, vaddr.0) ==> #[trigger] leaf_pte(*final(mem), self.root(), u) == leaf_pte(
                    *old(mem),
                    self.root(),
                    u,
                ) || (!pte_valid(leaf_pte(*old(mem), self.root(), u)) && self_mapped(
                    old(alloc).free_list(),
                    old(alloc).free_list().len() - final(alloc).free_list().len(),
                    u,
                    leaf_pte(*final(mem), self.root(), u),
                )),
            kernel is None ==> leaf_pte(*final(mem), self.root(), vaddr.0) == pte_with_flags(
                leaf_pte(*old(mem), self.root(), vaddr.0),
                0,
            ) || (!path_ok(*old(mem), self.root(), vaddr.0) && exists|e: u64|
                #[trigger] self_mapped(
                    old(alloc).free_list(),
                    old(alloc).free_list().len() - final(alloc).free_list().len(),
                    vaddr.0,
                    e,
                ) && (leaf_pte(*final(mem), self.root(), vaddr.0) == e || leaf_pte(*final(mem), self.root(), vaddr.0)
                    == pte_with_flags(e, 0))),
            final(alloc).free_list().len() > 0 ==> !pte_valid(leaf_pte(*final(mem), self.root(), vaddr.0)),
    {
        let ghost pt = self.pt();
        let ghost kt = kernel_table(kernel);
        let ghost root = self.root();
        let ghost m0 = *mem;
        let ghost a0 = *alloc;
        let ghost f = a0.free_list();
        proof {
            crate::config::lemma_bit_constants();
            if pte_valid(leaf_pte(m0, root, vaddr.0)) {
                assert(path_ok(m0, root, vaddr.0));
            }
            lemma_flags_cleared_zero();
        }
        let pte = self.find_pte(mem, alloc, vaddr, kernel);
        let ghost m1 = *mem;
        let ghost a1 = *alloc;
        let ghost k1 = a0.free_list().len() - a1.free_list().len();
        proof {
            lemma_lookup_facts(pt, kt, m0, a0, m1, a1);
            if !path_ok(m0, root, vaddr.0) {
                assert(leaf_pte(m0, root, vaddr.0) == 0);
            }
        }
        if let Some(pa) = pte {
            let ghost t0 = table0(m1, root, vaddr.0);
            let ghost i0 = vpn_index(vaddr.0, 0) as int;
            proof {
                reveal(Pgtbl::inv);
                lemma_index_bounds(vaddr.0);
                lemma_wf_tables(m1, root);
                assert(l1_entry_ok(m1, root, vpn_index(vaddr.0, 2) as int, vpn_index(vaddr.0, 1) as int));
                assert(pa.0 / 4096 == t0 && (pa.0 % 4096) / 8 == i0) by (nonlinear_arith)
                    requires
                        pa.0 == t0 * 4096 + i0 * 8,
                        0 <= i0 < 512,
                ;
                assert(m1.word_at(pa.0 as int) == leaf_pte(m1, root, vaddr.0));
            }
            let mut e = PTE::from_bits(mem.read_word(pa));
            e.set_flags(PTEFlag::empty());
            mem.write_word(pa, e.bits());
            proof {
                assert(differs_only_at(m1, *mem, t0, i0));
                lemma_leaf_write(m1, *mem, root, vaddr.0);
                assert(tables(m1, root).contains(t0)) by {
                    assert(crate::mm::pt_spec::is_l0(m1, root, t0));
                }
                a1.lemma_wf_facts(m1);
                a1.lemma_wf_frame(m1, *mem, set![t0]);
                lemma_flags_cleared(leaf_pte(m1, root, vaddr.0));
                assert forall|u: u64| #[trigger] same_slot(u, vaddr.0) implies leaf_pte(*mem, root, u) == e@ by {}
                if let Some(k) = kt {
                    assert(set![t0].disjoint(tables(m1, k.root.0 as int)));
                    assert(a1.free_list().skip(0) =~= a1.free_list());
                    lemma_untouched(k, m1, a1, *mem, a1, set![t0], 0);
                } else {
                    if !path_ok(m0, root, vaddr.0) && leaf_pte(m1, root, vaddr.0) != leaf_pte(m0, root, vaddr.0) {
                        assert(self_mapped(f, k1, vaddr.0, leaf_pte(m1, root, vaddr.0)));
                    }
                }
            }
        } else {
            proof {
                if kt is None && leaf_pte(m1, root, vaddr.0) != leaf_pte(m0, root, vaddr.0) {
                    assert(self_mapped(f, k1, vaddr.0, leaf_pte(m1, root, vaddr.0)));
                }
            }
        }
    }

    /// Makes a new table, with the first free frame, under the invalid
    /// entry `idx` of `table` (the root where `i2` is negative, else the
    /// level-1 table of root entry `i2`), with the flags `flag` (V), and
    /// maps the new frame into the kernel's table `kernel` where one is
    /// given, else into this table. `false` where the free list runs out on
    /// the way; with no free frame at all, nothing changes.
    fn alloc_pte(
        &self,
        mem: &mut PhysMem,
        alloc: &mut Kallocator,
        table: PhysPageNum,
        idx: u64,
        flag: PTEFlag,
        kernel: Option<&PageTable>,
        Ghost(i2): Ghost<int>,
    ) -> (r: bool)
        requires
            self.pt().inv(*old(mem), *old(alloc)),
            kernel_apart(self.pt(), kernel_table(kernel), *old(mem), *old(alloc)),
            flag@ == 1,
            idx < 512,
            i2 < 0 ==> table.0 == self.root_ppn.0,
            i2 >= 0 ==> i2 < 512 && pte_valid(old(mem).word(self.root(), i2)) && table.0 == l1_table(
                *old(mem),
                self.root(),
                i2,
            ),
            !pte_valid(old(mem).word(table.0 as int, idx as int)),
        ensures
            lookup_step(self.pt(), kernel_table(kernel), *old(mem), *old(alloc), *final(mem), *final(alloc)),
            old(alloc).free_list().len() > 0 ==> final(mem).word(table.0 as int, idx as int) == pte_new(
                old(alloc).free_list()[0],
                1,
            ) && pte_valid(final(mem).word(table.0 as int, idx as int)),
            old(alloc).free_list().len() == 0 ==> *final(mem) == *old(mem) && *final(alloc) == *old(alloc),
            !r ==> final(alloc).free_list().len() == 0,
        decreases old(alloc).free_list().len(), 1nat,
    {
        let ghost pt = self.pt();
        let ghost kt = kernel_table(kernel);
        let ghost root = self.root();
        let ghost m0 = *mem;
        let ghost a0 = *alloc;
        let ghost none = |u: u64, e: u64| false;
        proof {
            reveal(Pgtbl::inv);
            lemma_lookup_refl(pt, kt, m0, a0);
            lemma_wf_tables(m0, root);
            assert(tables(m0, root).contains(root));
            if i2 >= 0 {
                assert(root_entry_ok(m0, root, i2));
            }
        }
        if !alloc.has_free(mem, 1) {
            return false;
        }
        let page = alloc.kalloc(mem);
        let ghost m1 = *mem;
        let ghost a1 = *alloc;
        proof {
            a1.lemma_wf_facts(m1);
            a0.lemma_wf_facts(m0);
            assert(m0.has_page(page.0 as int)) by {
                assert(a0.free_list()[0] == page.0);
            }
            m0.lemma_page_range(page.0 as int);
            assert(m1.has_page(table.0 as int));
        }
        mem.write_page_word(table, idx, PTE::new(page, flag).bits());
        let ghost m2 = *mem;
        proof {
            lemma_grows_install(pt, m0, a0, m1, a1, m2, table.0 as int, idx as int, i2);
            crate::config::lemma_bit_constants();
            lemma_new_entry(page.0, 1);
            assert(tables(m0, root).union(prefix_set(a0.free_list(), 1)).contains(table.0 as int)) by {
                if i2 >= 0 {
                    assert(crate::mm::pt_spec::is_l1(m0, root, table.0 as int));
                }
            }
        }
        let x = Ghost(|u: u64, e: u64| same_slot(u, page.0) && e == pte_new(page.0, 7));
        proof {
            assert forall|u: u64, e: u64| #[trigger] x@(u, e) implies none(u, e) || self_mapped(
                a0.free_list(),
                a0.free_list().len() - a1.free_list().len(),
                u,
                e,
            ) by {
                assert(a0.free_list()[0] == page.0);
            }
        }
        let ok = match kernel {
            Some(k) => {
                proof {
                    lemma_apart_install(pt, k.pt(), m0, a0, m2, a1);
                }
                let ok = k.map_page_table(mem, alloc, page);
                proof {
                    lemma_apart_kernel_step(pt, k.pt(), m2, a1, *mem, *alloc, x@);
                    lemma_apart_trans(pt, k.pt(), m0, a0, m2, a1, *mem, *alloc, none, x@, none);
                }
                ok
            },
            None => {
                let ok = self.map_page_table(mem, alloc, page);
                proof {
                    lemma_grows_trans(pt, m0, a0, m2, a1, *mem, *alloc, none, x@, none);
                }
                ok
            },
        };
        proof {
            reveal(Pgtbl::inv);
            assert(tables(m2, root).contains(table.0 as int));
            assert(mem.word(table.0 as int, idx as int) == m2.word(table.0 as int, idx as int));
        }
        ok
    }

    /// Maps the table frame `page` into this table at the page of the same
    /// number, readable and writable.
    fn map_page_table(&self, mem: &mut PhysMem, alloc: &mut Kallocator, page: PhysPageNum) -> (r: bool)
        requires
            self.pt().inv(*old(mem), *old(alloc)),
        ensures
            grows(
                self.pt(),
                *old(mem),
                *old(alloc),
                *final(mem),
                *final(alloc),
                |u: u64, e: u64| same_slot(u, page.0) && e == pte_new(page.0, 7),
            ),
            !r ==> final(alloc).free_list().len() == 0,
        decreases old(alloc).free_list().len(), 4nat,
    {
        proof {
            crate::config::lemma_bit_constants();
        }
        let flags = PTEFlag::r().union(PTEFlag::w());
        let r = self.map_frame(mem, alloc, VirtualPageNum(page.0), flags, page);
        r.is_some()
    }

    /// Maps the page `vaddr` to the frame `frame` with the flags `flag` and
    /// V, where the page is not mapped yet, and gives back the frame that
    /// the page maps. `None` where the free list runs out on the way.
    pub fn map_frame(
        &self,
        mem: &mut PhysMem,
        alloc: &mut Kallocator,
        vaddr: VirtualPageNum,
        flag: PTEFlag,
        frame: PhysPageNum,
    ) -> (r: Option<PhysFrameTracker>)
        requires
            self.pt().inv(*old(mem), *old(alloc)),
        ensures
            grows(
                self.pt(),
                *old(mem),
                *old(alloc),
                *final(mem),
                *final(alloc),
                |u: u64, e: u64| same_slot(u, vaddr.0) && e == pte_new(frame.0, flag@ | 1),
            ),
            r matches Some(t) ==> pte_valid(leaf_pte(*final(mem), self.root(), vaddr.0)) && t.0.0 == pte_ppn(
                leaf_pte(*final(mem), self.root(), vaddr.0),
            ),
            r is None ==> final(alloc).free_list().len() == 0,
        decreases old(alloc).free_list().len(), 3nat,
    {
        let ghost pt = self.pt();
        let ghost root = self.root();
        let ghost m0 = *mem;
        let ghost a0 = *alloc;
        let ghost none = |u: u64, e: u64| false;
        let ghost x = |u: u64, e: u64| same_slot(u, vaddr.0) && e == pte_new(frame.0, flag@ | 1);
        let pa = match self.find_pte(mem, alloc, vaddr, None) {
            Some(pa) => pa,
            None => {
                proof {
                    lemma_grows_refl(pt, *mem, *alloc, none);
                    lemma_grows_trans(pt, m0, a0, *mem, *alloc, *mem, *alloc, none, none, x);
                }
                return None;
            },
        };
        let ghost m1 = *mem;
        let ghost a1 = *alloc;
        let ghost t0 = table0(m1, root, vaddr.0);
        let ghost i0 = vpn_index(vaddr.0, 0) as int;
        proof {
            reveal(Pgtbl::inv);
            lemma_index_bounds(vaddr.0);
            lemma_wf_tables(m1, root);
            assert(l1_entry_ok(m1, root, vpn_index(vaddr.0, 2) as int, vpn_index(vaddr.0, 1) as int));
            assert(pa.0 / 4096 == t0 && (pa.0 % 4096) / 8 == i0) by (nonlinear_arith)
                requires
                    pa.0 == t0 * 4096 + i0 * 8,
                    0 <= i0 < 512,
            ;
            assert(m1.word_at(pa.0 as int) == leaf_pte(m1, root, vaddr.0));
        }
        let pte = PTE::from_bits(mem.read_word(pa));
        if !pte.is_valid() {
            let e = PTE::new(frame, flag.union(PTEFlag::v()));
            mem.write_word(pa, e.bits());
            proof {
                assert(differs_only_at(m1, *mem, t0, i0));
                crate::config::lemma_bit_constants();
                lemma_with_v_valid(frame.0, flag@);
                lemma_grows_leaf(pt, m0, a0, m1, a1, *mem, vaddr.0, e@);
            }
        } else {
            proof {
                lemma_grows_refl(pt, m1, a1, none);
                lemma_grows_trans(pt, m0, a0, m1, a1, m1, a1, none, none, x);
            }
        }
        proof {
            assert(mem.word_at(pa.0 as int) == leaf_pte(*mem, root, vaddr.0));
        }
        let t = PTE::from_bits(mem.read_word(pa)).ppn();
        Some(PhysFrameTracker(t))
    }
}

impl PhysFrameTracker {
    /// Takes the first free frame, zeroed, and, where `map_to_kernel` is
    /// set, maps it into the kernel's table `kernel` at the page of the same
    /// number, readable and writable (see `PageTable::map_frame`). `None`
    /// where no frame is free, or where the free list runs out on the way.
    pub fn new(mem: &mut PhysMem, alloc: &mut Kallocator, map_to_kernel: bool, kernel: &PageTable) -> (r: Option<
        Self,
    >)
        requires
            old(alloc).wf(*old(mem)),
            map_to_kernel ==> kernel.pt().inv(*old(mem), *old(alloc)),
        ensures
            old(alloc).free_list().len() == 0 ==> r is None && *final(mem) == *old(mem) && *final(alloc) == *old(
                alloc,
            ),
            !map_to_kernel ==> (r is Some <==> old(alloc).free_list().len() > 0),
            r is None && old(alloc).free_list().len() > 0 ==> final(alloc).free_list().len() == 0,
            final(alloc).wf(*final(mem)),
            final(alloc).free_list().len() <= old(alloc).free_list().len(),
            r is Some ==> final(alloc).free_list().len() < old(alloc).free_list().len(),
            final(alloc).free_list() == old(alloc).free_list().skip(
                old(alloc).free_list().len() - final(alloc).free_list().len(),
            ),
            !map_to_kernel && old(alloc).free_list().len() > 0 ==> final(alloc).free_list()
                == old(alloc).free_list().drop_first() && old(mem).same_outside(
                *final(mem),
                set![old(alloc).free_list()[0] as int],
            ),
            r matches Some(t) ==> t.0.0 == old(alloc).free_list()[0] && final(mem).page_is_zero(t.0.0 as int),
            map_to_kernel ==> kernel.pt().inv(*final(mem), *final(alloc)),
            map_to_kernel && old(alloc).free_list().len() > 0 ==> old(mem).same_outside(
                *final(mem),
                tables(*final(mem), kernel.root()).insert(old(alloc).free_list()[0] as int),
            ) && tables(*final(mem), kernel.root()) == tables(*old(mem), kernel.root()).union(
                prefix_set(
                    old(alloc).free_list().drop_first(),
                    old(alloc).free_list().len() - final(alloc).free_list().len() - 1,
                ),
            ),
            r matches Some(t) ==> (map_to_kernel ==> leaf_pte(*final(mem), kernel.root(), t.0.0) == if pte_valid(
                leaf_pte(*old(mem), kernel.root(), t.0.0),
            ) {
                leaf_pte(*old(mem), kernel.root(), t.0.0)
            } else {
                pte_new(t.0.0, 7)
            }),
    {
        if !alloc.has_free(mem, 1) {
            proof {
                if map_to_kernel {
                    lemma_grows_refl(kernel.pt(), *mem, *alloc, |u: u64, e: u64| false);
                }
                assert(alloc.free_list().skip(0) =~= alloc.free_list());
            }
            return None;
        }
        let ghost m0 = *mem;
        let ghost a0 = *alloc;
        let num = alloc.kalloc(mem);
        let ghost m1 = *mem;
        let ghost a1 = *alloc;
        let ghost p = num.0;
        proof {
            a0.lemma_wf_facts(m0);
            a1.lemma_wf_facts(m1);
            assert(a0.free_set().contains(p as int));
            assert(a1.free_list() =~= a0.free_list().skip(1));
            assert(!a1.free_set().contains(p as int)) by {
                if a1.free_set().contains(p as int) {
                    let q = choose|q: int| 0 <= q < a1.free_list().len() && a1.free_list()[q] == p;
                    assert(a1.free_list()[q] == a0.free_list()[q + 1]);
                }
            }
            assert(m0.has_page(p as int));
        }
        if map_to_kernel {
            proof {
                reveal(Pgtbl::inv);
                let kr = kernel.root();
                assert(!tables(m0, kr).contains(p as int));
                assert(set![p as int].disjoint(tables(m0, kr)));
                lemma_frame(m0, m1, kr, set![p as int]);
                assert(tables(m1, kr).disjoint(a1.free_set())) by {
                    assert forall|t: int| a1.free_set().contains(t) implies !tables(m1, kr).contains(t) by {
                        let q = choose|q: int| 0 <= q < a1.free_list().len() && a1.free_list()[q] == t;
                        assert(a1.free_list()[q] == a0.free_list()[q + 1]);
                        assert(a0.free_set().contains(t));
                    }
                }
            }
            let ok = kernel.map_frame(mem, alloc, VirtualPageNum(num.0), PTEFlag::r().union(PTEFlag::w()), num);
            proof {
                lemma_same_outside_trans(m0, m1, *mem, set![p as int], tables(*mem, kernel.root()));
                assert(set![p as int].union(tables(*mem, kernel.root())) =~= tables(*mem, kernel.root()).insert(
                    p as int,
                ));
                crate::config::lemma_bit_constants();
                lemma_not_self_mapped(a1, m1, a1.free_list().len() - alloc.free_list().len(), p, leaf_pte(
                    *mem,
                    kernel.root(),
                    p,
                ));
                lemma_prefix_skip(a0.free_list(), 1, a1.free_list().len() - alloc.free_list().len());
                reveal(Pgtbl::inv);
                // the frame is no table and was not free, so nothing wrote it
                assert(!tables(*mem, kernel.root()).contains(p as int)) by {
                    if prefix_set(a1.free_list(), a1.free_list().len() - alloc.free_list().len()).contains(p as int) {
                        let q = choose|q: int|
                            0 <= q < a1.free_list().len() - alloc.free_list().len() && a1.free_list()[q] == p;
                        assert(a1.free_set().contains(p as int));
                    }
                }
                assert forall|i: int| 0 <= i < 512 implies #[trigger] mem.word(p as int, i) == 0 by {
                    assert(m1.word(p as int, i) == 0);
                }
            }
            if ok.is_none() {
                return None;
            }
        } else {
            proof {
                assert(a0.free_list().drop_first() =~= a0.free_list().skip(1));
            }
        }
        Some(PhysFrameTracker(num))
    }

    /// Writes the bytes `data` into memory from byte `offset` of the frame.
    pub fn write(&mut self, mem: &mut PhysMem, offset: u64, data: &[u8])
        requires
            old(mem).wf(),
            old(self).0.0 * 4096 + offset + data@.len() <= u64::MAX,
            data@.len() > 0 ==> old(mem).has_addr(old(self).0.0 * 4096 + offset) && old(mem).has_addr(
                old(self).0.0 * 4096 + offset + data@.len() - 1,
            ),
        ensures
            *final(self) == *old(self),
            final(mem).wf(),
            final(mem).base() == old(mem).base(),
            final(mem).npages() == old(mem).npages(),
            forall|i: int|
                0 <= i < data@.len() ==> #[trigger] final(mem).byte(old(self).0.0 * 4096 + offset + i) == data@[i],
            forall|a: int|
                #![trigger final(mem).byte(a)]
                !(old(self).0.0 * 4096 + offset <= a < old(self).0.0 * 4096 + offset + data@.len())
                    ==> final(mem).byte(a) == old(mem).byte(a),
    {
        let start = self.0.0 * 4096 + offset;
        let mut k: usize = 0;
        while k < data.len()
            invariant
                start == self.0.0 * 4096 + offset,
                start + data@.len() <= u64::MAX,
                k <= data@.len(),
                mem.wf(),
                mem.base() == old(mem).base(),
                mem.npages() == old(mem).npages(),
                data@.len() > 0 ==> mem.has_addr(start as int) && mem.has_addr(start + data@.len() - 1),
                forall|i: int| 0 <= i < k ==> #[trigger] mem.byte(start + i) == data@[i],
                forall|a: int| !(start <= a < start + k) ==> #[trigger] mem.byte(a) == old(mem).byte(a),
            decreases data@.len() - k,
        {
            assert(start / 4096 <= (start + k) / 4096 <= (start + data@.len() - 1) / 4096) by (nonlinear_arith)
                requires
                    k < data@.len(),
            ;
            assert(mem.has_addr(start + k));
            mem.write_byte(PhysAddr(start + k as u64), data[k]);
            k = k + 1;
        }
    }

    /// The tracker of frame 0, which is no frame of memory.
    pub fn default() -> (r: Self)
        ensures
            r.0.0 == 0,
    {
        PhysFrameTracker(PhysPageNum(0))
    }
}

} // verus!

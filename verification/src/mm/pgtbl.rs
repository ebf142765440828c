//! Sv39 page tables that live in physical memory and take their table frames
//! from the kernel frame allocator.
use vstd::prelude::*;
use core::ops::Range;
use crate::config::PTE_SIZE;
use crate::mm::address::{PhysAddr, PhysPageNum, VirtualAddr, VirtualPageNum, vpn_index, lemma_page_base_slot};
use crate::mm::pte_sv39::{
    PTE,
    PTEFlag,
    pte_valid,
    pte_leaf,
    pte_ppn,
    pte_with_ppn,
    pte_with_flags,
    law_set_ppn_keeps_flags,
    law_set_flags_keeps_ppn,
};
use crate::mm::phys_mem::{PhysMem, lemma_same_outside_trans, lemma_same_outside_weaken, lemma_same_outside_refl};
use crate::mm::kalloc::Kallocator;
use crate::mm::pt_spec::{
    pt_wf,
    tables,
    is_l1,
    is_l0,
    root_entry_ok,
    l1_entry_ok,
    leaf_pte,
    leaf_pte_addr,
    path_ok,
    table0,
    entry2,
    entry1,
    l1_table,
    l0_present,
    l0_table,
    walk_frames,
    same_slot,
    differs_only_at,
    lemma_index_bounds,
    lemma_frame,
    lemma_leaf_write,
    lemma_install_l1,
    lemma_install_l0,
    lemma_same_slot,
    lemma_wf_tables,
    range_frames,
    lemma_range_step,
    lemma_same_slot_walk,
    lemma_range_frames_empty,
    lemma_walk_frames_le,
};

verus! {

/// The first `n` frames of a list.
pub open spec fn prefix_set(s: Seq<u64>, n: int) -> Set<int> {
    Set::new(|t: int| exists|q: int| 0 <= q < n && s[q] == t)
}

pub proof fn lemma_prefix_skip(s: Seq<u64>, a: int, b: int)
    requires
        0 <= a,
        0 <= b,
        a + b <= s.len(),
    ensures
        s.skip(a).skip(b) == s.skip(a + b),
        prefix_set(s, a).union(prefix_set(s.skip(a), b)) == prefix_set(s, a + b),
{
    assert(s.skip(a).skip(b) =~= s.skip(a + b));
    assert forall|t: int| prefix_set(s, a).union(prefix_set(s.skip(a), b)).contains(t) == prefix_set(
        s,
        a + b,
    ).contains(t) by {
        if prefix_set(s.skip(a), b).contains(t) {
            let q = choose|q: int| 0 <= q < b && s.skip(a)[q] == t;
            assert(s[a + q] == t);
        }
        if prefix_set(s, a + b).contains(t) && !prefix_set(s, a).contains(t) {
            let q = choose|q: int| 0 <= q < a + b && s[q] == t;
            assert(s.skip(a)[q - a] == t);
        }
    }
    assert(prefix_set(s, a).union(prefix_set(s.skip(a), b)) =~= prefix_set(s, a + b));
}

/// The entry that a walk writes over `e` to reach the new table `frame`:
/// the frame's number, with flags exactly V.
pub open spec fn dir_entry(e: u64, frame: u64) -> u64 {
    pte_with_flags(pte_with_ppn(e, frame), 1)
}

/// An entry whose flags are exactly V points to the next level.
proof fn lemma_dir_entry(e: u64, p: u64)
    requires
        p < 0x800_0000,
    ensures
        pte_valid(pte_with_flags(pte_with_ppn(e, p), 1)),
        !pte_leaf(pte_with_flags(pte_with_ppn(e, p), 1)),
        pte_ppn(pte_with_flags(pte_with_ppn(e, p), 1)) == p,
{
    law_set_ppn_keeps_flags(e, p);
    law_set_flags_keeps_ppn(pte_with_ppn(e, p), 1);
    let x = pte_with_flags(pte_with_ppn(e, p), 1);
    assert(x & 0xFFu64 == 1 ==> (x & 1u64 != 0 && x & 2u64 == 0 && x & 8u64 == 0)) by (bit_vector);
}

proof fn lemma_mappages_accounting(
    mem0: PhysMem,
    m: PhysMem,
    m2: PhysMem,
    root: int,
    page: u64,
    hi: int,
    f: Seq<u64>,
    total: int,
    g: Seq<u64>,
)
    requires
        page < hi,
        0 <= total - range_frames(m, root, page as int, hi) <= f.len(),
        g == f.skip(total - range_frames(m, root, page as int, hi)),
        g.len() >= range_frames(m, root, page as int, hi),
        tables(m, root) == tables(mem0, root).union(
            prefix_set(f, total - range_frames(m, root, page as int, hi)),
        ),
        mem0.same_outside(m, tables(m, root)),
        m.same_outside(m2, tables(m2, root)),
        tables(m2, root) == tables(m, root).union(prefix_set(g, walk_frames(m, root, page) as int)),
        forall|v: u64|
            #[trigger] pte_valid(entry2(m2, root, v)) == (pte_valid(entry2(m, root, v))
                || vpn_index(v, 2) == vpn_index(page, 2)),
        forall|v: u64|
            #[trigger] path_ok(m2, root, v) == (path_ok(m, root, v) || (vpn_index(v, 2)
                == vpn_index(page, 2) && vpn_index(v, 1) == vpn_index(page, 1))),
    ensures
        0 <= total - range_frames(m2, root, page + 1, hi) <= f.len(),
        g.skip(walk_frames(m, root, page) as int) == f.skip(
            total - range_frames(m2, root, page + 1, hi),
        ),
        g.len() - walk_frames(m, root, page) >= range_frames(m2, root, page + 1, hi),
        tables(m2, root) == tables(mem0, root).union(
            prefix_set(f, total - range_frames(m2, root, page + 1, hi)),
        ),
        mem0.same_outside(m2, tables(m2, root)),
{
    let c = total - range_frames(m, root, page as int, hi);
    let k = walk_frames(m, root, page) as int;
    lemma_range_step(m, m2, root, page, hi);
    lemma_prefix_skip(f, c, k);
    assert(tables(mem0, root).union(prefix_set(f, c)).union(prefix_set(f.skip(c), k)) =~= tables(
        mem0,
        root,
    ).union(prefix_set(f, c + k)));
    lemma_same_outside_weaken(mem0, m, tables(m, root), tables(m2, root));
    lemma_same_outside_trans(mem0, m, m2, tables(m2, root), tables(m2, root));
    assert(tables(m2, root).union(tables(m2, root)) =~= tables(m2, root));
}

proof fn lemma_mappages_leaves(
    mem0: PhysMem,
    m: PhysMem,
    m2: PhysMem,
    root: int,
    lo: int,
    page: u64,
    w: u64,
    start: u64,
    next: u64,
    flags: u64,
)
    requires
        lo <= page,
        same_slot(w, page),
        next == start + (page - lo),
        forall|n: u64| lo <= n < page ==> !#[trigger] same_slot(page, n),
        forall|v: u64|
            #[trigger] leaf_pte(m2, root, v) == if same_slot(v, w) {
                pte_with_flags(pte_with_ppn(leaf_pte(m, root, w), next), flags)
            } else {
                leaf_pte(m, root, v)
            },
        leaf_pte(m, root, w) == leaf_pte(mem0, root, page),
        forall|n: u64|
            lo <= n < page ==> #[trigger] leaf_pte(m, root, n) == pte_with_flags(
                pte_with_ppn(leaf_pte(mem0, root, n), (start + (n - lo)) as u64),
                flags,
            ),
        forall|v: u64|
            (forall|n: u64| lo <= n < page ==> !#[trigger] same_slot(v, n)) ==> #[trigger] leaf_pte(
                m,
                root,
                v,
            ) == leaf_pte(mem0, root, v),
    ensures
        forall|n: u64|
            lo <= n < page + 1 ==> #[trigger] leaf_pte(m2, root, n) == pte_with_flags(
                pte_with_ppn(leaf_pte(mem0, root, n), (start + (n - lo)) as u64),
                flags,
            ),
        forall|v: u64|
            (forall|n: u64| lo <= n < page + 1 ==> !#[trigger] same_slot(v, n)) ==> #[trigger] leaf_pte(
                m2,
                root,
                v,
            ) == leaf_pte(mem0, root, v),
{
    assert forall|n: u64| lo <= n < page + 1 implies #[trigger] leaf_pte(m2, root, n) == pte_with_flags(
        pte_with_ppn(leaf_pte(mem0, root, n), (start + (n - lo)) as u64),
        flags,
    ) by {
        crate::mm::pt_spec::lemma_same_slot(n, w);
        crate::mm::pt_spec::lemma_same_slot(n, page);
        crate::mm::pt_spec::lemma_same_slot(page, w);
        if n < page {
            assert(!same_slot(page, n));
            assert(!same_slot(n, w));
        } else {
            assert(n == page);
        }
    }
    assert forall|v: u64|
        (forall|n: u64| lo <= n < page + 1 ==> !#[trigger] same_slot(v, n)) implies #[trigger] leaf_pte(
        m2,
        root,
        v,
    ) == leaf_pte(mem0, root, v) by {
        assert(!same_slot(v, page));
        crate::mm::pt_spec::lemma_same_slot(v, w);
        crate::mm::pt_spec::lemma_same_slot(v, page);
        crate::mm::pt_spec::lemma_same_slot(page, w);
        assert forall|n: u64| lo <= n < page implies !#[trigger] same_slot(v, n) by {}
    }
}

#[derive(Clone, Copy)]
pub struct Pgtbl {
    pub root: PhysPageNum,
}

impl Pgtbl {
    /// The table is well formed in `mem`, the allocator is well formed, and
    /// no table frame is free.
    #[verifier::opaque]
    pub open spec fn inv(self, mem: PhysMem, alloc: Kallocator) -> bool {
        &&& pt_wf(mem, self.root.0 as int)
        &&& alloc.wf(mem)
        &&& tables(mem, self.root.0 as int).disjoint(alloc.free_set())
    }

    /// A table with no frame yet (frame 0).
    pub fn default() -> (r: Self)
        ensures
            r.root.0 == 0,
    {
        Pgtbl { root: PhysPageNum(0) }
    }

    /// A table with a fresh, empty root frame.
    pub fn new(mem: &mut PhysMem, alloc: &mut Kallocator) -> (r: Self)
        requires
            old(alloc).wf(*old(mem)),
            old(alloc).free_list().len() > 0,
        ensures
            r.inv(*final(mem), *final(alloc)),
            r.root.0 == old(alloc).free_list()[0],
            final(alloc).free_list() == old(alloc).free_list().drop_first(),
            tables(*final(mem), r.root.0 as int) == set![r.root.0 as int],
            forall|v: u64| #[trigger] leaf_pte(*final(mem), r.root.0 as int, v) == 0,
            old(mem).same_outside(*final(mem), set![r.root.0 as int]),
    {
        let page = alloc.kalloc(mem);
        let r = Pgtbl { root: page };
        proof {
            reveal(Pgtbl::inv);
            old(alloc).lemma_wf_facts(*old(mem));
            assert(old(mem).has_page(old(alloc).free_list()[0] as int));
            Self::lemma_empty_table(*mem, *alloc, page.0 as int, old(alloc).free_list());
        }
        r
    }

    proof fn lemma_empty_table(mem: PhysMem, alloc: Kallocator, root: int, free: Seq<u64>)
        requires
            alloc.wf(mem),
            mem.has_page(root),
            mem.page_is_zero(root),
            free.len() > 0,
            free[0] == root,
            free.no_duplicates(),
            alloc.free_list() == free.drop_first(),
        ensures
            pt_wf(mem, root),
            tables(mem, root) == set![root],
            tables(mem, root).disjoint(alloc.free_set()),
            forall|v: u64| #[trigger] leaf_pte(mem, root, v) == 0,
    {
        alloc.lemma_wf_facts(mem);
        crate::config::lemma_bit_constants();
        assert forall|i: int| 0 <= i < 512 implies !pte_valid(#[trigger] mem.word(root, i)) by {
            assert(mem.word(root, i) == 0);
        }
        assert forall|t: int| !is_l1(mem, root, t) by {}
        assert forall|t: int| !is_l0(mem, root, t) by {}
        assert(tables(mem, root) =~= set![root]);
        assert forall|k: int| 0 <= k < free.drop_first().len() implies free.drop_first()[k] != root by {
            assert(free.drop_first()[k] == free[k + 1]);
        }
        assert forall|i: int| 0 <= i < 512 implies #[trigger] root_entry_ok(mem, root, i) by {}
        assert forall|i: int, j: int| 0 <= i < 512 && 0 <= j < 512 implies #[trigger] l1_entry_ok(
            mem,
            root,
            i,
            j,
        ) by {}
        assert forall|v: u64| #[trigger] leaf_pte(mem, root, v) == 0 by {
            lemma_index_bounds(v);
        }
    }

    pub fn init(&mut self, page: PhysPageNum)
        ensures
            final(self).root == page,
    {
        self.root = page;
    }

    /// Installs a fresh zeroed frame under entry `idx` of `table`, which is
    /// invalid, and returns the frame.
    fn install(
        mem: &mut PhysMem,
        alloc: &mut Kallocator,
        table: PhysPageNum,
        idx: u64,
        e: u64,
    ) -> (r: (PhysPageNum, Ghost<PhysMem>))
        requires
            old(alloc).wf(*old(mem)),
            old(alloc).free_list().len() > 0,
            old(mem).has_page(table.0 as int),
            idx < 512,
            old(mem).word(table.0 as int, idx as int) == e,
            !old(alloc).free_set().contains(table.0 as int),
        ensures
            ({
                let (p, m1) = r;
                &&& p.0 == old(alloc).free_list()[0]
                &&& old(mem).same_outside(m1@, set![p.0 as int])
                &&& m1@.wf()
                &&& m1@.page_is_zero(p.0 as int)
                &&& m1@.has_page(p.0 as int)
                &&& m1@.word(table.0 as int, idx as int) == e
                &&& differs_only_at(m1@, *final(mem), table.0 as int, idx as int)
                &&& pte_valid(final(mem).word(table.0 as int, idx as int))
                &&& !pte_leaf(final(mem).word(table.0 as int, idx as int))
                &&& pte_ppn(final(mem).word(table.0 as int, idx as int)) == p.0
                &&& final(mem).word(table.0 as int, idx as int) == dir_entry(e, p.0)
            }),
            final(alloc).free_list() == old(alloc).free_list().drop_first(),
            final(alloc).wf(*final(mem)),
    {
        let ghost f = alloc.free_list();
        proof {
            alloc.lemma_wf_facts(*mem);
            assert(alloc.free_set().contains(f[0] as int));
        }
        let page = alloc.kalloc(mem);
        let ghost m1 = *mem;
        proof {
            alloc.lemma_wf_facts(*mem);
            assert(mem.has_page(page.0 as int)) by {
                old(alloc).lemma_wf_facts(*old(mem));
                assert(old(mem).has_page(f[0] as int));
            }
            mem.lemma_page_range(page.0 as int);
            assert(table.0 != page.0);
            assert(mem.word(table.0 as int, idx as int) == e);
        }
        let mut pte = PTE::from_bits(e);
        pte.set_ppn(page);
        pte.set_flags(PTEFlag::v());
        mem.write_page_word(table, idx, pte.bits());
        proof {
            lemma_dir_entry(e, page.0);
            alloc.lemma_wf_facts(m1);
            let g = alloc.free_list();
            assert(!alloc.free_set().contains(table.0 as int)) by {
                if alloc.free_set().contains(table.0 as int) {
                    let k = choose|k: int| 0 <= k < g.len() && g[k] == table.0 as int;
                    assert(g[k] == f[k + 1]);
                    assert(old(alloc).free_set().contains(table.0 as int));
                }
            }
            assert(set![table.0 as int].disjoint(alloc.free_set()));
            alloc.lemma_wf_frame(m1, *mem, set![table.0 as int]);
        }
        (page, Ghost(m1))
    }

    /// Finds the leaf entry of the page of `va` and returns its physical
    /// address. Missing intermediate tables are created when `do_alloc` is set;
    /// otherwise the walk must find them.
    pub fn walk(&self, mem: &mut PhysMem, alloc: &mut Kallocator, va: VirtualAddr, do_alloc: bool) -> (r:
        PhysAddr)
        requires
            self.inv(*old(mem), *old(alloc)),
            do_alloc ==> old(alloc).free_list().len() >= walk_frames(
                *old(mem),
                self.root.0 as int,
                va.0 / 4096,
            ),
            !do_alloc ==> path_ok(*old(mem), self.root.0 as int, va.0 / 4096),
        ensures
            self.inv(*final(mem), *final(alloc)),
            path_ok(*final(mem), self.root.0 as int, va.0 / 4096),
            r.0 == leaf_pte_addr(*final(mem), self.root.0 as int, va.0 / 4096),
            final(mem).has_addr(r.0 as int),
            r.0 % 8 == 0,
            forall|v: u64| #[trigger] leaf_pte(*final(mem), self.root.0 as int, v) == leaf_pte(*old(mem), self.root.0 as int, v),
            forall|v: u64|
                path_ok(*old(mem), self.root.0 as int, v) ==> #[trigger] path_ok(
                    *final(mem),
                    self.root.0 as int,
                    v,
                ) && table0(*final(mem), self.root.0 as int, v) == table0(
                    *old(mem),
                    self.root.0 as int,
                    v,
                ),
            final(alloc).free_list() == old(alloc).free_list().skip(
                walk_frames(*old(mem), self.root.0 as int, va.0 / 4096) as int,
            ),
            tables(*final(mem), self.root.0 as int) == tables(*old(mem), self.root.0 as int).union(
                prefix_set(
                    old(alloc).free_list(),
                    walk_frames(*old(mem), self.root.0 as int, va.0 / 4096) as int,
                ),
            ),
            old(mem).same_outside(*final(mem), tables(*final(mem), self.root.0 as int)),
            walk_frames(*old(mem), self.root.0 as int, va.0 / 4096) == 0 ==> *final(mem) == *old(
                mem,
            ) && *final(alloc) == *old(alloc),
            forall|v: u64|
                #[trigger] pte_valid(entry2(*final(mem), self.root.0 as int, v)) == (pte_valid(
                    entry2(*old(mem), self.root.0 as int, v),
                ) || vpn_index(v, 2) == vpn_index(va.0 / 4096, 2)),
            forall|v: u64|
                #[trigger] path_ok(*final(mem), self.root.0 as int, v) == (path_ok(
                    *old(mem),
                    self.root.0 as int,
                    v,
                ) || (vpn_index(v, 2) == vpn_index(va.0 / 4096, 2) && vpn_index(v, 1) == vpn_index(
                    va.0 / 4096,
                    1,
                ))),
            entry2(*final(mem), self.root.0 as int, va.0 / 4096) == if pte_valid(
                entry2(*old(mem), self.root.0 as int, va.0 / 4096),
            ) {
                entry2(*old(mem), self.root.0 as int, va.0 / 4096)
            } else {
                dir_entry(entry2(*old(mem), self.root.0 as int, va.0 / 4096), old(alloc).free_list()[0])
            },
            entry1(*final(mem), self.root.0 as int, va.0 / 4096) == if walk_frames(
                *old(mem),
                self.root.0 as int,
                va.0 / 4096,
            ) == 2 {
                dir_entry(0, old(alloc).free_list()[1])
            } else if walk_frames(*old(mem), self.root.0 as int, va.0 / 4096) == 1 {
                dir_entry(entry1(*old(mem), self.root.0 as int, va.0 / 4096), old(alloc).free_list()[0])
            } else {
                entry1(*old(mem), self.root.0 as int, va.0 / 4096)
            },
            walk_frames(*old(mem), self.root.0 as int, va.0 / 4096) > 0 ==> forall|j: int|
                0 <= j < 512 ==> #[trigger] final(mem).word(
                    table0(*final(mem), self.root.0 as int, va.0 / 4096),
                    j,
                ) == 0,
            walk_frames(*old(mem), self.root.0 as int, va.0 / 4096) == 2 ==> forall|j: int|
                0 <= j < 512 && j != vpn_index(va.0 / 4096, 1) ==> #[trigger] final(mem).word(
                    old(alloc).free_list()[0] as int,
                    j,
                ) == 0,
    {
        proof {
            reveal(Pgtbl::inv);
        }
        let ghost root = self.root.0 as int;
        let ghost f = alloc.free_list();
        let ghost mem0 = *mem;
        let vpn = va.floor();
        let ghost v = vpn.0;
        proof {
            lemma_index_bounds(v);
            lemma_wf_tables(mem0, root);
            alloc.lemma_wf_facts(mem0);
        }
        let i2 = vpn.vpn_block_sv39(2);
        let i1 = vpn.vpn_block_sv39(1);
        let i0 = vpn.vpn_block_sv39(0);
        let e2 = mem.read_page_word(self.root, i2);
        let pte2 = PTE::from_bits(e2);
        let t1 = if pte2.is_valid() {
            pte2.ppn()
        } else {
            proof {
                assert(tables(mem0, root).contains(root));
                assert(!alloc.free_set().contains(root));
            }
            let (p, Ghost(m1)) = Self::install(mem, alloc, self.root, i2, e2);
            proof {
                assert(alloc.free_set().contains(p.0 as int) || true);
                assert(old(alloc).free_set().contains(f[0] as int));
                assert(!tables(mem0, root).contains(p.0 as int));
                assert(set![p.0 as int].disjoint(tables(mem0, root)));
                lemma_frame(mem0, m1, root, set![p.0 as int]);
                lemma_install_l1(m1, *mem, root, i2 as int, p.0 as int);
                lemma_same_outside_trans(mem0, m1, *mem, set![p.0 as int], set![root]);
                assert(mem.word(p.0 as int, i1 as int) == m1.word(p.0 as int, i1 as int));
                crate::config::lemma_bit_constants();
                assert forall|n: u64|
                    #[trigger] pte_valid(entry2(*mem, root, n)) == (pte_valid(entry2(mem0, root, n))
                        || vpn_index(n, 2) == i2) by {
                    lemma_index_bounds(n);
                    if vpn_index(n, 2) != i2 {
                        assert(mem.word(root, vpn_index(n, 2) as int) == m1.word(
                            root,
                            vpn_index(n, 2) as int,
                        ));
                    }
                }
            }
            p
        };
        let ghost mem2 = *mem;
        let ghost k2: int = if pte_valid(e2) { 0 } else { 1 };
        proof {
            assert(pt_wf(mem2, root));
            assert(pte_valid(mem2.word(root, i2 as int)));
            assert(t1.0 == l1_table(mem2, root, i2 as int));
            assert(alloc.free_list() == f.skip(k2));
            assert(tables(mem2, root) =~= tables(mem0, root).union(prefix_set(f, k2)));
            assert(mem0.same_outside(mem2, tables(mem2, root)));
            assert(alloc.wf(mem2));
            assert(tables(mem2, root).disjoint(alloc.free_set())) by {
                assert forall|t: int| tables(mem2, root).contains(t) implies !alloc.free_set().contains(t) by {
                    if alloc.free_set().contains(t) {
                        let k = choose|k: int| 0 <= k < alloc.free_list().len() && alloc.free_list()[k] == t;
                        assert(alloc.free_list()[k] == f[k + k2]);
                        assert(old(alloc).free_set().contains(t));
                        if prefix_set(f, k2).contains(t) {
                            let q = choose|q: int| 0 <= q < k2 && f[q] == t;
                            assert(f[q] == f[k + k2]);
                        }
                    }
                }
            }
            assert(root_entry_ok(mem2, root, i2 as int));
            assert(tables(mem2, root).contains(t1.0 as int)) by {
                assert(is_l1(mem2, root, t1.0 as int));
            }
            assert(!alloc.free_set().contains(t1.0 as int));
            assert(!pte_valid(e2) ==> !pte_valid(entry1(mem2, root, v)));
            assert forall|n: u64|
                #[trigger] pte_valid(entry2(mem2, root, n)) == (pte_valid(entry2(mem0, root, n))
                    || vpn_index(n, 2) == i2) by {
                if pte_valid(e2) {
                    lemma_index_bounds(n);
                }
            }
            assert forall|n: u64| #[trigger] path_ok(mem2, root, n) == path_ok(mem0, root, n) by {}
            assert(pte_valid(e2) ==> mem2 == mem0);
        }
        let e1 = mem.read_page_word(t1, i1);
        let pte1 = PTE::from_bits(e1);
        let t0 = if pte1.is_valid() {
            pte1.ppn()
        } else {
            let (p, Ghost(m1)) = Self::install(mem, alloc, t1, i1, e1);
            proof {
                let g = old(alloc).free_list();
                assert(!tables(mem2, root).contains(p.0 as int)) by {
                    assert(f.skip(k2)[0] == f[k2]);
                    assert(alloc.free_list().len() > 0 || true);
                }
                assert(set![p.0 as int].disjoint(tables(mem2, root)));
                lemma_frame(mem2, m1, root, set![p.0 as int]);
                assert(l1_table(m1, root, i2 as int) == t1.0);
                lemma_install_l0(m1, *mem, root, i2 as int, i1 as int, p.0 as int);
                lemma_same_outside_trans(mem2, m1, *mem, set![p.0 as int], set![t1.0 as int]);
                assert forall|n: u64|
                    #[trigger] pte_valid(entry2(*mem, root, n)) == pte_valid(entry2(mem2, root, n)) by {
                    lemma_index_bounds(n);
                    assert(mem.word(root, vpn_index(n, 2) as int) == m1.word(
                        root,
                        vpn_index(n, 2) as int,
                    ));
                }
            }
            p
        };
        let ghost mem3 = *mem;
        let ghost k1: int = if pte_valid(e1) { 0 } else { 1 };
        proof {
            assert(pt_wf(mem3, root));
            assert(l0_present(mem3, root, i2 as int, i1 as int));
            assert(t0.0 == l0_table(mem3, root, i2 as int, i1 as int));
            assert(l1_entry_ok(mem3, root, i2 as int, i1 as int));
            mem3.lemma_page_range(t0.0 as int);
            assert(alloc.free_list() == f.skip(k2 + k1));
            assert(walk_frames(mem0, root, v) == k2 + k1);
            assert(tables(mem3, root) =~= tables(mem0, root).union(prefix_set(f, k2 + k1)));
            lemma_same_outside_weaken(mem0, mem2, tables(mem2, root), tables(mem3, root));
            if !pte_valid(e1) {
                lemma_same_outside_trans(mem0, mem2, mem3, tables(mem3, root), tables(mem3, root));
                assert(tables(mem3, root).union(tables(mem3, root)) =~= tables(mem3, root));
            }
            assert(mem0.same_outside(mem3, tables(mem3, root)));
            assert(tables(mem3, root).disjoint(alloc.free_set())) by {
                assert forall|t: int| tables(mem3, root).contains(t) implies !alloc.free_set().contains(t) by {
                    if alloc.free_set().contains(t) {
                        let k = choose|k: int| 0 <= k < alloc.free_list().len() && alloc.free_list()[k] == t;
                        assert(alloc.free_list()[k] == f[k + k2 + k1]);
                        assert(old(alloc).free_set().contains(t));
                        if prefix_set(f, k2 + k1).contains(t) {
                            let q = choose|q: int| 0 <= q < k2 + k1 && f[q] == t;
                            assert(f[q] == f[k + k2 + k1]);
                        }
                    }
                }
            }
            assert((t0.0 * 4096 + i0 * 8) / 4096 == t0.0) by (nonlinear_arith)
                requires
                    i0 < 512,
            ;
            assert((t0.0 * 4096 + i0 * 8) % 8 == 0) by (nonlinear_arith);
            assert forall|n: u64|
                #[trigger] path_ok(mem3, root, n) == (path_ok(mem0, root, n) || (vpn_index(n, 2)
                    == i2 && vpn_index(n, 1) == i1)) by {
                lemma_index_bounds(n);
                assert(path_ok(mem2, root, n) == path_ok(mem0, root, n));
            }
            assert forall|n: u64|
                #[trigger] pte_valid(entry2(mem3, root, n)) == (pte_valid(entry2(mem0, root, n))
                    || vpn_index(n, 2) == i2) by {
                assert(pte_valid(entry2(mem2, root, n)) == (pte_valid(entry2(mem0, root, n))
                    || vpn_index(n, 2) == i2));
            }
        }
        t0.offset_in_page(i0 * PTE_SIZE)
    }

    /// Maps the page of `va` to the frame `page` with exactly the flags
    /// `flags`, creating missing intermediate tables. The page must not be
    /// mapped yet.
    pub fn map(&self, mem: &mut PhysMem, alloc: &mut Kallocator, va: VirtualAddr, page: PhysPageNum, flags: PTEFlag)
        requires
            self.inv(*old(mem), *old(alloc)),
            old(alloc).free_list().len() >= walk_frames(*old(mem), self.root.0 as int, va.0 / 4096),
            !pte_valid(leaf_pte(*old(mem), self.root.0 as int, va.0 / 4096)),
        ensures
            self.inv(*final(mem), *final(alloc)),
            forall|v: u64|
                #[trigger] leaf_pte(*final(mem), self.root.0 as int, v) == if same_slot(v, va.0 / 4096) {
                    pte_with_flags(pte_with_ppn(leaf_pte(*old(mem), self.root.0 as int, va.0 / 4096), page.0), flags@)
                } else {
                    leaf_pte(*old(mem), self.root.0 as int, v)
                },
            forall|v: u64|
                path_ok(*old(mem), self.root.0 as int, v) ==> #[trigger] path_ok(
                    *final(mem),
                    self.root.0 as int,
                    v,
                ),
            final(alloc).free_list() == old(alloc).free_list().skip(
                walk_frames(*old(mem), self.root.0 as int, va.0 / 4096) as int,
            ),
            tables(*final(mem), self.root.0 as int) == tables(*old(mem), self.root.0 as int).union(
                prefix_set(
                    old(alloc).free_list(),
                    walk_frames(*old(mem), self.root.0 as int, va.0 / 4096) as int,
                ),
            ),
            old(mem).same_outside(*final(mem), tables(*final(mem), self.root.0 as int)),
            forall|v: u64|
                #[trigger] pte_valid(entry2(*final(mem), self.root.0 as int, v)) == (pte_valid(
                    entry2(*old(mem), self.root.0 as int, v),
                ) || vpn_index(v, 2) == vpn_index(va.0 / 4096, 2)),
            forall|v: u64|
                #[trigger] path_ok(*final(mem), self.root.0 as int, v) == (path_ok(
                    *old(mem),
                    self.root.0 as int,
                    v,
                ) || (vpn_index(v, 2) == vpn_index(va.0 / 4096, 2) && vpn_index(v, 1) == vpn_index(
                    va.0 / 4096,
                    1,
                ))),
    {
        let ghost root = self.root.0 as int;
        let ghost vpn = va.0 / 4096;
        let pa = self.walk(mem, alloc, va, true);
        let ghost mem1 = *mem;
        proof {
            reveal(Pgtbl::inv);
        }
        let mut pte = PTE::from_bits(mem.read_word(pa));
        pte.set_ppn(page);
        pte.set_flags(flags);
        mem.write_word(pa, pte.bits());
        proof {
            lemma_index_bounds(vpn);
            let t0 = table0(mem1, root, vpn);
            let i0 = vpn_index(vpn, 0) as int;
            assert(pa.0 / 4096 == t0 && (pa.0 % 4096) / 8 == i0) by (nonlinear_arith)
                requires
                    pa.0 == t0 * 4096 + i0 * 8,
                    0 <= i0 < 512,
            ;
            assert(mem1.word_at(pa.0 as int) == leaf_pte(mem1, root, vpn));
            lemma_leaf_write(mem1, *mem, root, vpn);
            assert(mem.word(t0, i0) == mem.word_at(pa.0 as int));
            assert(mem1.word_at(pa.0 as int) == mem1.word(t0, i0));
            assert(mem1.word(t0, i0) == leaf_pte(mem1, root, vpn));
            assert(leaf_pte(mem1, self.root.0 as int, vpn) == leaf_pte(*old(mem), self.root.0 as int, vpn));
            assert(mem1.word_at(pa.0 as int) == leaf_pte(*old(mem), root, vpn));
            assert(mem.word(t0, i0) == pte_with_flags(
                pte_with_ppn(leaf_pte(*old(mem), root, vpn), page.0),
                flags@,
            ));
            lemma_wf_tables(mem1, root);
            assert(l0_present(mem1, root, vpn_index(vpn, 2) as int, vpn_index(vpn, 1) as int));
            assert(is_l0(mem1, root, t0));
            assert(tables(mem1, root).contains(t0));
            assert(!alloc.free_set().contains(t0));
            assert(mem1.same_outside(*mem, set![t0]));
            alloc.lemma_wf_frame(mem1, *mem, set![t0]);
            lemma_same_outside_trans(*old(mem), mem1, *mem, tables(mem1, root), set![t0]);
            assert(tables(mem1, root).union(set![t0]) =~= tables(mem1, root));
            assert forall|v: u64|
                #[trigger] pte_valid(entry2(*mem, root, v)) == (pte_valid(entry2(*old(mem), root, v))
                    || vpn_index(v, 2) == vpn_index(vpn, 2)) by {
                assert(entry2(*mem, root, v) == entry2(mem1, root, v));
                assert(pte_valid(entry2(mem1, root, v)) == (pte_valid(entry2(*old(mem), root, v))
                    || vpn_index(v, 2) == vpn_index(vpn, 2)));
            }
            assert forall|v: u64|
                #[trigger] path_ok(*mem, root, v) == (path_ok(*old(mem), root, v) || (vpn_index(v, 2)
                    == vpn_index(vpn, 2) && vpn_index(v, 1) == vpn_index(vpn, 1))) by {
                assert(path_ok(*mem, root, v) == path_ok(mem1, root, v));
                assert(path_ok(mem1, root, v) == (path_ok(*old(mem), root, v) || (vpn_index(v, 2)
                    == vpn_index(vpn, 2) && vpn_index(v, 1) == vpn_index(vpn, 1))));
            }
            assert forall|v: u64|
                #[trigger] leaf_pte(*mem, self.root.0 as int, v) == if same_slot(v, vpn) {
                    pte_with_flags(pte_with_ppn(leaf_pte(*old(mem), self.root.0 as int, vpn), page.0), flags@)
                } else {
                    leaf_pte(*old(mem), self.root.0 as int, v)
                } by {
                assert(leaf_pte(mem1, self.root.0 as int, v) == leaf_pte(*old(mem), self.root.0 as int, v));
                assert(leaf_pte(*mem, root, v) == if same_slot(v, vpn) {
                    mem.word(t0, i0)
                } else {
                    leaf_pte(mem1, root, v)
                });
            }
        }
    }

    /// The state of `mappages` after mapping the pages `[lo, page)` of
    /// `[lo, hi)` from `mem0`, whose free list was `f` and which needs `total`
    /// table frames in all.
    #[verifier::opaque]
    spec fn mappages_state(
        self,
        mem0: PhysMem,
        f: Seq<u64>,
        total: int,
        lo: int,
        hi: int,
        start: u64,
        flags: u64,
        mem: PhysMem,
        alloc: Kallocator,
        page: u64,
    ) -> bool {
        let root = self.root.0 as int;
        let used = total - range_frames(mem, root, page as int, hi);
        &&& self.inv(mem, alloc)
        &&& 0 <= used <= f.len()
        &&& alloc.free_list() == f.skip(used)
        &&& alloc.free_list().len() >= range_frames(mem, root, page as int, hi)
        &&& tables(mem, root) == tables(mem0, root).union(prefix_set(f, used))
        &&& mem0.same_outside(mem, tables(mem, root))
        &&& forall|n: u64| page <= n < hi ==> !pte_valid(#[trigger] leaf_pte(mem0, root, n))
        &&& forall|n: u64|
            lo <= n < page ==> #[trigger] leaf_pte(mem, root, n) == pte_with_flags(
                pte_with_ppn(leaf_pte(mem0, root, n), (start + (n - lo)) as u64),
                flags,
            )
        &&& forall|v: u64|
            (forall|n: u64| lo <= n < page ==> !#[trigger] same_slot(v, n)) ==> #[trigger] leaf_pte(
                mem,
                root,
                v,
            ) == leaf_pte(mem0, root, v)
    }

    /// What `map` needs for the next page of `mappages`.
    proof fn lemma_map_next_pre(
        self,
        mem0: PhysMem,
        f: Seq<u64>,
        total: int,
        lo: int,
        hi: int,
        start: u64,
        flags: u64,
        m: PhysMem,
        a: Kallocator,
        page: u64,
        w: u64,
    )
        requires
            lo <= page < hi,
            hi - lo <= 0x800_0000,
            same_slot(w, page),
            self.mappages_state(mem0, f, total, lo, hi, start, flags, m, a, page),
        ensures
            self.inv(m, a),
            a.free_list().len() >= walk_frames(m, self.root.0 as int, w),
            !pte_valid(leaf_pte(m, self.root.0 as int, w)),
            forall|n: u64| lo <= n < page ==> !#[trigger] same_slot(page, n),
    {
        let root = self.root.0 as int;
        assert forall|n: u64| lo <= n < page implies !#[trigger] same_slot(page, n) by {
            crate::mm::pt_spec::lemma_same_slot(page, n);
        }
        lemma_same_slot_walk(m, root, w, page);
        lemma_walk_frames_le(m, root, page, hi);
        self.lemma_state_facts(mem0, f, total, lo, hi, start, flags, m, a, page);
    }

    /// What the state of `mappages` says of its next page `page`.
    proof fn lemma_state_facts(
        self,
        mem0: PhysMem,
        f: Seq<u64>,
        total: int,
        lo: int,
        hi: int,
        start: u64,
        flags: u64,
        m: PhysMem,
        a: Kallocator,
        page: u64,
    )
        requires
            page < hi,
            forall|n: u64| lo <= n < page ==> !#[trigger] same_slot(page, n),
            self.mappages_state(mem0, f, total, lo, hi, start, flags, m, a, page),
        ensures
            self.inv(m, a),
            a.free_list().len() >= range_frames(m, self.root.0 as int, page as int, hi),
            leaf_pte(m, self.root.0 as int, page) == leaf_pte(mem0, self.root.0 as int, page),
            !pte_valid(leaf_pte(mem0, self.root.0 as int, page)),
    {
        reveal(Pgtbl::mappages_state);
    }

    /// The state of `mappages` after `map` mapped its next page.
    #[verifier::rlimit(100)]
    proof fn lemma_map_next_post(
        self,
        mem0: PhysMem,
        f: Seq<u64>,
        total: int,
        lo: int,
        hi: int,
        start: u64,
        flags: u64,
        m: PhysMem,
        a: Kallocator,
        m2: PhysMem,
        a2: Kallocator,
        page: u64,
        w: u64,
        next: u64,
    )
        requires
            lo <= page < hi,
            hi <= u64::MAX,
            hi - lo <= 0x800_0000,
            same_slot(w, page),
            next == start + (page - lo),
            forall|n: u64| lo <= n < page ==> !#[trigger] same_slot(page, n),
            self.mappages_state(mem0, f, total, lo, hi, start, flags, m, a, page),
            self.inv(m2, a2),
            forall|v: u64|
                #[trigger] leaf_pte(m2, self.root.0 as int, v) == if same_slot(v, w) {
                    pte_with_flags(pte_with_ppn(leaf_pte(m, self.root.0 as int, w), next), flags)
                } else {
                    leaf_pte(m, self.root.0 as int, v)
                },
            a2.free_list() == a.free_list().skip(walk_frames(m, self.root.0 as int, w) as int),
            tables(m2, self.root.0 as int) == tables(m, self.root.0 as int).union(
                prefix_set(a.free_list(), walk_frames(m, self.root.0 as int, w) as int),
            ),
            m.same_outside(m2, tables(m2, self.root.0 as int)),
            forall|v: u64|
                #[trigger] pte_valid(entry2(m2, self.root.0 as int, v)) == (pte_valid(entry2(m, self.root.0 as int, v))
                    || vpn_index(v, 2) == vpn_index(w, 2)),
            forall|v: u64|
                #[trigger] path_ok(m2, self.root.0 as int, v) == (path_ok(m, self.root.0 as int, v) || (
                vpn_index(v, 2) == vpn_index(w, 2) && vpn_index(v, 1) == vpn_index(w, 1))),
        ensures
            self.mappages_state(mem0, f, total, lo, hi, start, flags, m2, a2, (page + 1) as u64),
    {
        reveal(Pgtbl::mappages_state);
        let root = self.root.0 as int;
        lemma_same_slot_walk(m, root, w, page);
        crate::mm::pt_spec::lemma_same_slot(w, page);
        lemma_mappages_accounting(mem0, m, m2, root, page, hi, f, total, a.free_list());
        lemma_mappages_leaves(mem0, m, m2, root, lo, page, w, start, next, flags);
    }

    /// Maps page `page`, the next page of `mappages`, to frame `next`.
    fn map_next(
        &self,
        mem: &mut PhysMem,
        alloc: &mut Kallocator,
        page: u64,
        next: PhysPageNum,
        flags: PTEFlag,
        Ghost(mem0): Ghost<PhysMem>,
        Ghost(f): Ghost<Seq<u64>>,
        Ghost(total): Ghost<int>,
        Ghost(lo): Ghost<int>,
        Ghost(hi): Ghost<int>,
        Ghost(start): Ghost<u64>,
    )
        requires
            lo <= page < hi,
            hi <= u64::MAX,
            hi - lo <= 0x800_0000,
            next.0 == start + (page - lo),
            total == range_frames(mem0, self.root.0 as int, lo, hi),
            self.mappages_state(mem0, f, total, lo, hi, start, flags@, *old(mem), *old(alloc), page),
        ensures
            self.mappages_state(mem0, f, total, lo, hi, start, flags@, *final(mem), *final(alloc), (page + 1) as u64),
    {
        let ghost m = *mem;
        let ghost a = *alloc;
        let va = VirtualAddr::from(VirtualPageNum(page));
        let ghost w = va.0 / 4096;
        proof {
            lemma_page_base_slot(page);
            crate::mm::pt_spec::lemma_same_slot(w, page);
            self.lemma_map_next_pre(mem0, f, total, lo, hi, start, flags@, m, a, page, w);
        }
        self.map(mem, alloc, va, next, flags);
        proof {
            self.lemma_map_next_post(mem0, f, total, lo, hi, start, flags@, m, a, *mem, *alloc, page, w, next.0);
        }
    }

    /// Maps the pages of `pages` (rounded down at both ends) to consecutive
    /// frames from `start`, each with exactly the flags `flags`. None of the
    /// pages may be mapped yet, and the range must not wrap around the 27-bit
    /// page space.
    #[verifier::rlimit(100)]
    #[verifier::spinoff_prover]
    pub fn mappages(
        &self,
        mem: &mut PhysMem,
        alloc: &mut Kallocator,
        pages: Range<VirtualAddr>,
        start: PhysPageNum,
        flags: PTEFlag,
    )
        requires
            self.inv(*old(mem), *old(alloc)),
            pages.start.0 / 4096 < pages.end.0 / 4096 ==> pages.end.0 / 4096 - pages.start.0 / 4096
                <= 0x800_0000 && start.0 + (pages.end.0 / 4096 - pages.start.0 / 4096) <= u64::MAX,
            forall|n: u64|
                pages.start.0 / 4096 <= n < pages.end.0 / 4096 ==> !pte_valid(
                    #[trigger] leaf_pte(*old(mem), self.root.0 as int, n),
                ),
            old(alloc).free_list().len() >= range_frames(
                *old(mem),
                self.root.0 as int,
                (pages.start.0 / 4096) as int,
                (pages.end.0 / 4096) as int,
            ),
        ensures
            self.inv(*final(mem), *final(alloc)),
            forall|n: u64|
                pages.start.0 / 4096 <= n < pages.end.0 / 4096 ==> #[trigger] leaf_pte(*final(mem), self.root.0 as int, n)
                    == pte_with_flags(
                    pte_with_ppn(leaf_pte(*old(mem), self.root.0 as int, n), (start.0 + (n - pages.start.0 / 4096)) as u64),
                    flags@,
                ),
            forall|v: u64|
                (forall|n: u64|
                    pages.start.0 / 4096 <= n < pages.end.0 / 4096 ==> !#[trigger] same_slot(v, n))
                    ==> #[trigger] leaf_pte(*final(mem), self.root.0 as int, v) == leaf_pte(*old(mem), self.root.0 as int, v),
            final(alloc).free_list() == old(alloc).free_list().skip(
                range_frames(*old(mem), self.root.0 as int, (pages.start.0 / 4096) as int, (pages.end.0 / 4096) as int)
                    as int,
            ),
            tables(*final(mem), self.root.0 as int) == tables(*old(mem), self.root.0 as int).union(
                prefix_set(
                    old(alloc).free_list(),
                    range_frames(*old(mem), self.root.0 as int, (pages.start.0 / 4096) as int, (pages.end.0 / 4096) as int)
                        as int,
                ),
            ),
            old(mem).same_outside(*final(mem), tables(*final(mem), self.root.0 as int)),
    {
        let ghost root = self.root.0 as int;
        let ghost mem0 = *mem;
        let ghost f = alloc.free_list();
        let start_num = pages.start.floor();
        let end_num = pages.end.floor();
        let ghost lo = start_num.0 as int;
        let ghost hi = end_num.0 as int;
        let ghost total = range_frames(mem0, root, lo, hi) as int;
        let mut next = start;
        let mut page = start_num.0;
        if page < end_num.0 {
            proof {
                crate::mm::pt_spec::lemma_missing_finite(mem0, root, lo, hi);
            }
        }
        proof {
            assert(tables(mem0, root).union(prefix_set(f, 0)) =~= tables(mem0, root));
            assert(f.skip(0) =~= f);
            assert forall|n: u64| page <= n < hi implies !pte_valid(#[trigger] leaf_pte(mem0, root, n)) by {
                assert(!pte_valid(leaf_pte(mem0, self.root.0 as int, n)));
            }
            lemma_same_outside_refl(mem0, tables(mem0, root));
        }
        proof {
            reveal(Pgtbl::mappages_state);
        }
        while page < end_num.0
            invariant
                lo <= page <= hi || (page == lo && hi <= lo),
                lo == start_num.0,
                hi == end_num.0,
                root == self.root.0,
                lo < hi ==> hi - lo <= 0x800_0000 && start.0 + (hi - lo) <= u64::MAX,
                next.0 == start.0 + (page - lo),
                total == range_frames(mem0, root, lo, hi),
                self.mappages_state(mem0, f, total, lo, hi, start.0, flags@, *mem, *alloc, page),
            decreases hi - page,
        {
            self.map_next(mem, alloc, page, next, flags, Ghost(mem0), Ghost(f), Ghost(total), Ghost(lo), Ghost(hi), Ghost(start.0));
            next = PhysPageNum(next.0 + 1);
            page = page + 1;
        }
        proof {
            reveal(Pgtbl::mappages_state);
        }
        proof {
            lemma_range_frames_empty(*mem, root, page as int, hi);
            if hi <= lo {
                lemma_range_frames_empty(mem0, root, lo, hi);
            }
            assert forall|n: u64| lo <= n < hi implies #[trigger] leaf_pte(*mem, self.root.0 as int, n) == pte_with_flags(
                pte_with_ppn(leaf_pte(mem0, self.root.0 as int, n), (start.0 + (n - lo)) as u64),
                flags@,
            ) by {
                assert(leaf_pte(*mem, root, n) == pte_with_flags(
                    pte_with_ppn(leaf_pte(mem0, root, n), (start.0 + (n - lo)) as u64),
                    flags@,
                ));
            }
            assert forall|v: u64|
                (forall|n: u64| lo <= n < hi ==> !#[trigger] same_slot(v, n)) implies #[trigger] leaf_pte(
                *mem,
                self.root.0 as int,
                v,
            ) == leaf_pte(mem0, self.root.0 as int, v) by {
                assert(leaf_pte(*mem, root, v) == leaf_pte(mem0, root, v));
            }
        }
    }
}

} // verus!

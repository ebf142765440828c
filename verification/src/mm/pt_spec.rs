//! The meaning of a three-level Sv39 page table held in physical memory.
//!
//! The root frame holds 512 entries; a valid root entry points to a frame of
//! 512 level-1 entries, and a valid level-1 entry to a frame of 512 leaf
//! entries. A table is well formed when every pointer stays inside the
//! memory, no table frame is reached twice, and no big pages are used. The
//! leaf entry of a virtual page is the entry that the walk reaches, or 0
//! where the walk stops at an invalid entry.
use vstd::prelude::*;
use crate::mm::address::vpn_index;
use crate::mm::pte_sv39::{pte_valid, pte_leaf, pte_ppn};
use crate::mm::phys_mem::PhysMem;

verus! {

/// Frame of the level-1 table that root entry `i` points to.
pub open spec fn l1_table(mem: PhysMem, root: int, i: int) -> int {
    pte_ppn(mem.word(root, i)) as int
}

/// Entry `j` of the level-1 table of root entry `i`.
pub open spec fn l1_entry(mem: PhysMem, root: int, i: int, j: int) -> u64 {
    mem.word(l1_table(mem, root, i), j)
}

/// Frame of the leaf table that entry `j` of the level-1 table of root entry
/// `i` points to.
pub open spec fn l0_table(mem: PhysMem, root: int, i: int, j: int) -> int {
    pte_ppn(l1_entry(mem, root, i, j)) as int
}

/// Both entries above the leaf table of `(i, j)` are valid.
pub open spec fn l0_present(mem: PhysMem, root: int, i: int, j: int) -> bool {
    pte_valid(mem.word(root, i)) && pte_valid(l1_entry(mem, root, i, j))
}

pub open spec fn is_l1(mem: PhysMem, root: int, t: int) -> bool {
    exists|i: int| 0 <= i < 512 && pte_valid(#[trigger] mem.word(root, i)) && l1_table(mem, root, i) == t
}

pub open spec fn is_l0(mem: PhysMem, root: int, t: int) -> bool {
    exists|i: int, j: int|
        0 <= i < 512 && 0 <= j < 512 && #[trigger] l0_present(mem, root, i, j) && l0_table(
            mem,
            root,
            i,
            j,
        ) == t
}

/// The frames that hold the table: the root and the tables it reaches.
pub open spec fn tables(mem: PhysMem, root: int) -> Set<int> {
    Set::new(|t: int| t == root || is_l1(mem, root, t) || is_l0(mem, root, t))
}

pub open spec fn root_entry_ok(mem: PhysMem, root: int, i: int) -> bool {
    let e = mem.word(root, i);
    pte_valid(e) ==> !pte_leaf(e) && mem.has_page(pte_ppn(e) as int) && pte_ppn(e) != root
}

pub open spec fn l1_entry_ok(mem: PhysMem, root: int, i: int, j: int) -> bool {
    let t = l0_table(mem, root, i, j);
    l0_present(mem, root, i, j) ==> !pte_leaf(l1_entry(mem, root, i, j)) && mem.has_page(t) && t
        != root && !is_l1(mem, root, t)
}

/// The table rooted at `root` is well formed in `mem`.
pub open spec fn pt_wf(mem: PhysMem, root: int) -> bool {
    &&& mem.wf()
    &&& mem.has_page(root)
    &&& forall|i: int| 0 <= i < 512 ==> #[trigger] root_entry_ok(mem, root, i)
    &&& forall|i: int, j: int| 0 <= i < 512 && 0 <= j < 512 ==> #[trigger] l1_entry_ok(mem, root, i, j)
    &&& forall|i: int, k: int|
        #![trigger l1_table(mem, root, i), l1_table(mem, root, k)]
        0 <= i < 512 && 0 <= k < 512 && i != k && pte_valid(mem.word(root, i)) && pte_valid(
            mem.word(root, k),
        ) ==> l1_table(mem, root, i) != l1_table(mem, root, k)
    &&& forall|i: int, j: int, k: int, l: int|
        #![trigger l0_table(mem, root, i, j), l0_table(mem, root, k, l)]
        0 <= i < 512 && 0 <= j < 512 && 0 <= k < 512 && 0 <= l < 512 && (i, j) != (k, l)
            && l0_present(mem, root, i, j) && l0_present(mem, root, k, l) ==> l0_table(mem, root, i, j)
            != l0_table(mem, root, k, l)
}

/// Root entry that the walk of `vpn` reads.
pub open spec fn entry2(mem: PhysMem, root: int, vpn: u64) -> u64 {
    mem.word(root, vpn_index(vpn, 2) as int)
}

/// Level-1 entry that the walk of `vpn` reads.
pub open spec fn entry1(mem: PhysMem, root: int, vpn: u64) -> u64 {
    l1_entry(mem, root, vpn_index(vpn, 2) as int, vpn_index(vpn, 1) as int)
}

/// Frame of the leaf table that the walk of `vpn` reaches.
pub open spec fn table0(mem: PhysMem, root: int, vpn: u64) -> int {
    l0_table(mem, root, vpn_index(vpn, 2) as int, vpn_index(vpn, 1) as int)
}

/// The walk of `vpn` reaches a leaf table.
pub open spec fn path_ok(mem: PhysMem, root: int, vpn: u64) -> bool {
    l0_present(mem, root, vpn_index(vpn, 2) as int, vpn_index(vpn, 1) as int)
}

/// The leaf entry of `vpn`: what the walk reaches, 0 where it stops early.
pub open spec fn leaf_pte(mem: PhysMem, root: int, vpn: u64) -> u64 {
    if path_ok(mem, root, vpn) {
        mem.word(table0(mem, root, vpn), vpn_index(vpn, 0) as int)
    } else {
        0
    }
}

/// Physical address of the leaf entry of `vpn` (meaningful where the walk
/// reaches a leaf table).
pub open spec fn leaf_pte_addr(mem: PhysMem, root: int, vpn: u64) -> int {
    table0(mem, root, vpn) * 4096 + vpn_index(vpn, 0) * 8
}

/// Number of table frames that a walk of `vpn` with allocation creates.
pub open spec fn walk_frames(mem: PhysMem, root: int, vpn: u64) -> nat {
    if !pte_valid(entry2(mem, root, vpn)) {
        2
    } else if !pte_valid(entry1(mem, root, vpn)) {
        1
    } else {
        0
    }
}

/// Two page numbers select the same leaf entry: their low 27 bits agree.
pub open spec fn same_slot(a: u64, b: u64) -> bool {
    &&& vpn_index(a, 2) == vpn_index(b, 2)
    &&& vpn_index(a, 1) == vpn_index(b, 1)
    &&& vpn_index(a, 0) == vpn_index(b, 0)
}

pub proof fn lemma_same_slot(a: u64, b: u64)
    ensures
        same_slot(a, b) <==> a % 0x800_0000 == b % 0x800_0000,
{
    assert(((a / 0x4_0000) % 512 == (b / 0x4_0000) % 512 && (a / 512) % 512 == (b / 512) % 512 && a
        % 512 == b % 512) <==> a % 0x800_0000 == b % 0x800_0000) by (bit_vector);
}

pub proof fn lemma_index_bounds(vpn: u64)
    ensures
        vpn_index(vpn, 0) < 512,
        vpn_index(vpn, 1) < 512,
        vpn_index(vpn, 2) < 512,
{
}

/// Facts that well-formedness gives about the tables.
pub proof fn lemma_wf_tables(mem: PhysMem, root: int)
    requires
        pt_wf(mem, root),
    ensures
        forall|t: int| #[trigger] tables(mem, root).contains(t) ==> mem.has_page(t),
        tables(mem, root).contains(root),
{
    assert forall|t: int| #[trigger] tables(mem, root).contains(t) implies mem.has_page(t) by {
        if t == root {
        } else if is_l1(mem, root, t) {
            let i = choose|i: int|
                0 <= i < 512 && pte_valid(#[trigger] mem.word(root, i)) && l1_table(mem, root, i) == t;
            assert(root_entry_ok(mem, root, i));
        } else {
            let (i, j) = choose|i: int, j: int|
                0 <= i < 512 && 0 <= j < 512 && #[trigger] l0_present(mem, root, i, j) && l0_table(
                    mem,
                    root,
                    i,
                    j,
                ) == t;
            assert(l1_entry_ok(mem, root, i, j));
        }
    }
}

/// Writes outside the table frames leave the table, its frames and every
/// leaf entry as they were.
pub proof fn lemma_frame(mem: PhysMem, mem2: PhysMem, root: int, changed: Set<int>)
    requires
        pt_wf(mem, root),
        mem2.wf(),
        mem.same_outside(mem2, changed),
        changed.disjoint(tables(mem, root)),
    ensures
        pt_wf(mem2, root),
        tables(mem2, root) == tables(mem, root),
        forall|v: u64| #[trigger] leaf_pte(mem2, root, v) == leaf_pte(mem, root, v),
        forall|v: u64| #[trigger] path_ok(mem2, root, v) == path_ok(mem, root, v),
        forall|v: u64|
            path_ok(mem, root, v) ==> #[trigger] table0(mem2, root, v) == table0(mem, root, v),
{
    assert(tables(mem, root).contains(root));
    assert forall|i: int| 0 <= i < 512 implies #[trigger] mem2.word(root, i) == mem.word(root, i) by {}
    assert forall|i: int, j: int|
        0 <= i < 512 && 0 <= j < 512 && pte_valid(mem.word(root, i)) implies #[trigger] l1_entry(
        mem2,
        root,
        i,
        j,
    ) == l1_entry(mem, root, i, j) by {
        assert(mem2.word(root, i) == mem.word(root, i));
        assert(is_l1(mem, root, l1_table(mem, root, i)));
        assert(tables(mem, root).contains(l1_table(mem, root, i)));
    }
    assert forall|i: int, j: int, k: int|
        0 <= i < 512 && 0 <= j < 512 && 0 <= k < 512 && #[trigger] l0_present(
            mem,
            root,
            i,
            j,
        ) implies #[trigger] mem2.word(l0_table(mem, root, i, j), k) == mem.word(
        l0_table(mem, root, i, j),
        k,
    ) by {
        assert(is_l0(mem, root, l0_table(mem, root, i, j)));
        assert(tables(mem, root).contains(l0_table(mem, root, i, j)));
    }
    assert forall|i: int, j: int|
        0 <= i < 512 && 0 <= j < 512 implies #[trigger] l0_present(mem2, root, i, j) == l0_present(
        mem,
        root,
        i,
        j,
    ) && (l0_present(mem, root, i, j) ==> l0_table(mem2, root, i, j) == l0_table(mem, root, i, j))
        by {
        assert(mem2.word(root, i) == mem.word(root, i));
        if pte_valid(mem.word(root, i)) {
            assert(l1_entry(mem2, root, i, j) == l1_entry(mem, root, i, j));
        }
    }
    assert forall|t: int| is_l1(mem2, root, t) == is_l1(mem, root, t) by {
        if is_l1(mem2, root, t) {
            let i = choose|i: int|
                0 <= i < 512 && pte_valid(#[trigger] mem2.word(root, i)) && l1_table(mem2, root, i) == t;
            assert(mem2.word(root, i) == mem.word(root, i));
        }
        if is_l1(mem, root, t) {
            let i = choose|i: int|
                0 <= i < 512 && pte_valid(#[trigger] mem.word(root, i)) && l1_table(mem, root, i) == t;
            assert(mem2.word(root, i) == mem.word(root, i));
        }
    }
    assert forall|t: int| is_l0(mem2, root, t) == is_l0(mem, root, t) by {
        if is_l0(mem2, root, t) {
            let (i, j) = choose|i: int, j: int|
                0 <= i < 512 && 0 <= j < 512 && #[trigger] l0_present(mem2, root, i, j) && l0_table(
                    mem2,
                    root,
                    i,
                    j,
                ) == t;
            assert(l0_present(mem, root, i, j));
        }
        if is_l0(mem, root, t) {
            let (i, j) = choose|i: int, j: int|
                0 <= i < 512 && 0 <= j < 512 && #[trigger] l0_present(mem, root, i, j) && l0_table(
                    mem,
                    root,
                    i,
                    j,
                ) == t;
            assert(l0_present(mem2, root, i, j));
        }
    }
    assert(tables(mem2, root) =~= tables(mem, root));
    assert forall|i: int| 0 <= i < 512 implies #[trigger] root_entry_ok(mem2, root, i) by {
        assert(root_entry_ok(mem, root, i));
    }
    assert forall|i: int, j: int| 0 <= i < 512 && 0 <= j < 512 implies #[trigger] l1_entry_ok(
        mem2,
        root,
        i,
        j,
    ) by {
        assert(l1_entry_ok(mem, root, i, j));
        assert(l0_present(mem2, root, i, j) == l0_present(mem, root, i, j));
        if l0_present(mem, root, i, j) {
            assert(l1_entry(mem2, root, i, j) == l1_entry(mem, root, i, j));
        }
    }
    assert forall|i: int, k: int|
        0 <= i < 512 && 0 <= k < 512 && i != k && pte_valid(mem2.word(root, i)) && pte_valid(
            mem2.word(root, k),
        ) implies #[trigger] l1_table(mem2, root, i) != #[trigger] l1_table(mem2, root, k) by {
        assert(mem2.word(root, i) == mem.word(root, i));
        assert(mem2.word(root, k) == mem.word(root, k));
        assert(l1_table(mem, root, i) != l1_table(mem, root, k));
    }
    assert forall|i: int, j: int, k: int, l: int|
        0 <= i < 512 && 0 <= j < 512 && 0 <= k < 512 && 0 <= l < 512 && (i, j) != (k, l)
            && l0_present(mem2, root, i, j) && l0_present(mem2, root, k, l) implies #[trigger] l0_table(
        mem2,
        root,
        i,
        j,
    ) != #[trigger] l0_table(mem2, root, k, l) by {
        assert(l0_present(mem, root, i, j));
        assert(l0_present(mem, root, k, l));
        assert(l0_table(mem, root, i, j) != l0_table(mem, root, k, l));
    }
    assert forall|v: u64| #[trigger] leaf_pte(mem2, root, v) == leaf_pte(mem, root, v) by {
        lemma_index_bounds(v);
        let i = vpn_index(v, 2) as int;
        let j = vpn_index(v, 1) as int;
        assert(l0_present(mem2, root, i, j) == l0_present(mem, root, i, j));
        if l0_present(mem, root, i, j) {
            assert(mem2.word(l0_table(mem, root, i, j), vpn_index(v, 0) as int) == mem.word(
                l0_table(mem, root, i, j),
                vpn_index(v, 0) as int,
            ));
        }
    }
    assert forall|v: u64| #[trigger] path_ok(mem2, root, v) == path_ok(mem, root, v) by {
        lemma_index_bounds(v);
        let i = vpn_index(v, 2) as int;
        let j = vpn_index(v, 1) as int;
        assert(l0_present(mem2, root, i, j) == l0_present(mem, root, i, j));
    }
    assert forall|v: u64| path_ok(mem, root, v) implies #[trigger] table0(mem2, root, v) == table0(
        mem,
        root,
        v,
    ) by {
        lemma_index_bounds(v);
        let i = vpn_index(v, 2) as int;
        let j = vpn_index(v, 1) as int;
        assert(mem2.word(root, i) == mem.word(root, i));
        assert(l1_entry(mem2, root, i, j) == l1_entry(mem, root, i, j));
    }
}

/// `mem2` is `mem` with at most the word `j` of frame `p` replaced.
pub open spec fn differs_only_at(mem: PhysMem, mem2: PhysMem, p: int, j: int) -> bool {
    &&& mem2.wf()
    &&& mem2.base() == mem.base()
    &&& mem2.npages() == mem.npages()
    &&& forall|q: int, k: int|
        #![trigger mem2.word(q, k)]
        (q, k) != (p, j) && 0 <= k < 512 ==> mem2.word(q, k) == mem.word(q, k)
}

/// A frame of the table is never a level-1 table and a leaf table at once,
/// nor the root.
proof fn lemma_l0_not_l1(mem: PhysMem, root: int, i: int, j: int)
    requires
        pt_wf(mem, root),
        0 <= i < 512,
        0 <= j < 512,
        l0_present(mem, root, i, j),
    ensures
        l0_table(mem, root, i, j) != root,
        !is_l1(mem, root, l0_table(mem, root, i, j)),
        mem.has_page(l0_table(mem, root, i, j)),
        is_l0(mem, root, l0_table(mem, root, i, j)),
{
    assert(l1_entry_ok(mem, root, i, j));
}

/// Writing the leaf entry of `vpn` changes that leaf entry only: the table
/// stays well formed, keeps its frames, and every page number of another
/// slot keeps its leaf entry.
pub proof fn lemma_leaf_write(mem: PhysMem, mem2: PhysMem, root: int, vpn: u64)
    requires
        pt_wf(mem, root),
        path_ok(mem, root, vpn),
        differs_only_at(mem, mem2, table0(mem, root, vpn), vpn_index(vpn, 0) as int),
    ensures
        pt_wf(mem2, root),
        tables(mem2, root) == tables(mem, root),
        forall|v: u64| #[trigger] path_ok(mem2, root, v) == path_ok(mem, root, v),
        forall|v: u64|
            path_ok(mem, root, v) ==> #[trigger] table0(mem2, root, v) == table0(mem, root, v),
        forall|v: u64|
            #[trigger] leaf_pte(mem2, root, v) == if same_slot(v, vpn) {
                mem2.word(table0(mem, root, vpn), vpn_index(vpn, 0) as int)
            } else {
                leaf_pte(mem, root, v)
            },
        forall|v: u64| #[trigger] entry2(mem2, root, v) == entry2(mem, root, v),
{
    lemma_index_bounds(vpn);
    let t0 = table0(mem, root, vpn);
    let i0 = vpn_index(vpn, 0) as int;
    lemma_l0_not_l1(mem, root, vpn_index(vpn, 2) as int, vpn_index(vpn, 1) as int);
    assert forall|i: int| 0 <= i < 512 implies #[trigger] mem2.word(root, i) == mem.word(root, i) by {}
    assert forall|i: int, j: int|
        0 <= i < 512 && 0 <= j < 512 && pte_valid(mem.word(root, i)) implies #[trigger] l1_entry(
        mem2,
        root,
        i,
        j,
    ) == l1_entry(mem, root, i, j) by {
        assert(mem2.word(root, i) == mem.word(root, i));
        assert(is_l1(mem, root, l1_table(mem, root, i)));
    }
    assert forall|i: int, j: int|
        0 <= i < 512 && 0 <= j < 512 implies #[trigger] l0_present(mem2, root, i, j) == l0_present(
        mem,
        root,
        i,
        j,
    ) && (l0_present(mem, root, i, j) ==> l0_table(mem2, root, i, j) == l0_table(mem, root, i, j))
        by {
        assert(mem2.word(root, i) == mem.word(root, i));
        if pte_valid(mem.word(root, i)) {
            assert(l1_entry(mem2, root, i, j) == l1_entry(mem, root, i, j));
        }
    }
    assert forall|t: int| is_l1(mem2, root, t) == is_l1(mem, root, t) by {
        if is_l1(mem2, root, t) {
            let i = choose|i: int|
                0 <= i < 512 && pte_valid(#[trigger] mem2.word(root, i)) && l1_table(mem2, root, i) == t;
            assert(mem2.word(root, i) == mem.word(root, i));
        }
        if is_l1(mem, root, t) {
            let i = choose|i: int|
                0 <= i < 512 && pte_valid(#[trigger] mem.word(root, i)) && l1_table(mem, root, i) == t;
            assert(mem2.word(root, i) == mem.word(root, i));
        }
    }
    assert forall|t: int| is_l0(mem2, root, t) == is_l0(mem, root, t) by {
        if is_l0(mem2, root, t) {
            let (i, j) = choose|i: int, j: int|
                0 <= i < 512 && 0 <= j < 512 && #[trigger] l0_present(mem2, root, i, j) && l0_table(
                    mem2,
                    root,
                    i,
                    j,
                ) == t;
            assert(l0_present(mem, root, i, j));
        }
        if is_l0(mem, root, t) {
            let (i, j) = choose|i: int, j: int|
                0 <= i < 512 && 0 <= j < 512 && #[trigger] l0_present(mem, root, i, j) && l0_table(
                    mem,
                    root,
                    i,
                    j,
                ) == t;
            assert(l0_present(mem2, root, i, j));
        }
    }
    assert(tables(mem2, root) =~= tables(mem, root));
    assert forall|i: int| 0 <= i < 512 implies #[trigger] root_entry_ok(mem2, root, i) by {
        assert(root_entry_ok(mem, root, i));
    }
    assert forall|i: int, j: int| 0 <= i < 512 && 0 <= j < 512 implies #[trigger] l1_entry_ok(
        mem2,
        root,
        i,
        j,
    ) by {
        assert(l1_entry_ok(mem, root, i, j));
        assert(l0_present(mem2, root, i, j) == l0_present(mem, root, i, j));
        if l0_present(mem, root, i, j) {
            assert(l1_entry(mem2, root, i, j) == l1_entry(mem, root, i, j));
        }
    }
    assert forall|i: int, k: int|
        0 <= i < 512 && 0 <= k < 512 && i != k && pte_valid(mem2.word(root, i)) && pte_valid(
            mem2.word(root, k),
        ) implies #[trigger] l1_table(mem2, root, i) != #[trigger] l1_table(mem2, root, k) by {
        assert(mem2.word(root, i) == mem.word(root, i));
        assert(mem2.word(root, k) == mem.word(root, k));
        assert(l1_table(mem, root, i) != l1_table(mem, root, k));
    }
    assert forall|i: int, j: int, k: int, l: int|
        0 <= i < 512 && 0 <= j < 512 && 0 <= k < 512 && 0 <= l < 512 && (i, j) != (k, l)
            && l0_present(mem2, root, i, j) && l0_present(mem2, root, k, l) implies #[trigger] l0_table(
        mem2,
        root,
        i,
        j,
    ) != #[trigger] l0_table(mem2, root, k, l) by {
        assert(l0_present(mem, root, i, j));
        assert(l0_present(mem, root, k, l));
        assert(l0_table(mem, root, i, j) != l0_table(mem, root, k, l));
    }
    assert forall|v: u64| #[trigger] path_ok(mem2, root, v) == path_ok(mem, root, v) by {
        lemma_index_bounds(v);
        let i = vpn_index(v, 2) as int;
        let j = vpn_index(v, 1) as int;
        assert(l0_present(mem2, root, i, j) == l0_present(mem, root, i, j));
    }
    assert forall|v: u64| path_ok(mem, root, v) implies #[trigger] table0(mem2, root, v) == table0(
        mem,
        root,
        v,
    ) by {
        lemma_index_bounds(v);
        let i = vpn_index(v, 2) as int;
        let j = vpn_index(v, 1) as int;
        assert(l0_present(mem2, root, i, j) == l0_present(mem, root, i, j));
    }
    assert forall|v: u64| #[trigger] entry2(mem2, root, v) == entry2(mem, root, v) by {
        lemma_index_bounds(v);
    }
    assert forall|v: u64|
        #[trigger] leaf_pte(mem2, root, v) == if same_slot(v, vpn) {
            mem2.word(t0, i0)
        } else {
            leaf_pte(mem, root, v)
        } by {
        lemma_index_bounds(v);
        let i = vpn_index(v, 2) as int;
        let j = vpn_index(v, 1) as int;
        assert(l0_present(mem2, root, i, j) == l0_present(mem, root, i, j));
        if same_slot(v, vpn) {
        } else if l0_present(mem, root, i, j) {
            let t = l0_table(mem, root, i, j);
            assert(l0_table(mem2, root, i, j) == t);
            if t == t0 {
                let a = vpn_index(vpn, 2) as int;
                let b = vpn_index(vpn, 1) as int;
                if (i, j) != (a, b) {
                    assert(l0_table(mem, root, i, j) != l0_table(mem, root, a, b));
                }
                assert(vpn_index(v, 0) != vpn_index(vpn, 0));
            }
            assert(mem2.word(t, vpn_index(v, 0) as int) == mem.word(t, vpn_index(v, 0) as int));
        }
    }
}

/// Pointing an invalid root entry at a fresh zeroed frame adds that frame to
/// the table and changes no leaf entry.
pub proof fn lemma_install_l1(mem: PhysMem, mem2: PhysMem, root: int, i: int, p: int)
    requires
        pt_wf(mem, root),
        0 <= i < 512,
        !pte_valid(mem.word(root, i)),
        mem.has_page(p),
        !tables(mem, root).contains(p),
        mem.page_is_zero(p),
        differs_only_at(mem, mem2, root, i),
        pte_valid(mem2.word(root, i)),
        !pte_leaf(mem2.word(root, i)),
        pte_ppn(mem2.word(root, i)) == p,
    ensures
        pt_wf(mem2, root),
        tables(mem2, root) == tables(mem, root).insert(p),
        forall|v: u64| #[trigger] leaf_pte(mem2, root, v) == leaf_pte(mem, root, v),
        forall|v: u64| #[trigger] path_ok(mem2, root, v) == path_ok(mem, root, v),
        forall|v: u64|
            path_ok(mem, root, v) ==> #[trigger] table0(mem2, root, v) == table0(mem, root, v),
{
    assert(tables(mem, root).contains(root));
    assert(p != root);
    // The level-1 tables of the other root entries, and their entries, stay.
    assert forall|k: int, j: int|
        0 <= k < 512 && 0 <= j < 512 && k != i && pte_valid(mem.word(root, k)) implies #[trigger] l1_entry(
        mem2,
        root,
        k,
        j,
    ) == l1_entry(mem, root, k, j) by {
        assert(mem2.word(root, k) == mem.word(root, k));
        assert(root_entry_ok(mem, root, k));
    }
    assert forall|j: int| 0 <= j < 512 implies #[trigger] l1_entry(mem2, root, i, j) == 0 by {
        assert(mem2.word(p, j) == mem.word(p, j));
        assert(mem.word(p, j) == 0);
    }
    assert forall|k: int, j: int|
        0 <= k < 512 && 0 <= j < 512 implies #[trigger] l0_present(mem2, root, k, j) == l0_present(
        mem,
        root,
        k,
        j,
    ) && (l0_present(mem, root, k, j) ==> l0_table(mem2, root, k, j) == l0_table(mem, root, k, j))
        by {
        if k == i {
            assert(l1_entry(mem2, root, i, j) == 0);
            crate::config::lemma_bit_constants();
        } else {
            assert(mem2.word(root, k) == mem.word(root, k));
            if pte_valid(mem.word(root, k)) {
                assert(l1_entry(mem2, root, k, j) == l1_entry(mem, root, k, j));
            }
        }
    }
    assert forall|t: int| is_l1(mem2, root, t) == (is_l1(mem, root, t) || t == p) by {
        if is_l1(mem2, root, t) {
            let k = choose|k: int|
                0 <= k < 512 && pte_valid(#[trigger] mem2.word(root, k)) && l1_table(mem2, root, k) == t;
            if k != i {
                assert(mem2.word(root, k) == mem.word(root, k));
            }
        }
        if is_l1(mem, root, t) {
            let k = choose|k: int|
                0 <= k < 512 && pte_valid(#[trigger] mem.word(root, k)) && l1_table(mem, root, k) == t;
            assert(mem2.word(root, k) == mem.word(root, k));
        }
        if t == p {
            assert(pte_valid(mem2.word(root, i)));
        }
    }
    assert forall|t: int| is_l0(mem2, root, t) == is_l0(mem, root, t) by {
        if is_l0(mem2, root, t) {
            let (k, j) = choose|k: int, j: int|
                0 <= k < 512 && 0 <= j < 512 && #[trigger] l0_present(mem2, root, k, j) && l0_table(
                    mem2,
                    root,
                    k,
                    j,
                ) == t;
            assert(l0_present(mem, root, k, j));
        }
        if is_l0(mem, root, t) {
            let (k, j) = choose|k: int, j: int|
                0 <= k < 512 && 0 <= j < 512 && #[trigger] l0_present(mem, root, k, j) && l0_table(
                    mem,
                    root,
                    k,
                    j,
                ) == t;
            assert(l0_present(mem2, root, k, j));
        }
    }
    assert(tables(mem2, root) =~= tables(mem, root).insert(p));
    assert forall|k: int| 0 <= k < 512 implies #[trigger] root_entry_ok(mem2, root, k) by {
        assert(root_entry_ok(mem, root, k));
    }
    assert forall|k: int, j: int| 0 <= k < 512 && 0 <= j < 512 implies #[trigger] l1_entry_ok(
        mem2,
        root,
        k,
        j,
    ) by {
        assert(l1_entry_ok(mem, root, k, j));
        if l0_present(mem, root, k, j) {
            assert(l1_entry(mem2, root, k, j) == l1_entry(mem, root, k, j));
            let t = l0_table(mem, root, k, j);
            assert(is_l0(mem, root, t));
            assert(tables(mem, root).contains(t));
        }
    }
    assert forall|a: int, k: int|
        0 <= a < 512 && 0 <= k < 512 && a != k && pte_valid(mem2.word(root, a)) && pte_valid(
            mem2.word(root, k),
        ) implies #[trigger] l1_table(mem2, root, a) != #[trigger] l1_table(mem2, root, k) by {
        if a != i && k != i {
            assert(l1_table(mem, root, a) != l1_table(mem, root, k));
        } else if a == i {
            assert(is_l1(mem, root, l1_table(mem, root, k)));
            assert(tables(mem, root).contains(l1_table(mem, root, k)));
        } else {
            assert(is_l1(mem, root, l1_table(mem, root, a)));
            assert(tables(mem, root).contains(l1_table(mem, root, a)));
        }
    }
    assert forall|a: int, j: int, k: int, l: int|
        0 <= a < 512 && 0 <= j < 512 && 0 <= k < 512 && 0 <= l < 512 && (a, j) != (k, l)
            && l0_present(mem2, root, a, j) && l0_present(mem2, root, k, l) implies #[trigger] l0_table(
        mem2,
        root,
        a,
        j,
    ) != #[trigger] l0_table(mem2, root, k, l) by {
        assert(l0_present(mem, root, a, j));
        assert(l0_present(mem, root, k, l));
        assert(l0_table(mem, root, a, j) != l0_table(mem, root, k, l));
    }
    assert forall|v: u64| #[trigger] path_ok(mem2, root, v) == path_ok(mem, root, v) by {
        lemma_index_bounds(v);
        let a = vpn_index(v, 2) as int;
        let j = vpn_index(v, 1) as int;
        assert(l0_present(mem2, root, a, j) == l0_present(mem, root, a, j));
    }
    assert forall|v: u64| path_ok(mem, root, v) implies #[trigger] table0(mem2, root, v) == table0(
        mem,
        root,
        v,
    ) by {
        lemma_index_bounds(v);
        let a = vpn_index(v, 2) as int;
        let j = vpn_index(v, 1) as int;
        assert(l0_present(mem2, root, a, j) == l0_present(mem, root, a, j));
    }
    assert forall|v: u64| #[trigger] leaf_pte(mem2, root, v) == leaf_pte(mem, root, v) by {
        lemma_index_bounds(v);
        let a = vpn_index(v, 2) as int;
        let j = vpn_index(v, 1) as int;
        assert(l0_present(mem2, root, a, j) == l0_present(mem, root, a, j));
        if l0_present(mem, root, a, j) {
            lemma_l0_not_l1(mem, root, a, j);
            let t = l0_table(mem, root, a, j);
            assert(mem2.word(t, vpn_index(v, 0) as int) == mem.word(t, vpn_index(v, 0) as int));
        }
    }
}

/// Pointing an invalid level-1 entry at a fresh zeroed frame adds that frame
/// to the table and changes no leaf entry; the walk of every page number of
/// that entry now reaches the new frame.
pub proof fn lemma_install_l0(mem: PhysMem, mem2: PhysMem, root: int, i: int, j: int, p: int)
    requires
        pt_wf(mem, root),
        0 <= i < 512,
        0 <= j < 512,
        pte_valid(mem.word(root, i)),
        !pte_valid(l1_entry(mem, root, i, j)),
        mem.has_page(p),
        !tables(mem, root).contains(p),
        mem.page_is_zero(p),
        differs_only_at(mem, mem2, l1_table(mem, root, i), j),
        pte_valid(mem2.word(l1_table(mem, root, i), j)),
        !pte_leaf(mem2.word(l1_table(mem, root, i), j)),
        pte_ppn(mem2.word(l1_table(mem, root, i), j)) == p,
    ensures
        pt_wf(mem2, root),
        tables(mem2, root) == tables(mem, root).insert(p),
        forall|v: u64| #[trigger] leaf_pte(mem2, root, v) == leaf_pte(mem, root, v),
        l0_present(mem2, root, i, j),
        l0_table(mem2, root, i, j) == p,
        forall|v: u64|
            #[trigger] path_ok(mem2, root, v) == (path_ok(mem, root, v) || (vpn_index(v, 2) == i
                && vpn_index(v, 1) == j)),
        forall|v: u64|
            path_ok(mem, root, v) ==> #[trigger] table0(mem2, root, v) == table0(mem, root, v),
{
    let t1 = l1_table(mem, root, i);
    assert(tables(mem, root).contains(root));
    assert(root_entry_ok(mem, root, i));
    assert(is_l1(mem, root, t1));
    assert(tables(mem, root).contains(t1));
    assert(p != root && p != t1);
    assert forall|k: int| 0 <= k < 512 implies #[trigger] mem2.word(root, k) == mem.word(root, k) by {}
    assert forall|k: int, l: int|
        0 <= k < 512 && 0 <= l < 512 && (k, l) != (i, j) && pte_valid(mem.word(root, k)) implies #[trigger] l1_entry(
        mem2,
        root,
        k,
        l,
    ) == l1_entry(mem, root, k, l) by {
        assert(mem2.word(root, k) == mem.word(root, k));
        if k != i {
            assert(l1_table(mem, root, k) != t1);
        }
    }
    assert forall|k: int, l: int|
        0 <= k < 512 && 0 <= l < 512 implies #[trigger] l0_present(mem2, root, k, l) == (l0_present(
        mem,
        root,
        k,
        l,
    ) || (k, l) == (i, j)) && ((k, l) != (i, j) && l0_present(mem, root, k, l) ==> l0_table(
        mem2,
        root,
        k,
        l,
    ) == l0_table(mem, root, k, l)) by {
        assert(mem2.word(root, k) == mem.word(root, k));
        if (k, l) != (i, j) && pte_valid(mem.word(root, k)) {
            assert(l1_entry(mem2, root, k, l) == l1_entry(mem, root, k, l));
        }
    }
    assert forall|t: int| is_l1(mem2, root, t) == is_l1(mem, root, t) by {
        if is_l1(mem2, root, t) {
            let k = choose|k: int|
                0 <= k < 512 && pte_valid(#[trigger] mem2.word(root, k)) && l1_table(mem2, root, k) == t;
            assert(mem2.word(root, k) == mem.word(root, k));
        }
        if is_l1(mem, root, t) {
            let k = choose|k: int|
                0 <= k < 512 && pte_valid(#[trigger] mem.word(root, k)) && l1_table(mem, root, k) == t;
            assert(mem2.word(root, k) == mem.word(root, k));
        }
    }
    assert forall|t: int| is_l0(mem2, root, t) == (is_l0(mem, root, t) || t == p) by {
        if is_l0(mem2, root, t) {
            let (k, l) = choose|k: int, l: int|
                0 <= k < 512 && 0 <= l < 512 && #[trigger] l0_present(mem2, root, k, l) && l0_table(
                    mem2,
                    root,
                    k,
                    l,
                ) == t;
            if (k, l) != (i, j) {
                assert(l0_present(mem, root, k, l));
            }
        }
        if is_l0(mem, root, t) {
            let (k, l) = choose|k: int, l: int|
                0 <= k < 512 && 0 <= l < 512 && #[trigger] l0_present(mem, root, k, l) && l0_table(
                    mem,
                    root,
                    k,
                    l,
                ) == t;
            assert(l0_present(mem2, root, k, l));
        }
        if t == p {
            assert(l0_present(mem2, root, i, j));
        }
    }
    assert(tables(mem2, root) =~= tables(mem, root).insert(p));
    assert forall|k: int| 0 <= k < 512 implies #[trigger] root_entry_ok(mem2, root, k) by {
        assert(root_entry_ok(mem, root, k));
    }
    assert forall|k: int, l: int| 0 <= k < 512 && 0 <= l < 512 implies #[trigger] l1_entry_ok(
        mem2,
        root,
        k,
        l,
    ) by {
        assert(l1_entry_ok(mem, root, k, l));
        if (k, l) != (i, j) && l0_present(mem, root, k, l) {
            assert(l1_entry(mem2, root, k, l) == l1_entry(mem, root, k, l));
        }
    }
    assert forall|a: int, k: int|
        0 <= a < 512 && 0 <= k < 512 && a != k && pte_valid(mem2.word(root, a)) && pte_valid(
            mem2.word(root, k),
        ) implies #[trigger] l1_table(mem2, root, a) != #[trigger] l1_table(mem2, root, k) by {
        assert(l1_table(mem, root, a) != l1_table(mem, root, k));
    }
    assert forall|a: int, b: int, k: int, l: int|
        0 <= a < 512 && 0 <= b < 512 && 0 <= k < 512 && 0 <= l < 512 && (a, b) != (k, l)
            && l0_present(mem2, root, a, b) && l0_present(mem2, root, k, l) implies #[trigger] l0_table(
        mem2,
        root,
        a,
        b,
    ) != #[trigger] l0_table(mem2, root, k, l) by {
        if (a, b) != (i, j) && (k, l) != (i, j) {
            assert(l0_table(mem, root, a, b) != l0_table(mem, root, k, l));
        } else if (a, b) == (i, j) {
            assert(is_l0(mem, root, l0_table(mem, root, k, l)));
            assert(tables(mem, root).contains(l0_table(mem, root, k, l)));
        } else {
            assert(is_l0(mem, root, l0_table(mem, root, a, b)));
            assert(tables(mem, root).contains(l0_table(mem, root, a, b)));
        }
    }
    assert forall|v: u64|
        #[trigger] path_ok(mem2, root, v) == (path_ok(mem, root, v) || (vpn_index(v, 2) == i
            && vpn_index(v, 1) == j)) by {
        lemma_index_bounds(v);
        let a = vpn_index(v, 2) as int;
        let b = vpn_index(v, 1) as int;
        assert(l0_present(mem2, root, a, b) == (l0_present(mem, root, a, b) || (a, b) == (i, j)));
    }
    assert forall|v: u64| path_ok(mem, root, v) implies #[trigger] table0(mem2, root, v) == table0(
        mem,
        root,
        v,
    ) by {
        lemma_index_bounds(v);
        let a = vpn_index(v, 2) as int;
        let b = vpn_index(v, 1) as int;
        assert(l0_present(mem2, root, a, b) == (l0_present(mem, root, a, b) || (a, b) == (i, j)));
    }
    assert forall|v: u64| #[trigger] leaf_pte(mem2, root, v) == leaf_pte(mem, root, v) by {
        lemma_index_bounds(v);
        let a = vpn_index(v, 2) as int;
        let b = vpn_index(v, 1) as int;
        assert(l0_present(mem2, root, a, b) == (l0_present(mem, root, a, b) || (a, b) == (i, j)));
        if (a, b) == (i, j) {
            assert(mem2.word(p, vpn_index(v, 0) as int) == mem.word(p, vpn_index(v, 0) as int));
            assert(mem.word(p, vpn_index(v, 0) as int) == 0);
        } else if l0_present(mem, root, a, b) {
            lemma_l0_not_l1(mem, root, a, b);
            let t = l0_table(mem, root, a, b);
            assert(t != t1);
            assert(mem2.word(t, vpn_index(v, 0) as int) == mem.word(t, vpn_index(v, 0) as int));
        }
    }
}

/// Key of the leaf table that the walk of `v` needs: its two upper indices.
pub open spec fn l0_key(v: u64) -> int {
    vpn_index(v, 2) * 512 + vpn_index(v, 1)
}

/// Root entries that the page numbers of `[lo, hi)` need and that are
/// missing.
pub open spec fn missing_l1(mem: PhysMem, root: int, lo: int, hi: int) -> Set<int> {
    Set::new(
        |k: int|
            exists|n: u64|
                lo <= n < hi && !pte_valid(#[trigger] entry2(mem, root, n)) && vpn_index(n, 2) == k,
    )
}

/// Leaf tables that the page numbers of `[lo, hi)` need and that are
/// missing.
pub open spec fn missing_l0(mem: PhysMem, root: int, lo: int, hi: int) -> Set<int> {
    Set::new(
        |k: int| exists|n: u64| lo <= n < hi && !#[trigger] path_ok(mem, root, n) && l0_key(n) == k,
    )
}

/// Number of table frames that mapping every page number of `[lo, hi)`
/// creates: one per missing level-1 table and one per missing leaf table.
pub open spec fn range_frames(mem: PhysMem, root: int, lo: int, hi: int) -> nat {
    missing_l1(mem, root, lo, hi).len() + missing_l0(mem, root, lo, hi).len()
}

pub proof fn lemma_missing_finite(mem: PhysMem, root: int, lo: int, hi: int)
    ensures
        missing_l1(mem, root, lo, hi).finite(),
        missing_l0(mem, root, lo, hi).finite(),
{
    vstd::set_lib::lemma_int_range(0, 512);
    vstd::set_lib::lemma_int_range(0, 0x4_0000);
    assert forall|k: int| #[trigger] missing_l1(mem, root, lo, hi).contains(k) implies vstd::set_lib::set_int_range(
        0,
        512,
    ).contains(k) by {
        let n = choose|n: u64|
            lo <= n < hi && !pte_valid(#[trigger] entry2(mem, root, n)) && vpn_index(n, 2) == k;
        lemma_index_bounds(n);
    }
    assert forall|k: int| #[trigger] missing_l0(mem, root, lo, hi).contains(k) implies vstd::set_lib::set_int_range(
        0,
        0x4_0000,
    ).contains(k) by {
        let n = choose|n: u64| lo <= n < hi && !#[trigger] path_ok(mem, root, n) && l0_key(n) == k;
        lemma_index_bounds(n);
    }
    vstd::set_lib::lemma_len_subset(
        missing_l1(mem, root, lo, hi),
        vstd::set_lib::set_int_range(0, 512),
    );
    vstd::set_lib::lemma_len_subset(
        missing_l0(mem, root, lo, hi),
        vstd::set_lib::set_int_range(0, 0x4_0000),
    );
}

proof fn lemma_l0_key_injective(a: u64, b: u64)
    requires
        l0_key(a) == l0_key(b),
    ensures
        vpn_index(a, 2) == vpn_index(b, 2),
        vpn_index(a, 1) == vpn_index(b, 1),
{
    lemma_index_bounds(a);
    lemma_index_bounds(b);
    let a2 = vpn_index(a, 2) as int;
    let a1 = vpn_index(a, 1) as int;
    let b2 = vpn_index(b, 2) as int;
    let b1 = vpn_index(b, 1) as int;
    assert(a2 == b2 && a1 == b1) by (nonlinear_arith)
        requires
            a2 * 512 + a1 == b2 * 512 + b1,
            0 <= a1 < 512,
            0 <= b1 < 512,
            0 <= a2,
            0 <= b2,
    ;
}

/// Mapping the first page number of a range creates the frames that it
/// needs, and the rest of the range needs the remaining ones.
pub proof fn lemma_range_step(mem: PhysMem, mem2: PhysMem, root: int, cur: u64, hi: int)
    requires
        cur < hi,
        forall|v: u64|
            #[trigger] pte_valid(entry2(mem2, root, v)) == (pte_valid(entry2(mem, root, v))
                || vpn_index(v, 2) == vpn_index(cur, 2)),
        forall|v: u64|
            #[trigger] path_ok(mem2, root, v) == (path_ok(mem, root, v) || (vpn_index(v, 2)
                == vpn_index(cur, 2) && vpn_index(v, 1) == vpn_index(cur, 1))),
    ensures
        range_frames(mem2, root, cur + 1, hi) + walk_frames(mem, root, cur) == range_frames(
            mem,
            root,
            cur as int,
            hi,
        ),
        walk_frames(mem, root, cur) <= range_frames(mem, root, cur as int, hi),
{
    lemma_missing_finite(mem, root, cur as int, hi);
    lemma_missing_finite(mem2, root, cur + 1, hi);
    let a1 = missing_l1(mem, root, cur as int, hi);
    let b1 = missing_l1(mem2, root, cur + 1, hi);
    let a0 = missing_l0(mem, root, cur as int, hi);
    let b0 = missing_l0(mem2, root, cur + 1, hi);
    let k1 = vpn_index(cur, 2) as int;
    let k0 = l0_key(cur);
    assert forall|k: int| b1.contains(k) == a1.remove(k1).contains(k) by {
        if b1.contains(k) {
            let n = choose|n: u64|
                cur + 1 <= n < hi && !pte_valid(#[trigger] entry2(mem2, root, n)) && vpn_index(n, 2)
                    == k;
            assert(!pte_valid(entry2(mem, root, n)));
        }
        if a1.remove(k1).contains(k) {
            let n = choose|n: u64|
                cur <= n < hi && !pte_valid(#[trigger] entry2(mem, root, n)) && vpn_index(n, 2) == k;
            assert(n != cur);
            assert(!pte_valid(entry2(mem2, root, n)));
        }
    }
    assert(b1 =~= a1.remove(k1));
    assert forall|k: int| b0.contains(k) == a0.remove(k0).contains(k) by {
        if b0.contains(k) {
            let n = choose|n: u64| cur + 1 <= n < hi && !#[trigger] path_ok(mem2, root, n) && l0_key(n) == k;
            assert(!path_ok(mem, root, n));
            if k == k0 {
                lemma_l0_key_injective(n, cur);
            }
        }
        if a0.remove(k0).contains(k) {
            let n = choose|n: u64| cur <= n < hi && !#[trigger] path_ok(mem, root, n) && l0_key(n) == k;
            assert(n != cur);
            assert(!path_ok(mem2, root, n));
        }
    }
    assert(b0 =~= a0.remove(k0));
    vstd::set::axiom_set_remove_len(a1, k1);
    vstd::set::axiom_set_remove_len(a0, k0);
    lemma_index_bounds(cur);
    assert(a1.contains(k1) == !pte_valid(entry2(mem, root, cur))) by {
        if a1.contains(k1) {
            let n = choose|n: u64|
                cur <= n < hi && !pte_valid(#[trigger] entry2(mem, root, n)) && vpn_index(n, 2) == k1;
            assert(entry2(mem, root, n) == entry2(mem, root, cur));
        }
        if !pte_valid(entry2(mem, root, cur)) {
            assert(a1.contains(k1));
        }
    }
    assert(a0.contains(k0) == !path_ok(mem, root, cur)) by {
        if a0.contains(k0) {
            let n = choose|n: u64| cur <= n < hi && !#[trigger] path_ok(mem, root, n) && l0_key(n) == k0;
            lemma_l0_key_injective(n, cur);
        }
        if !path_ok(mem, root, cur) {
            assert(a0.contains(k0));
        }
    }
}

/// Page numbers of one slot share their whole walk.
pub proof fn lemma_same_slot_walk(mem: PhysMem, root: int, a: u64, b: u64)
    requires
        same_slot(a, b),
    ensures
        leaf_pte(mem, root, a) == leaf_pte(mem, root, b),
        path_ok(mem, root, a) == path_ok(mem, root, b),
        entry2(mem, root, a) == entry2(mem, root, b),
        walk_frames(mem, root, a) == walk_frames(mem, root, b),
{
}

/// An empty range needs no frame.
pub proof fn lemma_range_frames_empty(mem: PhysMem, root: int, lo: int, hi: int)
    requires
        hi <= lo,
    ensures
        range_frames(mem, root, lo, hi) == 0,
{
    assert(missing_l1(mem, root, lo, hi) =~= Set::empty());
    assert(missing_l0(mem, root, lo, hi) =~= Set::empty());
}

/// A walk of the first page number of a range creates at most the frames
/// that the range needs.
pub proof fn lemma_walk_frames_le(mem: PhysMem, root: int, cur: u64, hi: int)
    requires
        cur < hi,
    ensures
        walk_frames(mem, root, cur) <= range_frames(mem, root, cur as int, hi),
{
    lemma_missing_finite(mem, root, cur as int, hi);
    let a1 = missing_l1(mem, root, cur as int, hi);
    let a0 = missing_l0(mem, root, cur as int, hi);
    lemma_index_bounds(cur);
    if !pte_valid(entry2(mem, root, cur)) {
        assert(a1.contains(vpn_index(cur, 2) as int));
        vstd::set::axiom_set_remove_len(a1, vpn_index(cur, 2) as int);
    }
    if !path_ok(mem, root, cur) {
        assert(a0.contains(l0_key(cur)));
        vstd::set::axiom_set_remove_len(a0, l0_key(cur));
    }
}

/// Slots of `[lo, hi)` whose leaf entry is invalid.
pub open spec fn missing_leaf(mem: PhysMem, root: int, lo: int, hi: int) -> Set<int> {
    Set::new(
        |k: int|
            exists|n: u64|
                lo <= n < hi && !pte_valid(#[trigger] leaf_pte(mem, root, n)) && n % 0x800_0000 == k,
    )
}

pub proof fn lemma_missing_leaf_finite(mem: PhysMem, root: int, lo: int, hi: int)
    ensures
        missing_leaf(mem, root, lo, hi).finite(),
{
    vstd::set_lib::lemma_int_range(0, 0x800_0000);
    vstd::set_lib::lemma_len_subset(
        missing_leaf(mem, root, lo, hi),
        vstd::set_lib::set_int_range(0, 0x800_0000),
    );
}

/// Making the leaf entry of the first page number of a range valid, and no
/// other leaf entry change validity, removes that slot from the missing ones.
pub proof fn lemma_missing_leaf_step(mem: PhysMem, mem2: PhysMem, root: int, cur: u64, hi: int)
    requires
        cur < hi,
        pte_valid(leaf_pte(mem2, root, cur)),
        forall|v: u64|
            !same_slot(v, cur) ==> #[trigger] pte_valid(leaf_pte(mem2, root, v)) == pte_valid(
                leaf_pte(mem, root, v),
            ),
    ensures
        missing_leaf(mem2, root, cur + 1, hi).len() + (if pte_valid(leaf_pte(mem, root, cur)) {
            0int
        } else {
            1int
        }) == missing_leaf(mem, root, cur as int, hi).len(),
{
    lemma_missing_leaf_finite(mem, root, cur as int, hi);
    let a = missing_leaf(mem, root, cur as int, hi);
    let b = missing_leaf(mem2, root, cur + 1, hi);
    let k = cur % 0x800_0000;
    assert forall|x: int| b.contains(x) == a.remove(k as int).contains(x) by {
        if b.contains(x) {
            let n = choose|n: u64|
                cur + 1 <= n < hi && !pte_valid(#[trigger] leaf_pte(mem2, root, n)) && n % 0x800_0000
                    == x;
            lemma_same_slot(n, cur);
            assert(!pte_valid(leaf_pte(mem, root, n)));
        }
        if a.remove(k as int).contains(x) {
            let n = choose|n: u64|
                cur <= n < hi && !pte_valid(#[trigger] leaf_pte(mem, root, n)) && n % 0x800_0000 == x;
            lemma_same_slot(n, cur);
            assert(!pte_valid(leaf_pte(mem2, root, n)));
        }
    }
    assert(b =~= a.remove(k as int));
    vstd::set::axiom_set_remove_len(a, k as int);
    if !pte_valid(leaf_pte(mem, root, cur)) {
        assert(a.contains(k as int));
    } else {
        if a.contains(k as int) {
            let n = choose|n: u64|
                cur <= n < hi && !pte_valid(#[trigger] leaf_pte(mem, root, n)) && n % 0x800_0000 == k;
            lemma_same_slot(n, cur);
        }
    }
}

/// When the first page number of a range needs nothing, dropping it from the
/// range changes no count.
pub proof fn lemma_range_skip_done(mem: PhysMem, root: int, cur: u64, hi: int)
    requires
        cur < hi,
        walk_frames(mem, root, cur) == 0,
        pte_valid(leaf_pte(mem, root, cur)),
    ensures
        range_frames(mem, root, cur + 1, hi) == range_frames(mem, root, cur as int, hi),
        missing_leaf(mem, root, cur + 1, hi).len() == missing_leaf(mem, root, cur as int, hi).len(),
{
    lemma_index_bounds(cur);
    assert forall|v: u64|
        #[trigger] pte_valid(entry2(mem, root, v)) == (pte_valid(entry2(mem, root, v)) || vpn_index(
            v,
            2,
        ) == vpn_index(cur, 2)) by {
        if vpn_index(v, 2) == vpn_index(cur, 2) {
            assert(entry2(mem, root, v) == entry2(mem, root, cur));
        }
    }
    assert forall|v: u64|
        #[trigger] path_ok(mem, root, v) == (path_ok(mem, root, v) || (vpn_index(v, 2) == vpn_index(
            cur,
            2,
        ) && vpn_index(v, 1) == vpn_index(cur, 1))) by {}
    lemma_range_step(mem, mem, root, cur, hi);
    lemma_missing_leaf_step(mem, mem, root, cur, hi);
}

pub proof fn lemma_missing_leaf_empty(mem: PhysMem, root: int, lo: int, hi: int)
    requires
        hi <= lo,
    ensures
        missing_leaf(mem, root, lo, hi).len() == 0,
{
    assert(missing_leaf(mem, root, lo, hi) =~= Set::empty());
}

/// A page number whose leaf entry is invalid is counted by its range.
pub proof fn lemma_leaf_missing_counted(mem: PhysMem, root: int, cur: u64, hi: int)
    requires
        cur < hi,
        !pte_valid(leaf_pte(mem, root, cur)),
    ensures
        missing_leaf(mem, root, cur as int, hi).len() >= 1,
{
    lemma_missing_leaf_finite(mem, root, cur as int, hi);
    let a = missing_leaf(mem, root, cur as int, hi);
    assert(a.contains((cur % 0x800_0000) as int));
    vstd::set::axiom_set_remove_len(a, (cur % 0x800_0000) as int);
}

} // verus!

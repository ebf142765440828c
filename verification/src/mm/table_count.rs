//! How many tables mapping a run of consecutive pages can need.
use vstd::prelude::*;
use crate::mm::address::vpn_index;
use crate::mm::pte_sv39::pte_valid;
use crate::mm::phys_mem::PhysMem;
use crate::mm::pt_spec::{missing_l1, missing_l0, l0_key, path_ok, entry2, lemma_missing_finite};

verus! {

/// Two page numbers of one 512-page block share their leaf table.
proof fn lemma_same_block(n: u64, p: u64)
    requires
        n / 512 == p / 512,
    ensures
        l0_key(n) == l0_key(p),
        vpn_index(n, 2) == vpn_index(p, 2),
{
    vstd::arithmetic::div_mod::lemma_div_denominator(n as int, 512, 512);
    vstd::arithmetic::div_mod::lemma_div_denominator(p as int, 512, 512);
}

/// The missing leaf tables of `[lo, hi)` are at most the number of 512-page
/// blocks that the range touches.
pub proof fn lemma_missing_l0_blocks(mem: PhysMem, root: int, lo: int, hi: int)
    requires
        0 <= lo < hi,
        hi <= 0x1_0000_0000_0000_0000,
    ensures
        missing_l0(mem, root, lo, hi).len() <= (hi - 1) / 512 - lo / 512 + 1,
    decreases hi - lo,
{
    lemma_missing_finite(mem, root, lo, hi);
    let n = (hi - 1) as u64;
    let k0 = l0_key(n);
    let big = missing_l0(mem, root, lo, hi);
    if hi == lo + 1 {
        assert(big.subset_of(set![k0])) by {
            assert forall|k: int| #[trigger] big.contains(k) implies set![k0].contains(k) by {
                let m = choose|m: u64| lo <= m < hi && !#[trigger] path_ok(mem, root, m) && l0_key(m) == k;
                assert(m == n);
            }
        }
        vstd::set_lib::lemma_len_subset(big, set![k0]);
    } else {
        lemma_missing_l0_blocks(mem, root, lo, hi - 1);
        lemma_missing_finite(mem, root, lo, hi - 1);
        let a0 = missing_l0(mem, root, lo, hi - 1);
        let p = (hi - 2) as u64;
        if n / 512 == p / 512 {
            lemma_same_block(n, p);
            assert(big.subset_of(a0)) by {
                assert forall|k: int| #[trigger] big.contains(k) implies a0.contains(k) by {
                    let m = choose|m: u64| lo <= m < hi && !#[trigger] path_ok(mem, root, m) && l0_key(m) == k;
                    if m == n {
                        assert(!path_ok(mem, root, p));
                    }
                }
            }
            vstd::set_lib::lemma_len_subset(big, a0);
        } else {
            assert(big.subset_of(a0.insert(k0))) by {
                assert forall|k: int| #[trigger] big.contains(k) implies a0.insert(k0).contains(k) by {
                    let m = choose|m: u64| lo <= m < hi && !#[trigger] path_ok(mem, root, m) && l0_key(m) == k;
                    if m != n {
                        assert(a0.contains(k));
                    }
                }
            }
            vstd::set_lib::lemma_len_subset(big, a0.insert(k0));
        }
    }
}

/// The missing level-1 tables of `[lo, hi)` are at most the number of
/// 2^18-page blocks that the range touches.
pub proof fn lemma_missing_l1_blocks(mem: PhysMem, root: int, lo: int, hi: int)
    requires
        0 <= lo < hi,
        hi <= 0x1_0000_0000_0000_0000,
    ensures
        missing_l1(mem, root, lo, hi).len() <= (hi - 1) / 0x4_0000 - lo / 0x4_0000 + 1,
    decreases hi - lo,
{
    lemma_missing_finite(mem, root, lo, hi);
    let n = (hi - 1) as u64;
    let k1 = vpn_index(n, 2) as int;
    let big = missing_l1(mem, root, lo, hi);
    if hi == lo + 1 {
        assert(big.subset_of(set![k1])) by {
            assert forall|k: int| #[trigger] big.contains(k) implies set![k1].contains(k) by {
                let m = choose|m: u64| lo <= m < hi && !pte_valid(#[trigger] entry2(mem, root, m)) && vpn_index(m, 2) == k;
                assert(m == n);
            }
        }
        vstd::set_lib::lemma_len_subset(big, set![k1]);
    } else {
        lemma_missing_l1_blocks(mem, root, lo, hi - 1);
        lemma_missing_finite(mem, root, lo, hi - 1);
        let a1 = missing_l1(mem, root, lo, hi - 1);
        let p = (hi - 2) as u64;
        if n / 0x4_0000 == p / 0x4_0000 {
            assert(vpn_index(n, 2) == vpn_index(p, 2));
            assert(big.subset_of(a1)) by {
                assert forall|k: int| #[trigger] big.contains(k) implies a1.contains(k) by {
                    let m = choose|m: u64| lo <= m < hi && !pte_valid(#[trigger] entry2(mem, root, m)) && vpn_index(m, 2) == k;
                    if m == n {
                        assert(entry2(mem, root, n) == entry2(mem, root, p));
                        assert(!pte_valid(entry2(mem, root, p)));
                    }
                }
            }
            vstd::set_lib::lemma_len_subset(big, a1);
        } else {
            assert(big.subset_of(a1.insert(k1))) by {
                assert forall|k: int| #[trigger] big.contains(k) implies a1.insert(k1).contains(k) by {
                    let m = choose|m: u64| lo <= m < hi && !pte_valid(#[trigger] entry2(mem, root, m)) && vpn_index(m, 2) == k;
                    if m != n {
                        assert(a1.contains(k));
                    }
                }
            }
            vstd::set_lib::lemma_len_subset(big, a1.insert(k1));
        }
    }
}

} // verus!

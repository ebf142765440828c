//! RISC-V Sv39 page-table entries.
//!
//! ```text
//!  |----------|---------- ppn -----------|-------|--------|
//!  | Reserved | ppn[0] | ppn[1] | ppn[2] |  RSW  | flags  |
//!  |------------------------------------------------------|
//!  | 10 bits  | 9 bits | 9 bits | 9 bits | 2bits | 8 bits |
//!  -------------------------------------------------------|
//! ```
use vstd::prelude::*;
use crate::config::{PTE_PPN_OFFSET, PTE_FLAG_SIZE};
use crate::mm::address::PhysPageNum;

verus! {

/// The page number an entry holds: the 27 bits above bit 10.
pub open spec fn pte_ppn(e: u64) -> u64 {
    (e >> 10u64) & 0x7FF_FFFFu64
}

/// The eight flag bits of an entry.
pub open spec fn pte_flag_bits(e: u64) -> u64 {
    e & 0xFFu64
}

/// The entry is valid (flag V).
pub open spec fn pte_valid(e: u64) -> bool {
    e & 1u64 != 0
}

/// The entry is valid and readable.
pub open spec fn pte_readable(e: u64) -> bool {
    pte_valid(e) && e & 2u64 != 0
}

/// The entry is valid and maps a page (readable or executable) rather than
/// pointing to the next level.
pub open spec fn pte_leaf(e: u64) -> bool {
    pte_valid(e) && (e & 2u64 != 0 || e & 8u64 != 0)
}

/// An entry made of a page number and flags.
pub open spec fn pte_new(ppn: u64, flags: u64) -> u64 {
    (ppn << 10u64) | flags
}

/// The entry with its page number replaced; the ten bits below the page
/// number are kept.
pub open spec fn pte_with_ppn(e: u64, ppn: u64) -> u64 {
    (ppn << 10u64) | (e % 1024)
}

/// The entry with its eight flag bits replaced; every bit above is kept.
pub open spec fn pte_with_flags(e: u64, flags: u64) -> u64 {
    ((e >> 8u64) << 8u64) | flags
}

/// A set of the eight Sv39 flags.
#[derive(Clone, Copy, Debug, PartialEq, Eq, Structural)]
pub struct PTEFlag {
    bits: u64,
}

impl PTEFlag {
    #[verifier::type_invariant]
    spec fn inv(self) -> bool {
        self.bits < 256
    }

    pub closed spec fn view(self) -> u64 {
        self.bits
    }

    pub fn empty() -> (r: Self)
        ensures
            r@ == 0,
    {
        PTEFlag { bits: 0 }
    }

    /// Valid.
    pub fn v() -> (r: Self)
        ensures
            r@ == 1,
    {
        PTEFlag { bits: 1 }
    }

    /// Readable.
    pub fn r() -> (r: Self)
        ensures
            r@ == 2,
    {
        PTEFlag { bits: 2 }
    }

    /// Writable.
    pub fn w() -> (r: Self)
        ensures
            r@ == 4,
    {
        PTEFlag { bits: 4 }
    }

    /// Executable.
    pub fn x() -> (r: Self)
        ensures
            r@ == 8,
    {
        PTEFlag { bits: 8 }
    }

    /// Accessible to user mode.
    pub fn u() -> (r: Self)
        ensures
            r@ == 16,
    {
        PTEFlag { bits: 16 }
    }

    /// Global mapping.
    pub fn g() -> (r: Self)
        ensures
            r@ == 32,
    {
        PTEFlag { bits: 32 }
    }

    /// Accessed.
    pub fn a() -> (r: Self)
        ensures
            r@ == 64,
    {
        PTEFlag { bits: 64 }
    }

    /// Dirty.
    pub fn d() -> (r: Self)
        ensures
            r@ == 128,
    {
        PTEFlag { bits: 128 }
    }

    /// The flags that the low eight bits of `bits` name; every value of the
    /// eight bits is a set of flags, so this is `None` only when higher bits
    /// are set.
    pub fn from_bits(bits: u64) -> (r: Option<Self>)
        ensures
            bits < 256 ==> (r matches Some(f) && f@ == bits),
            bits >= 256 ==> r is None,
    {
        if bits < 256 {
            Some(PTEFlag { bits })
        } else {
            None
        }
    }

    pub fn bits(&self) -> (r: u64)
        ensures
            r == self@,
            r < 256,
    {
        proof {
            use_type_invariant(self);
        }
        self.bits
    }

    /// The flags of either set.
    pub fn union(self, other: Self) -> (r: Self)
        ensures
            r@ == self@ | other@,
    {
        proof {
            use_type_invariant(&self);
            use_type_invariant(&other);
        }
        let a = self.bits;
        let b = other.bits;
        assert(a | b < 256) by (bit_vector)
            requires
                a < 256,
                b < 256,
        ;
        PTEFlag { bits: a | b }
    }

    /// The flags of both sets.
    pub fn intersection(self, other: Self) -> (r: Self)
        ensures
            r@ == self@ & other@,
    {
        proof {
            use_type_invariant(&self);
        }
        let a = self.bits;
        let b = other.bits;
        assert(a & b < 256) by (bit_vector)
            requires
                a < 256,
        ;
        PTEFlag { bits: a & b }
    }

    /// Every flag of `other` is in this set.
    pub fn contains(&self, other: Self) -> (r: bool)
        ensures
            r == (self@ & other@ == other@),
    {
        self.bits & other.bits == other.bits
    }
}

/// A page-table entry.
#[derive(Clone, Copy, Debug, PartialEq, Eq, Structural)]
pub struct PTE(u64);

impl PTE {
    pub closed spec fn view(self) -> u64 {
        self.0
    }

    /// The entry with exactly these bits.
    pub fn from_bits(bits: u64) -> (r: Self)
        ensures
            r@ == bits,
    {
        PTE(bits)
    }

    /// All the bits of the entry.
    pub fn bits(&self) -> (r: u64)
        ensures
            r == self@,
    {
        self.0
    }

    pub fn new(ppn: PhysPageNum, flag: PTEFlag) -> (r: Self)
        ensures
            r@ == pte_new(ppn.0, flag@),
    {
        PTE(ppn.0 << PTE_PPN_OFFSET | flag.bits())
    }

    pub fn ppn(&self) -> (r: PhysPageNum)
        ensures
            r.0 == pte_ppn(self@),
    {
        proof {
            crate::config::lemma_bit_constants();
        }
        PhysPageNum((self.0 >> PTE_PPN_OFFSET) & ((1u64 << 27u64) - 1))
    }

    pub fn is_valid(&self) -> (r: bool)
        ensures
            r == pte_valid(self@),
    {
        self.test_flags(PTEFlag::v())
    }

    /// Some flag of `flags` is set in the entry.
    pub fn test_flags(&self, flags: PTEFlag) -> (r: bool)
        ensures
            r == (pte_flag_bits(self@) & flags@ != 0),
            flags@ == 1 ==> r == pte_valid(self@),
            flags@ == 2 ==> r == (self@ & 2u64 != 0),
            flags@ == 8 ==> r == (self@ & 8u64 != 0),
    {
        let e = self.0;
        let f = flags.bits();
        let r = self.flags().intersection(flags).bits() != PTEFlag::empty().bits();
        assert((e & 0xFFu64) & 1u64 == e & 1u64) by (bit_vector);
        assert((e & 0xFFu64) & 2u64 == e & 2u64) by (bit_vector);
        assert((e & 0xFFu64) & 8u64 == e & 8u64) by (bit_vector);
        r
    }

    pub fn is_leaf(&self) -> (r: bool)
        ensures
            r == pte_leaf(self@),
    {
        self.is_valid() && (self.test_flags(PTEFlag::r()) || self.test_flags(PTEFlag::x()))
    }

    pub fn is_readable(&self) -> (r: bool)
        ensures
            r == pte_readable(self@),
    {
        self.is_valid() && self.test_flags(PTEFlag::r())
    }

    pub fn set_ppn(&mut self, page_num: PhysPageNum)
        ensures
            final(self)@ == pte_with_ppn(old(self)@, page_num.0),
    {
        proof {
            crate::config::lemma_bit_constants();
        }
        self.0 = (page_num.0 << PTE_PPN_OFFSET) | (self.0 % (1u64 << PTE_PPN_OFFSET));
    }

    pub fn flags(&self) -> (r: PTEFlag)
        ensures
            r@ == pte_flag_bits(self@),
    {
        let e = self.0;
        proof {
            crate::config::lemma_bit_constants();
        }
        assert(e & 0xFFu64 < 256) by (bit_vector);
        let bits = self.0 & ((1u64 << PTE_FLAG_SIZE) - 1);
        let f = PTEFlag::from_bits(bits);
        match f {
            Some(f) => f,
            None => PTEFlag::empty(),
        }
    }

    pub fn set_flags(&mut self, flags: PTEFlag)
        ensures
            final(self)@ == pte_with_flags(old(self)@, flags@),
    {
        self.0 = (self.0 >> PTE_FLAG_SIZE << PTE_FLAG_SIZE) | flags.bits();
    }
}

/// A fresh entry gives back the page number and the flags it was made of.
pub proof fn law_new_round_trip(ppn: u64, flags: u64)
    requires
        ppn < 0x800_0000,
        flags < 256,
    ensures
        pte_ppn(pte_new(ppn, flags)) == ppn,
        pte_flag_bits(pte_new(ppn, flags)) == flags,
{
    assert(((ppn << 10u64) | flags) >> 10u64 & 0x7FF_FFFFu64 == ppn) by (bit_vector)
        requires
            ppn < 0x800_0000,
            flags < 256,
    ;
    assert(((ppn << 10u64) | flags) & 0xFFu64 == flags) by (bit_vector)
        requires
            flags < 256,
    ;
}

/// Replacing the page number changes the page number only: the flags stay.
pub proof fn law_set_ppn_keeps_flags(e: u64, ppn: u64)
    requires
        ppn < 0x800_0000,
    ensures
        pte_ppn(pte_with_ppn(e, ppn)) == ppn,
        pte_flag_bits(pte_with_ppn(e, ppn)) == pte_flag_bits(e),
{
    assert(((ppn << 10u64) | (e % 1024)) >> 10u64 & 0x7FF_FFFFu64 == ppn) by (bit_vector)
        requires
            ppn < 0x800_0000,
    ;
    assert(((ppn << 10u64) | (e % 1024)) & 0xFFu64 == e & 0xFFu64) by (bit_vector);
}

/// Replacing the flags changes the flags only: the page number stays.
pub proof fn law_set_flags_keeps_ppn(e: u64, flags: u64)
    requires
        flags < 256,
    ensures
        pte_ppn(pte_with_flags(e, flags)) == pte_ppn(e),
        pte_flag_bits(pte_with_flags(e, flags)) == flags,
{
    assert((((e >> 8u64) << 8u64) | flags) >> 10u64 & 0x7FF_FFFFu64 == (e >> 10u64)
        & 0x7FF_FFFFu64) by (bit_vector)
        requires
            flags < 256,
    ;
    assert((((e >> 8u64) << 8u64) | flags) & 0xFFu64 == flags) by (bit_vector)
        requires
            flags < 256,
    ;
}

/// Validity, readability and being a leaf are read off the flag bits.
pub proof fn law_flag_predicates(e: u64)
    ensures
        pte_valid(e) == (pte_flag_bits(e) & 1u64 != 0),
        pte_leaf(e) ==> pte_valid(e),
        pte_readable(e) ==> pte_leaf(e),
        !pte_valid(0),
{
    assert((e & 0xFFu64) & 1u64 == e & 1u64) by (bit_vector);
    assert(0u64 & 1u64 == 0) by (bit_vector);
}

} // verus!

//! Physical and virtual addresses and page numbers of the Sv39 scheme.
//!
//! A page number turns into the address of its first byte; page numbers with
//! bit 26 set (the upper half of the 39-bit space) are sign-extended, so that
//! the resulting 64-bit address is canonical.
use vstd::prelude::*;
use crate::config::{PAGE_SIZE, PAGE_OFFSET_BIT, PAGE_TABLE_LEVEL, SV39_VPN_BIT};

verus! {

#[derive(Clone, Copy, Debug, PartialEq, Eq, Structural, PartialOrd, Ord)]
pub struct PhysAddr(pub u64);

#[derive(Clone, Copy, Debug, PartialEq, Eq, Structural, PartialOrd, Ord)]
pub struct VirtualAddr(pub u64);

#[derive(Clone, Copy, Debug, PartialEq, Eq, Structural, PartialOrd, Ord)]
pub struct PhysPageNum(pub u64);

#[derive(Clone, Copy, Debug, PartialEq, Eq, Structural, PartialOrd, Ord)]
pub struct VirtualPageNum(pub u64);

/// Address of the first byte of page `n`: `n * 4096` in the lower half of
/// the 39-bit space, sign-extended from bit 38 in the upper half.
pub open spec fn page_base(n: u64) -> int {
    if n < 0x400_0000 {
        n * 4096
    } else {
        (n % 0x800_0000) * 4096 + 0xFFFF_FF80_0000_0000
    }
}

/// The index into the page-table page of `level` that the page number `vpn`
/// selects (level 0 is the last level).
pub open spec fn vpn_index(vpn: u64, level: int) -> u64 {
    if level == 0 {
        vpn % 512
    } else if level == 1 {
        (vpn / 512) % 512
    } else {
        (vpn / 0x4_0000) % 512
    }
}

/// The two's-complement sum that `offset` computes: the address read as a
/// signed word, plus `off`, read back as an unsigned word.
pub open spec fn signed_offset(addr: u64, off: i64) -> u64 {
    ((addr as i64) + off) as u64
}

/// `signed_offset` does not overflow the signed word.
pub open spec fn signed_offset_ok(addr: u64, off: i64) -> bool {
    i64::MIN <= (addr as i64) + off <= i64::MAX
}

fn page_to_addr(n: u64) -> (r: u64)
    ensures
        r == page_base(n),
{
    if n >= (1u64 << (PAGE_TABLE_LEVEL as u64 * SV39_VPN_BIT - 1)) {
        proof {
            crate::config::lemma_bit_constants();
        }
        let r = (n | (u64::MAX << (PAGE_TABLE_LEVEL as u64 * SV39_VPN_BIT))) << PAGE_OFFSET_BIT;
        assert(r == (n % 0x800_0000) * 4096 + 0xFFFF_FF80_0000_0000) by (bit_vector)
            requires
                r == (n | (u64::MAX << 27u64)) << 12u64,
                n >= 0x400_0000,
        ;
        r
    } else {
        proof {
            crate::config::lemma_bit_constants();
        }
        let r = n << PAGE_OFFSET_BIT;
        assert(r == n * 4096) by (bit_vector)
            requires
                r == n << 12u64,
                n < 0x400_0000,
        ;
        r
    }
}

proof fn lemma_signed_offset_nonneg(addr: u64, off: i64)
    requires
        addr <= i64::MAX,
        off >= 0,
        addr + off <= i64::MAX,
    ensures
        signed_offset(addr, off) == addr + off,
{
    assert(((addr as i64) + off) as u64 == addr + off) by (bit_vector)
        requires
            addr <= 0x7FFF_FFFF_FFFF_FFFF,
            off >= 0,
            addr + off <= 0x7FFF_FFFF_FFFF_FFFF,
    ;
}

impl VirtualAddr {
    pub fn floor(&self) -> (r: VirtualPageNum)
        ensures
            r.0 == self.0 / PAGE_SIZE,
    {
        VirtualPageNum(self.0 / PAGE_SIZE)
    }

    pub fn ceil(&self) -> (r: VirtualPageNum)
        requires
            self.0 + PAGE_SIZE - 1 <= u64::MAX,
        ensures
            r.0 == (self.0 + PAGE_SIZE - 1) / PAGE_SIZE as int,
    {
        VirtualPageNum((self.0 + (PAGE_SIZE - 1)) / PAGE_SIZE)
    }

    pub fn page_offset(&self) -> (r: u64)
        ensures
            r == self.0 % PAGE_SIZE,
    {
        self.0 % PAGE_SIZE
    }

    pub fn offset(&self, off: i64) -> (r: Self)
        requires
            signed_offset_ok(self.0, off),
        ensures
            r.0 == signed_offset(self.0, off),
    {
        Self(((self.0 as i64) + off) as u64)
    }
}

impl PhysAddr {
    pub fn floor(&self) -> (r: PhysPageNum)
        ensures
            r.0 == self.0 / PAGE_SIZE,
    {
        PhysPageNum(self.0 / PAGE_SIZE)
    }

    pub fn ceil(&self) -> (r: PhysPageNum)
        requires
            self.0 + PAGE_SIZE - 1 <= u64::MAX,
        ensures
            r.0 == (self.0 + PAGE_SIZE - 1) / PAGE_SIZE as int,
    {
        PhysPageNum((self.0 + (PAGE_SIZE - 1)) / PAGE_SIZE)
    }

    pub fn page_offset(&self) -> (r: u64)
        ensures
            r == self.0 % PAGE_SIZE,
    {
        self.0 % PAGE_SIZE
    }

    pub fn offset(&self, off: i64) -> (r: Self)
        requires
            signed_offset_ok(self.0, off),
        ensures
            r.0 == signed_offset(self.0, off),
    {
        Self(((self.0 as i64) + off) as u64)
    }
}

impl From<PhysAddr> for PhysPageNum {
    fn from(physaddr: PhysAddr) -> (r: Self) {
        physaddr.floor()
    }
}

impl vstd::std_specs::convert::FromSpecImpl<PhysAddr> for PhysPageNum {
    open spec fn obeys_from_spec() -> bool {
        true
    }

    open spec fn from_spec(v: PhysAddr) -> PhysPageNum {
        PhysPageNum(v.0 / 4096)
    }
}

impl From<u64> for PhysPageNum {
    fn from(u: u64) -> (r: Self) {
        PhysAddr(u).floor()
    }
}

impl vstd::std_specs::convert::FromSpecImpl<u64> for PhysPageNum {
    open spec fn obeys_from_spec() -> bool {
        true
    }

    open spec fn from_spec(v: u64) -> PhysPageNum {
        PhysPageNum(v / 4096)
    }
}

impl From<PhysPageNum> for PhysAddr {
    fn from(page_num: PhysPageNum) -> (r: Self) {
        PhysAddr(page_to_addr(page_num.0))
    }
}

impl vstd::std_specs::convert::FromSpecImpl<PhysPageNum> for PhysAddr {
    open spec fn obeys_from_spec() -> bool {
        true
    }

    open spec fn from_spec(v: PhysPageNum) -> PhysAddr {
        PhysAddr(page_base(v.0) as u64)
    }
}

impl From<VirtualAddr> for VirtualPageNum {
    fn from(vaddr: VirtualAddr) -> (r: Self) {
        vaddr.floor()
    }
}

impl vstd::std_specs::convert::FromSpecImpl<VirtualAddr> for VirtualPageNum {
    open spec fn obeys_from_spec() -> bool {
        true
    }

    open spec fn from_spec(v: VirtualAddr) -> VirtualPageNum {
        VirtualPageNum(v.0 / 4096)
    }
}

impl From<VirtualPageNum> for VirtualAddr {
    fn from(page_num: VirtualPageNum) -> (r: Self) {
        VirtualAddr(page_to_addr(page_num.0))
    }
}

impl vstd::std_specs::convert::FromSpecImpl<VirtualPageNum> for VirtualAddr {
    open spec fn obeys_from_spec() -> bool {
        true
    }

    open spec fn from_spec(v: VirtualPageNum) -> VirtualAddr {
        VirtualAddr(page_base(v.0) as u64)
    }
}

impl From<u64> for VirtualAddr {
    fn from(addr: u64) -> (r: Self) {
        VirtualAddr(addr)
    }
}

impl vstd::std_specs::convert::FromSpecImpl<u64> for VirtualAddr {
    open spec fn obeys_from_spec() -> bool {
        true
    }

    open spec fn from_spec(v: u64) -> VirtualAddr {
        VirtualAddr(v)
    }
}

impl PhysPageNum {
    /// The address `off` bytes into this page.
    pub fn offset(&self, off: u64) -> (r: PhysAddr)
        requires
            signed_offset_ok(page_base(self.0) as u64, off as i64),
        ensures
            r.0 == signed_offset(page_base(self.0) as u64, off as i64),
    {
        let addr: PhysAddr = PhysAddr::from(*self);
        addr.offset(off as i64)
    }

    /// For a page of the lower half and an offset inside a page, the address
    /// is plain arithmetic.
    pub fn offset_in_page(&self, off: u64) -> (r: PhysAddr)
        requires
            self.0 < 0x400_0000,
            off < PAGE_SIZE,
        ensures
            r.0 == self.0 * PAGE_SIZE + off,
    {
        proof {
            lemma_signed_offset_nonneg(page_base(self.0) as u64, off as i64);
        }
        self.offset(off)
    }
}

impl VirtualPageNum {
    /// The 9-bit index that this page number selects at a page-table level.
    pub fn vpn_block_sv39(&self, level: usize) -> (r: u64)
        requires
            level < PAGE_TABLE_LEVEL,
        ensures
            r == vpn_index(self.0, level as int),
            r < 512,
    {
        proof {
            crate::config::lemma_bit_constants();
        }
        let vpn = self.0 >> (SV39_VPN_BIT * level as u64);
        let r = vpn & ((1u64 << SV39_VPN_BIT) - 1);
        let v = self.0;
        if level == 0 {
            assert(r == v % 512 && r < 512) by (bit_vector)
                requires
                    r == (v >> 0u64) & 511u64,
            ;
        } else if level == 1 {
            assert(r == (v / 512) % 512 && r < 512) by (bit_vector)
                requires
                    r == (v >> 9u64) & 511u64,
            ;
        } else {
            assert(r == (v / 0x4_0000) % 512 && r < 512) by (bit_vector)
                requires
                    r == (v >> 18u64) & 511u64,
            ;
        }
        r
    }

    /// The address `off` bytes into this page.
    pub fn offset(&self, off: u64) -> (r: VirtualAddr)
        requires
            signed_offset_ok(page_base(self.0) as u64, off as i64),
        ensures
            r.0 == signed_offset(page_base(self.0) as u64, off as i64),
    {
        let addr: VirtualAddr = VirtualAddr::from(*self);
        addr.offset(off as i64)
    }

    /// The last page of the 39-bit space.
    pub fn highest_page() -> (r: Self)
        ensures
            r.0 == 0x7FF_FFFF,
    {
        proof {
            crate::config::lemma_bit_constants();
        }
        VirtualPageNum((1u64 << (PAGE_TABLE_LEVEL as u64 * SV39_VPN_BIT)) - 1)
    }
}

/// The address of a page, cut back into pages, gives the page back, for
/// every page of the lower half of the 39-bit space; and the offset of that
/// address inside its page is zero.
pub proof fn law_page_address_round_trip(n: u64)
    requires
        n < 0x400_0000,
    ensures
        page_base(n) / 4096 == n,
        page_base(n) % 4096 == 0,
{
}

/// A page of the upper half turns into the canonical, sign-extended address,
/// whose low 39 bits cut back into pages give the page's 27 low bits.
pub proof fn law_upper_half_sign_extended(n: u64)
    requires
        0x400_0000 <= n < 0x800_0000,
    ensures
        page_base(n) == n * 4096 + 0xFFFF_FF80_0000_0000,
        (page_base(n) % 0x80_0000_0000) / 4096 == n,
{
}

/// An address is its page's first byte plus its offset inside the page.
pub proof fn law_floor_and_offset(addr: u64)
    ensures
        (addr / PAGE_SIZE) * PAGE_SIZE + addr % PAGE_SIZE == addr,
        addr % PAGE_SIZE < PAGE_SIZE,
{
}

/// Rounding up gives the rounded-down page, or the page after it when the
/// address is not page aligned.
pub proof fn law_ceil_and_floor(addr: u64)
    requires
        addr + PAGE_SIZE - 1 <= u64::MAX,
    ensures
        (addr + PAGE_SIZE - 1) / PAGE_SIZE as int == if addr % PAGE_SIZE == 0 {
            (addr / PAGE_SIZE) as int
        } else {
            addr / PAGE_SIZE + 1
        },
{
}

/// The three 9-bit indices of a 27-bit page number put back together give
/// the page number.
pub proof fn law_vpn_indices_compose(vpn: u64)
    requires
        vpn < 0x800_0000,
    ensures
        vpn_index(vpn, 2) * 0x4_0000 + vpn_index(vpn, 1) * 512 + vpn_index(vpn, 0) == vpn,
        vpn_index(vpn, 2) == vpn / 0x4_0000,
{
}

/// The address of page `n`, cut back into pages, lies in the same slot of
/// the 27-bit page space as `n`.
pub proof fn lemma_page_base_slot(n: u64)
    ensures
        0 <= page_base(n) <= u64::MAX,
        (page_base(n) / 4096) % 0x800_0000 == n % 0x800_0000,
{
    if n < 0x400_0000 {
        assert((n * 4096) / 4096 == n) by (nonlinear_arith);
    } else {
        let m = n % 0x800_0000;
        assert(((m * 4096 + 0xFFFF_FF80_0000_0000) / 4096) % 0x800_0000 == m) by (nonlinear_arith)
            requires
                0 <= m < 0x800_0000,
        ;
    }
}

} // verus!

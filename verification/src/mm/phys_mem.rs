//! Physical memory: a run of 4 KiB frames, addressed by physical address.
//!
//! The kernel reads and writes frames through this type: page-table entries
//! and free-list links are 64-bit words, program data is written byte by
//! byte. Frame `base` holds the lowest addresses; every frame lies in the
//! lower half of the Sv39 physical space, and frame 0 is never part of it,
//! so that 0 can end a list of frames.
use vstd::prelude::*;
use crate::config::PAGE_SIZE;
use crate::mm::address::{PhysAddr, PhysPageNum};

verus! {

/// Number of 64-bit words in a frame.
pub const WORDS_PER_PAGE: u64 = 512;

/// Byte `k` (0 for the lowest) of a little-endian word.
pub open spec fn byte_of(w: u64, k: u64) -> u8 {
    ((w >> (8 * k)) & 0xFFu64) as u8
}

/// The word with byte `k` replaced by `b`.
pub open spec fn word_with_byte(w: u64, k: u64, b: u8) -> u64 {
    (w & !(0xFFu64 << (8 * k))) | ((b as u64) << (8 * k))
}

/// Replacing a byte of a word changes that byte only.
pub proof fn lemma_word_with_byte(w: u64, k: u64, b: u8, j: u64)
    requires
        k < 8,
        j < 8,
    ensures
        byte_of(word_with_byte(w, k, b), j) == if j == k {
            b
        } else {
            byte_of(w, j)
        },
{
    let bb = b as u64;
    assert(bb < 256);
    if j == k {
        assert((((w & !(0xFFu64 << (8 * k))) | (bb << (8 * k))) >> (8 * j)) & 0xFFu64 == bb)
            by (bit_vector)
            requires
                k < 8,
                j == k,
                bb < 256,
        ;
    } else {
        assert((((w & !(0xFFu64 << (8 * k))) | (bb << (8 * k))) >> (8 * j)) & 0xFFu64 == (w >> (8
            * j)) & 0xFFu64) by (bit_vector)
            requires
                k < 8,
                j < 8,
                j != k,
                bb < 256,
        ;
    }
}

pub proof fn lemma_zero_word_bytes(j: u64)
    requires
        j < 8,
    ensures
        byte_of(0, j) == 0,
{
    assert((0u64 >> (8 * j)) & 0xFFu64 == 0) by (bit_vector);
}

pub struct PhysMem {
    base: u64,
    words: Vec<u64>,
}

impl PhysMem {
    /// The first frame.
    pub closed spec fn base(self) -> nat {
        self.base as nat
    }

    /// The number of frames.
    pub closed spec fn npages(self) -> nat {
        self.words@.len() / 512
    }

    pub closed spec fn wf(self) -> bool {
        &&& self.words@.len() % 512 == 0
        &&& 1 <= self.base
        &&& self.base + self.words@.len() / 512 <= 0x400_0000
    }

    /// Word `i` of frame `ppn`; zero outside the memory.
    pub closed spec fn word(self, ppn: int, i: int) -> u64 {
        if self.base <= ppn < self.base + self.words@.len() / 512 && 0 <= i < 512 {
            self.words@[(ppn - self.base) * 512 + i]
        } else {
            0
        }
    }

    /// The frame is part of this memory.
    pub open spec fn has_page(self, ppn: int) -> bool {
        self.base() <= ppn < self.base() + self.npages()
    }

    /// The address lies in this memory.
    pub open spec fn has_addr(self, pa: int) -> bool {
        self.has_page(pa / 4096)
    }

    /// The word at a physical address (rounded down to a multiple of eight).
    pub open spec fn word_at(self, pa: int) -> u64 {
        self.word(pa / 4096, (pa % 4096) / 8)
    }

    /// The byte at a physical address.
    pub open spec fn byte(self, pa: int) -> u8 {
        byte_of(self.word_at(pa), (pa % 8) as u64)
    }

    /// Every word of the frame is zero.
    pub open spec fn page_is_zero(self, ppn: int) -> bool {
        forall|i: int| 0 <= i < 512 ==> #[trigger] self.word(ppn, i) == 0
    }

    /// The two memories hold the same frames, and agree on every word
    /// outside the frames of `changed`.
    pub open spec fn same_outside(self, other: Self, changed: Set<int>) -> bool {
        &&& self.base() == other.base()
        &&& self.npages() == other.npages()
        &&& forall|p: int, i: int|
            #![trigger other.word(p, i)]
            !changed.contains(p) && 0 <= i < 512 ==> other.word(p, i) == self.word(p, i)
    }

    /// Frames of the memory are numbered from 1 and lie in the lower half of
    /// the Sv39 physical space.
    pub proof fn lemma_page_range(self, p: int)
        requires
            self.wf(),
            self.has_page(p),
        ensures
            1 <= p < 0x400_0000,
    {
    }

    /// `npages` zeroed frames starting at frame `base`.
    pub fn new(base: u64, npages: usize) -> (r: Self)
        requires
            1 <= base,
            base + npages <= 0x400_0000,
            npages * 512 <= usize::MAX,
        ensures
            r.wf(),
            r.base() == base,
            r.npages() == npages,
            forall|p: int| r.has_page(p) ==> r.page_is_zero(p),
    {
        let total = npages * 512;
        let mut words: Vec<u64> = Vec::new();
        let mut k: usize = 0;
        while k < total
            invariant
                k <= total,
                total == npages * 512,
                words@.len() == k,
                forall|j: int| 0 <= j < k ==> words@[j] == 0,
            decreases total - k,
        {
            words.push(0);
            k = k + 1;
        }
        let r = PhysMem { base, words };
        assert forall|p: int| r.has_page(p) implies r.page_is_zero(p) by {
            assert forall|i: int| 0 <= i < 512 implies #[trigger] r.word(p, i) == 0 by {
                assert(0 <= (p - base) * 512 + i < total) by (nonlinear_arith)
                    requires
                        base <= p < base + npages,
                        0 <= i < 512,
                        total == npages * 512,
                ;
            }
        }
        r
    }

    /// The first frame.
    pub fn first_page(&self) -> (r: PhysPageNum)
        ensures
            r.0 == self.base(),
    {
        PhysPageNum(self.base)
    }

    /// The number of frames.
    pub fn page_count(&self) -> (r: usize)
        requires
            self.wf(),
        ensures
            r == self.npages(),
    {
        self.words.len() / 512
    }

    /// Whether the frame is part of this memory.
    pub fn contains_page(&self, ppn: PhysPageNum) -> (r: bool)
        requires
            self.wf(),
        ensures
            r == self.has_page(ppn.0 as int),
    {
        ppn.0 >= self.base && ppn.0 - self.base < (self.words.len() / 512) as u64
    }

    proof fn lemma_index(self, ppn: int, i: int)
        requires
            self.wf(),
            self.has_page(ppn),
            0 <= i < 512,
        ensures
            0 <= (ppn - self.base) * 512 + i < self.words@.len(),
    {
        assert(0 <= (ppn - self.base) * 512 + i < self.words@.len()) by (nonlinear_arith)
            requires
                self.base <= ppn < self.base + self.words@.len() / 512,
                0 <= i < 512,
                self.words@.len() % 512 == 0,
        ;
    }

    proof fn lemma_index_injective(self, p: int, i: int, q: int, j: int)
        requires
            0 <= i < 512,
            0 <= j < 512,
            (p, i) != (q, j),
        ensures
            (p - self.base) * 512 + i != (q - self.base) * 512 + j,
    {
        if p == q {
        } else if p < q {
            assert((p - self.base) * 512 + 512 <= (q - self.base) * 512) by (nonlinear_arith)
                requires
                    p < q,
            ;
        } else {
            assert((q - self.base) * 512 + 512 <= (p - self.base) * 512) by (nonlinear_arith)
                requires
                    q < p,
            ;
        }
    }

    fn index_of(&self, ppn: PhysPageNum, i: u64) -> (r: usize)
        requires
            self.wf(),
            self.has_page(ppn.0 as int),
            i < WORDS_PER_PAGE,
        ensures
            r == (ppn.0 - self.base) * 512 + i,
            r < self.words@.len(),
    {
        proof {
            self.lemma_index(ppn.0 as int, i as int);
        }
        let n = self.words.len();
        let k: u64 = (ppn.0 - self.base) * WORDS_PER_PAGE + i;
        assert(k < n);
        k as usize
    }

    /// Word `i` of frame `ppn`.
    pub fn read_page_word(&self, ppn: PhysPageNum, i: u64) -> (r: u64)
        requires
            self.wf(),
            self.has_page(ppn.0 as int),
            i < WORDS_PER_PAGE,
        ensures
            r == self.word(ppn.0 as int, i as int),
    {
        let idx = self.index_of(ppn, i);
        self.words[idx]
    }

    /// Replaces word `i` of frame `ppn`.
    pub fn write_page_word(&mut self, ppn: PhysPageNum, i: u64, v: u64)
        requires
            old(self).wf(),
            old(self).has_page(ppn.0 as int),
            i < WORDS_PER_PAGE,
        ensures
            final(self).wf(),
            final(self).base() == old(self).base(),
            final(self).npages() == old(self).npages(),
            final(self).word(ppn.0 as int, i as int) == v,
            forall|p: int, j: int|
                #![trigger final(self).word(p, j)]
                (p, j) != (ppn.0 as int, i as int) && 0 <= j < 512 ==> final(self).word(p, j)
                    == old(self).word(p, j),
    {
        let idx = self.index_of(ppn, i);
        self.words.set(idx, v);
        proof {
            assert forall|p: int, j: int|
                (p, j) != (ppn.0 as int, i as int) && 0 <= j < 512 implies #[trigger] self.word(
                p,
                j,
            ) == old(self).word(p, j) by {
                old(self).lemma_index_injective(p, j, ppn.0 as int, i as int);
                if old(self).has_page(p) {
                    old(self).lemma_index(p, j);
                }
            }
        }
    }

    /// The word at a physical address.
    pub fn read_word(&self, pa: PhysAddr) -> (r: u64)
        requires
            self.wf(),
            self.has_addr(pa.0 as int),
        ensures
            r == self.word_at(pa.0 as int),
    {
        self.read_page_word(PhysPageNum(pa.0 / PAGE_SIZE), (pa.0 % PAGE_SIZE) / 8)
    }

    /// Replaces the word at a physical address.
    pub fn write_word(&mut self, pa: PhysAddr, v: u64)
        requires
            old(self).wf(),
            old(self).has_addr(pa.0 as int),
        ensures
            final(self).wf(),
            final(self).base() == old(self).base(),
            final(self).npages() == old(self).npages(),
            final(self).word_at(pa.0 as int) == v,
            forall|p: int, j: int|
                #![trigger final(self).word(p, j)]
                (p, j) != ((pa.0 / 4096) as int, ((pa.0 % 4096) / 8) as int) && 0 <= j < 512 ==> final(self).word(
                    p,
                    j,
                ) == old(self).word(p, j),
    {
        self.write_page_word(PhysPageNum(pa.0 / PAGE_SIZE), (pa.0 % PAGE_SIZE) / 8, v)
    }

    /// The byte at a physical address.
    pub fn read_byte(&self, pa: PhysAddr) -> (r: u8)
        requires
            self.wf(),
            self.has_addr(pa.0 as int),
        ensures
            r == self.byte(pa.0 as int),
    {
        let w = self.read_word(pa);
        let k = pa.0 % 8;
        assert((w >> (8 * k)) & 0xFFu64 < 256) by (bit_vector);
        ((w >> (8 * k)) & 0xFF) as u8
    }

    /// Replaces the byte at a physical address.
    pub fn write_byte(&mut self, pa: PhysAddr, b: u8)
        requires
            old(self).wf(),
            old(self).has_addr(pa.0 as int),
        ensures
            final(self).wf(),
            final(self).base() == old(self).base(),
            final(self).npages() == old(self).npages(),
            final(self).byte(pa.0 as int) == b,
            forall|a: int|
                #![trigger final(self).byte(a)]
                a != pa.0 ==> final(self).byte(a) == old(self).byte(a),
            forall|p: int, j: int|
                #![trigger final(self).word(p, j)]
                (p, j) != ((pa.0 / 4096) as int, ((pa.0 % 4096) / 8) as int) && 0 <= j < 512 ==> final(self).word(
                    p,
                    j,
                ) == old(self).word(p, j),
    {
        let w = self.read_word(pa);
        let k = pa.0 % 8;
        let w2 = (w & !(0xFFu64 << (8 * k))) | ((b as u64) << (8 * k));
        self.write_word(pa, w2);
        proof {
            lemma_word_with_byte(w, k, b, k);
            assert forall|a: int| a != pa.0 implies #[trigger] self.byte(a) == old(self).byte(a) by {
                if a / 4096 == pa.0 / 4096 && (a % 4096) / 8 == (pa.0 % 4096) / 8 {
                    lemma_word_with_byte(w, k, b, (a % 8) as u64);
                }
            }
        }
    }
}

/// Agreeing outside `a`, then outside `b`, is agreeing outside both.
pub proof fn lemma_same_outside_trans(m1: PhysMem, m2: PhysMem, m3: PhysMem, a: Set<int>, b: Set<int>)
    requires
        m1.same_outside(m2, a),
        m2.same_outside(m3, b),
    ensures
        m1.same_outside(m3, a.union(b)),
{
    assert forall|p: int, i: int|
        !a.union(b).contains(p) && 0 <= i < 512 implies #[trigger] m3.word(p, i) == m1.word(p, i) by {
        assert(m3.word(p, i) == m2.word(p, i));
        assert(m2.word(p, i) == m1.word(p, i));
    }
}

/// Agreeing outside a set is agreeing outside any larger set.
pub proof fn lemma_same_outside_weaken(m1: PhysMem, m2: PhysMem, a: Set<int>, b: Set<int>)
    requires
        m1.same_outside(m2, a),
        a.subset_of(b),
    ensures
        m1.same_outside(m2, b),
{
}

/// Every memory agrees with itself.
pub proof fn lemma_same_outside_refl(m: PhysMem, a: Set<int>)
    ensures
        m.same_outside(m, a),
{
}

} // verus!

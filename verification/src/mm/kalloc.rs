//! The kernel frame allocator: a list of free frames threaded through the
//! frames themselves. The first word of each free frame holds the number of
//! the next free frame, 0 ending the list; the allocator keeps the first.
use vstd::prelude::*;
use core::ops::Range;
use crate::mm::address::PhysPageNum;
use crate::mm::phys_mem::{PhysMem, WORDS_PER_PAGE};

verus! {

/// What allocating takes from a free list: its first frame, and the rest.
pub open spec fn alloc_step(free: Seq<u64>) -> (u64, Seq<u64>) {
    (free[0], free.drop_first())
}

/// What freeing a frame makes of a free list: the frame, then the list.
pub open spec fn free_step(free: Seq<u64>, page: u64) -> Seq<u64> {
    seq![page] + free
}

/// The frames `start`, `start + 1`, ..., `end - 1`.
pub open spec fn page_run(start: u64, end: u64) -> Seq<u64> {
    Seq::new((end - start) as nat, |k: int| (start + k) as u64)
}

pub struct Kallocator {
    head: u64,
    free: Ghost<Seq<u64>>,
}

impl PhysPageNum {
    /// Fills the frame with zeros.
    pub fn clear(&self, mem: &mut PhysMem)
        requires
            old(mem).wf(),
            old(mem).has_page(self.0 as int),
        ensures
            final(mem).wf(),
            final(mem).page_is_zero(self.0 as int),
            old(mem).same_outside(*final(mem), set![self.0 as int]),
    {
        let mut i: u64 = 0;
        while i < WORDS_PER_PAGE
            invariant
                mem.wf(),
                mem.has_page(self.0 as int),
                i <= WORDS_PER_PAGE,
                forall|j: int| 0 <= j < i ==> #[trigger] mem.word(self.0 as int, j) == 0,
                old(mem).same_outside(*mem, set![self.0 as int]),
            decreases WORDS_PER_PAGE - i,
        {
            mem.write_page_word(*self, i, 0);
            i = i + 1;
        }
    }
}

impl Kallocator {
    /// The free frames, the one handed out next first.
    pub closed spec fn free_list(self) -> Seq<u64> {
        self.free@
    }

    /// The frame handed out next; 0 when no frame is free.
    pub closed spec fn head_frame(self) -> u64 {
        self.head
    }

    /// The free list is threaded through `mem` as described above.
    pub closed spec fn wf(self, mem: PhysMem) -> bool {
        let f = self.free@;
        &&& mem.wf()
        &&& (f.len() == 0 <==> self.head == 0)
        &&& f.len() > 0 ==> f[0] == self.head
        &&& f.no_duplicates()
        &&& forall|i: int| 0 <= i < f.len() ==> mem.has_page(#[trigger] f[i] as int)
        &&& forall|i: int|
            0 <= i < f.len() ==> #[trigger] mem.word(f[i] as int, 0) == if i + 1 < f.len() {
                f[i + 1]
            } else {
                0
            }
    }

    /// The frames that are free.
    pub open spec fn free_set(self) -> Set<int> {
        Set::new(|p: int| exists|i: int| 0 <= i < self.free_list().len() && self.free_list()[i] == p)
    }

    /// An allocator with no free frame.
    pub fn default() -> (r: Self)
        ensures
            r.free_list().len() == 0,
            forall|mem: PhysMem| mem.wf() ==> r.wf(mem),
    {
        Kallocator { head: 0, free: Ghost(Seq::empty()) }
    }

    pub proof fn lemma_wf_facts(self, mem: PhysMem)
        requires
            self.wf(mem),
        ensures
            mem.wf(),
            self.free_list().no_duplicates(),
            forall|i: int|
                0 <= i < self.free_list().len() ==> mem.has_page(#[trigger] self.free_list()[i] as int),
            forall|p: int| #[trigger] self.free_set().contains(p) ==> mem.has_page(p),
    {
    }

    /// The allocator stays well formed in a memory that differs only in frames
    /// that are not free.
    pub proof fn lemma_wf_frame(self, mem: PhysMem, mem2: PhysMem, changed: Set<int>)
        requires
            self.wf(mem),
            mem2.wf(),
            mem.same_outside(mem2, changed),
            changed.disjoint(self.free_set()),
        ensures
            self.wf(mem2),
    {
        let f = self.free@;
        assert forall|i: int| 0 <= i < f.len() implies #[trigger] mem2.word(f[i] as int, 0) == mem.word(
            f[i] as int,
            0,
        ) by {
            assert(self.free_set().contains(f[i] as int));
        }
    }

    /// How a well-formed free list lies in memory: the allocator holds its
    /// first frame (0 when it is empty), and word 0 of each free frame holds
    /// the next one, 0 for the last.
    pub proof fn lemma_links(self, mem: PhysMem)
        requires
            self.wf(mem),
        ensures
            self.head_frame() == first_or_zero_of(self.free_list()),
            forall|i: int|
                0 <= i < self.free_list().len() ==> #[trigger] mem.word(self.free_list()[i] as int, 0) == if i + 1
                    < self.free_list().len() {
                    self.free_list()[i + 1]
                } else {
                    0
                },
    {
    }

    /// Makes the frames of `pages` the free list, lowest first.
    pub fn init(&mut self, mem: &mut PhysMem, pages: Range<PhysPageNum>)
        requires
            old(mem).wf(),
            pages.start.0 < pages.end.0,
            old(mem).has_page(pages.start.0 as int),
            old(mem).has_page(pages.end.0 - 1),
        ensures
            final(self).wf(*final(mem)),
            final(self).free_list() == page_run(pages.start.0, pages.end.0),
            final(self).head_frame() == pages.start.0,
            forall|p: int| pages.start.0 <= p < pages.end.0 - 1 ==> #[trigger] final(mem).word(p, 0) == p + 1,
            final(mem).word(pages.end.0 - 1, 0) == 0,
            old(mem).same_outside(
                *final(mem),
                Set::new(|p: int| pages.start.0 <= p < pages.end.0),
            ),
    {
        let start = pages.start.0;
        let end = pages.end.0;
        let ghost run = Set::new(|p: int| start <= p < end);
        self.head = start;
        let mut i: u64 = start;
        while i < end
            invariant
                mem.wf(),
                start <= i <= end,
                old(mem).has_page(start as int),
                old(mem).has_page(end - 1),
                old(mem).same_outside(*mem, run),
                run == Set::new(|p: int| start <= p < end),
                forall|p: int| start <= p < i ==> #[trigger] mem.word(p, 0) == p + 1,
            decreases end - i,
        {
            mem.write_page_word(PhysPageNum(i), 0, i + 1);
            i = i + 1;
        }
        mem.write_page_word(PhysPageNum(end - 1), 0, 0);
        self.free = Ghost(page_run(start, end));
        proof {
            old(mem).lemma_page_range(start as int);
            let f = self.free@;
            assert forall|a: int, b: int| 0 <= a < f.len() && 0 <= b < f.len() && a != b implies f[a]
                != f[b] by {}
            assert forall|k: int| 0 <= k < f.len() implies mem.has_page(#[trigger] f[k] as int) by {}
            assert forall|k: int| 0 <= k < f.len() implies #[trigger] mem.word(f[k] as int, 0) == if k
                + 1 < f.len() {
                f[k + 1]
            } else {
                0
            } by {
                if k + 1 < f.len() {
                    assert(mem.word(f[k] as int, 0) == f[k] + 1);
                }
            }
        }
    }

    /// Whether at least `n` frames are free; looks at no more than `n` of
    /// them.
    pub fn has_free(&self, mem: &PhysMem, n: u64) -> (r: bool)
        requires
            self.wf(*mem),
        ensures
            r == (self.free_list().len() >= n),
    {
        let ghost f = self.free@;
        let mut p = self.head;
        let mut k: u64 = 0;
        while k < n
            invariant
                self.wf(*mem),
                f == self.free@,
                k <= n,
                k <= f.len(),
                p == if k < f.len() {
                    f[k as int]
                } else {
                    0
                },
            decreases n - k,
        {
            if p == 0 {
                proof {
                    if k < f.len() {
                        mem.lemma_page_range(f[k as int] as int);
                    }
                }
                return false;
            }
            p = mem.read_page_word(PhysPageNum(p), 0);
            k = k + 1;
        }
        true
    }

    /// Takes the first free frame, fills it with zeros and returns it.
    pub fn kalloc(&mut self, mem: &mut PhysMem) -> (r: PhysPageNum)
        requires
            old(self).wf(*old(mem)),
            old(self).free_list().len() > 0,
        ensures
            final(self).wf(*final(mem)),
            (r.0, final(self).free_list()) == alloc_step(old(self).free_list()),
            final(mem).page_is_zero(r.0 as int),
            old(mem).same_outside(*final(mem), set![r.0 as int]),
    {
        let ghost f = self.free@;
        let ret = PhysPageNum(self.head);
        proof {
            assert(f[0] == self.head);
            assert(mem.has_page(f[0] as int));
        }
        let next = mem.read_page_word(ret, 0);
        self.head = next;
        ret.clear(mem);
        self.free = Ghost(f.drop_first());
        proof {
            let g = self.free@;
            assert forall|k: int| 0 <= k < g.len() implies #[trigger] mem.word(g[k] as int, 0) == if k
                + 1 < g.len() {
                g[k + 1]
            } else {
                0
            } by {
                assert(g[k] == f[k + 1]);
                assert(f[k + 1] != f[0]);
                assert(mem.word(f[k + 1] as int, 0) == old(mem).word(f[k + 1] as int, 0));
            }
            assert forall|k: int| 0 <= k < g.len() implies mem.has_page(#[trigger] g[k] as int) by {
                assert(g[k] == f[k + 1]);
            }
            if g.len() > 0 {
                assert(old(mem).word(f[0] as int, 0) == f[1]);
                old(mem).lemma_page_range(f[1] as int);
            }
        }
        ret
    }

    /// Puts a frame back at the front of the free list.
    pub fn kfree(&mut self, mem: &mut PhysMem, page: PhysPageNum)
        requires
            old(self).wf(*old(mem)),
            old(mem).has_page(page.0 as int),
            !old(self).free_set().contains(page.0 as int),
        ensures
            final(self).wf(*final(mem)),
            final(self).free_list() == free_step(old(self).free_list(), page.0),
            final(mem).word(page.0 as int, 0) == first_or_zero_of(old(self).free_list()),
            final(self).head_frame() == page.0,
            forall|i: int| 1 <= i < 512 ==> #[trigger] final(mem).word(page.0 as int, i) == old(mem).word(page.0 as int, i),
            old(mem).same_outside(*final(mem), set![page.0 as int]),
    {
        let ghost f = self.free@;
        let next = self.head;
        mem.write_page_word(page, 0, next);
        self.head = page.0;
        self.free = Ghost(free_step(f, page.0));
        proof {
            old(mem).lemma_page_range(page.0 as int);
            let g = self.free@;
            assert forall|k: int| 0 <= k < f.len() implies f[k] != page.0 by {
                assert(old(self).free_set().contains(f[k] as int));
            }
            assert forall|a: int, b: int| 0 <= a < g.len() && 0 <= b < g.len() && a != b implies g[a]
                != g[b] by {}
            assert forall|k: int| 0 <= k < g.len() implies mem.has_page(#[trigger] g[k] as int) by {
                if k > 0 {
                    assert(g[k] == f[k - 1]);
                }
            }
            assert forall|k: int| 0 <= k < g.len() implies #[trigger] mem.word(g[k] as int, 0) == if k
                + 1 < g.len() {
                g[k + 1]
            } else {
                0
            } by {
                if k > 0 {
                    assert(g[k] == f[k - 1]);
                    assert(mem.word(f[k - 1] as int, 0) == old(mem).word(f[k - 1] as int, 0));
                }
            }
        }
    }
}

/// The first frame of a free list, or 0 for an empty list.
pub open spec fn first_or_zero_of(s: Seq<u64>) -> u64 {
    if s.len() > 0 {
        s[0]
    } else {
        0
    }
}

/// Allocating right after freeing a frame hands that frame back and leaves
/// the free list as it was.
pub proof fn law_alloc_after_free(free: Seq<u64>, page: u64)
    ensures
        alloc_step(free_step(free, page)) == (page, free),
{
    assert(free_step(free, page).drop_first() =~= free);
}

/// Freeing the frame just allocated gives back the free list it was taken
/// from.
pub proof fn law_free_after_alloc(free: Seq<u64>)
    requires
        free.len() > 0,
    ensures
        free_step(alloc_step(free).1, alloc_step(free).0) == free,
{
    assert(free_step(free.drop_first(), free[0]) =~= free);
}

} // verus!

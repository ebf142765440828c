//! Building the address space of a user program from its ELF image.
use vstd::prelude::*;
use crate::mm::address::vpn_index;
use crate::mm::pte_sv39::pte_valid;
use crate::mm::phys_mem::PhysMem;
use crate::mm::kalloc::Kallocator;
use crate::mm::pgtbl::{Pgtbl, prefix_set};
use crate::mm::pt_spec::{
    tables,
    leaf_pte,
    same_slot,
    missing_l1,
    missing_l0,
    missing_leaf,
    l0_key,
    lemma_missing_finite,
    lemma_missing_leaf_finite,
    lemma_same_slot_walk,
    lemma_same_slot,
};
use crate::mm::memory_space::{MemorySpace, frame_of, data_frame, area_frames, area_ready, fill_inv};
use crate::mm::address::VirtualAddr;
use crate::mm::pte_sv39::PTEFlag;

verus! {

/// Each page number of `[lo, hi)` adds at most one missing level-1 table,
/// one missing leaf table and one missing leaf entry.
pub(crate) proof fn lemma_missing_le(mem: PhysMem, root: int, lo: int, hi: int)
    requires
        lo <= hi,
        hi <= 0x1_0000_0000_0000_0000,
    ensures
        missing_l1(mem, root, lo, hi).len() <= hi - lo,
        missing_l0(mem, root, lo, hi).len() <= hi - lo,
        missing_leaf(mem, root, lo, hi).len() <= hi - lo,
    decreases hi - lo,
{
    lemma_missing_finite(mem, root, lo, hi);
    lemma_missing_leaf_finite(mem, root, lo, hi);
    if hi == lo {
        assert(missing_l1(mem, root, lo, hi) =~= Set::empty());
        assert(missing_l0(mem, root, lo, hi) =~= Set::empty());
        assert(missing_leaf(mem, root, lo, hi) =~= Set::empty());
    } else {
        lemma_missing_le(mem, root, lo, hi - 1);
        lemma_missing_finite(mem, root, lo, hi - 1);
        lemma_missing_leaf_finite(mem, root, lo, hi - 1);
        let n = (hi - 1) as u64;
        let a1 = missing_l1(mem, root, lo, hi - 1);
        let a0 = missing_l0(mem, root, lo, hi - 1);
        let al = missing_leaf(mem, root, lo, hi - 1);
        let k1 = vpn_index(n, 2) as int;
        let k0 = l0_key(n);
        let kl = n % 0x800_0000;
        assert(missing_l1(mem, root, lo, hi).subset_of(a1.insert(k1))) by {
            assert forall|k: int| #[trigger] missing_l1(mem, root, lo, hi).contains(k) implies a1.insert(k1).contains(
                k,
            ) by {
                let m = choose|m: u64| lo <= m < hi && !pte_valid(#[trigger] crate::mm::pt_spec::entry2(mem, root, m)) && vpn_index(m, 2) == k;
                if m < hi - 1 {
                    assert(a1.contains(k));
                }
            }
        }
        assert(missing_l0(mem, root, lo, hi).subset_of(a0.insert(k0))) by {
            assert forall|k: int| #[trigger] missing_l0(mem, root, lo, hi).contains(k) implies a0.insert(k0).contains(
                k,
            ) by {
                let m = choose|m: u64| lo <= m < hi && !#[trigger] crate::mm::pt_spec::path_ok(mem, root, m) && l0_key(m) == k;
                if m < hi - 1 {
                    assert(a0.contains(k));
                }
            }
        }
        assert(missing_leaf(mem, root, lo, hi).subset_of(al.insert(kl as int))) by {
            assert forall|k: int| #[trigger] missing_leaf(mem, root, lo, hi).contains(k) implies al.insert(
                kl as int,
            ).contains(k) by {
                let m = choose|m: u64| lo <= m < hi && !pte_valid(#[trigger] leaf_pte(mem, root, m)) && m % 0x800_0000 == k;
                if m < hi - 1 {
                    assert(al.contains(k));
                }
            }
        }
        vstd::set_lib::lemma_len_subset(missing_l1(mem, root, lo, hi), a1.insert(k1));
        vstd::set_lib::lemma_len_subset(missing_l0(mem, root, lo, hi), a0.insert(k0));
        vstd::set_lib::lemma_len_subset(missing_leaf(mem, root, lo, hi), al.insert(kl as int));
    }
}

/// Number of pages that the bytes `[s, e)` touch.
pub open spec fn span_pages(s: u64, e: u64) -> int {
    if s < e {
        (e - 1) / 4096 + 1 - s / 4096
    } else {
        0
    }
}

/// Writing an area needs at most three frames per page it touches: a
/// level-1 table, a leaf table and the page itself.
proof fn lemma_area_frames_le(mem: PhysMem, root: int, s: u64, e: u64)
    ensures
        area_frames(mem, root, s, e) <= 3 * span_pages(s, e),
{
    if s < e {
        lemma_missing_le(mem, root, (s / 4096) as int, (e - 1) / 4096 + 1);
    }
}

/// Every valid leaf entry of the table maps a frame that holds program data,
/// and no two slots map the same frame. Loading keeps this: a leaf that
/// mapped a table frame, a free frame or the frame of another slot would
/// let a later segment write over the tables, the free list or that slot.
pub open spec fn leaves_data(pt: Pgtbl, mem: PhysMem, alloc: Kallocator) -> bool {
    let root = pt.root.0 as int;
    &&& forall|n: u64|
        pte_valid(#[trigger] leaf_pte(mem, root, n)) ==> data_frame(mem, alloc, root, frame_of(mem, root, n))
    &&& forall|n1: u64, n2: u64|
        !same_slot(n1, n2) && pte_valid(leaf_pte(mem, root, n1)) && pte_valid(leaf_pte(mem, root, n2))
            ==> #[trigger] frame_of(mem, root, n1) != #[trigger] frame_of(mem, root, n2)
}

/// With data frames only and enough free frames, any area of fewer than
/// 2^27 pages can be written.
proof fn lemma_ready(pt: Pgtbl, mem: PhysMem, alloc: Kallocator, s: u64, e: u64)
    requires
        pt.inv(mem, alloc),
        leaves_data(pt, mem, alloc),
        alloc.free_list().len() >= 3 * span_pages(s, e),
        span_pages(s, e) <= 0x800_0000,
    ensures
        area_ready(pt, mem, alloc, s, e),
{
    lemma_area_frames_le(mem, pt.root.0 as int, s, e);
}

/// Writing an area keeps every valid leaf on a data frame of its own.
proof fn lemma_fill_keeps_data(
    pt: Pgtbl,
    mem0: PhysMem,
    alloc0: Kallocator,
    mem: PhysMem,
    alloc: Kallocator,
    s: u64,
    e: u64,
    fl: u64,
    data: Seq<u8>,
    zero: bool,
)
    requires
        leaves_data(pt, mem0, alloc0),
        pt.inv(mem0, alloc0),
        fill_inv(pt, mem0, alloc0, mem, alloc, s, e, e, fl, data, zero),
        mem.base() == mem0.base(),
        mem.npages() == mem0.npages(),
    ensures
        leaves_data(pt, mem, alloc),
{
    reveal(Pgtbl::inv);
    let root = pt.root.0 as int;
    let f = alloc0.free_list();
    let c = area_frames(mem0, root, s, e) - area_frames(mem, root, e, e);
    let lo = s / 4096;
    let hi = (e - 1) / 4096 + 1;
    alloc0.lemma_wf_facts(mem0);
    assert(prefix_set(f, c).subset_of(alloc0.free_set())) by {
        assert forall|p: int| #[trigger] prefix_set(f, c).contains(p) implies alloc0.free_set().contains(p) by {
            let q = choose|q: int| 0 <= q < c && f[q] == p;
        }
    }
    assert(alloc.free_set().subset_of(alloc0.free_set())) by {
        assert forall|p: int| #[trigger] alloc.free_set().contains(p) implies alloc0.free_set().contains(p) by {
            let q = choose|q: int| 0 <= q < alloc.free_list().len() && alloc.free_list()[q] == p;
            assert(f[q + c] == p);
        }
    }
    // A leaf entry that the area changed is the entry of one of its pages.
    assert forall|n: u64|
        pte_valid(leaf_pte(mem, root, n)) && !pte_valid(leaf_pte(mem0, root, n)) implies exists|m: u64|
        lo <= m < hi && #[trigger] same_slot(n, m) by {
        if forall|b: u64| s <= b < e ==> !#[trigger] same_slot(n, b / 4096) {
            assert(leaf_pte(mem, root, n) == leaf_pte(mem0, root, n));
        } else {
            let b = choose|b: u64| s <= b < e && #[trigger] same_slot(n, b / 4096);
            assert(lo <= b / 4096 < hi);
            assert(same_slot(n, b / 4096));
        }
    }
    assert forall|n: u64| pte_valid(#[trigger] leaf_pte(mem, root, n)) implies data_frame(
        mem,
        alloc,
        root,
        frame_of(mem, root, n),
    ) by {
        if pte_valid(leaf_pte(mem0, root, n)) {
            assert(leaf_pte(mem, root, n) == leaf_pte(mem0, root, n));
            let p = frame_of(mem0, root, n);
            assert(data_frame(mem0, alloc0, root, p));
            assert(!prefix_set(f, c).contains(p));
        } else {
            let m = choose|m: u64| lo <= m < hi && #[trigger] same_slot(n, m);
            lemma_same_slot_walk(mem, root, n, m);
            lemma_same_slot_walk(mem0, root, n, m);
            assert(data_frame(mem, alloc, root, frame_of(mem, root, m)));
        }
    }
    assert forall|n1: u64, n2: u64|
        !same_slot(n1, n2) && pte_valid(leaf_pte(mem, root, n1)) && pte_valid(leaf_pte(mem, root, n2)) implies #[trigger] frame_of(
        mem,
        root,
        n1,
    ) != #[trigger] frame_of(mem, root, n2) by {
        let v1 = pte_valid(leaf_pte(mem0, root, n1));
        let v2 = pte_valid(leaf_pte(mem0, root, n2));
        if v1 && v2 {
            assert(leaf_pte(mem, root, n1) == leaf_pte(mem0, root, n1));
            assert(leaf_pte(mem, root, n2) == leaf_pte(mem0, root, n2));
            assert(frame_of(mem0, root, n1) != frame_of(mem0, root, n2));
        } else if v1 {
            let m2 = choose|m: u64| lo <= m < hi && #[trigger] same_slot(n2, m);
            lemma_same_slot_walk(mem, root, n2, m2);
            lemma_same_slot_walk(mem0, root, n2, m2);
            assert(prefix_set(f, c).contains(frame_of(mem, root, m2)));
            assert(leaf_pte(mem, root, n1) == leaf_pte(mem0, root, n1));
            assert(data_frame(mem0, alloc0, root, frame_of(mem0, root, n1)));
        } else if v2 {
            let m1 = choose|m: u64| lo <= m < hi && #[trigger] same_slot(n1, m);
            lemma_same_slot_walk(mem, root, n1, m1);
            lemma_same_slot_walk(mem0, root, n1, m1);
            assert(prefix_set(f, c).contains(frame_of(mem, root, m1)));
            assert(leaf_pte(mem, root, n2) == leaf_pte(mem0, root, n2));
            assert(data_frame(mem0, alloc0, root, frame_of(mem0, root, n2)));
        } else {
            let m1 = choose|m: u64| lo <= m < hi && #[trigger] same_slot(n1, m);
            let m2 = choose|m: u64| lo <= m < hi && #[trigger] same_slot(n2, m);
            lemma_same_slot_walk(mem, root, n1, m1);
            lemma_same_slot_walk(mem, root, n2, m2);
            lemma_same_slot(n1, m1);
            lemma_same_slot(n2, m2);
            lemma_same_slot(n1, n2);
            lemma_same_slot(m1, m2);
            assert(!same_slot(m1, m2));
        }
    }
}

/// The four bytes that open every ELF image: 0x7f, 'E', 'L', 'F'.
pub open spec fn elf_magic() -> Seq<u8> {
    seq![0x7fu8, 0x45u8, 0x4cu8, 0x46u8]
}

/// The fields of an ELF header that loading reads. `class` is 1 for a
/// 32-bit image and 2 for a 64-bit one.
#[derive(Clone, Copy, Debug)]
pub struct ElfHeader {
    pub magic: [u8; 4],
    pub class: u8,
    pub entry_point: u64,
    pub ph_offset: u64,
    pub ph_entry_size: u16,
    pub ph_count: u16,
}

/// The type of a program segment, as far as loading cares: loaded, not
/// loaded, or not a type that ELF defines.
#[derive(Clone, Copy, Debug, PartialEq, Eq, Structural)]
pub enum SegmentKind {
    Load,
    Other,
    Invalid,
}

/// The fields of a program header that loading reads.
#[derive(Clone, Copy, Debug, PartialEq, Eq, Structural)]
pub struct ProgramSegment {
    pub kind: SegmentKind,
    pub flags: u32,
    pub offset: u64,
    pub file_size: u64,
    pub virtual_addr: u64,
    pub mem_size: u64,
}

/// The header of `data` parses: the image is long enough for the first part
/// of the header, starts with the magic bytes, has a known class, and is long
/// enough for the second part of the header of that class.
pub open spec fn elf_header_ok(data: Seq<u8>) -> bool {
    &&& data.len() >= 16
    &&& data.subrange(0, 4) == elf_magic()
    &&& (data[4] == 1 && data.len() >= 52) || (data[4] == 2 && data.len() >= 64)
}

/// What the parser of ELF headers makes of `data`.
pub uninterp spec fn elf_header_of(data: Seq<u8>) -> Option<ElfHeader>;

/// Parses the header of the ELF image `data`, with `xmas_elf::ElfFile::new`,
/// and reads its fields. The parser reads the second part of the header in
/// place and asserts that it is aligned for its widest field, so the image is
/// handed to it only where it starts at a multiple of 8 in memory; `None`
/// comes back otherwise. Claimed of the parser: it succeeds only where
/// `elf_header_ok` holds, the magic bytes and the class are those of the
/// image, and the other fields are a function of the bytes (named
/// `elf_header_of`; the parser reads them in the byte order of the machine).
/// Not claimed: that a result comes back, which rests on where `data` lies
/// in memory.
#[verifier::external_body]
fn elf_header(data: &[u8]) -> (r: Option<ElfHeader>)
    ensures
        r is Some ==> r == elf_header_of(data@) && elf_header_ok(data@),
        r matches Some(h) ==> h.magic@ == elf_magic() && h.class == data@[4],
{
    if data.as_ptr().align_offset(8) != 0 {
        return None;
    }
    let elf = match xmas_elf::ElfFile::new(data) { Ok(e) => e, Err(_) => return None };
    let class = match elf.header.pt1.class() {
        xmas_elf::header::Class::ThirtyTwo => 1,
        xmas_elf::header::Class::SixtyFour => 2,
        _ => 0,
    };
    let pt2 = &elf.header.pt2;
    Some(ElfHeader { magic: elf.header.pt1.magic, class, entry_point: pt2.entry_point(),
        ph_offset: pt2.ph_offset(), ph_entry_size: pt2.ph_entry_size(), ph_count: pt2.ph_count() })
}

/// Entry `index` of the program header table lies inside the image, is
/// large enough for a program header of the image's class, and starts at a
/// multiple of that header's alignment (4 for a 32-bit image, 8 for a 64-bit
/// one), where the parser reads it at all.
pub open spec fn ph_entry_in_bounds(h: ElfHeader, index: u16, len: nat) -> bool {
    (index < h.ph_count && h.ph_offset > 0 && h.ph_entry_size > 0) ==> {
        &&& h.ph_offset + (index + 1) * h.ph_entry_size <= len
        &&& h.ph_entry_size >= if h.class == 1 {
            32int
        } else {
            56int
        }
        &&& (h.ph_offset + index * h.ph_entry_size) % (if h.class == 1 {
            4int
        } else {
            8int
        }) == 0
    }
}

/// What the parser of program headers makes of entry `index` of `data`.
pub uninterp spec fn elf_segment_of(data: Seq<u8>, index: u16) -> Option<ProgramSegment>;

/// Parses the image `data` and reads program header `index`, with
/// `xmas_elf::ElfFile::new`, `ElfFile::program_header` and the getters of
/// `ProgramHeader`; as in `elf_header`, the image is handed to the parser
/// only where it starts at a multiple of 8 in memory. Claimed: no result
/// where the header does not parse, nor where the index is not below the
/// count or the table's offset or entry size is zero; a result holds the
/// entry's fields, a function of the bytes (named `elf_segment_of`). The
/// parser reads the entry in place and panics where it lies past the image,
/// is too small for a program header or is not aligned for one: `requires`
/// leaves that out. Not claimed: that a result comes back, which rests on
/// where `data` lies in memory.
#[verifier::external_body]
fn elf_program_header(data: &[u8], index: u16) -> (r: Option<ProgramSegment>)
    requires
        elf_header_of(data@) matches Some(h) ==> ph_entry_in_bounds(h, index, data@.len()),
    ensures
        r is Some ==> r == elf_segment_of(data@, index),
        elf_header_of(data@) is None ==> r is None,
        elf_header_of(data@) matches Some(h) ==> (r is Some ==> index < h.ph_count && h.ph_offset > 0
            && h.ph_entry_size > 0),
{
    if data.as_ptr().align_offset(8) != 0 {
        return None;
    }
    let elf = match xmas_elf::ElfFile::new(data) { Ok(e) => e, Err(_) => return None };
    let ph = match elf.program_header(index) { Ok(p) => p, Err(_) => return None };
    let kind = match ph.get_type() {
        Ok(xmas_elf::program::Type::Load) => SegmentKind::Load,
        Ok(_) => SegmentKind::Other,
        Err(_) => SegmentKind::Invalid,
    };
    Some(ProgramSegment { kind, flags: ph.flags().0, offset: ph.offset(), file_size: ph.file_size(),
        virtual_addr: ph.virtual_addr(), mem_size: ph.mem_size() })
}

/// Every entry of the program header table of `data` can be read.
pub open spec fn entries_in_bounds(data: Seq<u8>, h: ElfHeader) -> bool {
    forall|i: u16| i < h.ph_count ==> #[trigger] ph_entry_in_bounds(h, i, data.len())
}

/// Every entry of the program header table of `data` can be read, and the
/// parser makes a program header of each.
pub open spec fn entries_readable(data: Seq<u8>, h: ElfHeader) -> bool {
    &&& entries_in_bounds(data, h)
    &&& forall|i: u16| i < h.ph_count ==> (#[trigger] elf_segment_of(data, i)) is Some
}

/// The program headers of `data`, whose header is `h`, as the parser reads
/// them, in order.
pub open spec fn elf_segments(data: Seq<u8>, h: ElfHeader) -> Seq<ProgramSegment> {
    Seq::new(h.ph_count as nat, |i: int| elf_segment_of(data, i as u16)->0)
}

/// The page-table flags of a segment with ELF flags `flags` (X = 1, W = 2,
/// R = 4), added to the flags `init`.
pub open spec fn ph_pte_flags(flags: u32, init: u64) -> u64 {
    init | (if flags & 4 == 4 {
        2u64
    } else {
        0u64
    }) | (if flags & 2 == 2 {
        4u64
    } else {
        0u64
    }) | (if flags & 1 == 1 {
        8u64
    } else {
        0u64
    })
}

/// Setting some of the bits R (2), W (4) and X (8) on top of `init`
/// sets exactly those bits and keeps every other one.
proof fn lemma_or_permission_bits(init: u64, a: u64, b: u64, c: u64)
    requires
        a == 0 || a == 2,
        b == 0 || b == 4,
        c == 0 || c == 8,
    ensures
        ((init | a | b | c) & 2 == 2) == (a == 2 || init & 2 == 2),
        ((init | a | b | c) & 4 == 4) == (b == 4 || init & 4 == 4),
        ((init | a | b | c) & 8 == 8) == (c == 8 || init & 8 == 8),
        (init | a | b | c) & !14u64 == init & !14u64,
{
    assert(((init | a | b | c) & 2 == 2) == (a == 2 || init & 2 == 2) && ((init | a | b | c) & 4 == 4) == (b == 4
        || init & 4 == 4) && ((init | a | b | c) & 8 == 8) == (c == 8 || init & 8 == 8) && (init | a | b | c)
        & !14u64 == init & !14u64) by (bit_vector)
        requires
            a == 0 || a == 2,
            b == 0 || b == 4,
            c == 0 || c == 8,
    ;
}

/// The pages of a segment are readable exactly where its ELF flags hold
/// PF_R (4), writable exactly where they hold PF_W (2) and executable
/// exactly where they hold PF_X (1), unless the flags they start from
/// already grant it; no other page-table bit changes.
pub proof fn law_segment_permissions(flags: u32, init: u64)
    ensures
        (ph_pte_flags(flags, init) & 2 == 2) == (flags & 4 == 4 || init & 2 == 2),
        (ph_pte_flags(flags, init) & 4 == 4) == (flags & 2 == 2 || init & 4 == 4),
        (ph_pte_flags(flags, init) & 8 == 8) == (flags & 1 == 1 || init & 8 == 8),
        ph_pte_flags(flags, init) & !14u64 == init & !14u64,
{
    let a: u64 = if flags & 4 == 4 { 2 } else { 0 };
    let b: u64 = if flags & 2 == 2 { 4 } else { 0 };
    let c: u64 = if flags & 1 == 1 { 8 } else { 0 };
    lemma_or_permission_bits(init, a, b, c);
}

/// A load segment fits: its addresses do not wrap, its bytes lie in the
/// image, the image holds all of its memory (the loader copies every byte
/// from the image), and it spans fewer pages than the 39-bit space.
pub open spec fn load_fits(seg: ProgramSegment, len: nat) -> bool {
    &&& seg.virtual_addr + seg.mem_size <= u64::MAX
    &&& seg.offset + seg.file_size <= len
    &&& seg.mem_size <= seg.file_size
    &&& span_pages(seg.virtual_addr, (seg.virtual_addr + seg.mem_size) as u64) <= 0x800_0000
}

/// The program header `seg` of an image of `len` bytes can be loaded: its
/// type is known, and a load segment fits.
pub open spec fn segment_ok(seg: ProgramSegment, len: nat) -> bool {
    &&& seg.kind != SegmentKind::Invalid
    &&& seg.kind == SegmentKind::Load ==> load_fits(seg, len)
}

/// Every program header of `segs` can be loaded from an image of `len` bytes.
pub open spec fn segments_ok(segs: Seq<ProgramSegment>, len: nat) -> bool {
    forall|i: int| 0 <= i < segs.len() ==> #[trigger] segment_ok(segs[i], len)
}

/// The image parses and every program header of it can be read and loaded.
pub open spec fn elf_loadable(data: Seq<u8>) -> bool {
    &&& elf_header_of(data) is Some
    &&& entries_readable(data, elf_header_of(data)->0)
    &&& segments_ok(elf_segments(data, elf_header_of(data)->0), data.len())
}

/// Pages that the load segments among the first `k` of `segs` span.
pub open spec fn load_pages(segs: Seq<ProgramSegment>, k: int) -> int
    decreases k,
{
    if k <= 0 {
        0
    } else {
        load_pages(segs, k - 1) + if segs[k - 1].kind == SegmentKind::Load {
            span_pages(segs[k - 1].virtual_addr, (segs[k - 1].virtual_addr + segs[k - 1].mem_size) as u64)
        } else {
            0
        }
    }
}

/// What loading the segment `seg` of `data` does: a load segment with
/// memory is written as `map_area_data_each_byte` writes it, with the
/// segment's flags for a user page; anything else changes nothing.
pub open spec fn segment_step(
    pt: Pgtbl,
    data: Seq<u8>,
    seg: ProgramSegment,
    m0: PhysMem,
    a0: Kallocator,
    m1: PhysMem,
    a1: Kallocator,
) -> bool {
    if seg.kind == SegmentKind::Load && seg.mem_size > 0 {
        let s = seg.virtual_addr;
        let e = (seg.virtual_addr + seg.mem_size) as u64;
        &&& fill_inv(
            pt,
            m0,
            a0,
            m1,
            a1,
            s,
            e,
            e,
            ph_pte_flags(seg.flags, 16) | 1,
            data.subrange(seg.offset as int, seg.offset + seg.file_size),
            false,
        )
        &&& m1.base() == m0.base()
        &&& m1.npages() == m0.npages()
    } else {
        m1 == m0 && a1 == a0
    }
}

/// `ms` and `als` are the memories and allocators before and after each of
/// the first `k` program headers `segs` of `data` is loaded.
pub open spec fn load_chain(
    pt: Pgtbl,
    data: Seq<u8>,
    segs: Seq<ProgramSegment>,
    ms: Seq<PhysMem>,
    als: Seq<Kallocator>,
    k: int,
) -> bool {
    &&& ms.len() == k + 1
    &&& als.len() == k + 1
    &&& forall|i: int|
        0 <= i < k ==> #[trigger] segment_step(pt, data, segs[i], ms[i], als[i], ms[i + 1], als[i + 1])
}

proof fn lemma_or_zero(x: u64)
    ensures
        x | 0u64 == x,
{
    assert(x | 0u64 == x) by (bit_vector);
}

impl MemorySpace {
    /// Whether the header starts with the ELF magic bytes.
    fn validate_elf_header(header: &ElfHeader) -> (r: bool)
        ensures
            r == (header.magic@ == elf_magic()),
    {
        let m = header.magic;
        let r = m[0] == 0x7f && m[1] == 0x45 && m[2] == 0x4c && m[3] == 0x46;
        proof {
            if r {
                assert(header.magic@ =~= elf_magic());
            } else if header.magic@ == elf_magic() {
                assert(header.magic@[0] == 0x7f && header.magic@[1] == 0x45);
                assert(header.magic@[2] == 0x4c && header.magic@[3] == 0x46);
            }
        }
        r
    }

    /// The page-table flags `init` with R, W and X added as the ELF flags
    /// `flags` say.
    fn get_pte_flags_from_ph_flags(flags: u32, init: PTEFlag) -> (r: PTEFlag)
        ensures
            r@ == ph_pte_flags(flags, init@),
    {
        let mut pte_flags = init;
        let ghost a = if flags & 4 == 4 { 2u64 } else { 0u64 };
        let ghost b = if flags & 2 == 2 { 4u64 } else { 0u64 };
        let ghost c = if flags & 1 == 1 { 8u64 } else { 0u64 };
        proof {
            lemma_or_zero(init@);
            lemma_or_zero(init@ | a);
            lemma_or_zero(init@ | a | b);
        }
        if flags & 4 == 4 {
            pte_flags = pte_flags.union(PTEFlag::r());
        }
        assert(pte_flags@ == init@ | a);
        if flags & 2 == 2 {
            pte_flags = pte_flags.union(PTEFlag::w());
        }
        assert(pte_flags@ == init@ | a | b);
        if flags & 1 == 1 {
            pte_flags = pte_flags.union(PTEFlag::x());
        }
        assert(pte_flags@ == init@ | a | b | c);
        pte_flags
    }
}

/// The table `pt` was just made in `m1` from `m0`: its root is the first
/// free frame of `a0`, it maps nothing, and nothing else changed.
pub open spec fn fresh_table(pt: Pgtbl, m0: PhysMem, a0: Kallocator, m1: PhysMem, a1: Kallocator) -> bool {
    let root = pt.root.0 as int;
    &&& pt.root.0 == a0.free_list()[0]
    &&& a1.free_list() == a0.free_list().drop_first()
    &&& pt.inv(m1, a1)
    &&& tables(m1, root) == set![root]
    &&& forall|v: u64| #[trigger] leaf_pte(m1, root, v) == 0
    &&& m0.same_outside(m1, set![root])
}

/// Frames that loading the program headers `segs` may take: the root table,
/// three per page of each load segment, and three for the page of the user
/// stack.
pub open spec fn frames_for(segs: Seq<ProgramSegment>) -> int {
    4 + 3 * load_pages(segs, segs.len() as int)
}

/// Frames that loading the image `data` may take (see `frames_for`).
pub open spec fn frames_for_image(data: Seq<u8>) -> int {
    frames_for(elf_segments(data, elf_header_of(data)->0))
}

/// What loading the image `data`, with header `h` and program headers
/// `segs`, builds in `mem` and `alloc` from `mem0` and `alloc0`: a fresh
/// table, then each program header loaded in order, then the user stack
/// written (see `MemorySpace::map_user_stack`).
pub open spec fn image_loaded(
    space: MemorySpace,
    data: Seq<u8>,
    h: ElfHeader,
    segs: Seq<ProgramSegment>,
    mem0: PhysMem,
    alloc0: Kallocator,
    mem: PhysMem,
    alloc: Kallocator,
) -> bool {
    let k = segs.len() as int;
    &&& space.entry == h.entry_point
    &&& exists|ms: Seq<PhysMem>, als: Seq<Kallocator>|
        #[trigger] load_chain(space.page_table, data, segs, ms, als, k) && fresh_table(
            space.page_table,
            mem0,
            alloc0,
            ms[0],
            als[0],
        ) && fill_inv(space.page_table, ms[k], als[k], mem, alloc, 0, 2, 2, 23u64, Seq::empty(), true)
}

proof fn lemma_load_pages_step(segs: Seq<ProgramSegment>, i: int, k: int)
    requires
        0 <= i < k,
    ensures
        load_pages(segs, i) <= load_pages(segs, i + 1) <= load_pages(segs, k),
    decreases k - i,
{
    if i + 1 < k {
        lemma_load_pages_step(segs, i + 1, k);
    }
}

proof fn lemma_load_pages_nonneg(segs: Seq<ProgramSegment>, k: int)
    ensures
        load_pages(segs, k) >= 0,
    decreases k,
{
    if k > 0 {
        lemma_load_pages_nonneg(segs, k - 1);
    }
}

proof fn lemma_or_one_twice(x: u64)
    ensures
        (x | 1u64) | 1u64 == x | 1u64,
{
    assert((x | 1u64) | 1u64 == x | 1u64) by (bit_vector);
}

impl MemorySpace {
    /// Loads the program headers `segments` of the image `data` in order:
    /// the bytes of each load segment go to its virtual addresses, on user
    /// pages with the segment's permissions (see `segment_step`).
    fn map_elf_program_table(
        &mut self,
        mem: &mut PhysMem,
        alloc: &mut Kallocator,
        data: &[u8],
        segments: &[ProgramSegment],
    )
        requires
            segments_ok(segments@, data@.len()),
            old(self).page_table.inv(*old(mem), *old(alloc)),
            leaves_data(old(self).page_table, *old(mem), *old(alloc)),
            old(alloc).free_list().len() >= 3 * load_pages(segments@, segments@.len() as int),
        ensures
            *final(self) == *old(self),
            final(self).page_table.inv(*final(mem), *final(alloc)),
            leaves_data(final(self).page_table, *final(mem), *final(alloc)),
            final(alloc).free_list().len() >= old(alloc).free_list().len() - 3 * load_pages(
                segments@,
                segments@.len() as int,
            ),
            final(mem).base() == old(mem).base(),
            final(mem).npages() == old(mem).npages(),
            exists|ms: Seq<PhysMem>, als: Seq<Kallocator>|
                #[trigger] load_chain(old(self).page_table, data@, segments@, ms, als, segments@.len() as int)
                    && ms[0] == *old(mem) && als[0] == *old(alloc) && ms[segments@.len() as int] == *final(mem)
                    && als[segments@.len() as int] == *final(alloc),
    {
        let ph_count = segments.len();
        let ghost segs = segments@;
        let ghost pt = self.page_table;
        let ghost total = load_pages(segs, ph_count as int);
        let ghost mut ms: Seq<PhysMem> = seq![*mem];
        let ghost mut als: Seq<Kallocator> = seq![*alloc];
        let mut i: usize = 0;
        while i < ph_count
            invariant
                i <= ph_count,
                ph_count == segs.len(),
                segs == segments@,
                segments_ok(segs, data@.len()),
                *self == *old(self),
                pt == self.page_table,
                total == load_pages(segs, ph_count as int),
                self.page_table.inv(*mem, *alloc),
                leaves_data(self.page_table, *mem, *alloc),
                alloc.free_list().len() >= 3 * (total - load_pages(segs, i as int)),
                alloc.free_list().len() >= old(alloc).free_list().len() - 3 * load_pages(segs, i as int),
                load_chain(pt, data@, segs, ms, als, i as int),
                ms[0] == *old(mem),
                als[0] == *old(alloc),
                ms[i as int] == *mem,
                als[i as int] == *alloc,
                mem.base() == old(mem).base(),
                mem.npages() == old(mem).npages(),
            decreases ph_count - i,
        {
            assert(segment_ok(segs[i as int], data@.len()));
            proof {
                lemma_load_pages_step(segs, i as int, ph_count as int);
            }
            let ph = segments[i];
            let ghost m0 = *mem;
            let ghost a0 = *alloc;
            if ph.kind == SegmentKind::Load {
                assert(load_fits(ph, data@.len()));
                let start_va = VirtualAddr(ph.virtual_addr);
                let end_va = VirtualAddr(ph.virtual_addr + ph.mem_size);
                let map_perm = Self::get_pte_flags_from_ph_flags(ph.flags, PTEFlag::u());
                let dlen = data.len();
                assert(ph.offset + ph.file_size <= dlen);
                let off = ph.offset as usize;
                let seg = vstd::slice::slice_subrange(data, off, off + ph.file_size as usize);
                proof {
                    lemma_ready(pt, m0, a0, start_va.0, end_va.0);
                    lemma_area_frames_le(m0, pt.root.0 as int, start_va.0, end_va.0);
                    lemma_or_one_twice(map_perm@);
                }
                self.map_area_data_each_byte(mem, alloc, start_va..end_va, map_perm.union(PTEFlag::v()), seg);
                proof {
                    if start_va.0 < end_va.0 {
                        lemma_fill_keeps_data(
                            pt,
                            m0,
                            a0,
                            *mem,
                            *alloc,
                            start_va.0,
                            end_va.0,
                            map_perm@ | 1,
                            seg@,
                            false,
                        );
                    }
                }
            }
            proof {
                let ms2 = ms.push(*mem);
                let als2 = als.push(*alloc);
                assert forall|k: int| 0 <= k < i + 1 implies #[trigger] segment_step(
                    pt,
                    data@,
                    segs[k],
                    ms2[k],
                    als2[k],
                    ms2[k + 1],
                    als2[k + 1],
                ) by {
                    if k < i {
                        assert(segment_step(pt, data@, segs[k], ms[k], als[k], ms[k + 1], als[k + 1]));
                    }
                }
                ms = ms2;
                als = als2;
            }
            i = i + 1;
        }
    }

    /// The address space of the program in the image `data`, whose header is
    /// `header` and whose program headers are `segments`: a fresh page table,
    /// the image's entry point, its load segments (see
    /// `map_elf_program_table`) and a zeroed user stack page at address 0.
    /// `None`, with nothing changed, where the header lacks the magic bytes,
    /// a program header cannot be loaded (see `segment_ok`), or fewer frames
    /// are free than `frames_for(segments)`.
    pub fn from_elf_parts(
        data: &[u8],
        header: &ElfHeader,
        segments: &[ProgramSegment],
        mem: &mut PhysMem,
        alloc: &mut Kallocator,
    ) -> (r: Option<Self>)
        requires
            old(alloc).wf(*old(mem)),
            segments@.len() == header.ph_count,
        ensures
            r is Some <==> header.magic@ == elf_magic() && segments_ok(segments@, data@.len())
                && old(alloc).free_list().len() >= frames_for(segments@),
            r matches Some(space) ==> image_loaded(
                space,
                data@,
                *header,
                segments@,
                *old(mem),
                *old(alloc),
                *final(mem),
                *final(alloc),
            ) && space.page_table.inv(*final(mem), *final(alloc)),
            r is None ==> *final(mem) == *old(mem) && *final(alloc) == *old(alloc),
    {
        if !Self::validate_elf_header(header) {
            return None;
        }
        let ghost segs = segments@;
        let dlen = data.len();
        let n = segments.len();
        let mut total: u64 = 0;
        let mut i: usize = 0;
        while i < n
            invariant
                n == segs.len(),
                n <= 0xFFFF,
                segs == segments@,
                dlen == data@.len(),
                i <= n,
                total == load_pages(segs, i as int),
                total <= i * 0x800_0000,
                forall|j: int| 0 <= j < i ==> #[trigger] segment_ok(segs[j], data@.len()),
            decreases n - i,
        {
            let ph = segments[i];
            if ph.kind == SegmentKind::Invalid {
                assert(!segment_ok(segs[i as int], data@.len()));
                return None;
            }
            let mut pages: u64 = 0;
            if ph.kind == SegmentKind::Load {
                let fits = match (ph.virtual_addr.checked_add(ph.mem_size), ph.offset.checked_add(ph.file_size)) {
                    (Some(e), Some(f)) => f <= dlen as u64 && ph.mem_size <= ph.file_size && (ph.mem_size == 0 || (e
                        - 1) / 4096 + 1 - ph.virtual_addr / 4096 <= 0x800_0000),
                    _ => false,
                };
                if !fits {
                    assert(!segment_ok(segs[i as int], data@.len()));
                    return None;
                }
                if ph.mem_size > 0 {
                    pages = (ph.virtual_addr + ph.mem_size - 1) / 4096 + 1 - ph.virtual_addr / 4096;
                }
            }
            assert(segment_ok(segs[i as int], data@.len()));
            assert(total + pages <= (i + 1) * 0x800_0000) by (nonlinear_arith)
                requires
                    total <= i * 0x800_0000,
                    pages <= 0x800_0000,
            ;
            total = total + pages;
            i = i + 1;
        }
        assert(segments_ok(segs, data@.len()));
        assert(total <= 0x1_0000 * 0x800_0000) by (nonlinear_arith)
            requires
                total <= i * 0x800_0000,
                i <= 0xFFFF,
        ;
        if !alloc.has_free(mem, 4 + 3 * total) {
            return None;
        }
        proof {
            lemma_load_pages_nonneg(segs, n as int);
        }
        let mut space = Self { page_table: Pgtbl::new(mem, alloc), entry: 0 };
        let ghost m1 = *mem;
        let ghost a1 = *alloc;
        space.set_entry_point(header.entry_point);
        proof {
            crate::config::lemma_bit_constants();
        }
        space.map_elf_program_table(mem, alloc, data, segments);
        let ghost m2 = *mem;
        let ghost a2 = *alloc;
        proof {
            lemma_ready(space.page_table, m2, a2, 0, 2);
        }
        space.map_user_stack(mem, alloc);
        proof {
            let k = n as int;
            let (ms, als) = choose|ms: Seq<PhysMem>, als: Seq<Kallocator>|
                #[trigger] load_chain(space.page_table, data@, segs, ms, als, k) && ms[0] == m1 && als[0] == a1
                    && ms[k] == m2 && als[k] == a2;
            assert(load_chain(space.page_table, data@, segs, ms, als, k));
        }
        Some(space)
    }

    /// Reads the program header table of the image `data`, whose header is
    /// `h`, entry by entry; `None` where an entry lies past the image, is too
    /// small for a program header of the image's class or is not aligned for
    /// one, or the parser gives no result for it.
    fn read_program_headers(data: &[u8], h: &ElfHeader) -> (r: Option<Vec<ProgramSegment>>)
        requires
            elf_header_of(data@) == Some(*h),
        ensures
            r matches Some(segs) ==> entries_readable(data@, *h) && segs@ == elf_segments(data@, *h),
            !entries_in_bounds(data@, *h) ==> r is None,
    {
        let dlen = data.len();
        let mut segs: Vec<ProgramSegment> = Vec::new();
        let mut i: u16 = 0;
        while i < h.ph_count
            invariant
                elf_header_of(data@) == Some(*h),
                dlen == data@.len(),
                i <= h.ph_count,
                segs@.len() == i,
                forall|j: u16| j < i ==> #[trigger] ph_entry_in_bounds(*h, j, data@.len()),
                forall|j: u16| j < i ==> #[trigger] elf_segment_of(data@, j) == Some(segs@[j as int]),
            decreases h.ph_count - i,
        {
            if h.ph_offset > 0 && h.ph_entry_size > 0 {
                let min_size: u16 = if h.class == 1 { 32 } else { 56 };
                let align: u64 = if h.class == 1 { 4 } else { 8 };
                let es = h.ph_entry_size as u64;
                assert((i as u64 + 1) * es <= 0x1_0000 * 0xFFFF) by (nonlinear_arith)
                    requires
                        i < 0xFFFF,
                        es <= 0xFFFF,
                ;
                assert((i as u64 + 1) * es == i * es + es) by (nonlinear_arith);
                let table_end = h.ph_offset.checked_add((i as u64 + 1) * es);
                match table_end {
                    Some(end) => {
                        if end > dlen as u64 || h.ph_entry_size < min_size || (end - es) % align != 0 {
                            assert(!ph_entry_in_bounds(*h, i, data@.len()));
                            return None;
                        }
                    },
                    None => {
                        assert(!ph_entry_in_bounds(*h, i, data@.len()));
                        return None;
                    },
                }
            }
            assert(ph_entry_in_bounds(*h, i, data@.len()));
            let ph = match elf_program_header(data, i) {
                Some(p) => p,
                None => return None,
            };
            segs.push(ph);
            i = i + 1;
        }
        assert forall|k: int| 0 <= k < segs@.len() implies segs@[k] == elf_segments(data@, *h)[k] by {
            assert(elf_segment_of(data@, k as u16) == Some(segs@[k]));
        }
        assert(segs@ =~= elf_segments(data@, *h));
        Some(segs)
    }

    /// The address space of the program in the ELF image `data`: its header
    /// and program headers as the parser reads them, loaded by
    /// `from_elf_parts`. `None`, with nothing changed, where the image cannot
    /// be loaded (see `elf_loadable`) or too few frames are free; the parser
    /// gives no result either for an image that does not start at a multiple
    /// of 8 in memory.
    pub fn from_elf(data: &[u8], mem: &mut PhysMem, alloc: &mut Kallocator) -> (r: Option<Self>)
        requires
            old(alloc).wf(*old(mem)),
        ensures
            r is Some ==> elf_loadable(data@) && old(alloc).free_list().len() >= frames_for_image(data@),
            r matches Some(space) ==> image_loaded(
                space,
                data@,
                elf_header_of(data@)->0,
                elf_segments(data@, elf_header_of(data@)->0),
                *old(mem),
                *old(alloc),
                *final(mem),
                *final(alloc),
            ) && space.page_table.inv(*final(mem), *final(alloc)),
            !elf_header_ok(data@) ==> r is None,
            r is None ==> *final(mem) == *old(mem) && *final(alloc) == *old(alloc),
    {
        let h = match elf_header(data) {
            Some(h) => h,
            None => return None,
        };
        let segs = match Self::read_program_headers(data, &h) {
            Some(s) => s,
            None => return None,
        };
        Self::from_elf_parts(data, &h, segs.as_slice(), mem, alloc)
    }
}

} // verus!

use rcore_mm::mm::address::{PhysPageNum, VirtualAddr};
use rcore_mm::mm::elf::{ElfHeader, ProgramSegment, SegmentKind};
use rcore_mm::mm::kalloc::Kallocator;
use rcore_mm::mm::memory_space::MemorySpace;
use rcore_mm::mm::phys_mem::PhysMem;
use rcore_mm::mm::pte_sv39::PTE;

fn put(buf: &mut Vec<u8>, at: usize, bytes: &[u8]) {
    buf[at..at + bytes.len()].copy_from_slice(bytes);
}

/// A 64-bit RISC-V executable with a load segment of `code` at `vaddr`
/// (flags R|X) followed by a note segment.
fn image(vaddr: u64, code: &[u8], mem_size: u64, load_type: u32) -> Vec<u8> {
    let data_off = 64 + 2 * 56;
    let mut buf = vec![0u8; data_off + code.len()];
    put(&mut buf, 0, &[0x7f, b'E', b'L', b'F', 2, 1, 1, 0]);
    put(&mut buf, 16, &2u16.to_le_bytes());
    put(&mut buf, 18, &0xF3u16.to_le_bytes());
    put(&mut buf, 20, &1u32.to_le_bytes());
    put(&mut buf, 24, &0x1_0000u64.to_le_bytes());
    put(&mut buf, 32, &64u64.to_le_bytes());
    put(&mut buf, 52, &64u16.to_le_bytes());
    put(&mut buf, 54, &56u16.to_le_bytes());
    put(&mut buf, 56, &2u16.to_le_bytes());
    // program header 0: the code
    put(&mut buf, 64, &load_type.to_le_bytes());
    put(&mut buf, 68, &5u32.to_le_bytes());
    put(&mut buf, 72, &(data_off as u64).to_le_bytes());
    put(&mut buf, 80, &vaddr.to_le_bytes());
    put(&mut buf, 88, &vaddr.to_le_bytes());
    put(&mut buf, 96, &(code.len() as u64).to_le_bytes());
    put(&mut buf, 104, &mem_size.to_le_bytes());
    put(&mut buf, 112, &0x1000u64.to_le_bytes());
    // program header 1: a note, not loaded
    put(&mut buf, 120, &4u32.to_le_bytes());
    put(&mut buf, 124, &4u32.to_le_bytes());
    put(&mut buf, data_off, code);
    buf
}

fn setup(npages: u64) -> (PhysMem, Kallocator) {
    let mut mem = PhysMem::new(0x80000, npages as usize);
    let mut alloc = Kallocator::default();
    alloc.init(&mut mem, PhysPageNum(0x80000)..PhysPageNum(0x80000 + npages));
    (mem, alloc)
}

fn leaf(space: &MemorySpace, mem: &mut PhysMem, alloc: &mut Kallocator, va: u64) -> PTE {
    let pa = space.page_table.walk(mem, alloc, VirtualAddr(va), false);
    PTE::from_bits(mem.read_word(pa))
}

const CODE: [u8; 8] = [0x13, 0, 0, 0, 0x73, 0, 0, 0];

#[test]
fn loaded_program_has_its_entry_code_and_stack() {
    let data = image(0x1_0000, &CODE, 8, 1);
    let (mut mem, mut alloc) = setup(32);
    let mut space = MemorySpace::from_elf(&data, &mut mem, &mut alloc).expect("loadable");
    assert_eq!(space.entry(), 0x1_0000);
    assert_eq!(space.get_root_ppn().0, 0x80000);
    let code_leaf = leaf(&space, &mut mem, &mut alloc, 0x1_0000);
    assert!(code_leaf.is_valid());
    assert_eq!(code_leaf.flags().bits(), 16 | 2 | 8 | 1);
    let mut out = vec![0u8; 8];
    space.copy_virtual_address(&mut mem, &mut alloc, VirtualAddr(0x1_0000), 8, &mut out);
    assert_eq!(out, CODE.to_vec());
    let stack_leaf = leaf(&space, &mut mem, &mut alloc, 0);
    assert_eq!(stack_leaf.flags().bits(), 16 | 2 | 4 | 1);
    assert_ne!(stack_leaf.ppn().0, code_leaf.ppn().0);
}

#[test]
fn segment_flags_become_user_page_flags() {
    let data = image(0x2_3000, &CODE, 8, 1);
    let (mut mem, mut alloc) = setup(32);
    let space = MemorySpace::from_elf(&data, &mut mem, &mut alloc).expect("loadable");
    assert_eq!(space.entry(), 0x1_0000);
    let code_leaf = leaf(&space, &mut mem, &mut alloc, 0x2_3000);
    assert_eq!(code_leaf.flags().bits(), 27);
}

#[test]
fn bad_magic_is_refused() {
    let mut data = image(0x1_0000, &CODE, 8, 1);
    data[1] = b'X';
    let (mut mem, mut alloc) = setup(32);
    assert!(MemorySpace::from_elf(&data, &mut mem, &mut alloc).is_none());
    // nothing was taken: the next frame is still the first one
    assert_eq!(alloc.kalloc(&mut mem).0, 0x80000);
}

#[test]
fn truncated_image_is_refused() {
    let data = image(0x1_0000, &CODE, 8, 1);
    let (mut mem, mut alloc) = setup(32);
    assert!(MemorySpace::from_elf(&data[..40], &mut mem, &mut alloc).is_none());
    assert!(MemorySpace::from_elf(&data[..150], &mut mem, &mut alloc).is_none());
}

#[test]
fn segment_larger_in_memory_than_in_the_file_is_refused() {
    let data = image(0x1_0000, &CODE, 16, 1);
    let (mut mem, mut alloc) = setup(32);
    assert!(MemorySpace::from_elf(&data, &mut mem, &mut alloc).is_none());
}

#[test]
fn unknown_segment_type_is_refused() {
    let data = image(0x1_0000, &CODE, 8, 0x1234_5678);
    let (mut mem, mut alloc) = setup(32);
    assert!(MemorySpace::from_elf(&data, &mut mem, &mut alloc).is_none());
}

#[test]
fn too_few_frames_is_refused() {
    let data = image(0x1_0000, &CODE, 8, 1);
    // 4 + 3 * 1 page = 7 frames are asked for
    let (mut mem, mut alloc) = setup(6);
    assert!(MemorySpace::from_elf(&data, &mut mem, &mut alloc).is_none());
    let (mut mem, mut alloc) = setup(7);
    assert!(MemorySpace::from_elf(&data, &mut mem, &mut alloc).is_some());
}

#[test]
fn image_at_an_odd_address_is_refused_without_a_panic() {
    let data = image(0x1_0000, &CODE, 8, 1);
    let mut shifted = vec![0u8; data.len() + 1];
    shifted[1..].copy_from_slice(&data);
    let (mut mem, mut alloc) = setup(32);
    assert!(MemorySpace::from_elf(&shifted[1..], &mut mem, &mut alloc).is_none());
    assert_eq!(alloc.kalloc(&mut mem).0, 0x80000);
}

#[test]
fn program_header_off_its_alignment_is_refused() {
    let mut data = image(0x1_0000, &CODE, 8, 1);
    // the table now starts at byte 68, which is not a multiple of 8
    data[32..40].copy_from_slice(&68u64.to_le_bytes());
    let (mut mem, mut alloc) = setup(32);
    assert!(MemorySpace::from_elf(&data, &mut mem, &mut alloc).is_none());
}

fn header(magic: [u8; 4], count: u16) -> ElfHeader {
    ElfHeader { magic, class: 2, entry_point: 0x4_2000, ph_offset: 64, ph_entry_size: 56, ph_count: count }
}

fn load_segment(kind: SegmentKind, vaddr: u64, mem_size: u64) -> ProgramSegment {
    ProgramSegment { kind, flags: 6, offset: 0, file_size: 8, virtual_addr: vaddr, mem_size }
}

#[test]
fn parts_are_loaded_as_given() {
    let data = CODE.to_vec();
    let (mut mem, mut alloc) = setup(32);
    let segs = vec![load_segment(SegmentKind::Load, 0x3_0000, 8), load_segment(SegmentKind::Other, 0, 0)];
    let space = MemorySpace::from_elf_parts(&data, &header([0x7f, b'E', b'L', b'F'], 2), &segs, &mut mem, &mut alloc)
        .expect("loadable");
    assert_eq!(space.entry(), 0x4_2000);
    let code_leaf = leaf(&space, &mut mem, &mut alloc, 0x3_0000);
    // U | R | W | V
    assert_eq!(code_leaf.flags().bits(), 16 | 2 | 4 | 1);
}

#[test]
fn parts_with_bad_magic_or_an_unknown_type_are_refused() {
    let data = CODE.to_vec();
    let (mut mem, mut alloc) = setup(32);
    let good = vec![load_segment(SegmentKind::Load, 0x3_0000, 8)];
    assert!(MemorySpace::from_elf_parts(&data, &header([0x7f, b'E', b'L', b'G'], 1), &good, &mut mem, &mut alloc)
        .is_none());
    let bad = vec![load_segment(SegmentKind::Invalid, 0x3_0000, 8)];
    assert!(MemorySpace::from_elf_parts(&data, &header([0x7f, b'E', b'L', b'F'], 1), &bad, &mut mem, &mut alloc)
        .is_none());
    let past_the_image = vec![ProgramSegment { offset: 4, ..load_segment(SegmentKind::Load, 0x3_0000, 8) }];
    assert!(MemorySpace::from_elf_parts(
        &data,
        &header([0x7f, b'E', b'L', b'F'], 1),
        &past_the_image,
        &mut mem,
        &mut alloc
    )
    .is_none());
    assert_eq!(alloc.kalloc(&mut mem).0, 0x80000);
}

use rcore_mm::mm::address::{PhysAddr, PhysPageNum, VirtualAddr, VirtualPageNum};

#[test]
fn virtual_floor_ceil_and_offset() {
    let va = VirtualAddr(0x1234);
    assert_eq!(va.floor().0, 1);
    assert_eq!(va.ceil().0, 2);
    assert_eq!(va.page_offset(), 0x234);
    assert_eq!(VirtualAddr(0x2000).ceil().0, 2);
    assert_eq!(VirtualAddr(0x2000).floor().0, 2);
}

#[test]
fn physical_floor_ceil_and_offset() {
    let pa = PhysAddr(0x8000_1010);
    assert_eq!(pa.floor().0, 0x80001);
    assert_eq!(pa.ceil().0, 0x80002);
    assert_eq!(pa.page_offset(), 0x10);
    assert_eq!(PhysAddr(0x10).offset(-0x10).0, 0);
    assert_eq!(PhysAddr(0x10).offset(0x20).0, 0x30);
}

#[test]
fn signed_offset_wraps_like_twos_complement() {
    let top = VirtualAddr(0xFFFF_FFFF_FFFF_F000);
    assert_eq!(top.offset(0x10).0, 0xFFFF_FFFF_FFFF_F010);
    assert_eq!(top.offset(-0x1000).0, 0xFFFF_FFFF_FFFF_E000);
}

#[test]
fn page_address_round_trip() {
    for n in [0u64, 1, 0x80200, 0x3FF_FFFF] {
        let addr: PhysAddr = PhysAddr::from(PhysPageNum(n));
        assert_eq!(addr.0, n * 4096);
        let back: PhysPageNum = PhysPageNum::from(addr);
        assert_eq!(back.0, n);
        assert_eq!(addr.page_offset(), 0);
    }
}

#[test]
fn upper_half_pages_are_sign_extended() {
    let top: VirtualAddr = VirtualAddr::from(VirtualPageNum::highest_page());
    assert_eq!(VirtualPageNum::highest_page().0, 0x7FF_FFFF);
    assert_eq!(top.0, 0xFFFF_FFFF_FFFF_F000);
    let low_upper: VirtualAddr = VirtualAddr::from(VirtualPageNum(0x400_0000));
    assert_eq!(low_upper.0, 0xFFFF_FFC0_0000_0000);
}

#[test]
fn page_number_from_address_truncates() {
    let p: VirtualPageNum = VirtualPageNum::from(VirtualAddr(0x5FFF));
    assert_eq!(p.0, 5);
    // a number converts to the page that holds that address
    let q: PhysPageNum = PhysPageNum::from(0x7123u64);
    assert_eq!(q.0, 7);
    let v: VirtualAddr = VirtualAddr::from(0x42u64);
    assert_eq!(v.0, 0x42);
}

#[test]
fn vpn_blocks_select_nine_bit_indices() {
    let vpn = VirtualPageNum((3 << 18) | (5 << 9) | 7);
    assert_eq!(vpn.vpn_block_sv39(0), 7);
    assert_eq!(vpn.vpn_block_sv39(1), 5);
    assert_eq!(vpn.vpn_block_sv39(2), 3);
    assert_eq!(VirtualPageNum(0x7FF_FFFF).vpn_block_sv39(2), 511);
}

#[test]
fn page_offsets_give_addresses() {
    assert_eq!(PhysPageNum(0x80200).offset(8).0, 0x8020_0008);
    assert_eq!(PhysPageNum(2).offset_in_page(0xFFF).0, 0x2FFF);
    assert_eq!(VirtualPageNum(1).offset(4).0, 0x1004);
    assert_eq!(VirtualPageNum(0x7FF_FFFE).offset(0).0, 0xFFFF_FFFF_FFFF_E000);
}

#[test]
fn ceil_of_the_last_whole_page_start_does_not_overflow() {
    assert_eq!(VirtualAddr(u64::MAX - 4095).ceil().0, u64::MAX / 4096);
    assert_eq!(PhysAddr(u64::MAX - 4095).ceil().0, u64::MAX / 4096);
    assert_eq!(VirtualAddr(u64::MAX - 4096 - 4095).ceil().0, u64::MAX / 4096 - 1);
    assert_eq!(VirtualAddr(u64::MAX - 4096 - 4094).ceil().0, u64::MAX / 4096);
}

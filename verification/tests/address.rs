use rcore_os::address::{PhysPageNum, VirtAddr, VirtPageNum, PAGE_SIZE};

#[test]
fn indexes_split_page_number_into_nine_bit_fields() {
    let vpn = VirtPageNum((3 << 18) | (5 << 9) | 7);
    assert_eq!(vpn.indexes(), [3, 5, 7]);
    let high = VirtPageNum(0x7ff_ffff);
    assert_eq!(high.indexes(), [511, 511, 511]);
}

#[test]
fn indexes_ignore_bits_above_twenty_seven() {
    let vpn = VirtPageNum((1 << 27) | 0x123);
    assert_eq!(vpn.indexes(), VirtPageNum(0x123).indexes());
}

#[test]
fn phys_page_number_keeps_low_44_bits() {
    assert_eq!(PhysPageNum::from_word(0x1234), PhysPageNum(0x1234));
    assert_eq!(PhysPageNum::from_word((1 << 44) | 5), PhysPageNum(5));
}

#[test]
fn virt_addr_floor_offset_and_step() {
    let va = VirtAddr::from_word(0x1234_5678);
    assert_eq!(va.floor(), VirtPageNum(0x12345));
    assert_eq!(va.page_offset(), 0x678);
    let mut vpn = va.floor();
    vpn.step();
    assert_eq!(vpn.to_virt_addr(), VirtAddr(0x12346 * PAGE_SIZE));
}

#[test]
fn virt_addr_keeps_low_39_bits() {
    assert_eq!(VirtAddr::from_word(1 << 39), VirtAddr(0));
    assert_eq!(VirtAddr::from_word((1 << 39) + 8), VirtAddr(8));
}

#[test]
fn virt_addr_to_word_sign_extends_upper_half() {
    assert_eq!(VirtAddr(0x1000).to_word(), 0x1000);
    assert_eq!(VirtAddr(1 << 38).to_word(), 0xffff_ffc0_0000_0000);
    assert_eq!(VirtAddr(0x7f_ffff_f000).to_word(), 0xffff_ffff_ffff_f000);
}

#[test]
fn virt_addr_min() {
    assert_eq!(VirtAddr(3).min(VirtAddr(5)), VirtAddr(3));
    assert_eq!(VirtAddr(9).min(VirtAddr(5)), VirtAddr(5));
}

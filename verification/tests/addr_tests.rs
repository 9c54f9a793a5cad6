use cinnamos_kernel::addr::{PAddr, VAddr, PAGE_SIZE};
use cinnamos_kernel::sv48::PageLevel;

#[test]
fn paddr_parts_round_trip() {
    let pa = PAddr::from_parts([1, 2, 3, 4], 0x123);
    assert_eq!(pa.addr(), (4u64 << 39) | (3u64 << 30) | (2u64 << 21) | (1u64 << 12) | 0x123);
    assert_eq!(pa.ppn(), [1, 2, 3, 4]);
    assert_eq!(pa.ppn_all(), pa.addr() / PAGE_SIZE);
}

#[test]
fn paddr_parts_keep_low_bits_only() {
    let pa = PAddr::from_parts([0x1ff, 0, 0, 0], 0x1fff);
    assert_eq!(pa.addr(), (0x1ffu64 << 12) | 0xfff);
}

#[test]
fn vaddr_parts_and_numbers() {
    let va = VAddr::from_parts([5, 6, 7, 8], 0xabc);
    assert_eq!(va.vpn(), [5, 6, 7, 8]);
    assert_eq!(va.addr() & 0xfff, 0xabc);
    assert_eq!(va.vpn_all(), va.addr() / PAGE_SIZE);
}

#[test]
fn alignment_of_addresses() {
    let pa = PAddr::new(0x1234_5678);
    assert_eq!(pa.align_down(0x1000).addr(), 0x1234_5000);
    assert_eq!(pa.align_up(0x1000).addr(), 0x1234_6000);
    assert_eq!(pa.align_to_page().addr(), 0x1234_5000);
    assert_eq!(pa.align_to_next_page().addr(), 0x1234_6000);
    let aligned = PAddr::new(0x2000);
    assert_eq!(aligned.align_up(0x1000).addr(), 0x2000);
    assert_eq!(aligned.align_to_next_page().addr(), 0x2000);
    let va = VAddr::new(0x20_1001);
    assert_eq!(va.align_down(0x20_0000).addr(), 0x20_0000);
    assert_eq!(va.align_up(0x20_0000).addr(), 0x40_0000);
    assert_eq!(va.align_to_page().addr(), 0x20_1000);
    assert_eq!(va.align_to_next_page().addr(), 0x20_2000);
}

#[test]
fn identity_keeps_the_address() {
    assert_eq!(VAddr::identity(PAddr::new(0x8020_0000)).addr(), 0x8020_0000);
}

#[test]
fn compute_phys_adds_the_offset_within_the_level() {
    let pa = PAddr::new(0x8020_0000);
    let va = VAddr::new(0xffff_ffc0_0012_3456);
    assert_eq!(pa.compute_phys(&va, None).addr(), 0x8020_0456);
    assert_eq!(pa.compute_phys(&va, Some(PageLevel::Page4K)).addr(), 0x8020_0456);
    assert_eq!(pa.compute_phys(&va, Some(PageLevel::Megapage2M)).addr(), 0x8032_3456);
    assert_eq!(pa.compute_phys(&va, Some(PageLevel::Gigapage1G)).addr(), 0x8012_3456);
}

#[test]
fn addition_wraps() {
    assert_eq!((PAddr::new(0x1000) + 0x234).addr(), 0x1234);
    assert_eq!((VAddr::new(u64::MAX) + 1).addr(), 0);
}

#[test]
fn subtraction_wraps() {
    assert_eq!((PAddr::new(0x1234) - 0x234).addr(), 0x1000);
    assert_eq!(PAddr::new(0x3000) - PAddr::new(0x1000), 0x2000);
    assert_eq!(PAddr::new(0x1000) - PAddr::new(0x3000), 0u64.wrapping_sub(0x2000));
    assert_eq!((VAddr::new(0) - 1).addr(), u64::MAX);
    assert_eq!(VAddr::new(0x5000) - VAddr::new(0x1000), 0x4000);
}

#[test]
fn addresses_are_rebuilt_from_their_parts() {
    for a in [0u64, 0x1000, 0x7f_1234_5678, 0xffff_ffff_ffff] {
        let va = VAddr::new(a);
        let vpn = va.vpn();
        assert_eq!(VAddr::from_parts(vpn, a % 0x1000).addr(), a);
        let pa = PAddr::new(a);
        let ppn = pa.ppn();
        assert_eq!(PAddr::from_parts(ppn, a % 0x1000).addr(), a);
    }
}

#[test]
fn aligning_up_reaches_the_last_page() {
    let top = u64::MAX - 0xfff;
    assert_eq!(PAddr::new(top).align_to_next_page().addr(), top);
    assert_eq!(VAddr::new(top).align_to_next_page().addr(), top);
    assert_eq!(PAddr::new(top - 5).align_up(PAGE_SIZE).addr(), top);
    assert_eq!(VAddr::new(top - 0xfff).align_up(0x1000).addr(), top);
}

use cinnamos_kernel::addr::{PAddr, VAddr};
use cinnamos_kernel::sv48::{PTEFlags, PageLevel, PTE};

#[test]
fn fit_level_picks_the_largest_fitting_level() {
    let va = VAddr::new(0x4000_0000);
    let pa = PAddr::new(0x8000_0000);
    assert_eq!(PageLevel::fit_level(va, pa, 0x4000_0000), Some(PageLevel::Gigapage1G));
    assert_eq!(PageLevel::fit_level(va, pa, 0x40_0000), Some(PageLevel::Megapage2M));
    assert_eq!(PageLevel::fit_level(va, pa, 0x10), Some(PageLevel::Page4K));
    assert_eq!(PageLevel::fit_level(VAddr::new(0x1000), pa, 0x4000_0000), Some(PageLevel::Page4K));
    assert_eq!(PageLevel::fit_level(VAddr::new(0x1001), pa, 0x1000), None);
}

#[test]
fn level_sizes_and_alignment() {
    assert_eq!(PageLevel::Page4K.size(), 0x1000);
    assert_eq!(PageLevel::Megapage2M.size(), 0x20_0000);
    assert_eq!(PageLevel::Gigapage1G.size(), 0x4000_0000);
    assert_eq!(PageLevel::Terapage512G.size(), 0x80_0000_0000);
    assert_eq!(PageLevel::Gigapage1G.level(), 2);
    assert_eq!(PageLevel::from_index(1), PageLevel::Megapage2M);
    assert!(PageLevel::Megapage2M.is_aligned(0x40_0000));
    assert!(!PageLevel::Megapage2M.is_aligned(0x40_1000));
}

#[test]
fn flag_operations() {
    let rw = PTEFlags::from_bits_retain(PTEFlags::RW);
    let r = PTEFlags::from_bits_retain(PTEFlags::READ);
    assert!(rw.contains(r));
    assert!(!r.contains(rw));
    assert!(rw.intersects(r));
    assert_eq!(rw.union(PTEFlags::from_bits_retain(PTEFlags::EXECUTE)).bits(), PTEFlags::RWX);
    assert_eq!(rw.intersection(r).bits(), PTEFlags::READ);
    let with_state = PTEFlags::from_bits_retain(PTEFlags::RW | PTEFlags::VALID | PTEFlags::DIRTY);
    assert_eq!(with_state.get_mask().bits(), PTEFlags::RW);
    assert!(with_state.matches(&rw));
    assert!(!with_state.matches(&r));
}

#[test]
fn entry_fields() {
    let e = PTE::new(PAddr::new(0x8020_0000), PTEFlags::from_bits_retain(PTEFlags::VALID | PTEFlags::RW));
    assert_eq!(e.phys_addr().addr(), 0x8020_0000);
    assert_eq!(e.flags().bits(), PTEFlags::VALID | PTEFlags::RW);
    assert!(e.is_valid());
    assert!(e.is_leaf());
    let empty = PTE::empty();
    assert!(!empty.is_valid());
}

#[test]
fn entry_updates() {
    let mut e = PTE::empty();
    e.set_table(PAddr::new(0x9000_0000));
    assert!(e.is_valid());
    assert!(!e.is_leaf());
    assert_eq!(e.phys_addr().addr(), 0x9000_0000);
    e.set_leaf(PAddr::new(0x20_0000), PageLevel::Megapage2M, PTEFlags::from_bits_retain(PTEFlags::RX));
    assert!(e.is_leaf());
    assert_eq!(e.phys_addr().addr(), 0x20_0000);
    e.clear();
    assert!(!e.is_valid());
    assert_eq!(e.0, 0);
}

#[test]
fn entry_sign_extends_high_addresses() {
    let e = PTE::new(PAddr::new(0x80_0000_0000_0000), PTEFlags::from_bits_retain(PTEFlags::VALID));
    assert_eq!(e.phys_addr().addr(), 0xff80_0000_0000_0000);
    let f = PTE::new(PAddr::new(0x7f_ffff_ffff_f000), PTEFlags::from_bits_retain(PTEFlags::VALID));
    assert_eq!(f.phys_addr().addr(), 0x7f_ffff_ffff_f000);
}

#[test]
fn select_size_picks_the_largest_aligned_level_spanning_the_size() {
    let zero_v = VAddr::new(0);
    let zero_p = PAddr::new(0);
    assert_eq!(PageLevel::select_size(zero_v, zero_p, 0x1000), Some(PageLevel::Terapage512G));
    let va = VAddr::new(0x4020_0000);
    let pa = PAddr::new(0x8020_0000);
    assert_eq!(PageLevel::select_size(va, pa, 0x1000), Some(PageLevel::Megapage2M));
    assert_eq!(PageLevel::select_size(va, pa, 0x20_0000), Some(PageLevel::Megapage2M));
    assert_eq!(PageLevel::select_size(va, pa, 0x20_0001), None);
    assert_eq!(PageLevel::select_size(VAddr::new(0x1001), pa, 0x10), None);
}

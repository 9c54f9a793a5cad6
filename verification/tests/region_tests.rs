use cinnamos_kernel::addr::PAddr;
use cinnamos_kernel::devicetree::{flatten_reserved, slice_regions, DeviceTreeRegions};
use cinnamos_kernel::region::{slice_usable_region, sort_regions, MemoryRegion, RegionSubtract, SizedMemoryRegion};

fn reg(base: u64, size: u64) -> SizedMemoryRegion {
    SizedMemoryRegion::new_unchecked(PAddr::new(base), size)
}

fn spans(v: &[SizedMemoryRegion]) -> Vec<(u64, u64)> {
    v.iter().map(|r| (r.start().addr(), r.size())).collect()
}

#[test]
fn memory_region_accessors() {
    let r = MemoryRegion::new(PAddr::new(0x1000), Some(0x2000));
    assert_eq!(r.start().addr(), 0x1000);
    assert_eq!(r.size(), Some(0x2000));
    assert_eq!(r.end(), Some(PAddr::new(0x3000)));
    assert_eq!(MemoryRegion::new(PAddr::new(0x1000), None).end(), Some(PAddr::new(0x1000)));
}

#[test]
fn sized_region_constructors() {
    assert!(SizedMemoryRegion::new(PAddr::new(0x1000), None).is_none());
    assert!(SizedMemoryRegion::new(PAddr::new(0x1000), Some(0)).is_none());
    let r = SizedMemoryRegion::new(PAddr::new(0x1000), Some(0x10)).unwrap();
    assert_eq!(r.end().addr(), 0x1010);
    let q = SizedMemoryRegion::from_range(PAddr::new(0x1000), PAddr::new(0x3000)).unwrap();
    assert_eq!((q.start().addr(), q.size()), (0x1000, 0x2000));
    assert!(SizedMemoryRegion::from_range(PAddr::new(0x3000), PAddr::new(0x3000)).is_none());
    assert!(SizedMemoryRegion::from_range(PAddr::new(0x3000), PAddr::new(0x1000)).is_none());
}

#[test]
fn subtract_each_case() {
    let a = reg(0x1000, 0x4000);
    match a.subtract(&reg(0x2000, 0x1000)) {
        RegionSubtract::Both(l, r) => {
            assert_eq!(spans(&[l, r]), vec![(0x1000, 0x1000), (0x3000, 0x2000)]);
        }
        other => panic!("unexpected {:?}", other),
    }
    assert!(matches!(a.subtract(&reg(0x0, 0x8000)), RegionSubtract::NoRemainder));
    assert!(matches!(a.subtract(&reg(0x1000, 0x4000)), RegionSubtract::NoRemainder));
    match a.subtract(&reg(0x4000, 0x4000)) {
        RegionSubtract::Left(l) => assert_eq!(spans(&[l]), vec![(0x1000, 0x3000)]),
        other => panic!("unexpected {:?}", other),
    }
    match a.subtract(&reg(0x0, 0x2000)) {
        RegionSubtract::Right(r) => assert_eq!(spans(&[r]), vec![(0x2000, 0x3000)]),
        other => panic!("unexpected {:?}", other),
    }
    assert!(matches!(a.subtract(&reg(0x5000, 0x1000)), RegionSubtract::Nonoverlapping));
}

#[test]
fn intersection_is_symmetric() {
    let a = reg(0x1000, 0x1000);
    assert!(a.intersects(&reg(0x1fff, 1)));
    assert!(reg(0x1fff, 1).intersects(&a));
    assert!(!a.intersects(&reg(0x2000, 0x1000)));
    assert!(!reg(0x2000, 0x1000).intersects(&a));
}

#[test]
fn sort_orders_by_base_then_size() {
    let mut v = vec![reg(0x3000, 0x10), reg(0x1000, 0x20), reg(0x1000, 0x10)];
    sort_regions(&mut v);
    assert_eq!(spans(&v), vec![(0x1000, 0x10), (0x1000, 0x20), (0x3000, 0x10)]);
}

#[test]
fn slice_cuts_reserved_regions_out() {
    let rsv = vec![reg(0x2000, 0x1000), reg(0x5000, 0x1000)];
    let mut out = Vec::new();
    slice_usable_region(reg(0x1000, 0x8000), &rsv, &mut out);
    assert_eq!(spans(&out), vec![(0x1000, 0x1000), (0x3000, 0x2000), (0x6000, 0x3000)]);
}

#[test]
fn slice_stops_at_a_covering_reservation() {
    let rsv = vec![reg(0x0, 0x2000), reg(0x3000, 0x8000)];
    let mut out = Vec::new();
    slice_usable_region(reg(0x1000, 0x4000), &rsv, &mut out);
    assert_eq!(spans(&out), vec![(0x2000, 0x1000)]);
}

#[test]
fn devicetree_regions_are_sliced_and_reserved_sorted() {
    let dt = DeviceTreeRegions {
        reservations: vec![(0x8800_0000, 0x1000), (0x8900_0000, 0)],
        reserved: vec![(0x8000_0000, Some(0x20_0000)), (0x8a00_0000, None)],
        memory: vec![(0x8000_0000, Some(0x1000_0000)), (0x1_0000_0000, Some(0))],
    };
    let (usable, rsv) = slice_regions(&dt, vec![reg(0x8020_0000, 0x10_0000)]);
    assert_eq!(spans(&rsv), vec![(0x8000_0000, 0x20_0000), (0x8020_0000, 0x10_0000), (0x8800_0000, 0x1000)]);
    assert_eq!(spans(&usable), vec![(0x8030_0000, 0x7d0_0000), (0x8800_1000, 0x7ff_f000)]);
}

#[test]
fn usable_slices_are_disjoint() {
    let dt = DeviceTreeRegions {
        reservations: vec![(0x1800, 0x100)],
        reserved: vec![],
        memory: vec![(0x1000, Some(0x1000)), (0x4000, Some(0x1000))],
    };
    let (usable, rsv) = slice_regions(&dt, vec![reg(0x4800, 0x10)]);
    let all = spans(&usable);
    for (i, a) in all.iter().enumerate() {
        for b in all.iter().skip(i + 1) {
            assert!(a.0 + a.1 <= b.0 || b.0 + b.1 <= a.0);
        }
        for r in spans(&rsv) {
            assert!(a.0 + a.1 <= r.0 || r.0 + r.1 <= a.0);
        }
    }
    assert_eq!(all.len(), 4);
}

#[test]
fn reserved_children_without_reg_are_skipped() {
    let children = vec![Some(vec![(0x10, Some(0x10))]), None, Some(vec![(0x40, None), (0x80, Some(0x8))])];
    assert_eq!(flatten_reserved(&children), vec![(0x10, Some(0x10)), (0x40, None), (0x80, Some(0x8))]);
}

use cinnamos_kernel::addr::PAddr;
use cinnamos_kernel::bump::{alloc_frame, get_bump_area, phys_alloc, BumpAllocator, PhysFrameAlloc};

fn bump() -> BumpAllocator {
    BumpAllocator::new(PAddr::new(0x8100_0000), PAddr::new(0x8100_4000))
}

#[test]
fn frames_are_handed_out_in_order() {
    let mut b = bump();
    let f = b.alloc_frame(1).unwrap();
    assert_eq!(f.start_addr().addr(), 0x8100_0000);
    assert_eq!(f.end_addr().addr(), 0x8100_1000);
    assert_eq!(f.frame_count(), 1);
    assert_eq!(f.size(), 0x1000);
    let g = b.alloc_frame(2).unwrap();
    assert_eq!(g.start_addr().addr(), 0x8100_1000);
    assert!(f.end_addr().addr() <= g.start_addr().addr());
    let (start, next, end) = b.area();
    assert_eq!((start.addr(), next.addr(), end.addr()), (0x8100_0000, 0x8100_3000, 0x8100_4000));
}

#[test]
fn zero_frames_are_refused() {
    let mut b = bump();
    assert!(b.alloc_frame(0).is_none());
    assert_eq!(get_bump_area(&b).1.addr(), 0x8100_0000);
}

#[test]
fn frames_beyond_the_end_are_refused() {
    let mut b = bump();
    assert!(alloc_frame(&mut b, 5).is_none());
    assert!(alloc_frame(&mut b, 4).is_some());
    assert!(alloc_frame(&mut b, 1).is_none());
}

#[test]
fn oversized_layouts_are_refused() {
    let mut b = BumpAllocator::new(PAddr::new(0x1000), PAddr::new(u64::MAX));
    assert!(b.alloc_frame(0x8_0000_0000_0000).is_none());
    assert_eq!(b.area().1.addr(), 0x1000);
}

#[test]
fn unaligned_start_rounds_up_to_a_page() {
    let mut b = BumpAllocator::new(PAddr::new(0x8100_0010), PAddr::new(0x8100_4000));
    let f = b.alloc_frame(1).unwrap();
    assert_eq!(f.start_addr().addr(), 0x8100_1000);
}

#[test]
fn generalized_allocation_wraps_a_bump_frame() {
    let mut b = bump();
    let a = phys_alloc(&mut b, 2).unwrap();
    assert_eq!(a.start_addr().addr(), 0x8100_0000);
    assert_eq!(a.size(), 0x2000);
    assert!(phys_alloc(&mut b, 3).is_none());
}

#[test]
fn the_bump_head_only_grows_within_the_area() {
    let mut b = BumpAllocator::new(PAddr::new(0x8000_0800), PAddr::new(0x8000_4000));
    let (s1, n1, e1) = get_bump_area(&b);
    let f = b.alloc_frame(1).unwrap();
    assert!(f.start_addr().addr() >= n1.addr() && f.end_addr().addr() <= e1.addr());
    let (s2, n2, e2) = get_bump_area(&b);
    assert_eq!((s2, e2), (s1, e1));
    assert!(s1.addr() <= n1.addr() && n1.addr() <= n2.addr() && n2.addr() <= e1.addr());
    assert!(b.alloc_frame(3).is_none());
    assert_eq!(get_bump_area(&b).1, n2);
}

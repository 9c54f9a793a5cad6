//! A bump allocator of physical frames and heap slots, and the frame allocations it hands out.
use vstd::prelude::*;

use crate::addr::{align_up_spec, PAddr, PAGE_SIZE};
use crate::region::{apart, Span};

verus! {

/// The largest size of a memory layout (`isize::MAX` on a 64-bit target).
pub const LAYOUT_SIZE_MAX: u64 = 0x7fff_ffff_ffff_ffff;

/// A trait for physical frame allocations.
pub trait PhysFrameAlloc {
    /// The base address of the allocation.
    spec fn start_spec(&self) -> u64;

    /// The number of frames of the allocation.
    spec fn count_spec(&self) -> u64;

    /// The base address of the allocated physical region.
    fn start_addr(&self) -> (r: PAddr)
        ensures
            r@ == self.start_spec(),
    ;

    /// The end address of the allocated physical region.
    fn end_addr(&self) -> (r: PAddr)
        ensures
            r@ == self.start_spec() + self.count_spec() * PAGE_SIZE,
    ;

    /// The number of physical frames reserved for this allocation.
    fn frame_count(&self) -> (r: u64)
        ensures
            r == self.count_spec(),
            r > 0,
    ;

    /// The size of the allocated region, in bytes.
    fn size(&self) -> (r: u64)
        ensures
            r == self.count_spec() * PAGE_SIZE,
    ;
}

/// A frame allocation from the bump space.
#[derive(Debug)]
pub struct BumpFrameAlloc {
    start: PAddr,
    count: u64,
}

impl BumpFrameAlloc {
    /// An allocation holds at least one frame and ends within the address space.
    #[verifier::type_invariant]
    spec fn frames_fit(self) -> bool {
        &&& self.count > 0
        &&& self.start@ + self.count * PAGE_SIZE <= u64::MAX
    }
}

impl PhysFrameAlloc for BumpFrameAlloc {
    closed spec fn start_spec(&self) -> u64 {
        self.start@
    }

    closed spec fn count_spec(&self) -> u64 {
        self.count
    }

    fn start_addr(&self) -> (r: PAddr) {
        self.start
    }

    fn end_addr(&self) -> (r: PAddr) {
        proof {
            use_type_invariant(self);
        }
        PAddr::new(self.start.addr() + self.count * PAGE_SIZE)
    }

    fn frame_count(&self) -> (r: u64) {
        proof {
            use_type_invariant(self);
        }
        self.count
    }

    fn size(&self) -> (r: u64) {
        proof {
            use_type_invariant(self);
        }
        self.count * PAGE_SIZE
    }
}

/// A simple bump allocator that always grows, up to a maximum boundary.
///
/// The bump allocator cannot allocate the same memory location twice during its lifetime, and
/// any allocations will stay valid for the rest of the kernel's life even after the allocator
/// is retired.
#[derive(Debug)]
pub struct BumpAllocator {
    start: PAddr,
    end: PAddr,
    next: u64,
}

/// An allocation `region` made by moving the bump pointer from `before` to `after`.
pub open spec fn bump_step(before: u64, region: Span, after: u64) -> bool {
    before <= region.0 && region.0 + region.1 == after
}

impl BumpAllocator {
    /// The start of the bump space.
    pub closed spec fn start_spec(&self) -> u64 {
        self.start@
    }

    /// The end of the bump space.
    pub closed spec fn end_spec(&self) -> u64 {
        self.end@
    }

    /// The address from which the next allocation is made.
    pub closed spec fn next_spec(&self) -> u64 {
        self.next
    }

    /// The bump pointer stays within the bump space.
    pub open spec fn wf(&self) -> bool {
        self.start_spec() <= self.next_spec() <= self.end_spec()
    }

    /// Creates a new bump allocator for the physical address range from `start` up to `end`.
    ///
    /// The range must encompass a valid, read-writable memory space, and `start` must align to
    /// a page boundary.
    pub fn new(start: PAddr, end: PAddr) -> (r: Self)
        requires
            start@ < end@,
        ensures
            r.wf(),
            r.start_spec() == start@,
            r.end_spec() == end@,
            r.next_spec() == start@,
    {
        BumpAllocator { start, end, next: start.addr() }
    }

    /// Allocates a slot of `size` bytes aligned to `align`, or [`None`] if such a slot cannot be
    /// reserved. The slot starts at the bump pointer rounded up to `align`; an aligned address
    /// beyond the address space fails the allocation.
    fn alloc_slot(&mut self, size: u64, align: u64) -> (r: Option<PAddr>)
        requires
            old(self).wf(),
            align > 0,
        ensures
            final(self).wf(),
            final(self).start_spec() == old(self).start_spec(),
            final(self).end_spec() == old(self).end_spec(),
            r is Some <==> align_up_spec(old(self).next_spec() as int, align as int) + size
                <= old(self).end_spec(),
            r matches Some(p) ==> p@ == align_up_spec(old(self).next_spec() as int, align as int)
                && final(self).next_spec() == p@ + size,
            r is None ==> final(self).next_spec() == old(self).next_spec(),
    {
        let head = self.next;
        let rem = head % align;
        let alloc = if rem == 0 {
            head
        } else {
            match head.checked_add(align - rem) {
                Some(a) => a,
                None => {
                    return None;
                },
            }
        };
        let next = match alloc.checked_add(size) {
            Some(n) => n,
            None => {
                return None;
            },
        };
        if next > self.end.addr() {
            return None;
        }
        self.next = next;
        Some(PAddr::new(alloc))
    }

    /// Allocates `count` physical frames, or [`None`] if `count` is zero, the frames do not form
    /// a valid memory layout, or they do not fit in what is left of the bump space.
    pub fn alloc_frame(&mut self, count: u64) -> (r: Option<BumpFrameAlloc>)
        requires
            old(self).wf(),
            count * PAGE_SIZE <= u64::MAX,
        ensures
            final(self).wf(),
            final(self).start_spec() == old(self).start_spec(),
            final(self).end_spec() == old(self).end_spec(),
            r is Some <==> count > 0 && count * PAGE_SIZE <= LAYOUT_SIZE_MAX && align_up_spec(
                old(self).next_spec() as int,
                PAGE_SIZE as int,
            ) + count * PAGE_SIZE <= old(self).end_spec(),
            r matches Some(f) ==> f.start_spec() == align_up_spec(
                old(self).next_spec() as int,
                PAGE_SIZE as int,
            ) && f.count_spec() == count && final(self).next_spec() == f.start_spec() + count
                * PAGE_SIZE,
            r is None ==> final(self).next_spec() == old(self).next_spec(),
            old(self).next_spec() <= final(self).next_spec(),
            r matches Some(f) ==> old(self).next_spec() <= f.start_spec() && f.start_spec()
                + f.count_spec() * PAGE_SIZE <= old(self).end_spec(),
    {
        if count == 0 {
            return None;
        }
        let size = count * PAGE_SIZE;
        // A page-aligned layout is valid when its size does not exceed `isize::MAX`.
        if size > LAYOUT_SIZE_MAX {
            return None;
        }
        match self.alloc_slot(size, PAGE_SIZE) {
            Some(start) => Some(BumpFrameAlloc { start, count }),
            None => None,
        }
    }

    /// Returns `(start, next, end)` addresses of the bump area.
    pub fn area(&self) -> (r: (PAddr, PAddr, PAddr))
        ensures
            r.0@ == self.start_spec(),
            r.1@ == self.next_spec(),
            r.2@ == self.end_spec(),
    {
        (self.start, PAddr::new(self.next), self.end)
    }
}

/// Returns `(start, next, end)` addresses of the bump area of `bump`.
pub fn get_bump_area(bump: &BumpAllocator) -> (r: (PAddr, PAddr, PAddr))
    ensures
        r.0@ == bump.start_spec(),
        r.1@ == bump.next_spec(),
        r.2@ == bump.end_spec(),
{
    bump.area()
}

/// Allocates `count` physical frames from `bump`, as [`BumpAllocator::alloc_frame`] does.
pub fn alloc_frame(bump: &mut BumpAllocator, count: u64) -> (r: Option<BumpFrameAlloc>)
    requires
        old(bump).wf(),
        count * PAGE_SIZE <= u64::MAX,
    ensures
        final(bump).wf(),
        final(bump).start_spec() == old(bump).start_spec(),
        final(bump).end_spec() == old(bump).end_spec(),
        r is Some <==> count > 0 && count * PAGE_SIZE <= LAYOUT_SIZE_MAX && align_up_spec(
            old(bump).next_spec() as int,
            PAGE_SIZE as int,
        ) + count * PAGE_SIZE <= old(bump).end_spec(),
        r matches Some(f) ==> f.start_spec() == align_up_spec(
            old(bump).next_spec() as int,
            PAGE_SIZE as int,
        ) && f.count_spec() == count && final(bump).next_spec() == f.start_spec() + count
            * PAGE_SIZE,
        r is None ==> final(bump).next_spec() == old(bump).next_spec(),
        old(bump).next_spec() <= final(bump).next_spec(),
        r matches Some(f) ==> old(bump).next_spec() <= f.start_spec() && f.start_spec()
            + f.count_spec() * PAGE_SIZE <= old(bump).end_spec(),
{
    bump.alloc_frame(count)
}

/// Law: an allocation made before another shares no address with it, however many
/// allocations lie between them: the bump pointer only grows.
pub proof fn lemma_bump_no_reuse(n0: u64, first: Span, n1: u64, n2: u64, second: Span, n3: u64)
    requires
        bump_step(n0, first, n1),
        n1 <= n2,
        bump_step(n2, second, n3),
    ensures
        apart(first, second),
        n0 <= n3,
{
}

/// Law: the bump area of an allocator in use is ordered: it starts at or below the bump
/// pointer, which lies at or below its end. Allocations keep the start and the end, and only
/// move the bump pointer up (see [`BumpAllocator::alloc_frame`]).
pub proof fn lemma_bump_area_ordered(bump: &BumpAllocator)
    requires
        bump.wf(),
    ensures
        bump.start_spec() <= bump.next_spec() <= bump.end_spec(),
{
}

/// A generalized physical frame allocation.
#[derive(Debug)]
pub enum FrameAlloc {
    /// This allocation comes from the bump allocator.
    BumpAlloc(BumpFrameAlloc),
}

impl PhysFrameAlloc for FrameAlloc {
    open spec fn start_spec(&self) -> u64 {
        match self {
            FrameAlloc::BumpAlloc(a) => a.start_spec(),
        }
    }

    open spec fn count_spec(&self) -> u64 {
        match self {
            FrameAlloc::BumpAlloc(a) => a.count_spec(),
        }
    }

    fn start_addr(&self) -> (r: PAddr) {
        match self {
            FrameAlloc::BumpAlloc(a) => a.start_addr(),
        }
    }

    fn end_addr(&self) -> (r: PAddr) {
        match self {
            FrameAlloc::BumpAlloc(a) => a.end_addr(),
        }
    }

    fn frame_count(&self) -> (r: u64) {
        match self {
            FrameAlloc::BumpAlloc(a) => a.frame_count(),
        }
    }

    fn size(&self) -> (r: u64) {
        match self {
            FrameAlloc::BumpAlloc(a) => a.size(),
        }
    }
}

/// Requests a number of physical frames to be allocated from the bump space.
/// If allocation fails, this function returns [`None`].
pub fn phys_alloc(bump: &mut BumpAllocator, frame_count: u64) -> (r: Option<FrameAlloc>)
    requires
        old(bump).wf(),
        frame_count * PAGE_SIZE <= u64::MAX,
    ensures
        final(bump).wf(),
        r is Some <==> frame_count > 0 && frame_count * PAGE_SIZE <= LAYOUT_SIZE_MAX
            && align_up_spec(old(bump).next_spec() as int, PAGE_SIZE as int) + frame_count
            * PAGE_SIZE <= old(bump).end_spec(),
        r matches Some(f) ==> f.start_spec() == align_up_spec(
            old(bump).next_spec() as int,
            PAGE_SIZE as int,
        ) && f.count_spec() == frame_count,
        final(bump).start_spec() == old(bump).start_spec(),
        final(bump).end_spec() == old(bump).end_spec(),
        old(bump).next_spec() <= final(bump).next_spec(),
        r matches Some(f) ==> old(bump).next_spec() <= f.start_spec() && f.start_spec()
            + f.count_spec() * PAGE_SIZE <= old(bump).end_spec(),
{
    match bump.alloc_frame(frame_count) {
        Some(f) => Some(FrameAlloc::BumpAlloc(f)),
        None => None,
    }
}

} // verus!

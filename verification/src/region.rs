//! Physical memory regions, their subtraction, and the slicing of usable memory around
//! reserved regions.
use vstd::prelude::*;

use crate::addr::PAddr;

verus! {

/// The end of a region: its base plus its size, wrapping around the address space.
pub open spec fn end_of(base: u64, size: u64) -> u64 {
    vstd::wrapping::u64_specs::wrapping_add(base, size)
}

/// A physical region in memory with a base address and, optionally, a size.
#[derive(Clone, Copy, Debug)]
pub struct MemoryRegion {
    base: PAddr,
    size: Option<u64>,
}

impl MemoryRegion {
    /// The base address of the region.
    pub closed spec fn base_spec(&self) -> u64 {
        self.base@
    }

    /// The size of the region, if any.
    pub closed spec fn size_spec(&self) -> Option<u64> {
        self.size
    }

    /// Creates a new memory region.
    pub fn new(base: PAddr, size: Option<u64>) -> (r: Self)
        ensures
            r.base_spec() == base@,
            r.size_spec() == size,
    {
        MemoryRegion { base, size }
    }

    /// Gets the base address of the region.
    pub fn start(&self) -> (r: PAddr)
        ensures
            r@ == self.base_spec(),
    {
        self.base
    }

    /// Gets the size of the region, if any.
    pub fn size(&self) -> (r: Option<u64>)
        ensures
            r == self.size_spec(),
    {
        self.size
    }

    /// Gets the end address of the region: its base plus its size, or the base address
    /// itself when the region has no size.
    pub fn end(&self) -> (r: Option<PAddr>)
        ensures
            r matches Some(e) && e@ == match self.size_spec() {
                Some(s) => end_of(self.base_spec(), s),
                None => self.base_spec(),
            },
    {
        match self.size {
            Some(s) => Some(self.base + s),
            None => Some(self.base),
        }
    }
}

/// A physical region in memory with a base address and a non-zero size.
#[derive(Clone, Copy, PartialEq, Eq, Structural, Debug)]
pub struct SizedMemoryRegion {
    base: PAddr,
    size: u64,
}

/// The result of the subtraction between two sized regions.
#[derive(Clone, Copy, Debug)]
pub enum RegionSubtract {
    /// The subtraction produces no remainder region.
    ///
    /// This result is produced from `A - B` when `B` completely contains `A`.
    NoRemainder,
    /// The subtraction produces a left remainder region.
    ///
    /// This result is produced from `A - B` when the remainder lies below `B`.
    Left(SizedMemoryRegion),
    /// The subtraction produces a right remainder region.
    ///
    /// This result is produced from `A - B` when the remainder lies above `B`.
    Right(SizedMemoryRegion),
    /// The subtraction produces two remainder regions.
    ///
    /// This result is produced from `A - B` when `A` completely contains `B`,
    /// and the bounds of `B` does not touch the bounds of `A`.
    Both(SizedMemoryRegion, SizedMemoryRegion),
    /// The subtraction is performed between non-overlapping regions.
    ///
    /// This result is produced from `A - B` when `A` does not intersect with `B`.
    Nonoverlapping,
}

/// A region as plain values: base and size.
pub type Span = (u64, u64);

/// Which case the subtraction of region `b` from region `a` falls under: 0 for
/// [`RegionSubtract::Both`], 1 for [`RegionSubtract::NoRemainder`], 2 for [`RegionSubtract::Left`],
/// 3 for [`RegionSubtract::Right`], 4 for [`RegionSubtract::Nonoverlapping`].
pub open spec fn subtract_case(a: Span, b: Span) -> int {
    let (ab, ae, bb, be) = (a.0, end_of(a.0, a.1), b.0, end_of(b.0, b.1));
    if ab < bb && be < ae {
        0
    } else if ab >= bb && ae <= be {
        1
    } else if ab < bb && ae <= be && ae > bb {
        2
    } else if ab >= bb && ae > be && ab < be {
        3
    } else {
        4
    }
}

/// The remainder below `b` when it is cut out of `a`.
pub open spec fn left_rest(a: Span, b: Span) -> Span {
    (a.0, (b.0 - a.0) as u64)
}

/// The remainder above `b` when it is cut out of `a`.
pub open spec fn right_rest(a: Span, b: Span) -> Span {
    (end_of(b.0, b.1), (end_of(a.0, a.1) - end_of(b.0, b.1)) as u64)
}

/// Whether region `a` intersects region `b`, comparing their (wrapping) ends.
pub open spec fn intersects_spec(a: Span, b: Span) -> bool {
    (a.0 < end_of(b.0, b.1) && b.0 < end_of(a.0, a.1)) || (b.0 < end_of(a.0, a.1) && a.0 < end_of(
        b.0,
        b.1,
    ))
}

/// Whether the address `x` lies within a region that does not wrap around.
pub open spec fn in_span(s: Span, x: int) -> bool {
    s.0 <= x < s.0 + s.1
}

/// A region that does not wrap around the address space.
pub open spec fn no_wrap(s: Span) -> bool {
    s.0 + s.1 <= u64::MAX
}

impl SizedMemoryRegion {
    /// The region as plain values.
    pub closed spec fn span(&self) -> Span {
        (self.base@, self.size)
    }

    /// Creates a sized memory region from a given size.
    /// If `size` is [`None`] or `0`, the function returns [`None`].
    pub fn new(base: PAddr, size: Option<u64>) -> (r: Option<Self>)
        ensures
            r matches Some(x) ==> size == Some(x.span().1) && x.span().0 == base@ && x.span().1
                != 0,
            r is None <==> (size is None || size == Some(0u64)),
    {
        match size {
            Some(s) => {
                if s == 0 {
                    None
                } else {
                    Some(SizedMemoryRegion { base, size: s })
                }
            },
            None => None,
        }
    }

    /// Creates a sized memory region from a physical address range.
    /// Returns [`None`] if the range does not bound a positive-sized region.
    pub fn from_range(start: PAddr, end: PAddr) -> (r: Option<Self>)
        ensures
            r matches Some(x) ==> x.span() == (start@, (end@ - start@) as u64),
            r is None <==> end@ <= start@,
    {
        let size = if end.addr() >= start.addr() {
            Some(end.addr() - start.addr())
        } else {
            None
        };
        Self::new(start, size)
    }

    /// Creates a sized memory region from a raw, non-zero size.
    pub fn new_unchecked(base: PAddr, size: u64) -> (r: Self)
        requires
            size != 0,
        ensures
            r.span() == (base@, size),
    {
        SizedMemoryRegion { base, size }
    }

    /// The base address of the region.
    pub fn start(&self) -> (r: PAddr)
        ensures
            r@ == self.span().0,
    {
        self.base
    }

    /// The size of the region, in bytes.
    pub fn size(&self) -> (r: u64)
        ensures
            r == self.span().1,
    {
        self.size
    }

    /// Gets the end address of the region.
    pub fn end(&self) -> (r: PAddr)
        ensures
            r@ == end_of(self.span().0, self.span().1),
    {
        self.base + self.size
    }

    /// Subtracts `other` from this region.
    ///
    /// Specifically, this functions attempts to slice out a subregion within the region that
    /// intersects with `other`. Such an operation may possibly return two, one, or no remainder
    /// regions. See [`RegionSubtract`] for more details.
    pub fn subtract(&self, other: &Self) -> (r: RegionSubtract)
        ensures
            match r {
                RegionSubtract::Both(l, rr) => subtract_case(self.span(), other.span()) == 0
                    && l.span() == left_rest(self.span(), other.span()) && rr.span() == right_rest(
                    self.span(),
                    other.span(),
                ),
                RegionSubtract::NoRemainder => subtract_case(self.span(), other.span()) == 1,
                RegionSubtract::Left(l) => subtract_case(self.span(), other.span()) == 2
                    && l.span() == left_rest(self.span(), other.span()),
                RegionSubtract::Right(rr) => subtract_case(self.span(), other.span()) == 3
                    && rr.span() == right_rest(self.span(), other.span()),
                RegionSubtract::Nonoverlapping => subtract_case(self.span(), other.span()) == 4,
            },
    {
        let sb = self.base.addr();
        let se = self.end().addr();
        let ob = other.base.addr();
        let oe = other.end().addr();
        if sb < ob && oe < se {
            let left = Self::new_unchecked(self.base, ob - sb);
            let right = Self::new_unchecked(other.end(), se - oe);
            RegionSubtract::Both(left, right)
        } else if sb >= ob && se <= oe {
            RegionSubtract::NoRemainder
        } else if sb < ob && se <= oe && se > ob {
            RegionSubtract::Left(Self::new_unchecked(self.base, ob - sb))
        } else if sb >= ob && se > oe && sb < oe {
            RegionSubtract::Right(Self::new_unchecked(other.end(), se - oe))
        } else {
            RegionSubtract::Nonoverlapping
        }
    }

    /// Returns `true` if this region intersects with `other`.
    pub fn intersects(&self, other: &Self) -> (r: bool)
        ensures
            r == intersects_spec(self.span(), other.span()),
    {
        let sb = self.base.addr();
        let se = self.end().addr();
        let ob = other.base.addr();
        let oe = other.end().addr();
        (sb < oe && ob < se) || (ob < se && sb < oe)
    }
}

/// Law: for regions that do not wrap around, the remainders of a subtraction hold exactly
/// the addresses of the first region that are not in the second; and the regions intersect
/// exactly when the subtraction is not [`RegionSubtract::Nonoverlapping`].
pub proof fn lemma_subtract_sets(a: Span, b: Span, x: int)
    requires
        no_wrap(a),
        no_wrap(b),
        a.1 > 0,
        b.1 > 0,
    ensures
        intersects_spec(a, b) <==> subtract_case(a, b) != 4,
        subtract_case(a, b) == 0 ==> ((in_span(a, x) && !in_span(b, x)) <==> (in_span(
            left_rest(a, b),
            x,
        ) || in_span(right_rest(a, b), x))),
        subtract_case(a, b) == 1 ==> !(in_span(a, x) && !in_span(b, x)),
        subtract_case(a, b) == 2 ==> ((in_span(a, x) && !in_span(b, x)) <==> in_span(
            left_rest(a, b),
            x,
        )),
        subtract_case(a, b) == 3 ==> ((in_span(a, x) && !in_span(b, x)) <==> in_span(
            right_rest(a, b),
            x,
        )),
        subtract_case(a, b) == 4 ==> (in_span(a, x) ==> !in_span(b, x)),
        subtract_case(a, b) == 0 ==> left_rest(a, b).1 > 0 && right_rest(a, b).1 > 0,
        subtract_case(a, b) == 2 ==> left_rest(a, b).1 > 0,
        subtract_case(a, b) == 3 ==> right_rest(a, b).1 > 0,
{
}

/// Regions ordered by base address, then by size.
pub open spec fn span_le(a: Span, b: Span) -> bool {
    a.0 < b.0 || (a.0 == b.0 && a.1 <= b.1)
}

/// A sequence of regions sorted by base address, then by size.
pub open spec fn sorted_spans(s: Seq<Span>) -> bool {
    forall|i: int, j: int| 0 <= i < j < s.len() ==> span_le(#[trigger] s[i], #[trigger] s[j])
}

/// The regions of a sequence, as plain values.
pub open spec fn spans_of(v: Seq<SizedMemoryRegion>) -> Seq<Span> {
    v.map_values(|r: SizedMemoryRegion| r.span())
}

/// The usable remainders of `reg` once the reserved regions `rsv` from index `i` on are cut out
/// of it, in the order the slicing emits them.
pub open spec fn slice_from(reg: Span, rsv: Seq<Span>, i: int) -> Seq<Span>
    decreases rsv.len() - i,
{
    if i < 0 || i >= rsv.len() {
        seq![reg]
    } else {
        let r = rsv[i];
        if intersects_spec(reg, r) {
            let c = subtract_case(reg, r);
            if c == 1 {
                Seq::empty()
            } else if c == 2 {
                seq![left_rest(reg, r)]
            } else if c == 3 {
                slice_from(right_rest(reg, r), rsv, i + 1)
            } else if c == 0 {
                seq![left_rest(reg, r)] + slice_from(right_rest(reg, r), rsv, i + 1)
            } else {
                slice_from(reg, rsv, i + 1)
            }
        } else {
            slice_from(reg, rsv, i + 1)
        }
    }
}

/// Two regions that share no address.
pub open spec fn apart(a: Span, b: Span) -> bool {
    a.0 + a.1 <= b.0 || b.0 + b.1 <= a.0
}

/// Region `p` lies within region `r`.
pub open spec fn within(p: Span, r: Span) -> bool {
    r.0 <= p.0 && p.0 + p.1 <= r.0 + r.1
}

/// Non-empty regions that do not wrap around the address space.
pub open spec fn proper(s: Span) -> bool {
    no_wrap(s) && s.1 > 0
}

/// Regions that are apart have no address in common.
pub proof fn lemma_apart_addresses(a: Span, b: Span, x: int)
    requires
        apart(a, b),
    ensures
        !(in_span(a, x) && in_span(b, x)),
{
}

/// A region within another shares no address with what the outer one is apart from.
proof fn lemma_within_apart(p: Span, q: Span, x: Span)
    requires
        within(p, q),
        apart(q, x),
        p.1 > 0,
    ensures
        apart(p, x),
{
}

/// The slices of a usable region that start with the reserved region at index `i`, for
/// regions that are well-formed, satisfy the soundness properties.
pub open spec fn slices_sound(reg: Span, rs: Seq<Span>, s: Seq<Span>) -> bool {
    &&& forall|k: int| 0 <= k < s.len() ==> proper(#[trigger] s[k]) && within(s[k], reg)
    &&& forall|k: int, j: int|
        0 <= k < s.len() && 0 <= j < rs.len() ==> apart(#[trigger] s[k], #[trigger] rs[j])
    &&& forall|k: int, l: int| 0 <= k < l < s.len() ==> #[trigger] s[k].0 + s[k].1 <= #[trigger] s[l].0
}

/// Law: the slices of a usable region lie within it, share no address with any reserved
/// region, and come in increasing order without overlap, provided the reserved regions are
/// sorted and no region wraps around the address space.
pub proof fn lemma_slice_sound(reg: Span, rs: Seq<Span>, i: int)
    requires
        0 <= i <= rs.len(),
        sorted_spans(rs),
        forall|j: int| 0 <= j < rs.len() ==> proper(#[trigger] rs[j]),
        proper(reg),
        forall|j: int| 0 <= j < i ==> apart(reg, #[trigger] rs[j]),
    ensures
        slices_sound(reg, rs, slice_from(reg, rs, i)),
    decreases rs.len() - i,
{
    let all = slice_from(reg, rs, i);
    if i < rs.len() {
        let r = rs[i];
        lemma_subtract_sets(reg, r, 0);
        let c = subtract_case(reg, r);
        if intersects_spec(reg, r) && (c == 3 || c == 0) {
            let rr = right_rest(reg, r);
            assert forall|j: int| 0 <= j < i + 1 implies apart(rr, #[trigger] rs[j]) by {
                if j < i {
                    lemma_within_apart(rr, reg, rs[j]);
                }
            }
            lemma_slice_sound(rr, rs, i + 1);
            let rest = slice_from(rr, rs, i + 1);
            if c == 3 {
                assert(all == rest);
                assert forall|k: int| 0 <= k < all.len() implies proper(#[trigger] all[k])
                    && within(all[k], reg) by {
                    assert(within(rest[k], rr));
                }
            } else {
                let l = left_rest(reg, r);
                assert(all =~= seq![l] + rest);
                assert forall|j: int| 0 <= j < rs.len() implies apart(l, #[trigger] rs[j]) by {
                    if j < i {
                        lemma_within_apart(l, reg, rs[j]);
                    } else if j > i {
                        assert(span_le(rs[i], rs[j]));
                    }
                }
                assert forall|k: int| 0 <= k < all.len() implies proper(#[trigger] all[k])
                    && within(all[k], reg) by {
                    if k > 0 {
                        assert(all[k] == rest[k - 1]);
                        assert(within(rest[k - 1], rr));
                    }
                }
                assert forall|k: int, j: int|
                    0 <= k < all.len() && 0 <= j < rs.len() implies apart(
                    #[trigger] all[k],
                    #[trigger] rs[j],
                ) by {
                    if k > 0 {
                        assert(all[k] == rest[k - 1]);
                    }
                }
                assert forall|k: int, m: int| 0 <= k < m < all.len() implies #[trigger] all[k].0
                    + all[k].1 <= #[trigger] all[m].0 by {
                    assert(all[m] == rest[m - 1]);
                    assert(within(rest[m - 1], rr));
                    if k > 0 {
                        assert(all[k] == rest[k - 1]);
                    }
                }
            }
        } else if intersects_spec(reg, r) && c == 2 {
            let l = left_rest(reg, r);
            assert forall|j: int| 0 <= j < rs.len() implies apart(l, #[trigger] rs[j]) by {
                if j < i {
                    lemma_within_apart(l, reg, rs[j]);
                } else if j > i {
                    assert(span_le(rs[i], rs[j]));
                }
            }
            assert(all =~= seq![l]);
        } else if intersects_spec(reg, r) {
            assert(all =~= Seq::<Span>::empty());
        } else {
            assert forall|j: int| 0 <= j < i + 1 implies apart(reg, #[trigger] rs[j]) by {
            }
            lemma_slice_sound(reg, rs, i + 1);
            assert(all == slice_from(reg, rs, i + 1));
        }
    } else {
        assert(all =~= seq![reg]);
    }
}

/// Sorts regions by base address, then by size.
pub fn sort_regions(v: &mut Vec<SizedMemoryRegion>)
    ensures
        sorted_spans(spans_of(final(v)@)),
        final(v)@.to_multiset() == old(v)@.to_multiset(),
        spans_of(final(v)@).to_multiset() == spans_of(old(v)@).to_multiset(),
        final(v)@.len() == old(v)@.len(),
{
    let mut out: Vec<SizedMemoryRegion> = Vec::with_capacity(v.len());
    let mut i: usize = 0;
    proof {
        assert(v@.subrange(0, 0) =~= out@);
        assert(spans_of(v@.subrange(0, 0)) =~= spans_of(out@));
    }
    while i < v.len()
        invariant
            i <= v.len(),
            v@ == old(v)@,
            sorted_spans(spans_of(out@)),
            out@.to_multiset() == v@.subrange(0, i as int).to_multiset(),
            spans_of(out@).to_multiset() == spans_of(v@.subrange(0, i as int)).to_multiset(),
            out@.len() == i,
        decreases v.len() - i,
    {
        let x = v[i];
        let xb = x.start().addr();
        let xs = x.size();
        let mut p: usize = 0;
        while p < out.len() && (out[p].start().addr() < xb || (out[p].start().addr() == xb
            && out[p].size() <= xs))
            invariant
                p <= out.len(),
                forall|k: int| 0 <= k < p ==> span_le(#[trigger] spans_of(out@)[k], x.span()),
                x.span() == (xb, xs),
            decreases out.len() - p,
        {
            p = p + 1;
        }
        proof {
            assert(p < out.len() ==> !span_le(spans_of(out@)[p as int], x.span()));
        }
        let ghost before = out@;
        out.insert(p, x);
        proof {
            vstd::seq_lib::to_multiset_insert(before, p as int, x);
            vstd::seq_lib::to_multiset_build(v@.subrange(0, i as int), x);
            assert(v@.subrange(0, i as int + 1) =~= v@.subrange(0, i as int).push(x));
            assert(spans_of(out@) =~= spans_of(before).insert(p as int, x.span()));
            vstd::seq_lib::to_multiset_insert(spans_of(before), p as int, x.span());
            vstd::seq_lib::to_multiset_build(spans_of(v@.subrange(0, i as int)), x.span());
            assert(spans_of(v@.subrange(0, i as int + 1)) =~= spans_of(v@.subrange(0, i as int)).push(
                x.span(),
            ));
            assert forall|a: int, b: int| 0 <= a < b < out@.len() implies span_le(
                #[trigger] spans_of(out@)[a],
                #[trigger] spans_of(out@)[b],
            ) by {
                if a < p && b == p {
                } else if a == p && b > p {
                    if b - 1 > p {
                        assert(span_le(spans_of(before)[p as int], spans_of(before)[b - 1]));
                    }
                } else if a < p && b > p {
                    assert(span_le(spans_of(before)[a], spans_of(before)[b - 1]));
                } else if a > p {
                    assert(span_le(spans_of(before)[a - 1], spans_of(before)[b - 1]));
                } else {
                    assert(span_le(spans_of(before)[a], spans_of(before)[b]));
                }
            }
        }
        i = i + 1;
    }
    proof {
        assert(v@.subrange(0, v@.len() as int) =~= v@);
    }
    *v = out;
}

/// Cuts the reserved regions `rsv`, taken in order, out of `reg` and appends the usable
/// remainders to `out`.
pub fn slice_usable_region(
    reg: SizedMemoryRegion,
    rsv: &Vec<SizedMemoryRegion>,
    out: &mut Vec<SizedMemoryRegion>,
)
    ensures
        spans_of(final(out)@) == spans_of(old(out)@) + slice_from(reg.span(), spans_of(rsv@), 0),
{
    let ghost rs = spans_of(rsv@);
    let ghost out0 = spans_of(out@);
    let mut cur_reg = reg;
    let ghost reg0 = reg.span();
    let mut i: usize = 0;
    while i < rsv.len()
        invariant
            i <= rsv.len(),
            rs == spans_of(rsv@),
            out0 == spans_of(old(out)@),
            reg0 == reg.span(),
            spans_of(out@) + slice_from(cur_reg.span(), rs, i as int) == out0 + slice_from(
                reg0,
                rs,
                0,
            ),
        decreases rsv.len() - i,
    {
        let r = rsv[i];
        assert(r.span() == rs[i as int]);
        let ghost cur = spans_of(out@);
        if cur_reg.intersects(&r) {
            match cur_reg.subtract(&r) {
                RegionSubtract::NoRemainder => {
                    proof {
                        assert(slice_from(cur_reg.span(), rs, i as int) =~= Seq::<Span>::empty());
                        assert(cur + Seq::<Span>::empty() =~= cur);
                    }
                    return ;
                },
                RegionSubtract::Left(reg_l) => {
                    out.push(reg_l);
                    proof {
                        assert(slice_from(cur_reg.span(), rs, i as int) =~= seq![reg_l.span()]);
                        assert(spans_of(out@) =~= cur + seq![reg_l.span()]);
                    }
                    return ;
                },
                RegionSubtract::Right(reg_r) => {
                    cur_reg = reg_r;
                },
                RegionSubtract::Both(reg_l, reg_r) => {
                    out.push(reg_l);
                    proof {
                        assert(spans_of(out@) =~= cur + seq![reg_l.span()]);
                        assert(cur + (seq![reg_l.span()] + slice_from(reg_r.span(), rs, i + 1)) =~= (
                        cur + seq![reg_l.span()]) + slice_from(reg_r.span(), rs, i + 1));
                    }
                    cur_reg = reg_r;
                },
                RegionSubtract::Nonoverlapping => {},
            }
        }
        i = i + 1;
    }
    let ghost cur = spans_of(out@);
    out.push(cur_reg);
    proof {
        assert(spans_of(out@) =~= cur + seq![cur_reg.span()]);
    }
}

} // verus!

//! The usable and reserved memory regions that a devicetree describes.
use vstd::prelude::*;

use crate::addr::PAddr;
use crate::blob::blob_ok;
use crate::region::{
    apart, lemma_slice_sound, proper, slice_from, slice_usable_region, slices_sound, sort_regions,
    sorted_spans, spans_of, within, SizedMemoryRegion, Span,
};

verus! {

/// What the region slicing reads of a devicetree, as plain values: the entries of the memory
/// reservation block (address, size), the `reg` entries of the children of `/reserved-memory`
/// (address, optional size), and the `reg` entries of the `/memory` node.
pub struct DeviceTreeRegions {
    pub reservations: Vec<(u64, u64)>,
    pub reserved: Vec<(u64, Option<u64>)>,
    pub memory: Vec<(u64, Option<u64>)>,
}

/// The regions of a list of `reg` entries that have a non-zero size, in order.
pub open spec fn sized_spans(v: Seq<(u64, Option<u64>)>) -> Seq<Span>
    decreases v.len(),
{
    if v.len() == 0 {
        Seq::empty()
    } else {
        let (a, s) = v.last();
        sized_spans(v.drop_last()) + match s {
            Some(n) => if n != 0 {
                seq![(a, n)]
            } else {
                Seq::empty()
            },
            None => Seq::empty(),
        }
    }
}

/// The memory reservations as `reg` entries.
pub open spec fn reservation_entries(v: Seq<(u64, u64)>) -> Seq<(u64, Option<u64>)> {
    v.map_values(|e: (u64, u64)| (e.0, Some(e.1)))
}

/// Every reserved region: the reservation block, then the additional regions, then the
/// children of `/reserved-memory`.
pub open spec fn reserved_spans(
    reservations: Seq<(u64, u64)>,
    add_rsv: Seq<SizedMemoryRegion>,
    reserved: Seq<(u64, Option<u64>)>,
) -> Seq<Span> {
    sized_spans(reservation_entries(reservations)) + spans_of(add_rsv) + sized_spans(reserved)
}

/// The usable slices of the memory regions `mem`, region by region, once the reserved regions
/// `rs` are cut out of each.
pub open spec fn slices_of(mem: Seq<Span>, rs: Seq<Span>) -> Seq<Span>
    decreases mem.len(),
{
    if mem.len() == 0 {
        Seq::empty()
    } else {
        slices_of(mem.drop_last(), rs) + slice_from(mem.last(), rs, 0)
    }
}

/// The `reg` entries of the `/reserved-memory` children that have one, in order.
pub open spec fn flatten_regs(v: Seq<Option<Seq<(u64, Option<u64>)>>>) -> Seq<(u64, Option<u64>)>
    decreases v.len(),
{
    if v.len() == 0 {
        Seq::empty()
    } else {
        flatten_regs(v.drop_last()) + match v.last() {
            Some(rs) => rs,
            None => Seq::empty(),
        }
    }
}

/// Lists of `reg` entries, each taken by its view.
pub open spec fn regs_views(v: Seq<Option<Vec<(u64, Option<u64>)>>>) -> Seq<
    Option<Seq<(u64, Option<u64>)>>,
> {
    v.map_values(
        |c: Option<Vec<(u64, Option<u64>)>>|
            match c {
                Some(rs) => Some(rs@),
                None => None,
            },
    )
}

/// The entries of a `reg` list that may be missing, as a (possibly empty) list.
pub open spec fn entries_of(o: Option<Seq<(u64, Option<u64>)>>) -> Seq<(u64, Option<u64>)> {
    match o {
        Some(s) => s,
        None => Seq::empty(),
    }
}

/// Appends the sized regions of a list of `reg` entries to `out`.
fn push_sized(entries: &Vec<(u64, Option<u64>)>, out: &mut Vec<SizedMemoryRegion>)
    ensures
        spans_of(final(out)@) == spans_of(old(out)@) + sized_spans(entries@),
{
    let mut i: usize = 0;
    proof {
        assert(entries@.subrange(0, 0) =~= Seq::<(u64, Option<u64>)>::empty());
        assert(spans_of(out@) + Seq::<Span>::empty() =~= spans_of(out@));
    }
    while i < entries.len()
        invariant
            i <= entries.len(),
            spans_of(out@) == spans_of(old(out)@) + sized_spans(entries@.subrange(0, i as int)),
        decreases entries.len() - i,
    {
        let (a, s) = entries[i];
        let ghost before = spans_of(out@);
        proof {
            let sub = entries@.subrange(0, i as int + 1);
            assert(sub.drop_last() =~= entries@.subrange(0, i as int));
            assert(sub.last() == (a, s));
        }
        match SizedMemoryRegion::new(PAddr::new(a), s) {
            Some(r) => {
                out.push(r);
                proof {
                    assert(spans_of(out@) =~= before + seq![r.span()]);
                }
            },
            None => {
                proof {
                    assert(before + Seq::<Span>::empty() =~= before);
                }
            },
        }
        i = i + 1;
    }
    proof {
        assert(entries@.subrange(0, entries@.len() as int) =~= entries@);
    }
}

/// Collects the usable and reserved regions that `dt` describes. The caller provides
/// additional reserved regions `add_rsv` that are cut out of the usable regions as well.
///
/// Returns the usable region slices, memory node by memory node, and the reserved regions,
/// sorted by base address, then by size. A reservation entry of size zero reserves nothing.
pub fn slice_regions(dt: &DeviceTreeRegions, add_rsv: Vec<SizedMemoryRegion>) -> (r: (
    Vec<SizedMemoryRegion>,
    Vec<SizedMemoryRegion>,
))
    ensures
        sorted_spans(spans_of(r.1@)),
        spans_of(r.1@).to_multiset() == reserved_spans(
            dt.reservations@,
            add_rsv@,
            dt.reserved@,
        ).to_multiset(),
        spans_of(r.0@) == slices_of(sized_spans(dt.memory@), spans_of(r.1@)),
{
    let mut rsv_regs: Vec<SizedMemoryRegion> = Vec::new();
    let mut i: usize = 0;
    proof {
        assert(reservation_entries(dt.reservations@).subrange(0, 0) =~= Seq::<
            (u64, Option<u64>),
        >::empty());
    }
    while i < dt.reservations.len()
        invariant
            i <= dt.reservations.len(),
            spans_of(rsv_regs@) == sized_spans(
                reservation_entries(dt.reservations@).subrange(0, i as int),
            ),
        decreases dt.reservations.len() - i,
    {
        let (a, s) = dt.reservations[i];
        let ghost before = spans_of(rsv_regs@);
        proof {
            let sub = reservation_entries(dt.reservations@).subrange(0, i as int + 1);
            assert(sub.drop_last() =~= reservation_entries(dt.reservations@).subrange(
                0,
                i as int,
            ));
            assert(sub.last() == (a, Some(s)));
        }
        if s != 0 {
            rsv_regs.push(SizedMemoryRegion::new_unchecked(PAddr::new(a), s));
            proof {
                assert(spans_of(rsv_regs@) =~= before + seq![(a, s)]);
            }
        } else {
            proof {
                assert(before + Seq::<Span>::empty() =~= before);
            }
        }
        i = i + 1;
    }
    proof {
        assert(reservation_entries(dt.reservations@).subrange(
            0,
            dt.reservations@.len() as int,
        ) =~= reservation_entries(dt.reservations@));
    }
    let ghost after_res = spans_of(rsv_regs@);
    let mut j: usize = 0;
    while j < add_rsv.len()
        invariant
            j <= add_rsv.len(),
            spans_of(rsv_regs@) == after_res + spans_of(add_rsv@.subrange(0, j as int)),
        decreases add_rsv.len() - j,
    {
        let ghost before = spans_of(rsv_regs@);
        rsv_regs.push(add_rsv[j]);
        proof {
            assert(spans_of(add_rsv@.subrange(0, j as int + 1)) =~= spans_of(
                add_rsv@.subrange(0, j as int),
            ).push(add_rsv@[j as int].span()));
            assert(spans_of(rsv_regs@) =~= before.push(add_rsv@[j as int].span()));
        }
        j = j + 1;
    }
    proof {
        assert(add_rsv@.subrange(0, add_rsv@.len() as int) =~= add_rsv@);
    }
    push_sized(&dt.reserved, &mut rsv_regs);
    proof {
        assert(spans_of(rsv_regs@) =~= reserved_spans(dt.reservations@, add_rsv@, dt.reserved@));
    }
    sort_regions(&mut rsv_regs);
    let mut usable_regs: Vec<SizedMemoryRegion> = Vec::new();
    let mut k: usize = 0;
    let ghost rs = spans_of(rsv_regs@);
    proof {
        assert(dt.memory@.subrange(0, 0) =~= Seq::<(u64, Option<u64>)>::empty());
        assert(spans_of(usable_regs@) =~= Seq::<Span>::empty());
    }
    while k < dt.memory.len()
        invariant
            k <= dt.memory.len(),
            rs == spans_of(rsv_regs@),
            spans_of(usable_regs@) == slices_of(sized_spans(dt.memory@.subrange(0, k as int)), rs),
        decreases dt.memory.len() - k,
    {
        let (a, s) = dt.memory[k];
        let ghost prev = dt.memory@.subrange(0, k as int);
        proof {
            let sub = dt.memory@.subrange(0, k as int + 1);
            assert(sub.drop_last() =~= prev);
            assert(sub.last() == (a, s));
        }
        match SizedMemoryRegion::new(PAddr::new(a), s) {
            Some(m) => {
                slice_usable_region(m, &rsv_regs, &mut usable_regs);
                proof {
                    let ms = sized_spans(dt.memory@.subrange(0, k as int + 1));
                    assert(ms =~= sized_spans(prev).push(m.span()));
                    assert(ms.drop_last() =~= sized_spans(prev));
                }
            },
            None => {
                proof {
                    assert(sized_spans(dt.memory@.subrange(0, k as int + 1)) =~= sized_spans(
                        prev,
                    ));
                }
            },
        }
        k = k + 1;
    }
    proof {
        assert(dt.memory@.subrange(0, dt.memory@.len() as int) =~= dt.memory@);
    }
    (usable_regs, rsv_regs)
}

/// What `fdt::Fdt::memory_reservations` yields for a blob: the entries of its memory
/// reservation block (address, size), up to the terminating entry.
pub uninterp spec fn dt_reservations(blob: Seq<u8>) -> Seq<(u64, u64)>;

/// What `fdt::Fdt::find_node("/reserved-memory")` with `fdt::node::FdtNode::children` and
/// `fdt::node::FdtNode::reg` yield for a blob: for each child of `/reserved-memory`, its `reg`
/// entries (address, optional size), or `None` where its `reg` cannot be read; empty where
/// there is no such node.
pub uninterp spec fn dt_reserved_children(blob: Seq<u8>) -> Seq<Option<Seq<(u64, Option<u64>)>>>;

/// What `fdt::Fdt::find_node("/memory")` with `fdt::node::FdtNode::reg` yields for a blob: the
/// `reg` entries of the `/memory` node, or `None` where there is no such node or its `reg`
/// cannot be read.
pub uninterp spec fn dt_memory(blob: Seq<u8>) -> Option<Seq<(u64, Option<u64>)>>;

/// Reads the entries of the memory reservation block of `blob`, through `fdt::Fdt::new` and
/// `fdt::Fdt::memory_reservations`. The result is named, as a function of the blob alone.
/// On a blob of the structure [`blob_ok`] describes the header is whole and the reservation
/// block starts within the blob, so that neither call panics.
#[verifier::external_body]
fn fdt_memory_reservations(blob: &[u8]) -> (r: Vec<(u64, u64)>)
    requires
        blob_ok(blob@),
    ensures
        r@ == dt_reservations(blob@),
{
    match fdt::Fdt::new(blob) {
        Ok(fdt) => fdt.memory_reservations().map(|r| (r.address() as usize as u64, r.size() as u64)).collect(),
        Err(_) => Vec::new(),
    }
}

/// Reads the `reg` entries of each child of `/reserved-memory` in `blob`, through
/// `fdt::Fdt::new`, `fdt::Fdt::find_node`, `fdt::node::FdtNode::children` and
/// `fdt::node::FdtNode::reg`. The result is named, as a function of the blob alone. On a blob
/// of the structure [`blob_ok`] every node, property and name these calls walk lies within its
/// block, so that none of them panics.
#[verifier::external_body]
fn fdt_reserved_memory(blob: &[u8]) -> (r: Vec<Option<Vec<(u64, Option<u64>)>>>)
    requires
        blob_ok(blob@),
    ensures
        regs_views(r@) == dt_reserved_children(blob@),
{
    let fdt = match fdt::Fdt::new(blob) {
        Ok(f) => f,
        Err(_) => return Vec::new(),
    };
    match fdt.find_node("/reserved-memory") {
        Some(rsv) => rsv.children().map(|n| n.reg().map(|rs| rs.map(|r| (
            r.starting_address as usize as u64,
            r.size.map(|z| z as u64),
        )).collect())).collect(),
        None => Vec::new(),
    }
}

/// Reads the `reg` entries of the `/memory` node of `blob`, through `fdt::Fdt::new`,
/// `fdt::Fdt::find_node` and `fdt::node::FdtNode::reg`. The result is named, as a function of
/// the blob alone. On a blob of the structure [`blob_ok`] neither call panics.
#[verifier::external_body]
fn fdt_memory_regions(blob: &[u8]) -> (r: Option<Vec<(u64, Option<u64>)>>)
    requires
        blob_ok(blob@),
    ensures
        match r {
            Some(v) => dt_memory(blob@) == Some(v@),
            None => dt_memory(blob@) is None,
        },
{
    let fdt = match fdt::Fdt::new(blob) {
        Ok(f) => f,
        Err(_) => return None,
    };
    fdt.find_node("/memory").and_then(|n| n.reg()).map(|rs| rs.map(|r| (
        r.starting_address as usize as u64,
        r.size.map(|z| z as u64),
    )).collect())
}

/// The `reg` entries of the children of `/reserved-memory`, in order, skipping the children
/// whose `reg` could not be read.
pub fn flatten_reserved(children: &Vec<Option<Vec<(u64, Option<u64>)>>>) -> (r: Vec<
    (u64, Option<u64>),
>)
    ensures
        r@ == flatten_regs(regs_views(children@)),
{
    let ghost all = regs_views(children@);
    let mut reserved: Vec<(u64, Option<u64>)> = Vec::new();
    let mut i: usize = 0;
    proof {
        assert(all.subrange(0, 0) =~= Seq::<Option<Seq<(u64, Option<u64>)>>>::empty());
    }
    while i < children.len()
        invariant
            i <= children.len(),
            all == regs_views(children@),
            reserved@ == flatten_regs(all.subrange(0, i as int)),
        decreases children.len() - i,
    {
        let ghost before = reserved@;
        proof {
            let sub = all.subrange(0, i as int + 1);
            assert(sub.drop_last() =~= all.subrange(0, i as int));
            assert(sub.last() == all[i as int]);
        }
        match &children[i] {
            Some(regs) => {
                let mut j: usize = 0;
                while j < regs.len()
                    invariant
                        j <= regs.len(),
                        reserved@ == before + regs@.subrange(0, j as int),
                    decreases regs.len() - j,
                {
                    reserved.push(regs[j]);
                    proof {
                        assert(regs@.subrange(0, j as int + 1) =~= regs@.subrange(0, j as int).push(
                            regs@[j as int],
                        ));
                    }
                    j = j + 1;
                }
                proof {
                    assert(regs@.subrange(0, regs@.len() as int) =~= regs@);
                }
            },
            None => {
                proof {
                    assert(before + Seq::<(u64, Option<u64>)>::empty() =~= before);
                }
            },
        }
        i = i + 1;
    }
    proof {
        assert(all.subrange(0, all.len() as int) =~= all);
    }
    reserved
}

/// Reads the regions that a devicetree blob describes. A devicetree without a readable
/// `/memory` node describes no memory.
fn read_regions(blob: &[u8]) -> (r: DeviceTreeRegions)
    requires
        blob_ok(blob@),
    ensures
        r.reservations@ == dt_reservations(blob@),
        r.reserved@ == flatten_regs(dt_reserved_children(blob@)),
        r.memory@ == entries_of(dt_memory(blob@)),
{
    let reservations = fdt_memory_reservations(blob);
    let children = fdt_reserved_memory(blob);
    let reserved = flatten_reserved(&children);
    let memory = match fdt_memory_regions(blob) {
        Some(m) => m,
        None => Vec::new(),
    };
    DeviceTreeRegions { reservations, reserved, memory }
}

/// Collects all usable and reserved region slices defined in the devicetree blob. The caller
/// can provide additional reserved regions for the purpose of usable region slicing. The blob
/// must be of the structure that [`blob_ok`] describes ([`crate::blob::check_blob`] tells).
///
/// The reserved regions are the entries of the reservation block and of the children of
/// `/reserved-memory` that have a size, with `add_rsv`, sorted; the usable regions are the
/// entries of `/memory`, sliced around them (see [`slice_regions`]). The usable regions are
/// disjoint wherever the memory regions are (see [`lemma_region_slices_disjoint`]).
pub fn get_region_slices(blob: &[u8], add_rsv: Vec<SizedMemoryRegion>) -> (r: (
    Vec<SizedMemoryRegion>,
    Vec<SizedMemoryRegion>,
))
    requires
        blob_ok(blob@),
    ensures
        sorted_spans(spans_of(r.1@)),
        spans_of(r.1@).to_multiset() == reserved_spans(
            dt_reservations(blob@),
            add_rsv@,
            flatten_regs(dt_reserved_children(blob@)),
        ).to_multiset(),
        spans_of(r.0@) == slices_of(sized_spans(entries_of(dt_memory(blob@))), spans_of(r.1@)),
{
    let dt = read_regions(blob);
    slice_regions(&dt, add_rsv)
}

/// Every slice of the memory regions `mem` shares no address with a region `q` that shares
/// none with any of the memory regions.
proof fn lemma_slices_apart_from(mem: Seq<Span>, rs: Seq<Span>, q: Span)
    requires
        sorted_spans(rs),
        forall|j: int| 0 <= j < rs.len() ==> proper(#[trigger] rs[j]),
        forall|t: int| 0 <= t < mem.len() ==> proper(#[trigger] mem[t]),
        forall|t: int| 0 <= t < mem.len() ==> apart(#[trigger] mem[t], q),
    ensures
        forall|k: int| 0 <= k < slices_of(mem, rs).len() ==> apart(#[trigger] slices_of(mem, rs)[k], q),
    decreases mem.len(),
{
    if mem.len() > 0 {
        let p = mem.drop_last();
        let m = mem.last();
        lemma_slices_apart_from(p, rs, q);
        lemma_slice_sound(m, rs, 0);
        let a = slices_of(p, rs);
        let t = slice_from(m, rs, 0);
        let all = slices_of(mem, rs);
        assert(all == a + t);
        assert forall|k: int| 0 <= k < all.len() implies apart(#[trigger] all[k], q) by {
            if k < a.len() {
                assert(all[k] == a[k]);
            } else {
                assert(all[k] == t[k - a.len()]);
                assert(within(t[k - a.len()], m));
                assert(proper(t[k - a.len()]));
            }
        }
    }
}

/// Law: the usable slices of memory regions that share no address with each other share no
/// address with each other, nor with any reserved region; each lies within a memory region.
/// Regions may not wrap around the address space, and the reserved regions are sorted, as
/// [`slice_regions`] leaves them.
pub proof fn lemma_region_slices_disjoint(mem: Seq<Span>, rs: Seq<Span>)
    requires
        sorted_spans(rs),
        forall|j: int| 0 <= j < rs.len() ==> proper(#[trigger] rs[j]),
        forall|t: int| 0 <= t < mem.len() ==> proper(#[trigger] mem[t]),
        forall|t: int, u: int| 0 <= t < u < mem.len() ==> apart(#[trigger] mem[t], #[trigger] mem[u]),
    ensures
        forall|k: int, l: int|
            0 <= k < l < slices_of(mem, rs).len() ==> apart(
                #[trigger] slices_of(mem, rs)[k],
                #[trigger] slices_of(mem, rs)[l],
            ),
        forall|k: int, j: int|
            0 <= k < slices_of(mem, rs).len() && 0 <= j < rs.len() ==> apart(
                #[trigger] slices_of(mem, rs)[k],
                #[trigger] rs[j],
            ),
        forall|k: int|
            0 <= k < slices_of(mem, rs).len() ==> proper(#[trigger] slices_of(mem, rs)[k]),
    decreases mem.len(),
{
    if mem.len() > 0 {
        let p = mem.drop_last();
        let m = mem.last();
        lemma_region_slices_disjoint(p, rs);
        lemma_slice_sound(m, rs, 0);
        let a = slices_of(p, rs);
        let t = slice_from(m, rs, 0);
        let all = slices_of(mem, rs);
        assert(all == a + t);
        assert forall|k: int| 0 <= k < all.len() implies proper(#[trigger] all[k]) by {
            if k < a.len() {
                assert(all[k] == a[k]);
            } else {
                assert(all[k] == t[k - a.len()]);
            }
        }
        assert forall|k: int, j: int| 0 <= k < all.len() && 0 <= j < rs.len() implies apart(
            #[trigger] all[k],
            #[trigger] rs[j],
        ) by {
            if k < a.len() {
                assert(all[k] == a[k]);
            } else {
                assert(all[k] == t[k - a.len()]);
            }
        }
        assert forall|k: int, l: int| 0 <= k < l < all.len() implies apart(
            #[trigger] all[k],
            #[trigger] all[l],
        ) by {
            if l < a.len() {
                assert(all[k] == a[k]);
                assert(all[l] == a[l]);
            } else if k >= a.len() {
                assert(all[k] == t[k - a.len()]);
                assert(all[l] == t[l - a.len()]);
            } else {
                let q = t[l - a.len()];
                assert(all[k] == a[k]);
                assert(all[l] == q);
                assert forall|u: int| 0 <= u < p.len() implies apart(#[trigger] p[u], q) by {
                    assert(mem[u] == p[u]);
                    assert(apart(mem[u], mem[mem.len() - 1]));
                    assert(within(q, m));
                }
                lemma_slices_apart_from(p, rs, q);
            }
        }
    }
}

} // verus!

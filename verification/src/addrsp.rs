//! Address spaces: a root page table and the tables below it, with methods to map and unmap
//! regions within.
use vstd::prelude::*;

use crate::addr::{PAGE_SIZE, PAddr, VAddr, page_number};
use crate::bump::{FrameAlloc, PhysFrameAlloc};
use crate::paging::{
    MapError, MapProbe, TableMemory, UnmapError, clear_from, entry_addr_limit, grows,
    lemma_clear_leaf_last, lemma_compute_phys_aligned, lemma_grows_unmap_walk, lemma_leaf_translation,
    lemma_probe_above_leaf, lemma_probe_leaf,
    keeps_clear, lemma_clear_keeps_untranslated, lemma_distinct_blocks, lemma_finer_page,
    lemma_matching_flags, lemma_probe_clear, map_probe, readable_leaf,
    lemma_grows_refl, lemma_grows_trans, lemma_same_block, lemma_unmap_translate,
    lemma_unmap_walk_cleared, lemma_unmap_walk_leaf, lemma_unmap_walk_shared, translate_from,
    lemma_clear_keeps_walk, lemma_probe_free_bound, leaf_written, last_slot_written,
    unmap_walk,
};
use crate::sv48::{
    PTEFlags, PageLevel, level_at, level_index, level_size, pte_flag_bits, pte_phys, fit_level_spec,
    size_at,
};

verus! {

/// Represents possible errors that may arise from [`AddressSpace`] operations.
#[derive(Clone, Copy, PartialEq, Eq, Structural, Debug)]
#[allow(inconsistent_fields)]
pub enum AddressSpaceError {
    /// A mapping is attempted between a virtual and physical page of mismatched sizes.
    MismatchedSize,
    /// The virtual or physical address is not aligned to page boundaries.
    AddressMisaligned(VAddr, PAddr),
    /// A virtual address is already mapped to a different physical address.
    MappedDifferentAddress { expected: PAddr, actual: PAddr },
    /// The virtual address is already mapped to the expected physical address,
    /// but under a different set of page flags.
    MappedDifferentFlags { expected: PTEFlags, actual: PTEFlags },
    /// An error happened during virtual mapping. The inner error is propagated.
    Mapping(MapError),
    /// An error happened during virtual unmapping. The inner error is propagated.
    Unmap(UnmapError),
}

/// The flags that page tables are mapped with allow reading and writing.
pub proof fn lemma_grw_leaf()
    ensures
        PTEFlags::GRW & PTEFlags::RWX != 0,
{
    assert(0x26u8 & 0x0eu8 != 0) by (bit_vector);
}

/// Adding two addresses aligned to a page, wrapping around, gives an address aligned to a page.
proof fn lemma_wrapping_aligned(a: u64, b: u64)
    requires
        a % PAGE_SIZE == 0,
        b % PAGE_SIZE == 0,
    ensures
        vstd::wrapping::u64_specs::wrapping_add(a, b) % PAGE_SIZE == 0,
{
    let s: int = a + b;
    assert(s % 0x1000 == 0) by (nonlinear_arith)
        requires
            a % 0x1000 == 0,
            b % 0x1000 == 0,
            s == a + b,
    ;
    assert((s - 0x1_0000_0000_0000_0000) % 0x1000 == 0) by (nonlinear_arith)
        requires
            s % 0x1000 == 0,
    ;
}

/// The facts every error of a mapping carries.
pub open spec fn map_error_facts(e: AddressSpaceError) -> bool {
    match e {
        AddressSpaceError::AddressMisaligned(va, pa) => va@ % PAGE_SIZE != 0 || pa@ % PAGE_SIZE != 0,
        AddressSpaceError::MappedDifferentAddress { expected, actual } => expected != actual,
        AddressSpaceError::MappedDifferentFlags { expected, actual } => expected.bits
            == expected.bits & PTEFlags::COMPARE_MASK && actual.bits == actual.bits
            & PTEFlags::COMPARE_MASK && expected != actual,
        AddressSpaceError::Mapping(MapError::AlreadyMapped(_, _, _)) => false,
        AddressSpaceError::Mapping(_) => true,
        _ => false,
    }
}

/// The walk of `v` from `root` ends at a leaf (of any level), whose page begins at `from` or
/// later and names an address below bit 48 aligned to that page.
pub open spec fn leaf_from(mem: &TableMemory, root: u64, v: u64, from: int) -> bool {
    match mem.index_of(root) {
        Some(t) => match unmap_walk(mem.base(), mem.count(), mem.cells(), t, v, 3) {
            Some(Ok((s, k))) => 0 <= k && (v as int / size_at(k) as int) * size_at(k) as int >= from
                && pte_phys(mem.cells()[s]) % size_at(k) == 0 && pte_phys(mem.cells()[s])
                < 0x1_0000_0000_0000,
            _ => false,
        },
        None => false,
    }
}

/// The ground a mapping finds at `v` from `root`, when it goes on from `from`: a clear walk (see
/// [`clear_from`]), or a leaf whose page begins at `from` or later.
pub open spec fn ground_ok(mem: &TableMemory, root: u64, v: u64, from: int) -> bool {
    mem.clear_walk(root, v) || leaf_from(mem, root, v, from)
}

/// A mapping of `size` bytes from `va` to `pa` with flag bits `f` into the tables of `mem` from
/// `root` starts on fresh ground: the flags make a translating leaf, both regions and the frames
/// of `mem` lie below bit 48 (the virtual one without wrapping), and every address of the region
/// has a clear walk (see [`clear_from`]) or maps through a leaf, of any level, whose page begins
/// within the region and names an address below bit 48 aligned to it. Such a leaf is what an
/// earlier mapping of the same region leaves; where it maps to the counterpart with matching
/// flags, the mapping skips it.
#[verifier::opaque]
pub open spec fn map_fresh(mem: &TableMemory, root: u64, va: u64, pa: u64, size: u64, f: u8) -> bool {
    &&& readable_leaf(f)
    &&& pa + size <= 0x1_0000_0000_0000
    &&& va + size <= 0x1_0000_0000_0000_0000
    &&& mem.base() + mem.capacity() * 0x1000 <= 0x1_0000_0000_0000
    &&& forall|v: u64| va <= v < va + size ==> #[trigger] ground_ok(mem, root, v, va as int)
}

/// Every address whose walk from `root` is clear in `m1` has a clear walk in `m2`.
#[verifier::opaque]
pub open spec fn keeps_clear_walks(m1: &TableMemory, m2: &TableMemory, root: u64) -> bool {
    forall|v: u64| m1.clear_walk(root, v) ==> #[trigger] m2.clear_walk(root, v)
}

/// The progress of a mapping on fresh ground from `va0` to `pa0` of `size` bytes, `done` bytes
/// in: the addresses before translate to their counterparts, those after are on fresh ground.
#[verifier::opaque]
pub open spec fn region_progress(
    mem: &TableMemory,
    root: u64,
    va0: u64,
    pa0: u64,
    size: u64,
    done: int,
) -> bool {
    &&& forall|v: u64|
        va0 <= v < va0 + done && v < va0 + size ==> #[trigger] mem.maps(root, v, pa0 + (v - va0))
    &&& forall|v: u64|
        va0 + done <= v < va0 + size ==> #[trigger] ground_ok(mem, root, v, va0 + done)
}

/// A large leaf at `v` past the chunk of level index `l` from `va`, whose page begins within the
/// chunk, is larger than the chunk and is the leaf `va` maps through too.
proof fn lemma_leaf_starts_chunk(mb: &TableMemory, root: u64, rt: int, va: u64, l: int, v: u64)
    requires
        mb.index_of(root) == Some(rt),
        0 <= l <= 3,
        va % size_at(l) == 0,
        leaf_from(mb, root, v, va as int),
        v >= va + size_at(l),
        ({
            let kv = unmap_walk(mb.base(), mb.count(), mb.cells(), rt, v, 3)->0->Ok_0.1;
            (v as int / size_at(kv) as int) * (size_at(kv) as int) < va + size_at(l)
        }),
    ensures
        ({
            let (sv, kv) = unmap_walk(mb.base(), mb.count(), mb.cells(), rt, v, 3)->0->Ok_0;
            &&& kv > l
            &&& unmap_walk(mb.base(), mb.count(), mb.cells(), rt, va, 3) == Some(
                Ok::<(int, int), ()>((sv, kv)),
            )
        }),
{
    let (sv, kv) = unmap_walk(mb.base(), mb.count(), mb.cells(), rt, v, 3)->0->Ok_0;
    lemma_unmap_walk_leaf(mb.base(), mb.count(), mb.cells(), rt, v, 3);
    lemma_leaf_past_chunk(v, kv, va, l);
    assert forall|j: int| kv <= j <= 3 implies page_number(va, j) == page_number(v, j) by {
        lemma_same_block(va, v, kv, j);
    }
    lemma_unmap_walk_shared(mb.base(), mb.count(), mb.cells(), rt, va, v, 3, sv, kv);
}

/// A large leaf stays where it is as the tables grow.
proof fn lemma_large_leaf_grows(m1: &TableMemory, m2: &TableMemory, root: u64, v: u64, from: int)
    requires
        m1.wf(),
        m2.wf(),
        m1.base() == m2.base(),
        m1.count() <= m2.count(),
        grows(m1.cells(), m2.cells()),
        m1.index_of(root) is Some,
        leaf_from(m1, root, v, from),
    ensures
        leaf_from(m2, root, v, from),
        m2.index_of(root) == m1.index_of(root),
        unmap_walk(m2.base(), m2.count(), m2.cells(), m2.index_of(root)->0, v, 3) == unmap_walk(
            m1.base(),
            m1.count(),
            m1.cells(),
            m1.index_of(root)->0,
            v,
            3,
        ),
{
    m1.lemma_count_bound();
    m2.lemma_count_bound();
    m1.lemma_index_grows(m2, root);
    let t = m1.index_of(root)->0;
    lemma_grows_unmap_walk(m1.base(), m1.count(), m1.cells(), m2.count(), m2.cells(), t, v, 3);
}

/// The page of a leaf of level index `kv` at `v` that begins within the chunk of level index `l`
/// from `a`, while `v` lies past the chunk, is larger than the chunk and begins with it.
proof fn lemma_leaf_past_chunk(v: u64, kv: int, a: u64, l: int)
    requires
        0 <= kv <= 3,
        0 <= l <= 3,
        a % size_at(l) == 0,
        (v as int / size_at(kv) as int) * size_at(kv) as int >= a,
        (v as int / size_at(kv) as int) * (size_at(kv) as int) < a + size_at(l),
        v >= a + size_at(l),
    ensures
        kv > l,
        (v as int / size_at(kv) as int) * size_at(kv) as int == a,
        v as int / size_at(kv) as int == a as int / size_at(kv) as int,
{
    let sv = size_at(kv) as int;
    let sl = size_at(l) as int;
    let q = v as int / sv;
    let b = q * sv;
    crate::sv48::lemma_size_pow2(kv);
    crate::sv48::lemma_size_pow2(l);
    vstd::arithmetic::div_mod::lemma_fundamental_div_mod(v as int, sv);
    vstd::arithmetic::div_mod::lemma_fundamental_div_mod(a as int, sl);
    let p = a as int / sl;
    if kv <= l {
        let c = size_ratio(kv, l);
        assert(sl == sv * c);
        let ap = p * c;
        assert(a as int == ap * sv) by (nonlinear_arith)
            requires
                a as int == sl * p,
                sl == sv * c,
                ap == p * c,
        ;
        assert(a + sl == (ap + c) * sv) by (nonlinear_arith)
            requires
                a as int == ap * sv,
                sl == sv * c,
        ;
        assert(q < ap + c) by (nonlinear_arith)
            requires
                b == q * sv,
                b < (ap + c) * sv,
                sv > 0,
        ;
        assert(b + sv <= a + sl) by (nonlinear_arith)
            requires
                b == q * sv,
                q + 1 <= ap + c,
                a + sl == (ap + c) * sv,
                sv > 0,
        ;
        assert(false);
    } else {
        let c = size_ratio(l, kv);
        assert(sv == sl * c);
        let qc = q * c;
        assert(b == qc * sl) by (nonlinear_arith)
            requires
                b == q * sv,
                sv == sl * c,
                qc == q * c,
        ;
        assert(p <= qc) by (nonlinear_arith)
            requires
                a as int == sl * p,
                b == qc * sl,
                a <= b,
                sl > 0,
        ;
        assert(qc < p + 1) by (nonlinear_arith)
            requires
                a as int == sl * p,
                b == qc * sl,
                b < a + sl,
                sl > 0,
        ;
        assert(b == a);
        vstd::arithmetic::div_mod::lemma_div_multiples_vanish(q, sv);
        assert(a as int / sv == q) by {
            assert(a as int == sv * q) by (nonlinear_arith)
                requires
                    b == q * sv,
                    b == a as int,
            ;
        }
    }
}


/// Fresh ground lies below bit 48, the frames of the tables too.
proof fn lemma_fresh_range(m0: &TableMemory, root: u64, va0: u64, pa0: u64, size: u64, f: u8)
    requires
        map_fresh(m0, root, va0, pa0, size, f),
    ensures
        m0.base() + m0.capacity() * 0x1000 <= 0x1_0000_0000_0000,
        pa0 + size <= 0x1_0000_0000_0000,
        va0 + size <= 0x1_0000_0000_0000_0000,
        readable_leaf(f),
{
    reveal(map_fresh);
}

/// A 4 KiB page mapped to an address below bit 48 keeps every clear walk clear.
proof fn lemma_small_step(
    m0: &TableMemory,
    mb: &TableMemory,
    ma: &TableMemory,
    root: u64,
    rt: int,
    va: u64,
    pa: u64,
    lv: PageLevel,
    small: bool,
)
    requires
        mb.index_of(root) == Some(rt),
        ma.index_of(root) == Some(rt),
        small ==> level_index(lv) == 0 && pa < 0x1_0000_0000_0000,
        small ==> keeps_clear_walks(m0, mb, root),
        pa < 0x1_0000_0000_0000 || level_index(lv) > 0 ==> keeps_clear(
            mb.base(),
            mb.count(),
            mb.cells(),
            ma.count(),
            ma.cells(),
            rt,
            va,
            level_index(lv),
        ),
        mb.base() == ma.base(),
    ensures
        small ==> keeps_clear_walks(m0, ma, root),
{
    reveal(keeps_clear_walks);
    if small {
        assert forall|v: u64| m0.clear_walk(root, v) implies #[trigger] ma.clear_walk(root, v) by {
            assert(mb.clear_walk(root, v));
        }
    }
}

/// Every address of the 4 KiB page from `va` translates from `root` to its counterpart in the
/// page from `pa`.
pub open spec fn page_mapped(mem: &TableMemory, root: u64, va: u64, pa: u64) -> bool {
    forall|v: u64|
        #![trigger mem.translation(root, v)]
        va <= v < va + PAGE_SIZE ==> mem.maps(root, v, pa + (v - va))
}

/// The page of the table frame `pa` can be mapped at `p2v` above it on fresh ground, with the
/// flags that tables are mapped with.
pub open spec fn table_page_fresh(mem: &TableMemory, root: u64, pa: u64, p2v: u64) -> bool {
    map_fresh(
        mem,
        root,
        vstd::wrapping::u64_specs::wrapping_add(pa, p2v),
        pa,
        PAGE_SIZE,
        PTEFlags::GRW,
    )
}

/// Fresh ground stays fresh while every clear walk stays clear.
proof fn lemma_fresh_persists(
    m0: &TableMemory,
    m1: &TableMemory,
    root: u64,
    va: u64,
    pa: u64,
    size: u64,
    f: u8,
)
    requires
        map_fresh(m0, root, va, pa, size, f),
        keeps_clear_walks(m0, m1, root),
        m0.wf(),
        m1.wf(),
        m1.base() == m0.base(),
        m1.capacity() == m0.capacity(),
        m0.count() <= m1.count(),
        grows(m0.cells(), m1.cells()),
        m0.index_of(root) is Some,
    ensures
        map_fresh(m1, root, va, pa, size, f),
{
    reveal(map_fresh);
    reveal(keeps_clear_walks);
    assert forall|v: u64| va <= v < va + size implies #[trigger] ground_ok(m1, root, v, va as int) by {
        assert(ground_ok(m0, root, v, va as int));
        if m0.clear_walk(root, v) {
        } else {
            lemma_large_leaf_grows(m0, m1, root, v, va as int);
        }
    }
}

/// Keeping every clear walk clear composes.
proof fn lemma_keeps_trans(m0: &TableMemory, m1: &TableMemory, m2: &TableMemory, root: u64)
    requires
        keeps_clear_walks(m0, m1, root),
        keeps_clear_walks(m1, m2, root),
    ensures
        keeps_clear_walks(m0, m2, root),
{
    reveal(keeps_clear_walks);
    assert forall|v: u64| m0.clear_walk(root, v) implies #[trigger] m2.clear_walk(root, v) by {
        assert(m1.clear_walk(root, v));
    }
}

/// A mapped page stays mapped as the tables grow.
proof fn lemma_page_mapped_persists(m1: &TableMemory, m2: &TableMemory, root: u64, va: u64, pa: u64)
    requires
        m1.wf(),
        m2.wf(),
        m1.base() == m2.base(),
        m1.count() <= m2.count(),
        grows(m1.cells(), m2.cells()),
        page_mapped(m1, root, va, pa),
    ensures
        page_mapped(m2, root, va, pa),
{
    assert forall|v: u64| va <= v < va + PAGE_SIZE implies #[trigger] m2.maps(root, v, pa + (v - va)) by {
        assert(m1.maps(root, v, pa + (v - va)));
        m1.lemma_grows_keeps_translation(m2, root, v);
    }
}

/// One step of a remapping: the table frame `tables[i]`, mapped from tables `mb` to `ma`, keeps
/// what the steps before established and, on fresh ground, adds its own page.
proof fn lemma_remap_step(
    m0: &TableMemory,
    mb: &TableMemory,
    ma: &TableMemory,
    root: u64,
    p2v: u64,
    olds: Seq<PAddr>,
    tables: Seq<PAddr>,
    i: int,
)
    requires
        mb.wf(),
        ma.wf(),
        mb.base() == ma.base(),
        mb.base() == m0.base(),
        mb.capacity() == m0.capacity(),
        mb.count() <= ma.count(),
        grows(mb.cells(), ma.cells()),
        0 <= i < tables.len(),
        olds.len() <= tables.len(),
        forall|j: int| 0 <= j < olds.len() ==> #[trigger] tables[j] == olds[j],
        mb.index_of(tables[i]@) is Some,
        m0.base() + m0.capacity() * 0x1000 <= 0x1_0000_0000_0000,
        keeps_clear_walks(m0, mb, root),
        tables[i]@ < 0x1_0000_0000_0000 && mb.base() + mb.capacity() * 0x1000
            <= 0x1_0000_0000_0000 ==> keeps_clear_walks(mb, ma, root),
        map_fresh(
            mb,
            root,
            vstd::wrapping::u64_specs::wrapping_add(tables[i]@, p2v),
            tables[i]@,
            PAGE_SIZE,
            PTEFlags::GRW,
        ) ==> forall|v: u64|
            vstd::wrapping::u64_specs::wrapping_add(tables[i]@, p2v) <= v
                < vstd::wrapping::u64_specs::wrapping_add(tables[i]@, p2v) + PAGE_SIZE
                ==> #[trigger] ma.maps(
                root,
                v,
                tables[i]@ + (v - vstd::wrapping::u64_specs::wrapping_add(tables[i]@, p2v)),
            ),
        i < olds.len() && table_page_fresh(m0, root, tables[i]@, p2v) ==> map_fresh(
            mb,
            root,
            vstd::wrapping::u64_specs::wrapping_add(tables[i]@, p2v),
            tables[i]@,
            PAGE_SIZE,
            PTEFlags::GRW,
        ),
        page_mapped(mb, root, vstd::wrapping::u64_specs::wrapping_add(root, p2v), root),
        forall|j: int|
            0 <= j < i && j < olds.len() && table_page_fresh(m0, root, tables[j]@, p2v)
                ==> #[trigger] page_mapped(
                mb,
                root,
                vstd::wrapping::u64_specs::wrapping_add(tables[j]@, p2v),
                tables[j]@,
            ),
    ensures
        keeps_clear_walks(m0, ma, root),
        page_mapped(ma, root, vstd::wrapping::u64_specs::wrapping_add(root, p2v), root),
        forall|j: int|
            0 <= j < i + 1 && j < olds.len() && table_page_fresh(m0, root, tables[j]@, p2v)
                ==> #[trigger] page_mapped(
                ma,
                root,
                vstd::wrapping::u64_specs::wrapping_add(tables[j]@, p2v),
                tables[j]@,
            ),
{
    mb.lemma_count_bound();
    let k = mb.index_of(tables[i]@)->0;
    assert(tables[i]@ < mb.base() + mb.capacity() * 0x1000) by (nonlinear_arith)
        requires
            tables[i]@ >= mb.base(),
            (tables[i]@ - mb.base()) % 0x1000 == 0,
            (tables[i]@ - mb.base()) / 0x1000 == k,
            k < mb.count(),
            mb.count() <= mb.capacity(),
    ;
    lemma_keeps_trans(m0, mb, ma, root);
    lemma_page_mapped_persists(mb, ma, root, vstd::wrapping::u64_specs::wrapping_add(root, p2v), root);
    assert forall|j: int|
        0 <= j < i + 1 && j < olds.len() && table_page_fresh(m0, root, tables[j]@, p2v)
            implies #[trigger] page_mapped(
            ma,
            root,
            vstd::wrapping::u64_specs::wrapping_add(tables[j]@, p2v),
            tables[j]@,
        ) by {
        if j < i {
            lemma_page_mapped_persists(
                mb,
                ma,
                root,
                vstd::wrapping::u64_specs::wrapping_add(tables[j]@, p2v),
                tables[j]@,
            );
        }
    }
}

/// A mapping on fresh ground starts with nothing done and every walk of the region clear.
proof fn lemma_progress_start(m0: &TableMemory, root: u64, va0: u64, pa0: u64, size: u64, f: u8)
    requires
        map_fresh(m0, root, va0, pa0, size, f),
    ensures
        region_progress(m0, root, va0, pa0, size, 0),
        keeps_clear_walks(m0, m0, root),
{
    reveal(map_fresh);
    reveal(region_progress);
    reveal(keeps_clear_walks);
}

/// A mapping on fresh ground done with its region translates every address of it.
proof fn lemma_progress_end(mem: &TableMemory, root: u64, va0: u64, pa0: u64, size: u64, done: int)
    requires
        region_progress(mem, root, va0, pa0, size, done),
        done >= size,
    ensures
        forall|v: u64| va0 <= v < va0 + size ==> #[trigger] mem.maps(root, v, pa0 + (v - va0)),
{
    reveal(region_progress);
}

/// After a chunk of a mapping is entered from `va` to `pa` at level `lv` (tables `mb` before,
/// `ma` after): on fresh ground the chunk translates and the rest of the region stays clear; a
/// mapping of a single page below bit 48 keeps every clear walk clear.
#[verifier::rlimit(40)]
proof fn lemma_chunk_mapped(
    m0: &TableMemory,
    mb: &TableMemory,
    ma: &TableMemory,
    root: u64,
    rt: int,
    va: u64,
    pa: u64,
    lv: PageLevel,
    f: u8,
    va0: u64,
    pa0: u64,
    size: u64,
    lawful: bool,
)
    requires
        mb.wf(),
        ma.wf(),
        mb.base() == ma.base(),
        mb.count() <= ma.count(),
        grows(mb.cells(), ma.cells()),
        mb.index_of(root) == Some(rt),
        ma.index_of(root) == Some(rt),
        va % level_size(lv) == 0,
        readable_leaf(f) && pa < entry_addr_limit() ==> forall|off: u64|
            off < level_size(lv) ==> #[trigger] ma.translation(root, (va + off) as u64) == Some(
                ((pa + off) as u64, lv),
            ),
        pa < 0x1_0000_0000_0000 || level_index(lv) > 0 ==> keeps_clear(
            mb.base(),
            mb.count(),
            mb.cells(),
            ma.count(),
            ma.cells(),
            rt,
            va,
            level_index(lv),
        ),
        lawful ==> map_fresh(m0, root, va0, pa0, size, f),
        lawful ==> va == va0 + (pa - pa0) && pa0 <= pa < pa0 + size,
        lawful ==> region_progress(mb, root, va0, pa0, size, pa - pa0),
        map_probe(mb.base(), mb.count(), mb.cells(), rt, va, level_index(lv), 3) is Free,
    ensures
        lawful ==> region_progress(ma, root, va0, pa0, size, pa - pa0 + level_size(lv)),
{
    reveal(region_progress);
    reveal(keeps_clear_walks);
    reveal(map_fresh);
    let l = level_index(lv);
    crate::sv48::lemma_size_pow2(l);
    if lawful {
        assert forall|v: u64|
            va0 <= v < va0 + (pa - pa0) + level_size(lv) && v < va0 + size implies #[trigger] ma.maps(
            root,
            v,
            pa0 + (v - va0),
        ) by {
            if v < va {
                assert(mb.maps(root, v, pa0 + (v - va0)));
                mb.lemma_grows_keeps_translation(ma, root, v);
            } else {
                let off = (v - va) as u64;
                assert((va + off) as u64 == v);
                assert(ma.translation(root, (va + off) as u64) == Some(((pa + off) as u64, lv)));
            }
        }
        let from = va0 + (pa - pa0) + level_size(lv);
        assert forall|v: u64| from <= v < va0 + size implies #[trigger] ground_ok(
            ma,
            root,
            v,
            from,
        ) by {
            assert(ground_ok(mb, root, v, va as int));
            if mb.clear_walk(root, v) {
                if l > 0 {
                    lemma_distinct_blocks(v, va, l);
                }
            } else {
                lemma_large_leaf_grows(mb, ma, root, v, va as int);
                let kv = unmap_walk(mb.base(), mb.count(), mb.cells(), rt, v, 3)->0->Ok_0.1;
                if (v as int / size_at(kv) as int) * (size_at(kv) as int) < from {
                    lemma_leaf_starts_chunk(mb, root, rt, va, l, v);
                    lemma_probe_leaf(mb.base(), mb.count(), mb.cells(), rt, va, l, 3);
                }
            }
        }
    }
}

/// After a table frame is mapped within a chunk (tables `m2` before, `m3` after): what the
/// chunk established stays.
proof fn lemma_sub_keeps(
    m0: &TableMemory,
    m2: &TableMemory,
    m3: &TableMemory,
    root: u64,
    va0: u64,
    pa0: u64,
    size: u64,
    done: int,
    lawful: bool,
    small: bool,
)
    requires
        m2.wf(),
        m3.wf(),
        m2.base() == m3.base(),
        m2.count() <= m3.count(),
        grows(m2.cells(), m3.cells()),
        m2.index_of(root) is Some,
        lawful || small ==> keeps_clear_walks(m2, m3, root),
        small ==> keeps_clear_walks(m0, m2, root),
        lawful ==> region_progress(m2, root, va0, pa0, size, done),
    ensures
        small ==> keeps_clear_walks(m0, m3, root),
        lawful ==> region_progress(m3, root, va0, pa0, size, done),
{
    reveal(region_progress);
    reveal(keeps_clear_walks);
    let chunk_end = va0 + done;
    if small {
        assert forall|v: u64| m0.clear_walk(root, v) implies #[trigger] m3.clear_walk(root, v) by {
            assert(m2.clear_walk(root, v));
        }
    }
    if lawful {
        assert forall|v: u64| va0 <= v < chunk_end && v < va0 + size implies #[trigger] m3.maps(
            root,
            v,
            pa0 + (v - va0),
        ) by {
            assert(m2.maps(root, v, pa0 + (v - va0)));
            m2.lemma_grows_keeps_translation(m3, root, v);
        }
        assert forall|v: u64| chunk_end <= v < va0 + size implies #[trigger] ground_ok(
            m3,
            root,
            v,
            chunk_end,
        ) by {
            assert(ground_ok(m2, root, v, chunk_end));
            if !m2.clear_walk(root, v) {
                lemma_large_leaf_grows(m2, m3, root, v, chunk_end);
            }
        }
    }
}

/// The page a large leaf begins at `va` translates, address by address, to the address the
/// leaf names plus the offset into the page.
proof fn lemma_skip_large_maps(mb: &TableMemory, root: u64, rt: int, va: u64, v: u64)
    requires
        mb.index_of(root) == Some(rt),
        unmap_walk(mb.base(), mb.count(), mb.cells(), rt, va, 3) matches Some(Ok((s, k))) && 0 <= k
            && va % size_at(k) == 0 && pte_phys(mb.cells()[s]) % size_at(k) == 0 && pte_phys(
            mb.cells()[s],
        ) < 0x1_0000_0000_0000 && readable_leaf(pte_flag_bits(mb.cells()[s])) && va <= v < va
            + size_at(k),
    ensures
        mb.maps(
            root,
            v,
            pte_phys(mb.cells()[unmap_walk(mb.base(), mb.count(), mb.cells(), rt, va, 3)->0->Ok_0.0])
                + (v - va),
        ),
{
    let (s, k) = unmap_walk(mb.base(), mb.count(), mb.cells(), rt, va, 3)->0->Ok_0;
    let sk = size_at(k) as int;
    crate::sv48::lemma_size_pow2(k);
    lemma_in_block(v as int, va as int, sk, 0);
    assert forall|j: int| k <= j <= 3 implies page_number(v, j) == page_number(va, j) by {
        lemma_same_block(v, va, k, j);
    }
    lemma_leaf_translation(mb.base(), mb.count(), mb.cells(), rt, va, v, 3);
    vstd::arithmetic::div_mod::lemma_fundamental_div_mod(v as int, sk);
    vstd::arithmetic::div_mod::lemma_fundamental_div_mod(va as int, sk);
    assert(v as int % sk == v - va);
}

/// A chunk on fresh ground whose walk is clear and that finds its page mapped already, to the
/// address it maps to and with matching flags, finds a 4 KiB leaf that translates the page as
/// the chunk would.
#[verifier::rlimit(40)]
proof fn lemma_skip_small(
    m0: &TableMemory,
    mb: &TableMemory,
    ma: &TableMemory,
    root: u64,
    rt: int,
    va: u64,
    pa: u64,
    lv: PageLevel,
    f: u8,
    mapped_lv: PageLevel,
    g: u8,
    va0: u64,
    pa0: u64,
    size: u64,
    lawful: bool,
)
    requires
        lawful,
        mb.clear_walk(root, va),
        mb.wf(),
        ma.wf(),
        ma.base() == mb.base(),
        ma.cells() == mb.cells(),
        mb.index_of(root) == Some(rt),
        va % level_size(lv) == 0,
        match map_probe(mb.base(), mb.count(), mb.cells(), rt, va, level_index(lv), 3) {
            MapProbe::Mapped(p, l2, g2) => p as u64 == pa && l2 == mapped_lv && g2 == g,
            _ => false,
        },
        f & 0x3e == g & 0x3e,
        f & PTEFlags::RWX != 0,
        lawful ==> map_fresh(m0, root, va0, pa0, size, f),
        lawful ==> va == va0 + (pa - pa0) && pa0 <= pa < pa0 + size,
        lawful ==> region_progress(mb, root, va0, pa0, size, pa - pa0),
    ensures
        lawful ==> region_progress(ma, root, va0, pa0, size, pa - pa0 + level_size(mapped_lv)),
{
    reveal(region_progress);
    reveal(map_fresh);
    mb.lemma_count_bound();
    ma.lemma_count_bound();
    let l = level_index(lv);
    crate::sv48::lemma_size_pow2(l);
    lemma_finer_page(va, l);
    lemma_matching_flags(f, g);
    vstd::arithmetic::div_mod::lemma_fundamental_div_mod(va as int, 0x1000);
    assert(va + 0x1000 <= u64::MAX + 1) by (nonlinear_arith)
        requires
            va as int == 0x1000 * (va as int / 0x1000) + va as int % 0x1000,
            va as int % 0x1000 == 0,
            va <= u64::MAX,
    ;
    lemma_probe_clear(mb.base(), mb.count(), mb.cells(), rt, va, l, 3);
    assert forall|v: u64|
        va0 <= v < va0 + (pa - pa0) + 0x1000 && v < va0 + size implies #[trigger] ma.maps(
        root,
        v,
        pa0 + (v - va0),
    ) by {
        if v >= va {
            let off = (v - va) as u64;
            assert((va + off) as u64 == v);
        } else {
            assert(mb.maps(root, v, pa0 + (v - va0)));
        }
    }
    let from = va0 + (pa - pa0) + 0x1000;
    assert forall|v: u64| from <= v < va0 + size implies #[trigger] ground_ok(ma, root, v, from) by {
        assert(ground_ok(mb, root, v, va as int));
        if !mb.clear_walk(root, v) {
            let kv = unmap_walk(mb.base(), mb.count(), mb.cells(), rt, v, 3)->0->Ok_0.1;
            if (v as int / size_at(kv) as int) * (size_at(kv) as int) < from {
                lemma_leaf_starts_chunk(mb, root, rt, va, 0, v);
                lemma_clear_leaf_last(mb.base(), mb.count(), mb.cells(), rt, va, 3);
            }
        }
    }
}

/// A chunk on fresh ground at a large leaf that begins with it, mapped to the address the chunk
/// maps to and with matching flags, finds the leaf translating the whole page as the chunk would.
#[verifier::rlimit(40)]
proof fn lemma_skip_large(
    m0: &TableMemory,
    mb: &TableMemory,
    ma: &TableMemory,
    root: u64,
    rt: int,
    va: u64,
    pa: u64,
    lv: PageLevel,
    f: u8,
    mapped_lv: PageLevel,
    g: u8,
    va0: u64,
    pa0: u64,
    size: u64,
    lawful: bool,
)
    requires
        lawful,
        !mb.clear_walk(root, va),
        mb.wf(),
        ma.wf(),
        ma.base() == mb.base(),
        ma.cells() == mb.cells(),
        mb.index_of(root) == Some(rt),
        va % level_size(lv) == 0,
        match map_probe(mb.base(), mb.count(), mb.cells(), rt, va, level_index(lv), 3) {
            MapProbe::Mapped(p, l2, g2) => p as u64 == pa && l2 == mapped_lv && g2 == g,
            _ => false,
        },
        f & 0x3e == g & 0x3e,
        f & PTEFlags::RWX != 0,
        lawful ==> map_fresh(m0, root, va0, pa0, size, f),
        lawful ==> va == va0 + (pa - pa0) && pa0 <= pa < pa0 + size,
        lawful ==> region_progress(mb, root, va0, pa0, size, pa - pa0),
    ensures
        lawful ==> region_progress(ma, root, va0, pa0, size, pa - pa0 + level_size(mapped_lv)),
{
    reveal(region_progress);
    reveal(map_fresh);
    mb.lemma_count_bound();
    ma.lemma_count_bound();
    let l = level_index(lv);
    crate::sv48::lemma_size_pow2(l);
    lemma_matching_flags(f, g);
    assert(ground_ok(mb, root, va, va as int));
    lemma_unmap_walk_leaf(mb.base(), mb.count(), mb.cells(), rt, va, 3);
    let (s, k) = unmap_walk(mb.base(), mb.count(), mb.cells(), rt, va, 3)->0->Ok_0;
    let sk = size_at(k) as int;
    crate::sv48::lemma_size_pow2(k);
    vstd::arithmetic::div_mod::lemma_fundamental_div_mod(va as int, sk);
    assert((va as int / sk) * sk == sk * (va as int / sk)) by (nonlinear_arith);
    assert(va as int % sk == 0);
    if l > k {
        lemma_probe_above_leaf(mb.base(), mb.count(), mb.cells(), rt, va, l, 3);
        assert(false);
    }
    lemma_probe_leaf(mb.base(), mb.count(), mb.cells(), rt, va, l, 3);
    let phys = pte_phys(mb.cells()[s]);
    lemma_compute_phys_aligned(phys, va, k, l);
    assert(pa == phys);
    assert(mapped_lv == level_at(k));
    assert(level_size(mapped_lv) == sk);
    assert forall|v: u64|
        va0 <= v < va0 + (pa - pa0) + sk && v < va0 + size implies #[trigger] ma.maps(
        root,
        v,
        pa0 + (v - va0),
    ) by {
        if v >= va {
            lemma_skip_large_maps(mb, root, rt, va, v);
        } else {
            assert(mb.maps(root, v, pa0 + (v - va0)));
        }
    }
    let from = va0 + (pa - pa0) + sk;
    assert forall|v: u64| from <= v < va0 + size implies #[trigger] ground_ok(ma, root, v, from) by {
        assert(ground_ok(mb, root, v, va as int));
        if !mb.clear_walk(root, v) {
            let kv = unmap_walk(mb.base(), mb.count(), mb.cells(), rt, v, 3)->0->Ok_0.1;
            if (v as int / size_at(kv) as int) * (size_at(kv) as int) < from {
                lemma_leaf_starts_chunk(mb, root, rt, va, k, v);
            }
        }
    }
}

/// A chunk of a mapping on fresh ground that finds its page mapped already, to the address
/// it maps to and with matching flags, finds a 4 KiB leaf that translates the page as the
/// chunk would.
proof fn lemma_skip_mapped(
    m0: &TableMemory,
    mb: &TableMemory,
    ma: &TableMemory,
    root: u64,
    rt: int,
    va: u64,
    pa: u64,
    lv: PageLevel,
    f: u8,
    mapped_lv: PageLevel,
    g: u8,
    va0: u64,
    pa0: u64,
    size: u64,
    lawful: bool,
)
    requires
        mb.wf(),
        ma.wf(),
        ma.base() == mb.base(),
        ma.cells() == mb.cells(),
        mb.index_of(root) == Some(rt),
        va % level_size(lv) == 0,
        match map_probe(mb.base(), mb.count(), mb.cells(), rt, va, level_index(lv), 3) {
            MapProbe::Mapped(p, l2, g2) => p as u64 == pa && l2 == mapped_lv && g2 == g,
            _ => false,
        },
        f & 0x3e == g & 0x3e,
        f & PTEFlags::RWX != 0,
        lawful ==> map_fresh(m0, root, va0, pa0, size, f),
        lawful ==> va == va0 + (pa - pa0) && pa0 <= pa < pa0 + size,
        lawful ==> region_progress(mb, root, va0, pa0, size, pa - pa0),
    ensures
        ma.count() == mb.count(),
        lawful ==> region_progress(ma, root, va0, pa0, size, pa - pa0 + level_size(mapped_lv)),
{
    mb.lemma_count_bound();
    ma.lemma_count_bound();
    if lawful {
        reveal(region_progress);
        assert(ground_ok(mb, root, va, va as int));
        if mb.clear_walk(root, va) {
            lemma_skip_small(m0, mb, ma, root, rt, va, pa, lv, f, mapped_lv, g, va0, pa0, size, lawful);
        } else {
            lemma_skip_large(m0, mb, ma, root, rt, va, pa, lv, f, mapped_lv, g, va0, pa0, size, lawful);
        }
    }
}

/// The walk of `va` from `root` reaches a table at the last level, whose entry for `va` is
/// invalid: a 4 KiB page can be mapped there with no new table.
pub open spec fn slot_ready(mem: &TableMemory, root: u64, va: u64) -> bool {
    mem.index_of(root) is Some && map_probe(
        mem.base(),
        mem.count(),
        mem.cells(),
        mem.index_of(root)->0,
        va,
        0,
        3,
    ) == MapProbe::Free(0)
}

/// Every page-aligned address from `from` up to `end` finds a free entry in a last-level table
/// (see [`slot_ready`]).
#[verifier::opaque]
pub open spec fn pages_ready(mem: &TableMemory, root: u64, from: int, end: int) -> bool {
    forall|v: u64| from <= v < end && v % PAGE_SIZE == 0 ==> #[trigger] slot_ready(mem, root, v)
}

/// A region of whole pages, under 2 MiB and within one 2 MiB block, every page of which finds
/// a free entry in a last-level table (see [`pages_ready`]).
#[verifier::opaque]
pub open spec fn block_ready(mem: &TableMemory, root: u64, va: u64, size: u64) -> bool {
    &&& 0 < size < 0x20_0000
    &&& size % PAGE_SIZE == 0
    &&& va % PAGE_SIZE == 0
    &&& va as int / 0x20_0000 == (va + size - 1) / 0x20_0000
    &&& pages_ready(mem, root, va as int, va + size)
}

/// What a region ready in one block (see [`block_ready`]) is made of; it ends within the
/// address space.
proof fn lemma_block_ready_facts(mem: &TableMemory, root: u64, va: u64, size: u64)
    requires
        block_ready(mem, root, va, size),
    ensures
        0 < size < 0x20_0000,
        size % PAGE_SIZE == 0,
        va % PAGE_SIZE == 0,
        va as int / 0x20_0000 == (va + size - 1) / 0x20_0000,
        va + size <= 0x1_0000_0000_0000_0000,
        pages_ready(mem, root, va as int, va + size),
{
    reveal(block_ready);
    assert(va + size <= 0x1_0000_0000_0000_0000) by (nonlinear_arith)
        requires
            va as int / 0x20_0000 == (va + size - 1) / 0x20_0000,
            0 < size,
    ;
}

/// Two page-aligned addresses of one 2 MiB block, the second a page or more past the first,
/// share their page numbers above the last level and differ at it.
proof fn lemma_block_pages(a: u64, b: u64)
    requires
        a as int / 0x20_0000 == b as int / 0x20_0000,
        a % PAGE_SIZE == 0,
        a + PAGE_SIZE <= b,
    ensures
        page_number(a, 0) != page_number(b, 0),
        forall|j: int| 0 < j <= 3 ==> page_number(b, j) == page_number(a, j),
{
    lemma_same_block(a, b, 1, 1);
    lemma_same_block(a, b, 1, 2);
    lemma_same_block(a, b, 1, 3);
    let q = a as int / 0x20_0000;
    let ra = a as int % 0x20_0000;
    let rb = b as int % 0x20_0000;
    assert(a == q * 0x20_0000 + ra && b == q * 0x20_0000 + rb && 0 <= ra < 0x20_0000 && 0 <= rb
        < 0x20_0000) by (nonlinear_arith)
        requires
            q == a as int / 0x20_0000,
            q == b as int / 0x20_0000,
            ra == a as int % 0x20_0000,
            rb == b as int % 0x20_0000,
    ;
    assert(a as int / 0x1000 == q * 512 + ra / 0x1000 && b as int / 0x1000 == q * 512 + rb / 0x1000)
        by (nonlinear_arith)
        requires
            a == q * 0x20_0000 + ra,
            b == q * 0x20_0000 + rb,
            0 <= ra < 0x20_0000,
            0 <= rb < 0x20_0000,
    ;
    assert(ra / 0x1000 < rb / 0x1000) by (nonlinear_arith)
        requires
            a == q * 0x20_0000 + ra,
            b == q * 0x20_0000 + rb,
            a % 0x1000 == 0,
            a + 0x1000 <= b,
            0 <= ra,
    ;
    assert(page_number(a, 0) == ra / 0x1000 && page_number(b, 0) == rb / 0x1000) by (nonlinear_arith)
        requires
            a as int / 0x1000 == q * 512 + ra / 0x1000,
            b as int / 0x1000 == q * 512 + rb / 0x1000,
            0 <= ra < 0x20_0000,
            0 <= rb < 0x20_0000,
            page_number(a, 0) == (a as int / 0x1000) % 512,
            page_number(b, 0) == (b as int / 0x1000) % 512,
    ;
}

/// Mapping the page at `cva` into its free last-level entry keeps every later page of a region
/// within one 2 MiB block ready (see [`pages_ready`]).
proof fn lemma_ready_step(
    mb: &TableMemory,
    ma: &TableMemory,
    root: u64,
    rt: int,
    va0: u64,
    size: u64,
    cva: u64,
)
    requires
        mb.wf(),
        ma.base() == mb.base(),
        mb.index_of(root) == Some(rt),
        pages_ready(mb, root, cva as int, va0 + size),
        va0 <= cva < va0 + size,
        cva % PAGE_SIZE == 0,
        va0 as int / 0x20_0000 == (va0 + size - 1) / 0x20_0000,
        last_slot_written(mb.base(), mb.count(), mb.cells(), ma.count(), ma.cells(), rt, cva),
    ensures
        ma.index_of(root) == Some(rt),
        pages_ready(ma, root, cva + PAGE_SIZE, va0 + size),
{
    reveal(pages_ready);
    assert(ma.count() == mb.count()) by {
        reveal(last_slot_written);
    }
    assert(ma.count() == mb.count()) by {
        reveal(last_slot_written);
    }
    assert(slot_ready(mb, root, cva));
    assert forall|v: u64| cva + PAGE_SIZE <= v < va0 + size && v % PAGE_SIZE == 0 implies #[trigger] slot_ready(
        ma,
        root,
        v,
    ) by {
        assert(slot_ready(mb, root, v));
        assert(cva as int / 0x20_0000 == v as int / 0x20_0000) by (nonlinear_arith)
            requires
                va0 <= cva < v <= va0 + size - 1,
                va0 as int / 0x20_0000 == (va0 + size - 1) / 0x20_0000,
        ;
        lemma_block_pages(cva, v);
        mb.lemma_neighbour_probe(ma, root, cva, v);
    }
}

/// The walk of `va` from `root` meets no valid entry at the last level or above it but the
/// entries that lead to further tables: a 4 KiB page can be mapped there, with the tables the
/// walk still lacks.
pub open spec fn slot_free(mem: &TableMemory, root: u64, va: u64) -> bool {
    mem.index_of(root) is Some && map_probe(
        mem.base(),
        mem.count(),
        mem.cells(),
        mem.index_of(root)->0,
        va,
        0,
        3,
    ) is Free
}

/// The walk of `va` from `root` meets a valid leaf (of any level) that maps `va` to `pa`, with
/// flags whose compared bits are those of `f`.
pub open spec fn page_same(mem: &TableMemory, root: u64, va: u64, pa: u64, f: u8) -> bool {
    mem.index_of(root) is Some && match map_probe(
        mem.base(),
        mem.count(),
        mem.cells(),
        mem.index_of(root)->0,
        va,
        0,
        3,
    ) {
        MapProbe::Mapped(p, _, g) => p as u64 == pa && g & PTEFlags::COMPARE_MASK == f
            & PTEFlags::COMPARE_MASK,
        _ => false,
    }
}

/// The page of `v`, within a region from `va` mapped to one from `pa`, meets a valid leaf that
/// maps it to its counterpart, with flags whose compared bits are those of `f` (see
/// [`page_same`]).
pub open spec fn counterpart_same(mem: &TableMemory, root: u64, v: u64, va: u64, pa: u64, f: u8) -> bool {
    page_same(mem, root, v, (pa + (v - va)) as u64, f)
}

/// Every page of the region of `size` bytes from `va` is already mapped to its counterpart in
/// the region from `pa`, with flags whose compared bits are those of `f` (see
/// [`counterpart_same`]).
#[verifier::opaque]
pub open spec fn region_same(mem: &TableMemory, root: u64, va: u64, pa: u64, size: u64, f: u8) -> bool {
    forall|v: u64|
        va <= v < va + size && (v - va) % (PAGE_SIZE as int) == 0 ==> #[trigger] counterpart_same(
            mem,
            root,
            v,
            va,
            pa,
            f,
        )
}

/// A page-aligned address of a region already mapped so (see [`region_same`]) is mapped to its
/// counterpart.
proof fn lemma_region_same_at(mem: &TableMemory, root: u64, va: u64, pa: u64, size: u64, f: u8, v: u64)
    requires
        region_same(mem, root, va, pa, size, f),
        va <= v < va + size,
        va % PAGE_SIZE == 0,
        v % PAGE_SIZE == 0,
    ensures
        page_same(mem, root, v, (pa + (v - va)) as u64, f),
{
    reveal(region_same);
    assert((v - va) % (PAGE_SIZE as int) == 0) by (nonlinear_arith)
        requires
            va % 0x1000 == 0,
            v % 0x1000 == 0,
            va <= v,
    ;
    assert(counterpart_same(mem, root, v, va, pa, f));
}

/// The walk of a page-aligned address of a region already mapped so (see [`region_same`]) meets
/// the leaf that maps it to its counterpart, in tables unchanged since.
proof fn lemma_same_probe(
    m0: &TableMemory,
    mb: &TableMemory,
    root: u64,
    rt: int,
    va0: u64,
    pa0: u64,
    size: u64,
    f: u8,
    cva: u64,
    cpa: u64,
)
    requires
        region_same(m0, root, va0, pa0, size, f),
        mb.cells() == m0.cells(),
        mb.count() == m0.count(),
        mb.base() == m0.base(),
        m0.index_of(root) == Some(rt),
        va0 <= cva < va0 + size,
        va0 % PAGE_SIZE == 0,
        cva % PAGE_SIZE == 0,
        cva == va0 + (cpa - pa0),
    ensures
        map_probe(mb.base(), mb.count(), mb.cells(), rt, cva, 0, 3) matches MapProbe::Mapped(p, _, g)
            && p as u64 == cpa && g & PTEFlags::COMPARE_MASK == f & PTEFlags::COMPARE_MASK,
{
    lemma_region_same_at(m0, root, va0, pa0, size, f, cva);
    assert((pa0 + (cva - va0)) as u64 == cpa);
}

/// A region of at most one page whose first page is already mapped so (see [`page_same`]) is
/// already mapped so throughout (see [`region_same`]).
proof fn lemma_page_same_region(mem: &TableMemory, root: u64, va: u64, pa: u64, size: u64, f: u8)
    requires
        page_same(mem, root, va, pa, f),
        size <= PAGE_SIZE,
    ensures
        region_same(mem, root, va, pa, size, f),
{
    reveal(region_same);
    assert forall|v: u64|
        va <= v < va + size && (v - va) % (PAGE_SIZE as int) == 0 implies #[trigger] counterpart_same(
        mem,
        root,
        v,
        va,
        pa,
        f,
    ) by {
        assert(v == va);
    }
}

/// The unmapping walk of `w` from `root` ends at a leaf.
pub open spec fn has_leaf(mem: &TableMemory, root: u64, w: u64) -> bool {
    match mem.index_of(root) {
        Some(t) => unmap_walk(mem.base(), mem.count(), mem.cells(), t, w, 3) matches Some(Ok(_)),
        None => false,
    }
}

/// An unmapping of the region from `va` up to `end` starts well: the leaf that `va` maps
/// through, if any, either begins at `va` or holds the whole region.
pub open spec fn unmap_start_ok(mem: &TableMemory, root: u64, va: u64, end: int) -> bool {
    match mem.index_of(root) {
        Some(rt) => match unmap_walk(mem.base(), mem.count(), mem.cells(), rt, va, 3) {
            Some(Ok((_, k))) => va % size_at(k) == 0 || end <= (va as int / size_at(k) as int + 1)
                * size_at(k),
            _ => true,
        },
        None => true,
    }
}

/// An address from `a` on lies in the block of size `s` that holds `a`, if `a` starts that
/// block and the address is less than `s` past it, or if the address is below an `end` that
/// the block holds.
proof fn lemma_in_block(v: int, a: int, s: int, end: int)
    requires
        s > 0,
        0 <= a <= v,
        (a % s == 0 && v < a + s) || (v < end && end <= (a / s + 1) * s),
    ensures
        v / s == a / s,
{
    let q = a / s;
    vstd::arithmetic::div_mod::lemma_fundamental_div_mod(a, s);
    assert(q * s <= a) by (nonlinear_arith)
        requires
            a == s * q + a % s,
            a % s >= 0,
    ;
    assert(v - q * s < s) by (nonlinear_arith)
        requires
            a == s * q + a % s,
            (a % s == 0 && v < a + s) || (v < end && end <= (q + 1) * s),
    ;
    vstd::arithmetic::div_mod::lemma_fundamental_div_mod_converse(v, s, q, v - q * s);
}

/// The address one block of size `s` past a block start `a` lies in the block of size `s * c`
/// that holds `a`, unless it starts a block of that size itself.
proof fn lemma_next_block(a: int, s: int, c: int)
    requires
        s > 0,
        c > 0,
        a >= 0,
        a % s == 0,
        (a + s) % (s * c) != 0,
    ensures
        (a + s) / (s * c) == a / (s * c),
{
    let u = a / s;
    vstd::arithmetic::div_mod::lemma_fundamental_div_mod(a, s);
    assert(a == u * s);
    vstd::arithmetic::div_mod::lemma_div_multiples_vanish(u + 1, s);
    assert(a + s == s * (u + 1)) by (nonlinear_arith)
        requires
            a == u * s,
    ;
    assert(u >= 0) by (nonlinear_arith)
        requires
            a == u * s,
            a >= 0,
            s > 0,
    ;
    vstd::arithmetic::div_mod::lemma_div_denominator(a, s, c);
    vstd::arithmetic::div_mod::lemma_div_denominator(a + s, s, c);
    let q = u / c;
    let r = u % c;
    vstd::arithmetic::div_mod::lemma_fundamental_div_mod(u, c);
    if r + 1 == c {
        assert(a + s == (q + 1) * (s * c)) by (nonlinear_arith)
            requires
                a + s == s * (u + 1),
                u == c * q + r,
                r + 1 == c,
        ;
        vstd::arithmetic::div_mod::lemma_mod_multiples_basic(q + 1, s * c);
        assert(false);
    }
    vstd::arithmetic::div_mod::lemma_fundamental_div_mod_converse(u + 1, c, q, r + 1);
}

/// A multiple of `s1 * c` is a multiple of `s1`.
proof fn lemma_finer_aligned(x: int, s1: int, c: int)
    requires
        s1 > 0,
        c > 0,
        x % (s1 * c) == 0,
    ensures
        x % s1 == 0,
{
    assert(s1 * c > 0) by (nonlinear_arith)
        requires
            s1 > 0,
            c > 0,
    ;
    vstd::arithmetic::div_mod::lemma_fundamental_div_mod(x, s1 * c);
    assert(x == (x / (s1 * c) * c) * s1) by (nonlinear_arith)
        requires
            x == (s1 * c) * (x / (s1 * c)) + x % (s1 * c),
            x % (s1 * c) == 0,
    ;
    vstd::arithmetic::div_mod::lemma_mod_multiples_basic(x / (s1 * c) * c, s1);
}

/// The ratio of the sizes of two level indices, the lower first.
spec fn size_ratio(lo: int, hi: int) -> int {
    if hi == lo {
        1
    } else if hi == lo + 1 {
        512
    } else if hi == lo + 2 {
        262144
    } else {
        134217728
    }
}

/// One step of an unmapping that started well: the leaf `va` maps through is cleared, which
/// leaves every address of the region below the next step untranslated, and the next step
/// starts well again.
#[verifier::rlimit(40)]
proof fn lemma_unmap_step(
    base: u64,
    n: int,
    m1: Seq<u64>,
    m2: Seq<u64>,
    rt: int,
    va: u64,
    next: u64,
    end: int,
    va0: int,
)
    requires
        unmap_walk(base, n, m1, rt, va, 3) matches Some(Ok((s, l))) && m2 == m1.update(s, 0)
            && next == size_at(l),
        va < end,
        va + next <= u64::MAX,
        forall|v: u64| va0 <= v < va && v < end ==> #[trigger] translate_from(base, n, m1, rt, v, 3) is None,
        unmap_walk(base, n, m1, rt, va, 3) matches Some(Ok((_, k))) ==> va % size_at(k) == 0 || end
            <= (va as int / size_at(k) as int + 1) * size_at(k),
    ensures
        forall|v: u64|
            va0 <= v < va + next && v < end ==> #[trigger] translate_from(base, n, m2, rt, v, 3)
                is None,
        va + next < end ==> (unmap_walk(base, n, m2, rt, (va + next) as u64, 3) matches Some(
            Ok((_, k)),
        ) ==> (va + next) as u64 % size_at(k) == 0 || end <= (((va + next) as u64) as int
            / size_at(k) as int + 1) * size_at(k)),
{
    lemma_unmap_walk_leaf(base, n, m1, rt, va, 3);
    let (s, l) = unmap_walk(base, n, m1, rt, va, 3)->0->Ok_0;
    let sz = size_at(l) as int;
    assert forall|v: u64| va0 <= v < va + next && v < end implies #[trigger] translate_from(
        base,
        n,
        m2,
        rt,
        v,
        3,
    ) is None by {
        if v < va {
            lemma_clear_keeps_untranslated(base, n, m1, s, rt, v, 3);
        } else {
            lemma_in_block(v as int, va as int, sz, end);
            assert forall|j: int| l <= j <= 3 implies page_number(v, j) == page_number(va, j) by {
                lemma_same_block(v, va, l, j);
            }
            lemma_unmap_walk_shared(base, n, m1, rt, v, va, 3, s, l);
            lemma_unmap_translate(base, n, m1, rt, v, 3);
        }
    }
    let w = (va + next) as u64;
    if va + next < end {
        if va % size_at(l) != 0 {
            vstd::arithmetic::div_mod::lemma_fundamental_div_mod(va as int, sz);
            assert(false);
        }
        if unmap_walk(base, n, m2, rt, w, 3) is Some && unmap_walk(base, n, m2, rt, w, 3)->0 is Ok {
            let (s2, k) = unmap_walk(base, n, m2, rt, w, 3)->0->Ok_0;
            lemma_unmap_walk_leaf(base, n, m2, rt, w, 3);
            let sk = size_at(k) as int;
            assert((va as int + sz) % sz == 0) by {
                vstd::arithmetic::div_mod::lemma_fundamental_div_mod(va as int, sz);
                vstd::arithmetic::div_mod::lemma_mod_multiples_basic(va as int / sz + 1, sz);
                assert(va as int + sz == (va as int / sz + 1) * sz) by (nonlinear_arith)
                    requires
                        va as int == sz * (va as int / sz) + va as int % sz,
                        va as int % sz == 0,
                ;
            }
            if k <= l {
                assert(sz == sk * size_ratio(k, l));
                lemma_finer_aligned(va as int + sz, sk, size_ratio(k, l));
            } else if w % size_at(k) != 0 {
                assert(sk == sz * size_ratio(l, k));
                lemma_next_block(va as int, sz, size_ratio(l, k));
                assert forall|j: int| k <= j <= 3 implies page_number(va, j) == page_number(w, j) by {
                    lemma_same_block(va, w, k, j);
                }
                lemma_unmap_walk_shared(base, n, m2, rt, va, w, 3, s2, k);
                lemma_unmap_walk_cleared(base, n, m1, rt, va, 3);
                assert(false);
            }
        }
    }
}

/// Clearing the leaf of `cur`, on an unmapping that starts well below bit 48, keeps the leaf of
/// every address of the region past the block of that leaf.
proof fn lemma_unmap_keeps_leaves(m1: &TableMemory, m2: &TableMemory, root: u64, cur: u64, end: int)
    requires
        m1.wf(),
        m1.index_of(root) is Some,
        m2.base() == m1.base(),
        m2.count() == m1.count(),
        m2.index_of(root) == m1.index_of(root),
        cur < end <= 0x1_0000_0000_0000,
        unmap_start_ok(m1, root, cur, end),
        forall|v: u64| cur <= v < end ==> #[trigger] has_leaf(m1, root, v),
        has_leaf(m1, root, cur),
        m2.cells() == m1.cells().update(
            unmap_walk(m1.base(), m1.count(), m1.cells(), m1.index_of(root)->0, cur, 3)->0->Ok_0.0,
            0,
        ),
    ensures
        forall|v: u64|
            cur + size_at(unmap_walk(m1.base(), m1.count(), m1.cells(), m1.index_of(root)->0, cur, 3)->0->Ok_0.1)
                <= v < end ==> #[trigger] has_leaf(m2, root, v),
{
    let rt = m1.index_of(root)->0;
    let base = m1.base();
    let n = m1.count();
    let c1 = m1.cells();
    m1.lemma_cells_wf();
    lemma_unmap_walk_leaf(base, n, c1, rt, cur, 3);
    let (s, l) = unmap_walk(base, n, c1, rt, cur, 3)->0->Ok_0;
    let sz = size_at(l) as int;
    crate::sv48::lemma_size_pow2(l);
    assert forall|v: u64| cur + sz <= v < end implies #[trigger] has_leaf(m2, root, v) by {
        assert(has_leaf(m1, root, v));
        let s2 = unmap_walk(base, n, c1, rt, v, 3)->0->Ok_0.0;
        if s2 == s {
            crate::walks::lemma_same_leaf_same_block(base, m1.capacity() as int, c1, rt, cur, v);
            vstd::arithmetic::div_mod::lemma_fundamental_div_mod(cur as int, sz);
            vstd::arithmetic::div_mod::lemma_fundamental_div_mod(v as int, sz);
            assert(v as int / sz == cur as int / sz);
            assert(false) by (nonlinear_arith)
                requires
                    sz > 0,
                    cur as int == sz * (cur as int / sz) + cur as int % sz,
                    v as int == sz * (v as int / sz) + v as int % sz,
                    0 <= cur as int % sz < sz,
                    0 <= v as int % sz < sz,
                    v as int / sz == cur as int / sz,
                    cur as int % sz == 0 || end <= (cur as int / sz + 1) * sz,
                    cur + sz <= v,
                    v < end,
            ;
        } else {
            crate::walks::lemma_clear_keeps_leaf(base, n, c1, s, rt, v, 3);
        }
    }
}

/// The root table `root` and each of the `tables` already have their page mapped at `p2v` above
/// their frame, to that frame, with the flags that tables are mapped with (see [`page_same`]).
pub open spec fn remapped_already(mem: &TableMemory, root: u64, tables: Seq<PAddr>, p2v: u64) -> bool {
    &&& page_same(mem, root, vstd::wrapping::u64_specs::wrapping_add(root, p2v), root, PTEFlags::GRW)
    &&& forall|i: int|
        0 <= i < tables.len() ==> #[trigger] page_same(
            mem,
            root,
            vstd::wrapping::u64_specs::wrapping_add(tables[i]@, p2v),
            tables[i]@,
            PTEFlags::GRW,
        )
}

/// An [`AddressSpace`] holds the page tables for an address space and provides methods to
/// modify the mappings within.
///
/// Page tables are read and written through the [`TableMemory`] that holds them; the
/// address space names its root table and the tables it created by their frames, and
/// translates a table frame's physical address to the virtual address it is mapped at by
/// adding `p2v`.
pub struct AddressSpace {
    /// The ID of this address space. Used to derive the ASID for virtual paging protocols.
    id: usize,
    /// The frame containing the root page table.
    root: PAddr,
    /// The physical-to-virtual offset of page tables within this address space.
    p2v: u64,
    /// All the intermediate tables associated with this address space.
    tables: Vec<PAddr>,
}

impl AddressSpace {
    /// The ID of this address space.
    pub closed spec fn id_spec(&self) -> usize {
        self.id
    }

    /// The frame containing the root page table.
    pub closed spec fn root_spec(&self) -> u64 {
        self.root@
    }

    /// The physical-to-virtual offset of page tables within this address space.
    pub closed spec fn p2v_spec(&self) -> u64 {
        self.p2v
    }

    /// The frames of the intermediate tables associated with this address space.
    pub closed spec fn tables_spec(&self) -> Seq<PAddr> {
        self.tables@
    }

    /// The virtual address a table frame at `pa` is mapped at.
    pub open spec fn table_va(&self, pa: u64) -> u64 {
        vstd::wrapping::u64_specs::wrapping_add(pa, self.p2v_spec())
    }

    /// Creates an address space, and maps its root table at `p2v` above its frame. On fresh
    /// ground (see [`table_page_fresh`]) a success leaves the page of the root table translating
    /// to its frame. Where that page, aligned, finds a free entry in a last-level table (see
    /// [`slot_ready`]) or is already mapped to the frame with the same flags (see
    /// [`page_same`]), the creation succeeds; where its walk is free (see [`slot_free`]), a
    /// success leaves a leaf for it that names the frame with the flags of tables.
    pub fn new(
        id: usize,
        root: PAddr,
        mem: &mut TableMemory,
        init_tables_cap: usize,
        p2v: u64,
    ) -> (r: Result<AddressSpace, AddressSpaceError>)
        requires
            old(mem).wf(),
            old(mem).index_of(root@) is Some,
        ensures
            final(mem).wf(),
            final(mem).base() == old(mem).base(),
            final(mem).capacity() == old(mem).capacity(),
            grows(old(mem).cells(), final(mem).cells()),
            old(mem).count() <= final(mem).count(),
            final(mem).index_of(root@) == old(mem).index_of(root@),
            r matches Ok(a) ==> a.id_spec() == id && a.root_spec() == root@ && a.p2v_spec() == p2v,
            r matches Err(e) ==> map_error_facts(e),
            r matches Err(AddressSpaceError::Mapping(e)) ==> e == MapError::OutOfMemory
                && final(mem).capacity() - final(mem).count() < 3,
            vstd::wrapping::u64_specs::wrapping_add(root@, p2v) % PAGE_SIZE != 0 ==> (r matches Err(
                AddressSpaceError::AddressMisaligned(_, _),
            ) && final(mem).cells() == old(mem).cells()),
            r is Ok && table_page_fresh(old(mem), root@, root@, p2v) ==> page_mapped(
                final(mem),
                root@,
                vstd::wrapping::u64_specs::wrapping_add(root@, p2v),
                root@,
            ),
            ({
                let va = vstd::wrapping::u64_specs::wrapping_add(root@, p2v);
                va % PAGE_SIZE == 0 && (slot_ready(old(mem), root@, va) || page_same(
                    old(mem),
                    root@,
                    va,
                    root@,
                    PTEFlags::GRW,
                ))
            }) ==> r is Ok,
            ({
                let va = vstd::wrapping::u64_specs::wrapping_add(root@, p2v);
                r is Ok && va % PAGE_SIZE == 0 && slot_free(old(mem), root@, va)
            }) ==> leaf_written(
                final(mem).base(),
                final(mem).count(),
                final(mem).cells(),
                old(mem).index_of(root@)->0,
                vstd::wrapping::u64_specs::wrapping_add(root@, p2v),
                3,
                PageLevel::Page4K,
                root@,
                PTEFlags::GRW,
            ),
            old(mem).base() + old(mem).capacity() * 0x1000 <= 0x1_0000_0000_0000 ==> keeps_clear_walks(
                old(mem),
                final(mem),
                root@,
            ),
    {
        proof {
            lemma_grw_leaf();
        }
        let mut addrsp = AddressSpace { id, root, p2v, tables: Vec::with_capacity(init_tables_cap) };
        let va = addrsp.p2v_of(addrsp.root_pa());
        let pa = addrsp.root_pa();
        proof {
            mem.lemma_held_bound(pa@);
            mem.lemma_frame_below_capacity(pa@);
        }
        let res = addrsp.map_raw_relaxed(
            mem,
            va,
            pa,
            PAGE_SIZE,
            PTEFlags::from_bits_retain(PTEFlags::GRW),
        );
        match res {
            Ok(()) => Ok(addrsp),
            Err(e) => Err(e),
        }
    }

    /// Gets the ID of this address space.
    pub fn id(&self) -> (r: usize)
        ensures
            r == self.id_spec(),
    {
        self.id
    }

    /// The physical address of the root page table.
    pub fn root_pa(&self) -> (r: PAddr)
        ensures
            r@ == self.root_spec(),
    {
        self.root
    }

    /// The virtual address a table frame is mapped at.
    fn p2v_of(&self, pa: PAddr) -> (r: VAddr)
        ensures
            r@ == self.table_va(pa@),
    {
        VAddr::new(pa.addr().wrapping_add(self.p2v))
    }

    /// Switches the address translator and remaps owned page tables to the new space.
    ///
    /// The root table and the tables held when the call starts are mapped at `p2v` above their
    /// frames; tables created on the way are mapped through the translator in place until the
    /// switch, which happens once all are mapped. A success leaves the page of each of them that
    /// lay on fresh ground translating to its frame. Where every one of these pages is already
    /// mapped so (see [`remapped_already`]), the switch succeeds and changes no entry.
    #[verifier::rlimit(60)]
    pub fn remap(&mut self, mem: &mut TableMemory, p2v: u64) -> (r: Result<(), AddressSpaceError>)
        requires
            old(mem).wf(),
            old(mem).index_of(old(self).root_spec()) is Some,
            forall|i: int|
                0 <= i < old(self).tables_spec().len() ==> old(mem).index_of(
                    #[trigger] old(self).tables_spec()[i]@,
                ) is Some,
        ensures
            final(mem).wf(),
            final(mem).base() == old(mem).base(),
            final(mem).capacity() == old(mem).capacity(),
            grows(old(mem).cells(), final(mem).cells()),
            old(mem).count() <= final(mem).count(),
            final(mem).index_of(old(self).root_spec()) == old(mem).index_of(old(self).root_spec()),
            final(self).id_spec() == old(self).id_spec(),
            final(self).root_spec() == old(self).root_spec(),
            old(mem).base() + old(mem).capacity() * 0x1000 <= 0x1_0000_0000_0000 ==> keeps_clear_walks(
                old(mem),
                final(mem),
                old(self).root_spec(),
            ),
            r is Ok ==> final(self).p2v_spec() == p2v,
            r is Err ==> final(self).p2v_spec() == old(self).p2v_spec(),
            r matches Err(e) ==> map_error_facts(e),
            r matches Err(AddressSpaceError::Mapping(e)) ==> e == MapError::OutOfMemory
                && final(mem).capacity() - final(mem).count() < 3,
            p2v % PAGE_SIZE == 0 && remapped_already(
                old(mem),
                old(self).root_spec(),
                old(self).tables_spec(),
                p2v,
            ) ==> r is Ok && final(mem).cells() == old(mem).cells() && final(mem).count() == old(
                mem,
            ).count(),
            r is Ok && table_page_fresh(old(mem), old(self).root_spec(), old(self).root_spec(), p2v)
                ==> page_mapped(
                final(mem),
                old(self).root_spec(),
                vstd::wrapping::u64_specs::wrapping_add(old(self).root_spec(), p2v),
                old(self).root_spec(),
            ),
            r is Ok && table_page_fresh(old(mem), old(self).root_spec(), old(self).root_spec(), p2v)
                ==> forall|i: int|
                0 <= i < old(self).tables_spec().len() && table_page_fresh(
                    old(mem),
                    old(self).root_spec(),
                    old(self).tables_spec()[i]@,
                    p2v,
                ) ==> #[trigger] page_mapped(
                    final(mem),
                    old(self).root_spec(),
                    vstd::wrapping::u64_specs::wrapping_add(old(self).tables_spec()[i]@, p2v),
                    old(self).tables_spec()[i]@,
                ),
    {
        proof {
            lemma_grw_leaf();
        }
        let ghost root = self.root_spec();
        let ghost lawful = table_page_fresh(old(mem), root, root, p2v);
        let ghost ranged = old(mem).base() + old(mem).capacity() * 0x1000 <= 0x1_0000_0000_0000;
        let root_pa = self.root_pa();
        let va = VAddr::new(root_pa.addr().wrapping_add(p2v));
        proof {
            mem.lemma_held_bound(root_pa@);
            mem.lemma_frame_below_capacity(root_pa@);
            if lawful {
                lemma_fresh_range(&*mem, root, va@, root_pa@, PAGE_SIZE, PTEFlags::GRW);
            }
        }
        let ghost already = p2v % PAGE_SIZE == 0 && remapped_already(
            old(mem),
            root,
            old(self).tables_spec(),
            p2v,
        );
        proof {
            if already {
                lemma_wrapping_aligned(root_pa@, p2v);
            }
        }
        let res = self.map_raw_relaxed(mem, va, root_pa, PAGE_SIZE, PTEFlags::from_bits_retain(PTEFlags::GRW));
        if let Err(e) = res {
            return Err(e);
        }
        let n = self.tables.len();
        let ghost tables1 = self.tables@;
        proof {
            if already {
                assert(tables1 =~= old(self).tables_spec());
            }
        }
        proof {
            assert forall|j: int| 0 <= j < n implies mem.index_of(#[trigger] tables1[j]@) is Some by {
                if j < old(self).tables_spec().len() {
                    assert(tables1[j] == old(self).tables_spec()[j]);
                    assert(old(mem).index_of(old(self).tables_spec()[j]@) is Some);
                }
            }
        }
        let mut i: usize = 0;
        while i < n
            invariant
                old(mem).wf(),
                mem.wf(),
                mem.base() == old(mem).base(),
                mem.capacity() == old(mem).capacity(),
                grows(old(mem).cells(), mem.cells()),
                old(mem).count() <= mem.count(),
                mem.index_of(self.root_spec()) is Some,
                root == self.root_spec(),
                self.id_spec() == old(self).id_spec(),
                self.root_spec() == old(self).root_spec(),
                self.p2v_spec() == old(self).p2v_spec(),
                i <= n,
                n == tables1.len(),
                n <= self.tables_spec().len(),
                old(self).tables_spec().len() <= n,
                forall|j: int| 0 <= j < n ==> #[trigger] self.tables_spec()[j] == tables1[j],
                forall|j: int|
                    0 <= j < old(self).tables_spec().len() ==> #[trigger] tables1[j]
                        == old(self).tables_spec()[j],
                forall|j: int| 0 <= j < n ==> mem.index_of(#[trigger] tables1[j]@) is Some,
                PTEFlags::GRW & PTEFlags::RWX != 0,
                lawful == table_page_fresh(old(mem), root, root, p2v),
                ranged == (old(mem).base() + old(mem).capacity() * 0x1000 <= 0x1_0000_0000_0000),
                mem.index_of(root) == old(mem).index_of(root),
                ranged ==> keeps_clear_walks(old(mem), mem, root),
                already == (p2v % PAGE_SIZE == 0 && remapped_already(
                    old(mem),
                    root,
                    old(self).tables_spec(),
                    p2v,
                )),
                already ==> mem.cells() == old(mem).cells() && mem.count() == old(mem).count() && n
                    == old(self).tables_spec().len(),
                lawful ==> old(mem).base() + old(mem).capacity() * 0x1000 <= 0x1_0000_0000_0000,
                lawful ==> page_mapped(mem, root, vstd::wrapping::u64_specs::wrapping_add(root, p2v), root),
                lawful ==> forall|j: int|
                    0 <= j < i && j < old(self).tables_spec().len() && table_page_fresh(
                        old(mem),
                        root,
                        tables1[j]@,
                        p2v,
                    ) ==> #[trigger] page_mapped(
                        mem,
                        root,
                        vstd::wrapping::u64_specs::wrapping_add(tables1[j]@, p2v),
                        tables1[j]@,
                    ),
            decreases n - i,
        {
            let t = self.tables[i];
            proof {
                mem.lemma_held_bound(t@);
            }
            let va = VAddr::new(t.addr().wrapping_add(p2v));
            let ghost before = mem.cells();
            let ghost mb = *mem;
            proof {
                if already {
                    lemma_wrapping_aligned(t@, p2v);
                    assert(t == old(self).tables_spec()[i as int]);
                    assert(page_same(
                        old(mem),
                        root,
                        vstd::wrapping::u64_specs::wrapping_add(old(self).tables_spec()[i as int]@, p2v),
                        old(self).tables_spec()[i as int]@,
                        PTEFlags::GRW,
                    ));
                }
            }
            proof {
                if lawful && (i as int) < old(self).tables_spec().len() && table_page_fresh(old(mem), root, t@, p2v) {
                    lemma_fresh_persists(&old(mem), &mb, root, va@, t@, PAGE_SIZE, PTEFlags::GRW);
                }
            }
            let res = self.map_raw_relaxed(mem, va, t, PAGE_SIZE, PTEFlags::from_bits_retain(PTEFlags::GRW));
            proof {
                lemma_grows_trans(old(mem).cells(), before, mem.cells());
                if ranged {
                    mb.lemma_frame_below_capacity(t@);
                    lemma_keeps_trans(&old(mem), &mb, &*mem, root);
                }
            }
            if let Err(e) = res {
                return Err(e);
            }
            proof {
                if lawful {
                    lemma_remap_step(&old(mem), &mb, &*mem, root, p2v, old(self).tables_spec(), tables1, i as int);
                }
            }
            i = i + 1;
        }
        proof {
            if lawful {
                assert forall|j: int|
                    0 <= j < old(self).tables_spec().len() && table_page_fresh(
                        old(mem),
                        root,
                        old(self).tables_spec()[j]@,
                        p2v,
                    ) implies #[trigger] page_mapped(
                    &*mem,
                    root,
                    vstd::wrapping::u64_specs::wrapping_add(old(self).tables_spec()[j]@, p2v),
                    old(self).tables_spec()[j]@,
                ) by {
                    assert(tables1[j] == old(self).tables_spec()[j]);
                }
            }
        }
        self.p2v = p2v;
        Ok(())
    }

    /// Reallocates owned buffers.
    ///
    /// Useful when heap allocation uses a different virtual space than the one the current heap
    /// allocations point to. The tables are moved into the new buffer last first.
    pub fn realloc(&mut self)
        ensures
            final(self).tables_spec() == old(self).tables_spec().reverse(),
            final(self).id_spec() == old(self).id_spec(),
            final(self).root_spec() == old(self).root_spec(),
            final(self).p2v_spec() == old(self).p2v_spec(),
    {
        let tables_cap = self.tables.len();
        let mut new_tables: Vec<PAddr> = Vec::with_capacity(tables_cap);
        let ghost orig = self.tables@;
        while self.tables.len() > 0
            invariant
                orig == old(self).tables_spec(),
                self.tables@.len() <= orig.len(),
                self.tables@ == orig.subrange(0, self.tables@.len() as int),
                new_tables@ == orig.subrange(self.tables@.len() as int, orig.len() as int).reverse(),
                self.id == old(self).id,
                self.root == old(self).root,
                self.p2v == old(self).p2v,
            decreases self.tables.len(),
        {
            let ghost prev = self.tables@;
            let t = self.tables.pop().unwrap();
            let ghost k = self.tables@.len() as int;
            proof {
                assert(self.tables@ =~= prev.subrange(0, k));
                assert(self.tables@ =~= orig.subrange(0, k));
            }
            new_tables.push(t);
            proof {
                assert(new_tables@ =~= orig.subrange(k, orig.len() as int).reverse());
            }
        }
        self.tables = new_tables;
    }

    /// Maps the virtual pages of an allocation, from `virt_start` on `virt_pages` pages, to the
    /// physical frames of `phys` within this address space.
    ///
    /// Fails with [`AddressSpaceError::MismatchedSize`], changing nothing, when the two differ in
    /// size; otherwise maps the whole region as [`AddressSpace::map_raw_relaxed`] does.
    pub fn map(
        &mut self,
        mem: &mut TableMemory,
        virt_start: VAddr,
        virt_pages: u64,
        phys: &FrameAlloc,
        flags: PTEFlags,
    ) -> (r: Result<(), AddressSpaceError>)
        requires
            old(mem).wf(),
            old(mem).index_of(old(self).root_spec()) is Some,
            flags.bits & PTEFlags::RWX != 0,
            phys.start_spec() + phys.count_spec() * PAGE_SIZE <= u64::MAX - 0x80_0000_0000,
        ensures
            final(mem).wf(),
            final(mem).base() == old(mem).base(),
            final(mem).capacity() == old(mem).capacity(),
            old(mem).count() <= final(mem).count(),
            grows(old(mem).cells(), final(mem).cells()),
            final(mem).index_of(old(self).root_spec()) == old(mem).index_of(old(self).root_spec()),
            final(self).id_spec() == old(self).id_spec(),
            final(self).root_spec() == old(self).root_spec(),
            final(self).p2v_spec() == old(self).p2v_spec(),
            virt_pages != phys.count_spec() ==> r == Err::<(), AddressSpaceError>(
                AddressSpaceError::MismatchedSize,
            ) && final(mem).cells() == old(mem).cells() && final(mem).count() == old(mem).count()
                && final(self).tables_spec() == old(self).tables_spec(),
            r matches Err(e) ==> e == AddressSpaceError::MismatchedSize || map_error_facts(e),
            virt_pages == phys.count_spec() && (virt_start@ % PAGE_SIZE != 0 || phys.start_spec()
                % PAGE_SIZE != 0) ==> r == Err::<(), AddressSpaceError>(
                AddressSpaceError::AddressMisaligned(virt_start, PAddr(phys.start_spec())),
            ) && final(mem).cells() == old(mem).cells(),
            virt_pages == phys.count_spec() && phys.count_spec() == 1 && virt_start@ % PAGE_SIZE == 0
                && phys.start_spec() % PAGE_SIZE == 0 && slot_ready(
                old(mem),
                old(self).root_spec(),
                virt_start@,
            ) ==> r is Ok && final(mem).count() == old(mem).count(),
            r matches Err(AddressSpaceError::Mapping(e)) ==> e == MapError::OutOfMemory
                && final(mem).capacity() - final(mem).count() < 3,
            r is Ok && map_fresh(
                old(mem),
                old(self).root_spec(),
                virt_start@,
                phys.start_spec(),
                (phys.count_spec() * PAGE_SIZE) as u64,
                flags.bits,
            ) ==> forall|v: u64|
                #![trigger final(mem).translation(old(self).root_spec(), v)]
                virt_start@ <= v < virt_start@ + phys.count_spec() * PAGE_SIZE ==> final(mem).maps(
                    old(self).root_spec(),
                    v,
                    phys.start_spec() + (v - virt_start@),
                ),
    {
        proof {
            lemma_grows_refl(mem.cells());
        }
        if virt_pages != phys.frame_count() {
            return Err(AddressSpaceError::MismatchedSize);
        }
        let start = phys.start_addr();
        let size = phys.size();
        proof {
            assert(start == PAddr(phys.start_spec()));
        }
        self.map_raw_relaxed(mem, virt_start, start, size, flags)
    }

    /// Unmaps the virtual pages of an allocation, from `virt_start` on `virt_pages` pages,
    /// within this address space, as [`AddressSpace::unmap_raw`] does.
    pub fn unmap(&self, mem: &mut TableMemory, virt_start: VAddr, virt_pages: u64) -> (r: Result<
        (),
        AddressSpaceError,
    >)
        requires
            old(mem).wf(),
            old(mem).index_of(self.root_spec()) is Some,
            forall|v: u64|
                virt_start@ <= v < virt_start@ + virt_pages * PAGE_SIZE ==> #[trigger] unmap_walk(
                    old(mem).base(),
                    old(mem).count(),
                    old(mem).cells(),
                    old(mem).index_of(self.root_spec())->0,
                    v,
                    3,
                ) is Some,
            virt_start@ + virt_pages * PAGE_SIZE <= u64::MAX - 0x80_0000_0000,
        ensures
            final(mem).wf(),
            final(mem).base() == old(mem).base(),
            final(mem).capacity() == old(mem).capacity(),
            final(mem).count() == old(mem).count(),
            virt_pages == 0 ==> r is Ok && final(mem).cells() == old(mem).cells(),
            r matches Err(e) ==> e == AddressSpaceError::Unmap(UnmapError::NotMapped),
            virt_start@ + virt_pages * PAGE_SIZE <= 0x1_0000_0000_0000 && unmap_start_ok(
                old(mem),
                self.root_spec(),
                virt_start@,
                virt_start@ + virt_pages * PAGE_SIZE,
            ) && (forall|v: u64|
                virt_start@ <= v < virt_start@ + virt_pages * PAGE_SIZE ==> #[trigger] has_leaf(
                    old(mem),
                    self.root_spec(),
                    v,
                )) ==> r is Ok,
            r is Ok && unmap_start_ok(
                old(mem),
                self.root_spec(),
                virt_start@,
                virt_start@ + virt_pages * PAGE_SIZE,
            ) ==> forall|v: u64|
                virt_start@ <= v < virt_start@ + virt_pages * PAGE_SIZE ==> #[trigger] final(mem).translation(
                    self.root_spec(),
                    v,
                ) is None,
    {
        let size = virt_pages * PAGE_SIZE;
        self.unmap_raw(mem, virt_start, size)
    }

    /// Maps a virtual region to a physical region of the same size within this address space.
    /// The mapping is done with a relaxed policy: if any subset of the region is already mapped
    /// to the same physical address, with the same [`PTEFlags`], they are skipped.
    ///
    /// Every table created on the way is itself mapped at `p2v` above its frame, and recorded
    /// among the tables of this address space. A success on fresh ground (see [`map_fresh`])
    /// leaves every address of the region translating to its counterpart in the physical one.
    /// A page that finds a free entry in a last-level table (see [`slot_ready`]), and a region of
    /// whole pages within one 2 MiB block every page of which does (see [`block_ready`]), are
    /// mapped there with success and no new table; a page whose walk is free (see [`slot_free`]) and that is mapped with
    /// success gets a leaf that names its frame with `flags`; a region of whole pages under 2 MiB that is already mapped so
    /// throughout (see [`region_same`]) is skipped, with success and no change.
    #[verifier::rlimit(100)]
    pub fn map_raw_relaxed(
        &mut self,
        mem: &mut TableMemory,
        va: VAddr,
        pa: PAddr,
        size_bytes: u64,
        flags: PTEFlags,
    ) -> (r: Result<(), AddressSpaceError>)
        requires
            old(mem).wf(),
            old(mem).index_of(old(self).root_spec()) is Some,
            flags.bits & PTEFlags::RWX != 0,
            pa@ + size_bytes <= u64::MAX - 0x80_0000_0000,
        ensures
            final(mem).wf(),
            final(mem).base() == old(mem).base(),
            final(mem).capacity() == old(mem).capacity(),
            old(mem).count() <= final(mem).count(),
            grows(old(mem).cells(), final(mem).cells()),
            final(mem).index_of(old(self).root_spec()) == old(mem).index_of(old(self).root_spec()),
            final(self).id_spec() == old(self).id_spec(),
            final(self).root_spec() == old(self).root_spec(),
            final(self).p2v_spec() == old(self).p2v_spec(),
            old(self).tables_spec().len() <= final(self).tables_spec().len(),
            forall|i: int|
                0 <= i < old(self).tables_spec().len() ==> #[trigger] final(self).tables_spec()[i]
                    == old(self).tables_spec()[i],
            forall|i: int|
                old(self).tables_spec().len() <= i < final(self).tables_spec().len() ==> (
                final(mem).index_of(#[trigger] final(self).tables_spec()[i]@) matches Some(k) && k
                    >= old(mem).count()),
            r is Ok ==> final(self).tables_spec().len() - old(self).tables_spec().len() == final(mem).count() - old(mem).count(),
            size_bytes == 0 ==> r is Ok && final(mem).cells() == old(mem).cells(),
            r matches Err(e) ==> map_error_facts(e),
            size_bytes != 0 && (va@ % PAGE_SIZE != 0 || pa@ % PAGE_SIZE != 0) ==> r == Err::<
                (),
                AddressSpaceError,
            >(AddressSpaceError::AddressMisaligned(va, pa)) && final(mem).cells() == old(mem).cells(),
            0 < size_bytes <= PAGE_SIZE && va@ % PAGE_SIZE == 0 && pa@ % PAGE_SIZE == 0 && slot_ready(
                old(mem),
                old(self).root_spec(),
                va@,
            ) ==> r is Ok && final(mem).count() == old(mem).count() && leaf_written(
                final(mem).base(),
                final(mem).count(),
                final(mem).cells(),
                old(mem).index_of(old(self).root_spec())->0,
                va@,
                3,
                PageLevel::Page4K,
                pa@,
                flags.bits,
            ),
            0 < size_bytes <= PAGE_SIZE && va@ % PAGE_SIZE == 0 && pa@ % PAGE_SIZE == 0 && slot_free(
                old(mem),
                old(self).root_spec(),
                va@,
            ) && r is Ok ==> leaf_written(
                final(mem).base(),
                final(mem).count(),
                final(mem).cells(),
                old(mem).index_of(old(self).root_spec())->0,
                va@,
                3,
                PageLevel::Page4K,
                pa@,
                flags.bits,
            ),
            0 < size_bytes <= PAGE_SIZE && va@ % PAGE_SIZE == 0 && pa@ % PAGE_SIZE == 0 && page_same(
                old(mem),
                old(self).root_spec(),
                va@,
                pa@,
                flags.bits,
            ) ==> r is Ok && final(mem).cells() == old(mem).cells() && final(mem).count() == old(
                mem,
            ).count(),
            pa@ % PAGE_SIZE == 0 && block_ready(old(mem), old(self).root_spec(), va@, size_bytes) ==> r is Ok
                && final(mem).count() == old(mem).count(),
            0 < size_bytes < 0x20_0000 && size_bytes % PAGE_SIZE == 0 && va@ % PAGE_SIZE == 0 && pa@
                % PAGE_SIZE == 0 && va@ + size_bytes <= 0x1_0000_0000_0000_0000 && region_same(
                old(mem),
                old(self).root_spec(),
                va@,
                pa@,
                size_bytes,
                flags.bits,
            ) ==> r is Ok && final(mem).cells() == old(mem).cells() && final(mem).count() == old(
                mem,
            ).count(),
            r matches Err(AddressSpaceError::Mapping(e)) ==> e == MapError::OutOfMemory
                && final(mem).capacity() - final(mem).count() < 3,
            size_bytes <= PAGE_SIZE && pa@ < 0x1_0000_0000_0000 && old(mem).base() + old(mem).capacity()
                * 0x1000 <= 0x1_0000_0000_0000 ==> keeps_clear_walks(old(mem), final(mem), old(self).root_spec()),
            r is Ok && map_fresh(old(mem), old(self).root_spec(), va@, pa@, size_bytes, flags.bits)
                ==> forall|v: u64|
                #![trigger final(mem).translation(old(self).root_spec(), v)]
                va@ <= v < va@ + size_bytes ==> final(mem).maps(
                    old(self).root_spec(),
                    v,
                    pa@ + (v - va@),
                ),
        decreases old(mem).capacity() - old(mem).count(), 1int,
    {
        proof {
            lemma_grows_refl(mem.cells());
        }
        proof {
            mem.lemma_count_bound();
        }
        let ghost count0 = mem.count();
        let ghost tables0 = self.tables@;
        let ghost root = self.root_spec();
        let ghost rt = mem.index_of(root)->0;
        let ghost va0 = va@;
        let ghost pa0 = pa@;
        let ghost lawful = map_fresh(old(mem), root, va@, pa@, size_bytes, flags.bits);
        let ghost small = size_bytes <= PAGE_SIZE && pa@ < 0x1_0000_0000_0000 && old(mem).base()
            + old(mem).capacity() * 0x1000 <= 0x1_0000_0000_0000;
        let ghost one = 0 < size_bytes <= PAGE_SIZE && va@ % PAGE_SIZE == 0 && pa@ % PAGE_SIZE == 0;
        let ghost ready = one && slot_ready(old(mem), root, va@);
        let ghost freed = one && slot_free(old(mem), root, va@);
        let ghost readyr = pa@ % PAGE_SIZE == 0 && block_ready(old(mem), root, va@, size_bytes);
        proof {
            if readyr {
                lemma_block_ready_facts(&old(mem), root, va@, size_bytes);
            }
        }
        let ghost samer = 0 < size_bytes && (size_bytes <= PAGE_SIZE || (size_bytes < 0x20_0000
            && size_bytes % PAGE_SIZE == 0)) && va@ % PAGE_SIZE == 0 && pa@ % PAGE_SIZE == 0 && va@
            + size_bytes <= 0x1_0000_0000_0000_0000 && region_same(
            old(mem),
            root,
            va@,
            pa@,
            size_bytes,
            flags.bits,
        );
        proof {
            if one && page_same(old(mem), root, va@, pa@, flags.bits) {
                assert(va@ + size_bytes <= 0x1_0000_0000_0000_0000) by (nonlinear_arith)
                    requires
                        va@ % 0x1000 == 0,
                        size_bytes <= 0x1000,
                ;
                lemma_page_same_region(&old(mem), root, va@, pa@, size_bytes, flags.bits);
            }
        }
        proof {
            reveal(keeps_clear_walks);
            if lawful {
                lemma_progress_start(&*mem, root, va0, pa0, size_bytes, flags.bits);
                lemma_fresh_range(&*mem, root, va0, pa0, size_bytes, flags.bits);
            }
        }
        if size_bytes != 0 && (va.addr() % PAGE_SIZE != 0 || pa.addr() % PAGE_SIZE != 0) {
            return Err(AddressSpaceError::AddressMisaligned(va, pa));
        }
        let mut cva = va;
        let mut cpa = pa;
        let pa_end = cpa + size_bytes;
        while cpa.addr() < pa_end.addr()
            invariant
                mem.wf(),
                mem.base() == old(mem).base(),
                mem.capacity() == old(mem).capacity(),
                count0 == old(mem).count(),
                0 <= count0,
                count0 <= mem.count(),
                grows(old(mem).cells(), mem.cells()),
                mem.index_of(self.root_spec()) == Some(rt),
                old(mem).index_of(root) == Some(rt),
                root == self.root_spec(),
                self.id_spec() == old(self).id_spec(),
                self.root_spec() == old(self).root_spec(),
                self.p2v_spec() == old(self).p2v_spec(),
                tables0 == old(self).tables_spec(),
                tables0.len() <= self.tables_spec().len(),
                forall|i: int|
                    0 <= i < tables0.len() ==> #[trigger] self.tables_spec()[i] == tables0[i],
                forall|i: int|
                    tables0.len() <= i < self.tables_spec().len() ==> (mem.index_of(
                        #[trigger] self.tables_spec()[i]@,
                    ) matches Some(k) && k >= count0),
                self.tables_spec().len() - tables0.len() == mem.count() - count0,
                flags.bits & PTEFlags::RWX != 0,
                pa_end@ <= u64::MAX - 0x80_0000_0000,
                cpa@ <= pa_end@ + 0x80_0000_0000,
                pa0 <= cpa@,
                pa_end@ == pa0 + size_bytes,
                va0 == va@,
                pa0 == pa@,
                lawful == map_fresh(old(mem), root, va@, pa@, size_bytes, flags.bits),
                small == (size_bytes <= PAGE_SIZE && pa@ < 0x1_0000_0000_0000 && old(mem).base()
                    + old(mem).capacity() * 0x1000 <= 0x1_0000_0000_0000),
                size_bytes != 0 ==> va0 % PAGE_SIZE == 0 && pa0 % PAGE_SIZE == 0,
                size_bytes == 0 ==> cpa@ == pa_end@ && mem.cells() == old(mem).cells(),
                one == (0 < size_bytes <= PAGE_SIZE && va0 % PAGE_SIZE == 0 && pa0 % PAGE_SIZE == 0),
                ready == (one && slot_ready(old(mem), root, va0)),
                freed == (one && slot_free(old(mem), root, va0)),
                ready ==> freed,
                readyr == (pa0 % PAGE_SIZE == 0 && block_ready(old(mem), root, va0, size_bytes)),
                readyr ==> va0 + size_bytes <= 0x1_0000_0000_0000_0000 && mem.count() == old(mem).count()
                    && cpa@ % PAGE_SIZE == 0,
                readyr && cpa@ < pa_end@ ==> cva@ == va0 + (cpa@ - pa0) && cva@ % PAGE_SIZE == 0
                    && pages_ready(mem, root, cva@ as int, va0 + size_bytes),
                freed && cpa@ < pa_end@ ==> cpa@ == pa0 && cva@ == va0 && mem.cells()
                    == old(mem).cells() && mem.count() == old(mem).count(),
                ready && cpa@ >= pa_end@ ==> mem.count() == old(mem).count(),
                freed && cpa@ >= pa_end@ ==> leaf_written(
                    mem.base(),
                    mem.count(),
                    mem.cells(),
                    rt,
                    va0,
                    3,
                    PageLevel::Page4K,
                    pa0,
                    flags.bits,
                ),
                samer == (0 < size_bytes && (size_bytes <= PAGE_SIZE || (size_bytes < 0x20_0000
                    && size_bytes % PAGE_SIZE == 0)) && va0 % PAGE_SIZE == 0 && pa0 % PAGE_SIZE == 0
                    && va0 + size_bytes <= 0x1_0000_0000_0000_0000 && region_same(
                    old(mem),
                    root,
                    va0,
                    pa0,
                    size_bytes,
                    flags.bits,
                )),
                samer ==> mem.cells() == old(mem).cells() && mem.count() == old(mem).count() && cpa@
                    % PAGE_SIZE == 0,
                samer && cpa@ < pa_end@ ==> cva@ == va0 + (cpa@ - pa0) && cva@ % PAGE_SIZE == 0,
                samer && size_bytes <= PAGE_SIZE && cpa@ < pa_end@ ==> cpa@ == pa0,
                one && page_same(old(mem), root, va0, pa0, flags.bits) ==> samer,
                small ==> keeps_clear_walks(old(mem), mem, root),
                small ==> size_bytes <= PAGE_SIZE && pa0 < 0x1_0000_0000_0000 && old(mem).base()
                    + old(mem).capacity() * 0x1000 <= 0x1_0000_0000_0000,
                small && cpa@ < pa_end@ ==> cpa@ == pa0,
                lawful ==> map_fresh(old(mem), root, va0, pa0, size_bytes, flags.bits),
                lawful ==> old(mem).base() + old(mem).capacity() * 0x1000 <= 0x1_0000_0000_0000
                    && pa0 + size_bytes <= 0x1_0000_0000_0000 && va0 + size_bytes
                    <= 0x1_0000_0000_0000_0000,
                lawful && cpa@ < pa_end@ ==> cva@ == va0 + (cpa@ - pa0),
                lawful ==> region_progress(mem, root, va0, pa0, size_bytes, cpa@ - pa0),
            decreases pa_end@ + 0x80_0000_0000 - cpa@,
        {
            proof {
                if freed || (samer && size_bytes <= PAGE_SIZE) {
                    crate::sv48::lemma_fit_one_page(cva@, cpa@, (pa_end@ - cpa@) as u64);
                }
                if readyr {
                    lemma_block_ready_facts(&old(mem), root, va0, size_bytes);
                }
                if (samer && size_bytes > PAGE_SIZE) || readyr {
                    assert((pa_end@ - cpa@) % (PAGE_SIZE as int) == 0) by (nonlinear_arith)
                        requires
                            pa_end@ == pa0 + size_bytes,
                            size_bytes % PAGE_SIZE == 0,
                            pa0 % PAGE_SIZE == 0,
                            cpa@ % PAGE_SIZE == 0,
                    ;
                    crate::sv48::lemma_fit_small(cva@, cpa@, (pa_end@ - cpa@) as u64);
                }
            }
            let next = PageLevel::fit_level(cva, cpa, pa_end.addr() - cpa.addr());
            let mut next_lv = match next {
                Some(l) => l,
                None => {
                    proof {
                        assert(fit_level_spec(cva@, cpa@, (pa_end@ - cpa@) as u64) is None);
                    }
                    return Err(AddressSpaceError::AddressMisaligned(cva, cpa));
                },
            };
            proof {
                crate::sv48::lemma_fit_level_aligned(cva@, cpa@, (pa_end@ - cpa@) as u64);
                if freed {
                    crate::sv48::lemma_fit_one_page(cva@, cpa@, (pa_end@ - cpa@) as u64);
                }
                crate::sv48::lemma_size_pow2(level_index(next_lv));
            }
            let ghost before = mem.cells();
            let ghost n_before = mem.count();
            let ghost mb = *mem;
            proof {
                mem.lemma_count_bound();
                if samer {
                    lemma_same_probe(&old(mem), &mb, root, rt, va0, pa0, size_bytes, flags.bits, cva@, cpa@);
                }
                if readyr {
                    assert(slot_ready(&mb, root, cva@)) by {
                        reveal(pages_ready);
                    }
                }
            }
            let res = mem.map_page(self.root, cva, cpa, next_lv, flags);
            proof {
                lemma_grows_trans(old(mem).cells(), before, mem.cells());
                mem.lemma_count_bound();
                mb.lemma_index_grows(&*mem, root);
                lemma_small_step(&old(mem), &mb, &*mem, root, rt, cva@, cpa@, next_lv, small);
            }
            match res {
                Ok(allocs) => {
                    let ghost n_after = mem.count();
                    let ghost ma = *mem;
                    let ghost chunk_end: int = va0 + (cpa@ - pa0) + level_size(next_lv);
                    proof {
                        assert(cva@ % level_size(next_lv) == 0 && cpa@ % level_size(next_lv) == 0);
                        assert(n_after == n_before + allocs.len());
                        assert(map_probe(mb.base(), mb.count(), mb.cells(), rt, cva@, level_index(next_lv), 3) is Free);
                        lemma_chunk_mapped(&old(mem), &mb, &ma, root, rt, cva@, cpa@, next_lv, flags.bits, va0, pa0, size_bytes, lawful);
                        if readyr {
                            lemma_block_ready_facts(&old(mem), root, va0, size_bytes);
                            lemma_ready_step(&mb, &ma, root, rt, va0, size_bytes, cva@);
                        }
                    }
                    let mut i: usize = 0;
                    while i < allocs.len()
                        invariant
                            mem.wf(),
                            mem.base() == old(mem).base(),
                            mem.capacity() == old(mem).capacity(),
                            count0 == old(mem).count(),
                            0 <= count0,
                            n_after <= mem.count(),
                            n_after == n_before + allocs.len(),
                            n_before >= count0,
                            grows(old(mem).cells(), mem.cells()),
                            mem.index_of(self.root_spec()) == Some(rt),
                            old(mem).index_of(root) == Some(rt),
                            root == self.root_spec(),
                            self.id_spec() == old(self).id_spec(),
                            self.root_spec() == old(self).root_spec(),
                            self.p2v_spec() == old(self).p2v_spec(),
                            tables0 == old(self).tables_spec(),
                            tables0.len() <= self.tables_spec().len(),
                            forall|j: int|
                                0 <= j < tables0.len() ==> #[trigger] self.tables_spec()[j]
                                    == tables0[j],
                            forall|j: int|
                                tables0.len() <= j < self.tables_spec().len() ==> (mem.index_of(
                                    #[trigger] self.tables_spec()[j]@,
                                ) matches Some(k) && k >= count0),
                            self.tables_spec().len() - tables0.len() + (allocs.len() - i)
                                == mem.count() - count0,
                            forall|j: int|
                                0 <= j < allocs.len() ==> (#[trigger] allocs[j])@ == mem.base() + (
                                n_before + j) * 0x1000,
                            i <= allocs.len(),
                            size_bytes != 0,
                            flags.bits & PTEFlags::RWX != 0,
                            pa_end@ <= u64::MAX - 0x80_0000_0000,
                            cpa@ < pa_end@,
                            pa0 <= cpa@,
                            pa_end@ == pa0 + size_bytes,
                            va0 == va@,
                            pa0 == pa@,
                            lawful == map_fresh(old(mem), root, va@, pa@, size_bytes, flags.bits),
                            small == (size_bytes <= PAGE_SIZE && pa@ < 0x1_0000_0000_0000 && old(mem).base()
                                + old(mem).capacity() * 0x1000 <= 0x1_0000_0000_0000),
                            va0 % PAGE_SIZE == 0 && pa0 % PAGE_SIZE == 0,
                            one == (0 < size_bytes <= PAGE_SIZE && va0 % PAGE_SIZE == 0 && pa0
                                % PAGE_SIZE == 0),
                            ready == (one && slot_ready(old(mem), root, va0)),
                            samer == (0 < size_bytes && (size_bytes <= PAGE_SIZE || (size_bytes
                                < 0x20_0000 && size_bytes % PAGE_SIZE == 0)) && va0 % PAGE_SIZE == 0
                                && pa0 % PAGE_SIZE == 0 && va0 + size_bytes
                                <= 0x1_0000_0000_0000_0000 && region_same(
                                old(mem),
                                root,
                                va0,
                                pa0,
                                size_bytes,
                                flags.bits,
                            )),
                            !samer,
                            one && page_same(old(mem), root, va0, pa0, flags.bits) ==> samer,
                            freed == (one && slot_free(old(mem), root, va0)),
                            ready ==> allocs.len() == 0 && mem.count() == old(mem).count(),
                            readyr == (pa0 % PAGE_SIZE == 0 && block_ready(old(mem), root, va0, size_bytes)),
                            readyr ==> allocs.len() == 0 && mem.count() == old(mem).count() && va0
                                + size_bytes <= 0x1_0000_0000_0000_0000 && cva@ == va0 + (cpa@ - pa0)
                                && cva@ % PAGE_SIZE == 0 && cpa@ % PAGE_SIZE == 0 && pages_ready(
                                mem,
                                root,
                                cva@ + PAGE_SIZE,
                                va0 + size_bytes,
                            ),
                            freed ==> cpa@ == pa0 && pa_end@ <= pa0 + PAGE_SIZE && leaf_written(
                                mem.base(),
                                mem.count(),
                                mem.cells(),
                                rt,
                                va0,
                                3,
                                PageLevel::Page4K,
                                pa0,
                                flags.bits,
                            ),
                            small ==> keeps_clear_walks(old(mem), mem, root),
                            small ==> size_bytes <= PAGE_SIZE && pa0 < 0x1_0000_0000_0000 && old(mem).base()
                                + old(mem).capacity() * 0x1000 <= 0x1_0000_0000_0000,
                            lawful ==> map_fresh(old(mem), root, va0, pa0, size_bytes, flags.bits),
                            lawful ==> old(mem).base() + old(mem).capacity() * 0x1000
                                <= 0x1_0000_0000_0000 && pa0 + size_bytes <= 0x1_0000_0000_0000
                                && va0 + size_bytes <= 0x1_0000_0000_0000_0000,
                lawful ==> old(mem).base() + old(mem).capacity() * 0x1000 <= 0x1_0000_0000_0000
                    && pa0 + size_bytes <= 0x1_0000_0000_0000 && va0 + size_bytes
                    <= 0x1_0000_0000_0000_0000,
                            lawful ==> cva@ == va0 + (cpa@ - pa0),
                            chunk_end == va0 + (cpa@ - pa0) + level_size(next_lv),
                            lawful ==> region_progress(mem, root, va0, pa0, size_bytes, chunk_end - va0),
                        decreases allocs.len() - i,
                    {
                        let a = allocs[i];
                        let ava = self.p2v_of(a);
                        proof {
                            mem.lemma_count_bound();
                            mem.lemma_frame_held(n_before + i);
                            assert(a@ == mem.base() + (n_before + i) * 0x1000);
                            assert(a@ + PAGE_SIZE <= u64::MAX - 0x80_0000_0000) by {
                                mem.lemma_frame_bound(n_before + i);
                            }
                            assert(a@ < mem.base() + mem.capacity() * 0x1000) by (nonlinear_arith)
                                requires
                                    a@ == mem.base() + (n_before + i) * 0x1000,
                                    n_before + i < mem.capacity(),
                            ;
                        }
                        let ghost b2 = mem.cells();
                        let ghost m2 = *mem;
                        proof {
                            mem.lemma_count_bound();
                        }
                        assert(old(mem).capacity() - mem.count() < old(mem).capacity() - old(mem).count());
                        proof {
                            lemma_grw_leaf();
                        }
                        let sub = self.map_raw_relaxed(
                            mem,
                            ava,
                            a,
                            PAGE_SIZE,
                            PTEFlags::from_bits_retain(PTEFlags::GRW),
                        );
                        proof {
                            lemma_grows_trans(old(mem).cells(), b2, mem.cells());
                            assert((lawful || small) ==> a@ < 0x1_0000_0000_0000 && m2.base() + m2.capacity() * 0x1000 <= 0x1_0000_0000_0000);
                            lemma_sub_keeps(&old(mem), &m2, &*mem, root, va0, pa0, size_bytes, chunk_end - va0, lawful, small);
                            if freed {
                                m2.lemma_count_bound();
                                mem.lemma_count_bound();
                                lemma_grows_unmap_walk(m2.base(), m2.count(), m2.cells(), mem.count(), mem.cells(), rt, va0, 3);
                            }
                        }
                        if let Err(e) = sub {
                            return Err(e);
                        }
                        proof {
                            mem.lemma_frame_held(n_before + i);
                        }
                        self.tables.push(a);
                        i = i + 1;
                    }
                },
                Err(e) => match e {
                    MapError::AlreadyMapped(mapped_pa, mapped_lv, mapped_flags) => {
                        if cpa != mapped_pa {
                            return Err(
                                AddressSpaceError::MappedDifferentAddress {
                                    expected: cpa,
                                    actual: mapped_pa,
                                },
                            );
                        } else if !flags.matches(&mapped_flags) {
                            let expected = flags.get_mask();
                            let actual = mapped_flags.get_mask();
                            proof {
                                let a = flags.bits;
                                let b = mapped_flags.bits;
                                assert((a & 0x3e) & 0x3e == a & 0x3e) by (bit_vector);
                                assert((b & 0x3e) & 0x3e == b & 0x3e) by (bit_vector);
                            }
                            return Err(
                                AddressSpaceError::MappedDifferentFlags { expected, actual },
                            );
                        } else {
                            proof {
                                lemma_skip_mapped(&old(mem), &mb, &*mem, root, rt, cva@, cpa@, next_lv, flags.bits, mapped_lv, mapped_flags.bits, va0, pa0, size_bytes, lawful);
                            }
                            next_lv = mapped_lv;
                        }
                    },
                    _ => {
                        proof {
                            lemma_probe_free_bound(mb.base(), mb.count(), mb.cells(), rt, cva@, level_index(next_lv), 3);
                        }
                        return Err(AddressSpaceError::Mapping(e));
                    },
                },
            }
            proof {
                crate::sv48::lemma_size_pow2(crate::sv48::level_index(next_lv));
                if samer {
                    let z = level_size(next_lv);
                    assert((cva@ + z) % (PAGE_SIZE as int) == 0 && (cpa@ + z) % (PAGE_SIZE as int) == 0)
                        by (nonlinear_arith)
                        requires
                            cva@ % 0x1000 == 0,
                            cpa@ % 0x1000 == 0,
                            z % 0x1000 == 0,
                    ;
                }
            }
            cva = cva + next_lv.size();
            cpa = cpa + next_lv.size();
        }
        proof {
            if lawful {
                lemma_progress_end(&*mem, root, va0, pa0, size_bytes, cpa@ - pa0);
            }
        }
        Ok(())
    }

    /// Unmaps a virtual region within this address space.
    ///
    /// When the leaf at `va` begins at `va` or holds the whole region, a success leaves no
    /// address of the region translated; if, besides, the region lies below bit 48 and every
    /// address of it maps through a leaf, the unmapping succeeds. It fails only at an address of
    /// the region that it finds unmapped.
    #[verifier::rlimit(40)]
    pub fn unmap_raw(&self, mem: &mut TableMemory, va: VAddr, size_bytes: u64) -> (r: Result<
        (),
        AddressSpaceError,
    >)
        requires
            old(mem).wf(),
            old(mem).index_of(self.root_spec()) is Some,
            forall|v: u64|
                va@ <= v < va@ + size_bytes ==> #[trigger] unmap_walk(
                    old(mem).base(),
                    old(mem).count(),
                    old(mem).cells(),
                    old(mem).index_of(self.root_spec())->0,
                    v,
                    3,
                ) is Some,
            va@ + size_bytes <= u64::MAX - 0x80_0000_0000,
        ensures
            final(mem).wf(),
            final(mem).base() == old(mem).base(),
            final(mem).capacity() == old(mem).capacity(),
            final(mem).count() == old(mem).count(),
            size_bytes == 0 ==> r is Ok && final(mem).cells() == old(mem).cells(),
            r matches Err(e) ==> e == AddressSpaceError::Unmap(UnmapError::NotMapped),
            va@ + size_bytes <= 0x1_0000_0000_0000 && unmap_start_ok(
                old(mem),
                self.root_spec(),
                va@,
                va@ + size_bytes,
            ) && (forall|v: u64|
                va@ <= v < va@ + size_bytes ==> #[trigger] has_leaf(old(mem), self.root_spec(), v))
                ==> r is Ok,
            r is Err ==> exists|w: u64|
                va@ <= w < va@ + size_bytes && !#[trigger] has_leaf(final(mem), self.root_spec(), w)
                    && (unmap_start_ok(old(mem), self.root_spec(), va@, va@ + size_bytes) ==> forall|
                    v: u64,
                |
                    va@ <= v < w ==> #[trigger] final(mem).translation(self.root_spec(), v) is None),
            r is Ok && unmap_start_ok(old(mem), self.root_spec(), va@, va@ + size_bytes) ==> forall|
                v: u64,
            |
                va@ <= v < va@ + size_bytes ==> #[trigger] final(mem).translation(self.root_spec(), v)
                    is None,
    {
        let ghost root = self.root_spec();
        let ghost rt = old(mem).index_of(root)->0;
        let ghost va0 = va@;
        let ghost end = va@ + size_bytes;
        let ghost lawful = unmap_start_ok(old(mem), root, va0, end);
        let ghost full = end <= 0x1_0000_0000_0000 && lawful && (forall|v: u64|
            va0 <= v < end ==> #[trigger] has_leaf(old(mem), root, v));
        let mut cur = va;
        let va_end = va + size_bytes;
        while cur.addr() < va_end.addr()
            invariant
                mem.wf(),
                mem.base() == old(mem).base(),
                mem.capacity() == old(mem).capacity(),
                mem.count() == old(mem).count(),
                mem.index_of(self.root_spec()) == old(mem).index_of(self.root_spec()),
                mem.index_of(self.root_spec()) == Some(rt),
                root == self.root_spec(),
                forall|v: u64|
                    va0 <= v < end ==> #[trigger] unmap_walk(
                        mem.base(),
                        mem.count(),
                        mem.cells(),
                        mem.index_of(self.root_spec())->0,
                        v,
                        3,
                    ) is Some,
                va_end@ <= u64::MAX - 0x80_0000_0000,
                cur@ <= va_end@ + 0x80_0000_0000,
                va_end@ == end,
                end == va0 + size_bytes,
                va0 == va@,
                lawful == unmap_start_ok(old(mem), root, va0, end),
                va0 <= cur@,
                size_bytes == 0 ==> mem.cells() == old(mem).cells() && cur@ == va_end@,
                lawful ==> forall|v: u64|
                    va0 <= v < cur@ && v < end ==> #[trigger] mem.translation(root, v) is None,
                lawful && cur@ < end ==> unmap_start_ok(mem, root, cur@, end),
                full == (end <= 0x1_0000_0000_0000 && lawful && (forall|v: u64|
                    va0 <= v < end ==> #[trigger] has_leaf(old(mem), root, v))),
                full ==> forall|v: u64| cur@ <= v < end ==> #[trigger] has_leaf(mem, root, v),
            decreases va_end@ + 0x80_0000_0000 - cur@,
        {
            let ghost before = mem.cells();
            let ghost base = mem.base();
            let ghost n = mem.count();
            let ghost mb = *mem;
            proof {
                if lawful {
                    assert forall|v: u64| va0 <= v < cur@ && v < end implies #[trigger] translate_from(
                        base,
                        n,
                        before,
                        rt,
                        v,
                        3,
                    ) is None by {
                        assert(mem.translation(root, v) is None);
                    }
                }
            }
            let res = mem.unmap_page(self.root, cur);
            let next_size = match res {
                Ok(l) => l,
                Err(e) => {
                    proof {
                        assert(va0 <= cur@ < end);
                        if lawful {
                            assert forall|v: u64| va0 <= v < cur@ implies #[trigger] mem.translation(
                                root,
                                v,
                            ) is None by {
                                assert(translate_from(base, n, before, rt, v, 3) is None);
                            }
                        }
                        assert(!has_leaf(&*mem, root, cur@));
                        if full {
                            assert(has_leaf(&mb, root, cur@));
                            assert(mem.cells() == mb.cells());
                            assert(false);
                        }
                    }
                    return Err(AddressSpaceError::Unmap(e));
                },
            };
            proof {
                crate::sv48::lemma_size_pow2(crate::sv48::level_index(next_size));
                lemma_unmap_walk_leaf(base, n, before, rt, cur@, 3);
                let s = unmap_walk(base, n, before, rt, cur@, 3)->0->Ok_0.0;
                assert forall|v: u64| va0 <= v < end implies #[trigger] unmap_walk(
                    mem.base(),
                    mem.count(),
                    mem.cells(),
                    mem.index_of(self.root_spec())->0,
                    v,
                    3,
                ) is Some by {
                    assert(unmap_walk(base, n, before, rt, v, 3) is Some);
                    lemma_clear_keeps_walk(base, n, before, s, rt, v, 3);
                }
                if lawful {
                    lemma_unmap_step(base, n, before, mem.cells(), rt, cur@, level_size(next_size), end, va0 as int);
                }
                if full {
                    lemma_unmap_keeps_leaves(&mb, &*mem, root, cur@, end);
                }
            }
            cur = cur + next_size.size();
        }
        Ok(())
    }

    /// Translates a virtual address within this address space.
    pub fn translate_virt(&self, mem: &TableMemory, va: VAddr) -> (r: Option<(PAddr, PageLevel)>)
        requires
            mem.wf(),
        ensures
            r matches Some((pa, lv)) ==> mem.translation(self.root_spec(), va@) == Some((pa@, lv)),
            r is None ==> mem.translation(self.root_spec(), va@) is None,
    {
        mem.translate_virt(self.root, va)
    }
}

} // verus!

//! Page tables held in a region of physical frames, and the Sv48 table walks over them:
//! translation, mapping and unmapping.
//!
//! The tables live in an arena of physical frames starting at `base`; table `k` occupies the
//! frame at `base + k * PAGE_SIZE`. A table entry that points to a further table names it by
//! physical address, exactly as the hardware walker reads it.
use vstd::prelude::*;

use crate::addr::{PAGE_SIZE, PAddr, VAddr, page_number, compute_phys_spec};
use crate::sv48::{
    PT_MAX_ENTRIES, PTE, PTEFlags, PageLevel, level_at, level_index, level_size, pte_bits, pte_flag_bits,
    pte_phys, pte_valid, size_at,
};

verus! {

/// A page table: one frame of [`PT_MAX_ENTRIES`] entries.
pub struct PageTable {
    pub entries: Vec<PTE>,
}

impl PageTable {
    /// Creates an empty page table: every entry is cleared.
    pub fn new() -> (r: PageTable)
        ensures
            r.entries.len() == PT_MAX_ENTRIES,
            forall|i: int| 0 <= i < PT_MAX_ENTRIES ==> #[trigger] r.entries[i].0 == 0,
    {
        let mut entries: Vec<PTE> = Vec::new();
        let mut i: usize = 0;
        while i < PT_MAX_ENTRIES
            invariant
                i <= PT_MAX_ENTRIES,
                entries.len() == i,
                forall|j: int| 0 <= j < i ==> #[trigger] entries[j].0 == 0,
            decreases PT_MAX_ENTRIES - i,
        {
            entries.push(PTE::empty());
            i = i + 1;
        }
        PageTable { entries }
    }
}

/// Represents possible errors that might occur when mapping a virtual address.
#[derive(Clone, Copy, PartialEq, Eq, Structural, Debug)]
pub enum MapError {
    /// Virtual mapping fails because the allocator fails to provide a memory location for a page
    /// table.
    OutOfMemory,
    /// The virtual or physical address is not aligned to the requested level.
    Misaligned,
    /// The virtual address is already mapped to a physical address at the given level.
    AlreadyMapped(PAddr, PageLevel, PTEFlags),
}

/// Represents possible errors that might occur when unmapping a virtual address.
#[derive(Clone, Copy, PartialEq, Eq, Structural, Debug)]
pub enum UnmapError {
    /// The virtual address is not mapped.
    NotMapped,
}

/// The table index of the frame at `pa`, among `n` tables placed from `base` on.
pub open spec fn frame_index(base: u64, n: int, pa: u64) -> Option<int> {
    if pa >= base && (pa - base) % 0x1000 == 0 && (pa - base) / 0x1000 < n {
        Some((pa - base) / 0x1000)
    } else {
        None
    }
}

/// The position, among all entries, of the entry of table `t` that translates `va` at level
/// index `l`.
pub open spec fn slot(t: int, va: u64, l: int) -> int {
    t * 512 + page_number(va, l)
}

/// An entry that a walk follows to a further table: valid, with none of read, write, execute.
pub open spec fn follows(e: u64) -> bool {
    pte_valid(e) && pte_flag_bits(e) & PTEFlags::RWX == 0
}

/// Flags under which a leaf entry translates: readable or executable, and not writable
/// without being readable.
pub open spec fn readable_leaf(f: u8) -> bool {
    &&& f & PTEFlags::RX != 0
    &&& !(f & PTEFlags::READ == 0 && f & PTEFlags::WRITE != 0)
}

/// Well-formedness of the entries `m` of tables placed from `base`, with room for `cap` tables:
/// whole tables, within capacity and the addressable range, and every entry that points to a
/// further table names a table held, placed after its own; no two entries point to one table.
#[verifier::opaque]
pub open spec fn cells_wf(base: u64, cap: int, m: Seq<u64>) -> bool {
    &&& base % 0x1000 == 0
    &&& base + cap * 0x1000 <= entry_addr_limit()
    &&& m.len() % 512 == 0
    &&& m.len() as int / 512 <= cap
    &&& forall|i: int|
        0 <= i < m.len() && follows(#[trigger] m[i]) ==> frame_index(base, m.len() as int / 512, pte_phys(m[i])) is Some
    &&& forall|i: int|
        0 <= i < m.len() && follows(#[trigger] m[i]) ==> frame_index(base, m.len() as int / 512, pte_phys(m[i]))->0 > i / 512
    &&& unique_parents(m)
}

/// No two entries of `m` point to one table.
pub open spec fn unique_parents(m: Seq<u64>) -> bool {
    forall|i: int, j: int|
        #![trigger follows(m[i]), follows(m[j])]
        0 <= i < m.len() && 0 <= j < m.len() && follows(m[i]) && follows(m[j]) && pte_phys(m[i])
            == pte_phys(m[j]) ==> i == j
}

/// The upper bound on frame addresses that page table entries can name unchanged: the
/// entry format extends bit 55 of an address into the bits above it.
pub open spec fn entry_addr_limit() -> int {
    0x80_0000_0000_0000
}

/// Writing an invalid entry keeps the tables well-formed as long as the new entry does not
/// point to a further table, or points to one held.
pub proof fn lemma_write_invalid(base: u64, cap: int, m1: Seq<u64>, idx: int, v: u64)
    requires
        cells_wf(base, cap, m1),
        0 <= idx < m1.len(),
        !pte_valid(m1[idx]),
        follows(v) ==> frame_index(base, m1.len() as int / 512, pte_phys(v)) is Some,
        follows(v) ==> frame_index(base, m1.len() as int / 512, pte_phys(v))->0 > idx / 512,
        follows(v) ==> forall|i: int|
            0 <= i < m1.len() && follows(#[trigger] m1[i]) ==> pte_phys(m1[i]) != pte_phys(v),
    ensures
        cells_wf(base, cap, m1.update(idx, v)),
        grows(m1, m1.update(idx, v)),
{
    reveal(cells_wf);
    reveal(grows);
    let m2 = m1.update(idx, v);
    assert forall|i: int| 0 <= i < m2.len() && follows(#[trigger] m2[i]) implies frame_index(
        base,
        m2.len() as int / 512,
        pte_phys(m2[i]),
    ) is Some && frame_index(base, m2.len() as int / 512, pte_phys(m2[i]))->0 > i / 512 by {
        if i != idx {
            assert(m2[i] == m1[i]);
        }
    }
    assert forall|i: int, j: int|
        #![trigger follows(m2[i]), follows(m2[j])]
        0 <= i < m2.len() && 0 <= j < m2.len() && follows(m2[i]) && follows(m2[j]) && pte_phys(m2[i])
            == pte_phys(m2[j]) implies i == j by {
        if i != idx && j != idx {
            assert(m2[i] == m1[i]);
            assert(m2[j] == m1[j]);
            assert(follows(m1[i]) && follows(m1[j]));
        } else if i == idx && j != idx {
            assert(m2[j] == m1[j]);
            assert(follows(m1[j]));
        } else if j == idx && i != idx {
            assert(m2[i] == m1[i]);
            assert(follows(m1[i]));
        }
    }
}

/// In well-formed tables, an entry that points to a further table names a table held.
pub proof fn lemma_wf_follow(base: u64, cap: int, m: Seq<u64>, i: int)
    requires
        cells_wf(base, cap, m),
        0 <= i < m.len(),
        follows(m[i]),
    ensures
        frame_index(base, m.len() as int / 512, pte_phys(m[i])) is Some,
{
    reveal(cells_wf);
}

/// Nothing changes: the entries grow trivially.
pub proof fn lemma_grows_refl(m: Seq<u64>)
    ensures
        grows(m, m),
{
    reveal(grows);
}

/// Growing is transitive.
pub proof fn lemma_grows_trans(m1: Seq<u64>, m2: Seq<u64>, m3: Seq<u64>)
    requires
        grows(m1, m2),
        grows(m2, m3),
    ensures
        grows(m1, m3),
{
    reveal(cells_wf);
    reveal(grows);
    assert forall|i: int| 0 <= i < m1.len() && pte_valid(m1[i]) implies #[trigger] m3[i] == m1[i] by {
        assert(m2[i] == m1[i]);
    }
}

/// The translation of `va` by a walk that reads table `t` at level index `l` and below, over
/// the entries `m` of `n` tables placed from `base`.
pub open spec fn translate_from(base: u64, n: int, m: Seq<u64>, t: int, va: u64, l: int) -> Option<
    (u64, PageLevel),
>
    decreases l + 1,
{
    if l < 0 || !(0 <= t < n) || slot(t, va, l) >= m.len() {
        None
    } else {
        let e = m[slot(t, va, l)];
        let f = pte_flag_bits(e);
        if !pte_valid(e) || (f & PTEFlags::READ == 0 && f & PTEFlags::WRITE != 0) {
            None
        } else if f & PTEFlags::RX != 0 {
            let pa = pte_phys(e);
            if pa % size_at(l) != 0 {
                None
            } else {
                Some(((pa + va % size_at(l)) as u64, level_at(l)))
            }
        } else {
            match frame_index(base, n, pte_phys(e)) {
                Some(nt) => translate_from(base, n, m, nt, va, l - 1),
                None => None,
            }
        }
    }
}

/// The table that a walk from table `root` reaches at level index `l` when translating `va`,
/// following only entries that point to further tables.
pub open spec fn walk_to(base: u64, n: int, m: Seq<u64>, root: int, va: u64, l: int) -> Option<int>
    decreases 3 - l,
{
    if l >= 3 {
        Some(root)
    } else {
        match walk_to(base, n, m, root, va, l + 1) {
            Some(t) => if 0 <= t < n && slot(t, va, l + 1) < m.len() && follows(
                m[slot(t, va, l + 1)],
            ) {
                frame_index(base, n, pte_phys(m[slot(t, va, l + 1)]))
            } else {
                None
            },
            None => None,
        }
    }
}

/// `m2` arises from `m1` by writing entries that were invalid and appending further entries.
#[verifier::opaque]
pub open spec fn grows(m1: Seq<u64>, m2: Seq<u64>) -> bool {
    &&& m1.len() <= m2.len()
    &&& forall|i: int| 0 <= i < m1.len() && pte_valid(m1[i]) ==> #[trigger] m2[i] == m1[i]
}

/// What a mapping at level index `target` finds on its walk from table `t` at level index `l`.
pub ghost enum MapProbe {
    /// The walk ends at an invalid entry; this many further tables must be created.
    Free(nat),
    /// A valid leaf is in the way: the address it maps `va` to (cut at the target level), its
    /// level, and its flag bits.
    Mapped(int, PageLevel, u8),
}

/// The outcome of the walk of a mapping of `va` at level index `target`, reading table `t` at
/// level index `l` and below.
pub open spec fn map_probe(
    base: u64,
    n: int,
    m: Seq<u64>,
    t: int,
    va: u64,
    target: int,
    l: int,
) -> MapProbe
    decreases l + 1,
{
    if l < target || l < 0 || !(0 <= t < n) || slot(t, va, l) >= m.len() {
        MapProbe::Free(0)
    } else {
        let e = m[slot(t, va, l)];
        if l == target {
            if pte_valid(e) {
                MapProbe::Mapped(
                    compute_phys_spec(pte_phys(e), va, Some(level_at(target))),
                    level_at(l),
                    pte_flag_bits(e),
                )
            } else {
                MapProbe::Free(0)
            }
        } else if follows(e) {
            match frame_index(base, n, pte_phys(e)) {
                Some(nt) => map_probe(base, n, m, nt, va, target, l - 1),
                None => MapProbe::Free(0),
            }
        } else if !pte_valid(e) {
            MapProbe::Free((l - target) as nat)
        } else {
            MapProbe::Mapped(
                compute_phys_spec(pte_phys(e), va, Some(level_at(target))),
                level_at(l),
                pte_flag_bits(e),
            )
        }
    }
}

proof fn lemma_follow_bits(f: u8)
    ensures
        f & PTEFlags::RWX == 0 ==> f & PTEFlags::RX == 0 && !(f & PTEFlags::READ == 0 && f
            & PTEFlags::WRITE != 0),
        f & PTEFlags::RX != 0 ==> f & PTEFlags::RWX != 0,
{
    assert((f & 0x0e == 0 ==> f & 0x0a == 0 && f & 0x04 == 0) && (f & 0x0a != 0 ==> f & 0x0e != 0))
        by (bit_vector);
}

/// Flag bits that match in the bits compared, `RWXUG`, agree on whether they make a leaf and
/// whether that leaf translates.
pub proof fn lemma_matching_flags(f: u8, g: u8)
    by (bit_vector)
    requires
        f & 0x3e == g & 0x3e,
    ensures
        f & 0x0e != 0 ==> g & 0x0e != 0,
        (f & 0x0a != 0 && !(f & 0x02 == 0 && f & 0x04 != 0)) ==> (g & 0x0a != 0 && !(g & 0x02 == 0
            && g & 0x04 != 0)),
{
}

proof fn lemma_aligned_add(a: u64, b: u64, i: int)
    requires
        a % size_at(i) == 0,
        b < size_at(i),
    ensures
        a + b <= u64::MAX,
{
    if i <= 0 {
        assert(a + b <= u64::MAX);
    } else if i == 1 {
        assert(a + b <= u64::MAX);
    } else if i == 2 {
        assert(a + b <= u64::MAX);
    } else {
        assert(a + b <= u64::MAX);
    }
}

/// Addresses within one aligned page of level index `target` share their page numbers at
/// that level and above.
pub proof fn lemma_same_page(va: u64, off: u64, target: int, j: int)
    requires
        0 <= target <= j <= 3,
        va % size_at(target) == 0,
        off < size_at(target),
        va + off <= u64::MAX,
    ensures
        page_number((va + off) as u64, j) == page_number(va, j),
{
    let a = (va + off) as u64;
    let s = size_at(target) as int;
    let big = size_at(j) as int;
    let c: int = if j == target {
        1
    } else if j == target + 1 {
        512
    } else if j == target + 2 {
        262144int
    } else {
        134217728int
    };
    assert(big == s * c);
    let q = va as int / s;
    vstd::arithmetic::div_mod::lemma_fundamental_div_mod(va as int, s);
    assert(va as int == s * q);
    assert(a as int / s == q) by {
        vstd::arithmetic::div_mod::lemma_fundamental_div_mod_converse(a as int, s, q, off as int);
    }
    vstd::arithmetic::div_mod::lemma_div_denominator(a as int, s, c);
    vstd::arithmetic::div_mod::lemma_div_denominator(va as int, s, c);
    assert(va as int / s == q) by {
        vstd::arithmetic::div_mod::lemma_fundamental_div_mod_converse(va as int, s, q, 0);
    }
    assert(a as int / big == va as int / big);
}

/// Walks for two addresses that share their page numbers above level index `l` reach the same
/// table at `l`.
pub proof fn lemma_walk_same_numbers(base: u64, n: int, m: Seq<u64>, root: int, va1: u64, va2: u64, l: int)
    requires
        0 <= l <= 3,
        forall|j: int| l < j <= 3 ==> page_number(va1, j) == page_number(va2, j),
    ensures
        walk_to(base, n, m, root, va1, l) == walk_to(base, n, m, root, va2, l),
    decreases 3 - l,
{
    if l < 3 {
        lemma_walk_same_numbers(base, n, m, root, va1, va2, l + 1);
    }
}

proof fn lemma_leaf_bits(pa: u64, f: u8)
    requires
        f & PTEFlags::RWX != 0,
    ensures
        !follows(pte_bits(pa, f | PTEFlags::VALID)),
        pte_valid(pte_bits(pa, f | PTEFlags::VALID)),
        pte_flag_bits(pte_bits(pa, f | PTEFlags::VALID)) == f | PTEFlags::VALID,
        readable_leaf(f) ==> readable_leaf(f | PTEFlags::VALID),
{
    let g = f | PTEFlags::VALID;
    assert((f & 0x0e != 0 ==> (f | 1) & 0x0e != 0) && (f | 1) % 2 == 1 && ((f & 0x0a != 0 && !(f
        & 0x02 == 0 && f & 0x04 != 0)) ==> ((f | 1) & 0x0a != 0 && !((f | 1) & 0x02 == 0 && (f
        | 1) & 0x04 != 0)))) by (bit_vector);
    let e = pte_bits(pa, g);
    let p = (pa as int / 0x1000) % 0x1000_0000_0000;
    assert(e as int == p * 0x400 + g as int);
    assert(e as int % 256 == g as int) by {
        vstd::arithmetic::div_mod::lemma_fundamental_div_mod_converse(e as int, 256, p * 4, g as int);
    }
    assert(e as int % 2 == 1) by {
        vstd::arithmetic::div_mod::lemma_fundamental_div_mod_converse(e as int, 2, p * 0x200 + g as int / 2, 1);
    }
}

/// After a leaf for `pa` at level `level` is written into table `t` where the walk for `va`
/// reads, every address within the page translates from `t` to the matching address within
/// `pa`'s page.
pub proof fn lemma_leaf_translates_at(
    base: u64,
    n: int,
    m: Seq<u64>,
    t: int,
    va: u64,
    pa: u64,
    level: PageLevel,
    f: u8,
)
    requires
        0 <= t < n,
        m.len() == n * 512,
        m[slot(t, va, level_index(level))] == pte_bits(pa, f | PTEFlags::VALID),
        f & PTEFlags::RWX != 0,
        readable_leaf(f),
        pa < entry_addr_limit(),
        va % level_size(level) == 0,
        pa % level_size(level) == 0,
    ensures
        forall|off: u64|
            off < level_size(level) ==> #[trigger] translate_from(
                base,
                n,
                m,
                t,
                (va + off) as u64,
                level_index(level),
            ) == Some(((pa + off) as u64, level)),
{
    let target = level_index(level);
    let size = level_size(level);
    crate::sv48::lemma_size_pow2(target);
    lemma_leaf_bits(pa, f);
    crate::sv48::lemma_pte_bits_roundtrip(pa, f | PTEFlags::VALID);
    assert(pa % 0x1000 == 0) by {
        vstd::arithmetic::div_mod::lemma_mod_mod(pa as int, 0x1000, size as int / 0x1000);
    }
    assert forall|off: u64| off < size implies #[trigger] translate_from(
        base,
        n,
        m,
        t,
        (va + off) as u64,
        target,
    ) == Some(((pa + off) as u64, level)) by {
        lemma_aligned_add(va, off, target);
        lemma_aligned_add(pa, off, target);
        let va2 = (va + off) as u64;
        lemma_same_page(va, off, target, target);
        assert(va2 % size == off) by {
            vstd::arithmetic::div_mod::lemma_fundamental_div_mod(va as int, size as int);
            assert(va2 as int == (va as int / size as int) * size as int + off as int) by (
            nonlinear_arith)
                requires
                    va as int == size as int * (va as int / size as int) + va as int % size as int,
                    va as int % size as int == 0,
                    va2 as int == va as int + off as int,
            ;
            vstd::arithmetic::div_mod::lemma_fundamental_div_mod_converse(
                va2 as int,
                size as int,
                va as int / size as int,
                off as int,
            );
        }
        assert(0 <= page_number(va2, target) < 512);
        assert(slot(t, va2, target) < m.len()) by (nonlinear_arith)
            requires
                0 <= t < n,
                0 <= page_number(va2, target) < 512,
                m.len() == n * 512,
                slot(t, va2, target) == t * 512 + page_number(va2, target),
        ;
    }
}

proof fn lemma_table_bits(pa: u64)
    ensures
        pte_valid(pte_bits(pa, PTEFlags::VALID)),
        follows(pte_bits(pa, PTEFlags::VALID)),
{
    let e = pte_bits(pa, PTEFlags::VALID);
    let p = (pa as int / 0x1000) % 0x1000_0000_0000;
    assert(e as int == p * 0x400 + 1);
    assert(e as int % 256 == 1) by {
        vstd::arithmetic::div_mod::lemma_fundamental_div_mod_converse(e as int, 256, p * 4, 1);
    }
    assert(e as int % 2 == 1) by {
        vstd::arithmetic::div_mod::lemma_fundamental_div_mod_converse(e as int, 2, p * 0x200, 1);
    }
    assert(1u8 & 0x0eu8 == 0) by (bit_vector);
}

/// What a mapping of `va` at level `level` with flag bits `f`, walking from table `t` at level
/// index `l` over the tables before (`b0`, `c0`, `n0`, `m0`), yields as result `r` and tables
/// after (`b1`, `c1`, `n1`, `m1`).
pub open spec fn map_post(
    b0: u64,
    c0: int,
    n0: int,
    m0: Seq<u64>,
    b1: u64,
    c1: int,
    n1: int,
    m1: Seq<u64>,
    r: Result<Vec<PAddr>, MapError>,
    t: int,
    l: int,
    va: u64,
    pa: u64,
    level: PageLevel,
    f: u8,
) -> bool {
    &&& b1 == b0
    &&& c1 == c0
    &&& grows(m0, m1)
    &&& n0 <= n1
    &&& match map_probe(b0, n0, m0, t, va, level_index(level), l) {
        MapProbe::Mapped(p, lv, g) => r == Err::<Vec<PAddr>, MapError>(
            MapError::AlreadyMapped(PAddr(p as u64), lv, PTEFlags { bits: g }),
        ) && m1 == m0,
        MapProbe::Free(k) => (k <= c0 - n0 ==> r is Ok && r->Ok_0.len() == k && n1 == n0 + k) && (k
            > c0 - n0 ==> r == Err::<Vec<PAddr>, MapError>(MapError::OutOfMemory)),
    }
    &&& r matches Ok(allocs) ==> forall|i: int|
        0 <= i < allocs.len() ==> (#[trigger] allocs[i])@ == b0 + (n0 + i) * 0x1000
    &&& r is Ok && readable_leaf(f) && pa < entry_addr_limit() ==> forall|off: u64|
        off < level_size(level) ==> #[trigger] translate_from(b1, n1, m1, t, (va + off) as u64, l)
            == Some(((pa + off) as u64, level))
    &&& r is Ok ==> leaf_written(b1, n1, m1, t, va, l, level, pa, f)
}

/// The walk of `va` from table `t` at level index `l` ends, at the level of `level`, at the
/// leaf entry that names `pa` with the flag bits `f` and the valid bit.
pub open spec fn leaf_written(
    base: u64,
    n: int,
    m: Seq<u64>,
    t: int,
    va: u64,
    l: int,
    level: PageLevel,
    pa: u64,
    f: u8,
) -> bool {
    unmap_walk(base, n, m, t, va, l) matches Some(Ok((s, k))) && k == level_index(level) && m[s]
        == pte_bits(pa, f | PTEFlags::VALID)
}

/// A leaf written below an entry that points to a further table is reached from the table of
/// that entry too.
pub proof fn lemma_leaf_kept(
    base: u64,
    n1: int,
    m1: Seq<u64>,
    n2: int,
    m2: Seq<u64>,
    t: int,
    nt: int,
    l: int,
    va: u64,
    pa: u64,
    level: PageLevel,
    f: u8,
)
    requires
        grows(m1, m2),
        n1 <= n2,
        m1.len() == n1 * 512,
        m2.len() == n2 * 512,
        0 <= t < n1,
        0 < l <= 3,
        follows(m1[slot(t, va, l)]),
        frame_index(base, n1, pte_phys(m1[slot(t, va, l)])) == Some(nt),
        leaf_written(base, n2, m2, nt, va, l - 1, level, pa, f),
    ensures
        leaf_written(base, n2, m2, t, va, l, level, pa, f),
{
    lemma_slot_table(t, va, l);
    let x = slot(t, va, l);
    assert(x < m1.len()) by (nonlinear_arith)
        requires
            x == t * 512 + page_number(va, l),
            page_number(va, l) < 512,
            t < n1,
            m1.len() == n1 * 512,
    ;
    reveal(grows);
    assert(pte_valid(m1[x]));
    assert(m2[x] == m1[x]);
    assert(unmap_walk(base, n2, m2, t, va, l) == unmap_walk(base, n2, m2, nt, va, l - 1));
}

/// Entry `s` is the one the walk of `va` from table `root` reads at level index `j`, between
/// `lo` and `hi`; above `lo` it points to a further table.
pub open spec fn on_walk_at(
    base: u64,
    n: int,
    m: Seq<u64>,
    root: int,
    va: u64,
    lo: int,
    hi: int,
    s: int,
    j: int,
) -> bool {
    &&& lo <= j <= hi
    &&& walk_to(base, n, m, root, va, j) is Some
    &&& s == slot(walk_to(base, n, m, root, va, j)->0, va, j)
    &&& (j > lo ==> follows(m[s]))
}

/// Entry `s` is one the walk of `va` from table `root` reads at a level index between `lo` and
/// `hi` (see [`on_walk_at`]).
pub open spec fn on_walk(
    base: u64,
    n: int,
    m: Seq<u64>,
    root: int,
    va: u64,
    lo: int,
    hi: int,
    s: int,
) -> bool {
    ||| on_walk_at(base, n, m, root, va, lo, hi, s, 0)
    ||| on_walk_at(base, n, m, root, va, lo, hi, s, 1)
    ||| on_walk_at(base, n, m, root, va, lo, hi, s, 2)
    ||| on_walk_at(base, n, m, root, va, lo, hi, s, 3)
}

/// Entry `e`, if it points to a table, points to one placed at index `n0` or later, among `n`
/// tables.
pub open spec fn new_target(base: u64, n: int, e: u64, n0: int) -> bool {
    follows(e) ==> frame_index(base, n, pte_phys(e)) is Some && frame_index(base, n, pte_phys(e))->0
        >= n0
}

/// The entries `m2` differ from `m1`, extended by cleared tables, only on the walk of `va` from
/// table `root` in `m2`, between level indices `lo` and `hi`; an entry that changed to point to
/// a table points to one that `m1` did not hold, and one that changed to a leaf names
/// `leaf_pa`.
pub open spec fn map_changes(
    base: u64,
    m1: Seq<u64>,
    n2: int,
    m2: Seq<u64>,
    root: int,
    va: u64,
    lo: int,
    hi: int,
    leaf_pa: int,
) -> bool {
    forall|s: int|
        0 <= s < m2.len() ==> #[trigger] m2[s] == (if s < m1.len() {
            m1[s]
        } else {
            0
        }) || (on_walk(base, n2, m2, root, va, lo, hi, s) && new_target(base, n2, m2[s], m1.len() as int / 512)
            && leaf_at(m2[s], leaf_pa))
}

/// Entry `e`, if it is a valid leaf, names `leaf_pa`, whenever that lies below the limit of
/// addresses that entries hold unchanged.
pub open spec fn leaf_at(e: u64, leaf_pa: int) -> bool {
    pte_valid(e) && !follows(e) && leaf_pa < entry_addr_limit() ==> pte_phys(e) == leaf_pa
}

/// Writing the invalid entry that the walk of `va` reads at level index `l` changes the entries
/// only on that walk.
pub proof fn lemma_write_on_walk(
    base: u64,
    n: int,
    m1: Seq<u64>,
    root: int,
    va: u64,
    lo: int,
    l: int,
    t: int,
    v: u64,
    leaf_pa: int,
)
    requires
        m1.len() == n * 512,
        0 <= root < n,
        0 <= lo == l <= 3,
        leaf_at(v, leaf_pa),
        walk_to(base, n, m1, root, va, l) == Some(t),
        0 <= slot(t, va, l) < m1.len(),
        !pte_valid(m1[slot(t, va, l)]),
        !follows(v),
    ensures
        grows(m1, m1.update(slot(t, va, l), v)),
        map_changes(base, m1, n, m1.update(slot(t, va, l), v), root, va, lo, l, leaf_pa),
{
    reveal(grows);
    let x = slot(t, va, l);
    let m2 = m1.update(x, v);
    assert(grows(m1, m2));
    lemma_grows_walk(base, n, m1, n, m2, root, va, l);
    assert(on_walk_at(base, n, m2, root, va, lo, l, x, l));
    assert forall|s: int| 0 <= s < m2.len() implies #[trigger] m2[s] == (if s < m1.len() {
        m1[s]
    } else {
        0
    }) || (on_walk(base, n, m2, root, va, lo, l, s) && new_target(base, n, m2[s], m1.len() as int / 512) && leaf_at(m2[s], leaf_pa)) by {
        if s == x {
            assert(on_walk_at(base, n, m2, root, va, lo, l, s, l));
        }
    }
}

/// The changes of a mapping step that creates a table: the new table is cleared, the entry at
/// `idx` points to it, and the walk goes on below.
pub proof fn lemma_map_changes_alloc(
    base: u64,
    n0: int,
    m0: Seq<u64>,
    m1: Seq<u64>,
    m2: Seq<u64>,
    n3: int,
    m3: Seq<u64>,
    root: int,
    va: u64,
    lo: int,
    l: int,
    t: int,
    leaf_pa: int,
)
    requires
        0 <= lo < l <= 3,
        m1.len() == m0.len() + 512,
        forall|i: int| 0 <= i < m0.len() ==> #[trigger] m1[i] == m0[i],
        forall|i: int| m0.len() <= i < m1.len() ==> #[trigger] m1[i] == 0,
        0 <= slot(t, va, l) < m0.len(),
        m0.len() == n0 * 512,
        m2 == m1.update(slot(t, va, l), m2[slot(t, va, l)]),
        follows(m2[slot(t, va, l)]),
        frame_index(base, n3, pte_phys(m2[slot(t, va, l)])) matches Some(k) && k >= n0,
        grows(m2, m3),
        walk_to(base, n3, m3, root, va, l) == Some(t),
        map_changes(base, m2, n3, m3, root, va, lo, l - 1, leaf_pa),
    ensures
        map_changes(base, m0, n3, m3, root, va, lo, l, leaf_pa),
{
    reveal(grows);
    let x = slot(t, va, l);
    assert(m3[x] == m2[x]);
    assert(m0.len() / 512 == n0) by (nonlinear_arith)
        requires
            m0.len() == n0 * 512,
    ;
    assert(m2.len() / 512 == n0 + 1) by (nonlinear_arith)
        requires
            m2.len() == n0 * 512 + 512,
    ;
    assert forall|s: int| 0 <= s < m3.len() implies #[trigger] m3[s] == (if s < m0.len() {
        m0[s]
    } else {
        0
    }) || (on_walk(base, n3, m3, root, va, lo, l, s) && new_target(base, n3, m3[s], m0.len() as int / 512) && leaf_at(m3[s], leaf_pa)) by {
        if s == x {
            assert(on_walk_at(base, n3, m3, root, va, lo, l, s, l));
        } else if m3[s] == (if s < m2.len() {
            m2[s]
        } else {
            0
        }) {
            if s < m2.len() {
                assert(m2[s] == m1[s]);
            }
        } else {
            assert(on_walk(base, n3, m3, root, va, lo, l - 1, s));
            if on_walk_at(base, n3, m3, root, va, lo, l - 1, s, 0) {
                assert(on_walk_at(base, n3, m3, root, va, lo, l, s, 0));
            } else if on_walk_at(base, n3, m3, root, va, lo, l - 1, s, 1) {
                assert(on_walk_at(base, n3, m3, root, va, lo, l, s, 1));
            } else if on_walk_at(base, n3, m3, root, va, lo, l - 1, s, 2) {
                assert(on_walk_at(base, n3, m3, root, va, lo, l, s, 2));
            } else {
                assert(on_walk_at(base, n3, m3, root, va, lo, l, s, 3));
            }
        }
    }
}

/// Changes on the walk below a level are changes on the walk up to that level.
pub proof fn lemma_map_changes_widen(
    base: u64,
    m1: Seq<u64>,
    n2: int,
    m2: Seq<u64>,
    root: int,
    va: u64,
    lo: int,
    hi: int,
    hi2: int,
    leaf_pa: int,
)
    requires
        hi <= hi2,
        map_changes(base, m1, n2, m2, root, va, lo, hi, leaf_pa),
    ensures
        map_changes(base, m1, n2, m2, root, va, lo, hi2, leaf_pa),
{
    assert forall|s: int| 0 <= s < m2.len() implies #[trigger] m2[s] == (if s < m1.len() {
        m1[s]
    } else {
        0
    }) || (on_walk(base, n2, m2, root, va, lo, hi2, s) && new_target(base, n2, m2[s], m1.len() as int / 512) && leaf_at(m2[s], leaf_pa)) by {
        if !(m2[s] == (if s < m1.len() {
            m1[s]
        } else {
            0
        })) {
            assert(on_walk(base, n2, m2, root, va, lo, hi, s));
            if on_walk_at(base, n2, m2, root, va, lo, hi, s, 0) {
                assert(on_walk_at(base, n2, m2, root, va, lo, hi2, s, 0));
            } else if on_walk_at(base, n2, m2, root, va, lo, hi, s, 1) {
                assert(on_walk_at(base, n2, m2, root, va, lo, hi2, s, 1));
            } else if on_walk_at(base, n2, m2, root, va, lo, hi, s, 2) {
                assert(on_walk_at(base, n2, m2, root, va, lo, hi2, s, 2));
            } else {
                assert(on_walk_at(base, n2, m2, root, va, lo, hi2, s, 3));
            }
        }
    }
}

/// Nothing changed: the entries differ nowhere.
pub proof fn lemma_map_changes_none(
    base: u64,
    m: Seq<u64>,
    n: int,
    root: int,
    va: u64,
    lo: int,
    hi: int,
    leaf_pa: int,
)
    ensures
        map_changes(base, m, n, m, root, va, lo, hi, leaf_pa),
{
}

/// The walk of `v` from table `t` at level index `l` down meets no valid leaf above the last
/// level: it follows tables, and ends at an invalid entry, a missing table or the last level,
/// where a leaf names an address below bit 48.
pub open spec fn clear_from(base: u64, n: int, m: Seq<u64>, t: int, v: u64, l: int) -> bool
    decreases l + 1,
{
    if l < 0 || !(0 <= t < n) || slot(t, v, l) >= m.len() {
        true
    } else {
        let e = m[slot(t, v, l)];
        if !pte_valid(e) {
            true
        } else if follows(e) {
            if l == 0 {
                true
            } else {
                match frame_index(base, n, pte_phys(e)) {
                    Some(nt) => clear_from(base, n, m, nt, v, l - 1),
                    None => true,
                }
            }
        } else {
            l == 0 && pte_phys(e) < 0x1_0000_0000_0000
        }
    }
}

/// Growing the entries keeps every unmapping walk that ends at a leaf, and that leaf.
pub proof fn lemma_grows_unmap_walk(
    base: u64,
    n1: int,
    m1: Seq<u64>,
    n2: int,
    m2: Seq<u64>,
    t: int,
    v: u64,
    l: int,
)
    requires
        grows(m1, m2),
        n1 <= n2,
        m1.len() == n1 * 512,
        m2.len() == n2 * 512,
        unmap_walk(base, n1, m1, t, v, l) matches Some(Ok(_)),
    ensures
        unmap_walk(base, n2, m2, t, v, l) == unmap_walk(base, n1, m1, t, v, l),
        m2[unmap_walk(base, n1, m1, t, v, l)->0->Ok_0.0] == m1[unmap_walk(
            base,
            n1,
            m1,
            t,
            v,
            l,
        )->0->Ok_0.0],
    decreases l + 1,
{
    reveal(grows);
    lemma_unmap_walk_leaf(base, n1, m1, t, v, l);
    let x = slot(t, v, l);
    let e = m1[x];
    assert(m2[x] == e);
    if follows(e) {
        let nt = frame_index(base, n1, pte_phys(e))->0;
        assert(frame_index(base, n2, pte_phys(e)) == Some(nt));
        lemma_grows_unmap_walk(base, n1, m1, n2, m2, nt, v, l - 1);
    }
}

/// A mapping walk at level index `target` over an unmapping walk that ends at a leaf at
/// `target` or above meets that leaf.
#[verifier::rlimit(40)]
pub proof fn lemma_probe_leaf(base: u64, n: int, m: Seq<u64>, t: int, v: u64, target: int, l: int)
    requires
        0 <= target <= l <= 3,
        unmap_walk(base, n, m, t, v, l) matches Some(Ok((_, k))) && target <= k,
    ensures
        map_probe(base, n, m, t, v, target, l) == MapProbe::Mapped(
            compute_phys_spec(
                pte_phys(m[unmap_walk(base, n, m, t, v, l)->0->Ok_0.0]),
                v,
                Some(level_at(target)),
            ),
            level_at(unmap_walk(base, n, m, t, v, l)->0->Ok_0.1),
            pte_flag_bits(m[unmap_walk(base, n, m, t, v, l)->0->Ok_0.0]),
        ),
    decreases l,
{
    lemma_unmap_walk_leaf(base, n, m, t, v, l);
    let x = slot(t, v, l);
    let e = m[x];
    if follows(e) {
        let nt = frame_index(base, n, pte_phys(e))->0;
        assert(unmap_walk(base, n, m, t, v, l) == unmap_walk(base, n, m, nt, v, l - 1));
        lemma_unmap_walk_leaf(base, n, m, nt, v, l - 1);
        if l > target {
            lemma_probe_leaf(base, n, m, nt, v, target, l - 1);
            assert(map_probe(base, n, m, t, v, target, l) == map_probe(base, n, m, nt, v, target, l
                - 1));
        }
    } else {
        assert(unmap_walk(base, n, m, t, v, l) == Some(Ok::<(int, int), ()>((x, l))));
    }
}

/// A mapping walk at level index `target` over an unmapping walk that ends at a leaf below
/// `target` meets an entry pointing to a table there.
pub proof fn lemma_probe_above_leaf(
    base: u64,
    n: int,
    m: Seq<u64>,
    t: int,
    v: u64,
    target: int,
    l: int,
)
    requires
        0 <= target <= l <= 3,
        unmap_walk(base, n, m, t, v, l) matches Some(Ok((_, k))) && target > k,
    ensures
        match map_probe(base, n, m, t, v, target, l) {
            MapProbe::Mapped(_, _, g) => g & PTEFlags::RWX == 0,
            _ => false,
        },
    decreases l,
{
    lemma_unmap_walk_leaf(base, n, m, t, v, l);
    let x = slot(t, v, l);
    let e = m[x];
    if l > target {
        let nt = frame_index(base, n, pte_phys(e))->0;
        lemma_probe_above_leaf(base, n, m, nt, v, target, l - 1);
    }
}

/// Addresses that share their page numbers from the level of the leaf an unmapping walk ends
/// at translate through that leaf, when it names an address aligned to its level and lets
/// reading.
pub proof fn lemma_leaf_translation(
    base: u64,
    n: int,
    m: Seq<u64>,
    t: int,
    v: u64,
    w: u64,
    l: int,
)
    requires
        0 <= l <= 3,
        unmap_walk(base, n, m, t, v, l) matches Some(Ok(_)),
        readable_leaf(pte_flag_bits(m[unmap_walk(base, n, m, t, v, l)->0->Ok_0.0])),
        pte_phys(m[unmap_walk(base, n, m, t, v, l)->0->Ok_0.0]) % size_at(
            unmap_walk(base, n, m, t, v, l)->0->Ok_0.1,
        ) == 0,
        same_numbers_from(w, v, unmap_walk(base, n, m, t, v, l)->0->Ok_0.1),
    ensures
        ({
            let (s, k) = unmap_walk(base, n, m, t, v, l)->0->Ok_0;
            translate_from(base, n, m, t, w, l) == Some(
                ((pte_phys(m[s]) + w % size_at(k)) as u64, level_at(k)),
            )
        }),
    decreases l,
{
    lemma_unmap_walk_leaf(base, n, m, t, v, l);
    let (s, k) = unmap_walk(base, n, m, t, v, l)->0->Ok_0;
    assert(page_number(w, l) == page_number(v, l));
    assert(slot(t, w, l) == slot(t, v, l));
    let e = m[slot(t, v, l)];
    lemma_follow_bits(pte_flag_bits(e));
    if follows(e) && l > 0 {
        let nt = frame_index(base, n, pte_phys(e))->0;
        lemma_leaf_translation(base, n, m, nt, v, w, l - 1);
    }
}

/// A clear walk ends at no leaf above the last level.
pub proof fn lemma_clear_leaf_last(base: u64, n: int, m: Seq<u64>, t: int, v: u64, l: int)
    requires
        clear_from(base, n, m, t, v, l),
        unmap_walk(base, n, m, t, v, l) matches Some(Ok(_)),
    ensures
        unmap_walk(base, n, m, t, v, l)->0->Ok_0.1 == 0,
        pte_phys(m[unmap_walk(base, n, m, t, v, l)->0->Ok_0.0]) < 0x1_0000_0000_0000,
    decreases l,
{
    lemma_unmap_walk_leaf(base, n, m, t, v, l);
    let x = slot(t, v, l);
    let e = m[x];
    if follows(e) {
        if l > 0 {
            let nt = frame_index(base, n, pte_phys(e))->0;
            lemma_clear_leaf_last(base, n, m, nt, v, l - 1);
        }
    } else {
        assert(pte_valid(e));
        assert(unmap_walk(base, n, m, t, v, l) == Some(Ok::<(int, int), ()>((x, l))));
    }
}

/// A mapping walk of a 4 KiB-aligned `v` over a clear walk can only meet a leaf at the last
/// level; when that leaf translates, it translates the page of `v` to the address reported.
pub proof fn lemma_probe_clear(base: u64, n: int, m: Seq<u64>, t: int, v: u64, target: int, l: int)
    requires
        0 <= target <= l <= 3,
        m.len() == n * 512,
        v % 0x1000 == 0,
        v + 0x1000 <= u64::MAX + 1,
        clear_from(base, n, m, t, v, l),
        match map_probe(base, n, m, t, v, target, l) {
            MapProbe::Mapped(_, _, g) => g & PTEFlags::RWX != 0 && readable_leaf(g),
            _ => false,
        },
    ensures
        match map_probe(base, n, m, t, v, target, l) {
            MapProbe::Mapped(p, lv, _) => target == 0 && lv == PageLevel::Page4K && 0 <= p
                < 0x1_0000_0000_0000 && forall|off: u64|
                off < 0x1000 ==> #[trigger] translate_from(base, n, m, t, (v + off) as u64, l)
                    == Some(((p + off) as u64, PageLevel::Page4K)),
            _ => true,
        },
    decreases l,
{
    let x = slot(t, v, l);
    let e = m[x];
    lemma_follow_bits(pte_flag_bits(e));
    if follows(e) && l > target {
        let nt = frame_index(base, n, pte_phys(e))->0;
        lemma_probe_clear(base, n, m, nt, v, target, l - 1);
        assert forall|off: u64| off < 0x1000 implies #[trigger] translate_from(
            base,
            n,
            m,
            t,
            (v + off) as u64,
            l,
        ) == translate_from(base, n, m, nt, (v + off) as u64, l - 1) by {
            lemma_same_page(v, off, 0, l);
            assert(slot(t, (v + off) as u64, l) == x);
        }
    } else {
        assert(pte_valid(e));
        assert(!follows(e));
        assert(l == 0);
        let pa = pte_phys(e);
        lemma_pte_phys_page(e);
        lemma_page_compose(pa, v);
        assert forall|off: u64| off < 0x1000 implies #[trigger] translate_from(
            base,
            n,
            m,
            t,
            (v + off) as u64,
            l,
        ) == Some(((pa + off) as u64, PageLevel::Page4K)) by {
            lemma_same_page(v, off, 0, 0);
            assert(slot(t, (v + off) as u64, l) == x);
            lemma_aligned_add(pa, off, 0);
            assert(((v + off) as u64) % 0x1000 == off) by {
                vstd::arithmetic::div_mod::lemma_fundamental_div_mod(v as int, 0x1000);
                vstd::arithmetic::div_mod::lemma_fundamental_div_mod_converse(
                    v as int + off as int,
                    0x1000,
                    v as int / 0x1000,
                    off as int,
                );
            }
        }
    }
}

/// `v` and `va` share their page numbers from level index `lo` up.
pub open spec fn same_numbers_from(v: u64, va: u64, lo: int) -> bool {
    forall|j: int| lo <= j <= 3 ==> page_number(v, j) == page_number(va, j)
}

/// A mapping whose changes lie on the walk of `va` keeps clear the walk of every address `v`
/// outside the block of `va` at the level mapped, and of every address when that level is the
/// last.
pub proof fn lemma_map_keeps_clear_at(
    base: u64,
    cap: int,
    n1: int,
    m1: Seq<u64>,
    n2: int,
    m2: Seq<u64>,
    root: int,
    va: u64,
    lo: int,
    leaf_pa: int,
    v: u64,
    l: int,
    t: int,
)
    requires
        cells_wf(base, cap, m1),
        cells_wf(base, cap, m2),
        m1.len() == n1 * 512,
        m2.len() == n2 * 512,
        n1 <= n2,
        0 <= root < n1,
        grows(m1, m2),
        map_changes(base, m1, n2, m2, root, va, lo, 3, leaf_pa),
        0 <= lo <= 3,
        0 <= l <= 3,
        lo == 0 || !same_numbers_from(v, va, lo),
        lo == 0 ==> leaf_pa < 0x1_0000_0000_0000,
        walk_to(base, n2, m2, root, v, l) == Some(t),
        (walk_to(base, n1, m1, root, v, l) == Some(t) && t < n1 && clear_from(base, n1, m1, t, v, l))
            || t >= n1,
    ensures
        clear_from(base, n2, m2, t, v, l),
    decreases l,
{
    lemma_walk_after_root(base, cap, n2, m2, root, v, l);
    if l >= 0 {
        reveal(grows);
        reveal(cells_wf);
        lemma_slot_table(t, v, l);
        let x = slot(t, v, l);
        assert(x < m2.len()) by (nonlinear_arith)
            requires
                x == t * 512 + page_number(v, l),
                page_number(v, l) < 512,
                t < n2,
                m2.len() == n2 * 512,
        ;
        assert(m1.len() as int / 512 == n1) by (nonlinear_arith)
            requires
                m1.len() == n1 * 512,
        ;
        assert(m2.len() as int / 512 == n2) by (nonlinear_arith)
            requires
                m2.len() == n2 * 512,
        ;
        let e = m2[x];
        if t >= n1 {
            assert(x >= m1.len()) by (nonlinear_arith)
                requires
                    x == t * 512 + page_number(v, l),
                    page_number(v, l) >= 0,
                    t >= n1,
                    m1.len() == n1 * 512,
            ;
        } else {
            assert(x < m1.len()) by (nonlinear_arith)
                requires
                    x == t * 512 + page_number(v, l),
                    page_number(v, l) < 512,
                    t < n1,
                    m1.len() == n1 * 512,
            ;
        }
        assert(0u64 % 2 == 0);
        if x < m1.len() && e == m1[x] {
            if follows(e) && l >= 1 {
                let nt = frame_index(base, n1, pte_phys(e))->0;
                assert(frame_index(base, n2, pte_phys(e)) == Some(nt));
                lemma_map_keeps_clear_at(base, cap, n1, m1, n2, m2, root, va, lo, leaf_pa, v, l - 1, nt);
            }
        } else if x >= m1.len() && e == 0 {
        } else {
            assert(on_walk(base, n2, m2, root, va, lo, 3, x));
            let j: int = if on_walk_at(base, n2, m2, root, va, lo, 3, x, 0) {
                0
            } else if on_walk_at(base, n2, m2, root, va, lo, 3, x, 1) {
                1
            } else if on_walk_at(base, n2, m2, root, va, lo, 3, x, 2) {
                2
            } else {
                3
            };
            assert(on_walk_at(base, n2, m2, root, va, lo, 3, x, j));
            let tj = walk_to(base, n2, m2, root, va, j)->0;
            lemma_walk_after_root(base, cap, n2, m2, root, va, j);
            lemma_slot_table(tj, va, j);
            assert(tj == t);
            lemma_walk_same_table(base, cap, n2, m2, root, v, l, va, j);
            assert(page_number(v, l) == page_number(va, j));
            if follows(e) && l >= 1 {
                let nt = frame_index(base, n2, pte_phys(e))->0;
                lemma_map_keeps_clear_at(base, cap, n1, m1, n2, m2, root, va, lo, leaf_pa, v, l - 1, nt);
            } else if pte_valid(e) && !follows(e) {
                assert(j == lo);
                if lo > 0 {
                    assert(same_numbers_from(v, va, lo));
                }
            }
        }
    }
}

/// Every address whose walk from table `root` was clear in `m1`, outside the block of `va` at
/// level index `lo` unless `lo` is the last level, has a clear walk in `m2`.
pub open spec fn keeps_clear(
    base: u64,
    n1: int,
    m1: Seq<u64>,
    n2: int,
    m2: Seq<u64>,
    root: int,
    va: u64,
    lo: int,
) -> bool {
    forall|v: u64|
        clear_from(base, n1, m1, root, v, 3) && (lo == 0 || !same_numbers_from(v, va, lo))
            ==> #[trigger] clear_from(base, n2, m2, root, v, 3)
}

/// The entry an unmapping of `va` clears, walking from table `t` at level index `l`: `Ok` with
/// its position and level index when the walk ends at a valid leaf, `Err` when it ends at an
/// invalid entry, and `None` when the walk runs past the last level.
pub open spec fn unmap_walk(base: u64, n: int, m: Seq<u64>, t: int, va: u64, l: int) -> Option<
    Result<(int, int), ()>,
>
    decreases l + 1,
{
    if l < 0 || !(0 <= t < n) || slot(t, va, l) >= m.len() {
        None
    } else {
        let e = m[slot(t, va, l)];
        if follows(e) {
            match frame_index(base, n, pte_phys(e)) {
                Some(nt) => unmap_walk(base, n, m, nt, va, l - 1),
                None => None,
            }
        } else if pte_valid(e) {
            Some(Ok((slot(t, va, l), l)))
        } else {
            Some(Err(()))
        }
    }
}

/// A free probe of a walk from the top level asks for at most three tables.
pub proof fn lemma_probe_free_bound(base: u64, n: int, m: Seq<u64>, t: int, va: u64, target: int, l: int)
    requires
        0 <= target,
        l <= 3,
    ensures
        map_probe(base, n, m, t, va, target, l) matches MapProbe::Free(k) ==> k <= 3,
    decreases l + 1,
{
    if !(l < target || l < 0 || !(0 <= t < n) || slot(t, va, l) >= m.len()) && l != target {
        let e = m[slot(t, va, l)];
        if follows(e) {
            if let Some(nt) = frame_index(base, n, pte_phys(e)) {
                lemma_probe_free_bound(base, n, m, nt, va, target, l - 1);
            }
        }
    }
}

/// Clearing the entry that an unmapping walk ends at leaves `va` untranslated.
pub proof fn lemma_unmap_translate(base: u64, n: int, m: Seq<u64>, t: int, va: u64, l: int)
    requires
        unmap_walk(base, n, m, t, va, l) matches Some(Ok(_)),
    ensures
        ({
            let s = unmap_walk(base, n, m, t, va, l)->0->Ok_0.0;
            &&& 0 <= s < m.len()
            &&& pte_valid(m[s])
            &&& !follows(m[s])
            &&& translate_from(base, n, m.update(s, 0), t, va, l) is None
        }),
    decreases l + 1,
{
    let e = m[slot(t, va, l)];
    lemma_follow_bits(pte_flag_bits(e));
    if follows(e) {
        let nt = frame_index(base, n, pte_phys(e))->0;
        lemma_unmap_translate(base, n, m, nt, va, l - 1);
    } else {
        assert(0u64 % 2 == 0);
    }
}

/// Clearing an entry that does not point to a further table keeps every unmapping walk from
/// running past the last level.
pub proof fn lemma_clear_keeps_walk(base: u64, n: int, m: Seq<u64>, s: int, t: int, v: u64, l: int)
    requires
        0 <= s < m.len(),
        !follows(m[s]),
        unmap_walk(base, n, m, t, v, l) is Some,
    ensures
        unmap_walk(base, n, m.update(s, 0), t, v, l) is Some,
    decreases l + 1,
{
    let x = slot(t, v, l);
    let e = m[x];
    if x != s && follows(e) {
        let nt = frame_index(base, n, pte_phys(e))->0;
        lemma_clear_keeps_walk(base, n, m, s, nt, v, l - 1);
    } else {
        assert(0u64 % 2 == 0);
        assert(!follows(0));
    }
}

/// An address aligned to a page of level index `l` is aligned to a 4 KiB page.
pub proof fn lemma_finer_page(a: u64, l: int)
    requires
        a % size_at(l) == 0,
    ensures
        a % 0x1000 == 0,
{
    let c: int = if l <= 0 {
        1
    } else if l == 1 {
        512
    } else if l == 2 {
        262144
    } else {
        134217728
    };
    assert(size_at(l) == 0x1000 * c);
    vstd::arithmetic::div_mod::lemma_fundamental_div_mod(a as int, size_at(l) as int);
    assert(a as int == (a as int / size_at(l) as int * c) * 0x1000) by (nonlinear_arith)
        requires
            a as int == size_at(l) as int * (a as int / size_at(l) as int) + a as int % size_at(l) as int,
            a as int % size_at(l) as int == 0,
            size_at(l) == 0x1000 * c,
    ;
    vstd::arithmetic::div_mod::lemma_mod_multiples_basic(a as int / size_at(l) as int * c, 0x1000);
}

/// The address an entry names lies on a 4 KiB boundary.
pub proof fn lemma_pte_phys_page(e: u64)
    ensures
        pte_phys(e) % 0x1000 == 0,
{
    let k = (e as int / 0x400) % 0x1000_0000_0000;
    let hi: int = if (e as int / 0x20_0000_0000_0000) % 2 == 1 {
        0xf_f000_0000_0000
    } else {
        0
    };
    assert(0 <= k < 0x1000_0000_0000);
    assert(k * 0x1000 + hi * 0x1000 < 0x1_0000_0000_0000_0000) by (nonlinear_arith)
        requires
            0 <= k < 0x1000_0000_0000,
            hi == 0 || hi == 0xf_f000_0000_0000,
    ;
    assert(pte_phys(e) as int == (k + hi) * 0x1000);
    vstd::arithmetic::div_mod::lemma_mod_multiples_basic(k + hi, 0x1000);
}

/// A 4 KiB-aligned address below bit 48 is made up of its page numbers.
pub proof fn lemma_page_compose(pa: u64, va: u64)
    requires
        pa < 0x1_0000_0000_0000,
        pa % 0x1000 == 0,
        va % 0x1000 == 0,
    ensures
        compute_phys_spec(pa, va, Some(PageLevel::Page4K)) == pa,
{
    let x = pa as int;
    let q0 = x / 0x1000;
    let q1 = q0 / 512;
    let q2 = q1 / 512;
    let q3 = q2 / 512;
    vstd::arithmetic::div_mod::lemma_fundamental_div_mod(x, 0x1000);
    vstd::arithmetic::div_mod::lemma_fundamental_div_mod(q0, 512);
    vstd::arithmetic::div_mod::lemma_fundamental_div_mod(q1, 512);
    vstd::arithmetic::div_mod::lemma_fundamental_div_mod(q2, 512);
    vstd::arithmetic::div_mod::lemma_div_denominator(x, 0x1000, 512);
    vstd::arithmetic::div_mod::lemma_div_denominator(x, 0x20_0000, 512);
    vstd::arithmetic::div_mod::lemma_div_denominator(x, 0x4000_0000, 512);
    assert(q1 == x / 0x20_0000);
    assert(q2 == x / 0x4000_0000);
    assert(q3 == x / 0x80_0000_0000);
    assert(q3 < 512) by {
        vstd::arithmetic::div_mod::lemma_div_by_multiple_is_strongly_ordered(x, 0x1_0000_0000_0000, 512, 0x80_0000_0000);
    }
    vstd::arithmetic::div_mod::lemma_small_mod(q3 as nat, 512);
    assert(page_number(pa, 0) == q0 % 512);
    assert(page_number(pa, 1) == q1 % 512);
    assert(page_number(pa, 2) == q2 % 512);
    assert(page_number(pa, 3) == q3);
    assert(x == q3 * 0x80_0000_0000 + (q2 % 512) * 0x4000_0000 + (q1 % 512) * 0x20_0000 + (q0
        % 512) * 0x1000) by (nonlinear_arith)
        requires
            x == 0x1000 * q0 + x % 0x1000,
            x % 0x1000 == 0,
            q0 == 512 * q1 + q0 % 512,
            q1 == 512 * q2 + q1 % 512,
            q2 == 512 * q3 + q2 % 512,
    ;
}

/// An address aligned to a page of level index `k` has page number zero at every level below.
pub proof fn lemma_aligned_numbers(x: u64, k: int, j: int)
    requires
        0 <= j < k <= 3,
        x % size_at(k) == 0,
    ensures
        page_number(x, j) == 0,
{
    let c: int = if k == j + 1 {
        1
    } else if k == j + 2 {
        512
    } else {
        262144
    };
    assert(size_at(k) == size_at(j) * 512 * c);
    let q = x as int / size_at(k) as int;
    vstd::arithmetic::div_mod::lemma_fundamental_div_mod(x as int, size_at(k) as int);
    assert(x as int == (q * c * 512) * size_at(j) as int) by (nonlinear_arith)
        requires
            x as int == size_at(k) as int * q + x as int % size_at(k) as int,
            x as int % size_at(k) as int == 0,
            size_at(k) == size_at(j) * 512 * c,
    ;
    vstd::arithmetic::div_mod::lemma_div_multiples_vanish(q * c * 512, size_at(j) as int);
    assert(x as int / size_at(j) as int == q * c * 512) by {
        assert(x as int == size_at(j) as int * (q * c * 512)) by (nonlinear_arith)
            requires
                x as int == (q * c * 512) * size_at(j) as int,
        ;
    }
    vstd::arithmetic::div_mod::lemma_mod_multiples_basic(q * c, 512);
}

/// The address a mapping reports for a leaf that names `p`, aligned like `va` to a page of
/// level index `k`, is `p` at every target level up to `k`.
pub proof fn lemma_compute_phys_aligned(p: u64, va: u64, k: int, lt: int)
    requires
        0 <= lt <= k <= 3,
        p < 0x1_0000_0000_0000,
        p % size_at(k) == 0,
        va % size_at(k) == 0,
    ensures
        compute_phys_spec(p, va, Some(level_at(lt))) == p,
{
    lemma_finer_page(p, k);
    lemma_finer_page(va, k);
    lemma_page_compose(p, va);
    if k > 0 {
        lemma_aligned_numbers(p, k, 0);
        lemma_aligned_numbers(va, k, 0);
    }
    if k > 1 {
        lemma_aligned_numbers(p, k, 1);
        lemma_aligned_numbers(va, k, 1);
    }
    if k > 2 {
        lemma_aligned_numbers(p, k, 2);
        lemma_aligned_numbers(va, k, 2);
    }
}

/// The number of blocks of level index `l` within the 48-bit space that page numbers span.
pub open spec fn blocks_in_space(l: int) -> int {
    if l <= 0 {
        68719476736
    } else if l == 1 {
        134217728
    } else if l == 2 {
        262144
    } else {
        512
    }
}

/// Addresses that share their page numbers from level index `l` up lie in blocks of that level
/// whose indices agree within the 48-bit space.
pub proof fn lemma_numbers_block_index(v: u64, w: u64, l: int)
    requires
        0 <= l <= 3,
        same_numbers_from(v, w, l),
    ensures
        (v as int / size_at(l) as int) % blocks_in_space(l) == (w as int / size_at(l) as int)
            % blocks_in_space(l),
    decreases 3 - l,
{
    assert(page_number(v, l) == page_number(w, l));
    if l < 3 {
        lemma_numbers_block_index(v, w, l + 1);
        let qv = v as int / size_at(l) as int;
        let qw = w as int / size_at(l) as int;
        assert(size_at(l) * 512 == size_at(l + 1));
        vstd::arithmetic::div_mod::lemma_div_denominator(v as int, size_at(l) as int, 512);
        vstd::arithmetic::div_mod::lemma_div_denominator(w as int, size_at(l) as int, 512);
        assert(512 * blocks_in_space(l + 1) == blocks_in_space(l));
        vstd::arithmetic::div_mod::lemma_mod_breakdown(qv, 512, blocks_in_space(l + 1));
        vstd::arithmetic::div_mod::lemma_mod_breakdown(qw, 512, blocks_in_space(l + 1));
    }
}

/// An address at least one block of level index `l` past an aligned address `a`, and less than
/// the 48-bit space past it, differs from `a` in a page number from `l` up.
pub proof fn lemma_distinct_blocks(v: u64, a: u64, l: int)
    requires
        0 <= l <= 3,
        a % size_at(l) == 0,
        a + size_at(l) <= v,
        v < a + 0x1_0000_0000_0000,
    ensures
        !same_numbers_from(v, a, l),
{
    if same_numbers_from(v, a, l) {
        lemma_numbers_block_index(v, a, l);
        let sz = size_at(l) as int;
        let b = blocks_in_space(l);
        assert(sz * b == 0x1_0000_0000_0000);
        let qa = a as int / sz;
        let qv = v as int / sz;
        vstd::arithmetic::div_mod::lemma_fundamental_div_mod(a as int, sz);
        vstd::arithmetic::div_mod::lemma_fundamental_div_mod(v as int, sz);
        assert(qv >= qa + 1) by (nonlinear_arith)
            requires
                a as int == sz * qa,
                v as int == sz * qv + v as int % sz,
                v as int % sz < sz,
                a as int + sz <= v as int,
                sz > 0,
        ;
        assert(qv < qa + b) by (nonlinear_arith)
            requires
                a as int == sz * qa,
                v as int == sz * qv + v as int % sz,
                v as int % sz >= 0,
                (v as int) < a as int + sz * b,
                sz > 0,
        ;
        vstd::arithmetic::div_mod::lemma_fundamental_div_mod(qa, b);
        vstd::arithmetic::div_mod::lemma_fundamental_div_mod(qv, b);
        assert(false) by (nonlinear_arith)
            requires
                qa == b * (qa / b) + qa % b,
                qv == b * (qv / b) + qv % b,
                qa % b == qv % b,
                qa + 1 <= qv,
                qv < qa + b,
                b > 0,
        ;
    }
}

/// Addresses in one block of level index `l` lie in one block of every level index `j` above,
/// and share their page numbers there.
pub proof fn lemma_same_block(v: u64, w: u64, l: int, j: int)
    requires
        0 <= l <= j <= 3,
        v as int / size_at(l) as int == w as int / size_at(l) as int,
    ensures
        v as int / size_at(j) as int == w as int / size_at(j) as int,
        page_number(v, j) == page_number(w, j),
{
    let c: int = if j == l {
        1
    } else if j == l + 1 {
        512
    } else if j == l + 2 {
        262144
    } else {
        134217728
    };
    assert(size_at(l) * c == size_at(j));
    vstd::arithmetic::div_mod::lemma_div_denominator(v as int, size_at(l) as int, c);
    vstd::arithmetic::div_mod::lemma_div_denominator(w as int, size_at(l) as int, c);
}

/// An unmapping walk that ends at a valid leaf ends at or above the level index it starts
/// from, at an entry held.
pub proof fn lemma_unmap_walk_leaf(base: u64, n: int, m: Seq<u64>, t: int, v: u64, l: int)
    requires
        unmap_walk(base, n, m, t, v, l) matches Some(Ok(_)),
    ensures
        ({
            let (s, k) = unmap_walk(base, n, m, t, v, l)->0->Ok_0;
            &&& 0 <= k <= l
            &&& 0 <= s < m.len()
            &&& pte_valid(m[s])
            &&& !follows(m[s])
        }),
    decreases l + 1,
{
    let e = m[slot(t, v, l)];
    if follows(e) {
        let nt = frame_index(base, n, pte_phys(e))->0;
        lemma_unmap_walk_leaf(base, n, m, nt, v, l - 1);
    }
}

/// Addresses that share their page numbers from the level of a leaf up reach that leaf alike.
pub proof fn lemma_unmap_walk_shared(
    base: u64,
    n: int,
    m: Seq<u64>,
    t: int,
    v: u64,
    w: u64,
    l: int,
    s: int,
    k: int,
)
    requires
        l <= 3,
        unmap_walk(base, n, m, t, w, l) == Some(Ok::<(int, int), ()>((s, k))),
        forall|j: int| k <= j <= 3 ==> page_number(v, j) == page_number(w, j),
    ensures
        unmap_walk(base, n, m, t, v, l) == Some(Ok::<(int, int), ()>((s, k))),
    decreases l + 1,
{
    lemma_unmap_walk_leaf(base, n, m, t, w, l);
    assert(page_number(v, l) == page_number(w, l));
    assert(slot(t, v, l) == slot(t, w, l));
    let e = m[slot(t, w, l)];
    if follows(e) {
        let nt = frame_index(base, n, pte_phys(e))->0;
        lemma_unmap_walk_shared(base, n, m, nt, v, w, l - 1, s, k);
    }
}

/// Clearing the leaf an unmapping walk ends at makes that walk end at an invalid entry.
pub proof fn lemma_unmap_walk_cleared(base: u64, n: int, m: Seq<u64>, t: int, v: u64, l: int)
    requires
        unmap_walk(base, n, m, t, v, l) matches Some(Ok(_)),
    ensures
        unmap_walk(base, n, m.update(unmap_walk(base, n, m, t, v, l)->0->Ok_0.0, 0), t, v, l)
            == Some(Err::<(int, int), ()>(())),
    decreases l + 1,
{
    lemma_unmap_walk_leaf(base, n, m, t, v, l);
    let s = unmap_walk(base, n, m, t, v, l)->0->Ok_0.0;
    let x = slot(t, v, l);
    let e = m[x];
    assert(0u64 % 2 == 0);
    if follows(e) {
        assert(x != s);
        let nt = frame_index(base, n, pte_phys(e))->0;
        lemma_unmap_walk_cleared(base, n, m, nt, v, l - 1);
    } else {
        assert(x == s);
    }
}

/// Clearing an entry keeps every address that did not translate untranslated.
pub proof fn lemma_clear_keeps_untranslated(
    base: u64,
    n: int,
    m: Seq<u64>,
    s: int,
    t: int,
    v: u64,
    l: int,
)
    requires
        0 <= s < m.len(),
        translate_from(base, n, m, t, v, l) is None,
    ensures
        translate_from(base, n, m.update(s, 0), t, v, l) is None,
    decreases l + 1,
{
    let m2 = m.update(s, 0);
    if !(l < 0 || !(0 <= t < n) || slot(t, v, l) >= m.len()) {
        let x = slot(t, v, l);
        assert(0u64 % 2 == 0);
        if x != s {
            let e = m[x];
            assert(m2[x] == e);
            let f = pte_flag_bits(e);
            if pte_valid(e) && !(f & PTEFlags::READ == 0 && f & PTEFlags::WRITE != 0) && f
                & PTEFlags::RX == 0 {
                if let Some(nt) = frame_index(base, n, pte_phys(e)) {
                    lemma_clear_keeps_untranslated(base, n, m, s, nt, v, l - 1);
                }
            }
        }
    }
}

/// An entry that pointed to table `nt` keeps doing so as the entries grow; translations from
/// `nt` one level down are then translations from `t`.
pub proof fn lemma_follow_preserved(
    base: u64,
    n1: int,
    m1: Seq<u64>,
    n2: int,
    m2: Seq<u64>,
    t: int,
    nt: int,
    l: int,
    va: u64,
    pa: u64,
    level: PageLevel,
)
    requires
        grows(m1, m2),
        n1 <= n2,
        m1.len() == n1 * 512,
        m2.len() == n2 * 512,
        0 <= t < n1,
        level_index(level) < l <= 3,
        va % level_size(level) == 0,
        follows(m1[slot(t, va, l)]),
        frame_index(base, n1, pte_phys(m1[slot(t, va, l)])) == Some(nt),
        forall|off: u64|
            off < level_size(level) ==> #[trigger] translate_from(
                base,
                n2,
                m2,
                nt,
                (va + off) as u64,
                l - 1,
            ) == Some(((pa + off) as u64, level)),
    ensures
        forall|off: u64|
            off < level_size(level) ==> #[trigger] translate_from(
                base,
                n2,
                m2,
                t,
                (va + off) as u64,
                l,
            ) == Some(((pa + off) as u64, level)),
{
    reveal(grows);
    let target = level_index(level);
    crate::sv48::lemma_size_pow2(target);
    assert(0 <= page_number(va, l) < 512);
    assert(slot(t, va, l) < m1.len()) by (nonlinear_arith)
        requires
            0 <= t < n1,
            0 <= page_number(va, l) < 512,
            m1.len() == n1 * 512,
            slot(t, va, l) == t * 512 + page_number(va, l),
    ;
    let e = m1[slot(t, va, l)];
    lemma_follow_bits(pte_flag_bits(e));
    assert forall|off: u64| off < level_size(level) implies #[trigger] translate_from(
        base,
        n2,
        m2,
        t,
        (va + off) as u64,
        l,
    ) == Some(((pa + off) as u64, level)) by {
        lemma_aligned_add(va, off, target);
        lemma_same_page(va, off, target, l);
        assert(m2[slot(t, va, l)] == e);
        assert(translate_from(base, n2, m2, nt, (va + off) as u64, l - 1) == Some(((pa + off) as u64, level)));
    }
}

/// The mapping walk through a table of cleared entries needs one table per level below.
pub proof fn lemma_fresh_probe(base: u64, n: int, m: Seq<u64>, nt: int, va: u64, target: int, l: int)
    requires
        0 <= nt < n,
        m.len() == n * 512,
        forall|i: int| 0 <= i < 512 ==> #[trigger] m[nt * 512 + i] == 0,
        0 <= target <= l <= 3,
    ensures
        map_probe(base, n, m, nt, va, target, l) == MapProbe::Free((l - target) as nat),
{
    assert(0 <= page_number(va, l) < 512);
    assert(slot(nt, va, l) < m.len()) by (nonlinear_arith)
        requires
            0 <= nt < n,
            0 <= page_number(va, l) < 512,
            m.len() == n * 512,
            slot(nt, va, l) == nt * 512 + page_number(va, l),
    ;
    assert(m[nt * 512 + page_number(va, l)] == 0);
    assert(0u64 % 2 == 0);
}

/// A walk from the root reaches table `t` at level `l`; an address maps through the root as it
/// maps through `t` at `l`.
pub proof fn lemma_walk_translate(base: u64, n: int, m: Seq<u64>, root: int, va: u64, l: int)
    requires
        0 <= l <= 3,
        walk_to(base, n, m, root, va, l) is Some,
    ensures
        translate_from(base, n, m, root, va, 3) == translate_from(
            base,
            n,
            m,
            walk_to(base, n, m, root, va, l)->0,
            va,
            l,
        ),
    decreases 3 - l,
{
    if l < 3 {
        lemma_walk_translate(base, n, m, root, va, l + 1);
        let t = walk_to(base, n, m, root, va, l + 1)->0;
        let e = m[slot(t, va, l + 1)];
        lemma_follow_bits(pte_flag_bits(e));
    }
}

/// A walk from the root reaches table `t` at level `l`; a 4 KiB mapping of an address probes
/// from the root as it probes from `t` at `l`.
pub proof fn lemma_walk_probe(base: u64, n: int, m: Seq<u64>, root: int, va: u64, l: int)
    requires
        0 <= l <= 3,
        walk_to(base, n, m, root, va, l) is Some,
    ensures
        map_probe(base, n, m, root, va, 0, 3) == map_probe(
            base,
            n,
            m,
            walk_to(base, n, m, root, va, l)->0,
            va,
            0,
            l,
        ),
    decreases 3 - l,
{
    if l < 3 {
        lemma_walk_probe(base, n, m, root, va, l + 1);
        let t = walk_to(base, n, m, root, va, l + 1)->0;
        let e = m[slot(t, va, l + 1)];
        lemma_follow_bits(pte_flag_bits(e));
    }
}

/// In well-formed tables, a 4 KiB mapping of `va` that finds a free entry in a last-level table
/// (a probe of `Free(0)`) walks down to that table, whose entry for `va` is invalid.
pub proof fn lemma_probe_free_walk(base: u64, cap: int, n: int, m: Seq<u64>, root: int, va: u64, l: int)
    requires
        cells_wf(base, cap, m),
        m.len() == n * 512,
        0 <= l <= 3,
        walk_to(base, n, m, root, va, l) is Some,
        0 <= walk_to(base, n, m, root, va, l)->0 < n,
        map_probe(base, n, m, root, va, 0, 3) == MapProbe::Free(0),
    ensures
        walk_to(base, n, m, root, va, 0) is Some,
        0 <= walk_to(base, n, m, root, va, 0)->0 < n,
        !pte_valid(m[slot(walk_to(base, n, m, root, va, 0)->0, va, 0)]),
    decreases l,
{
    let t = walk_to(base, n, m, root, va, l)->0;
    lemma_walk_probe(base, n, m, root, va, l);
    lemma_slot_table(t, va, l);
    assert(slot(t, va, l) < m.len()) by (nonlinear_arith)
        requires
            0 <= t < n,
            0 <= page_number(va, l) < 512,
            m.len() == n * 512,
            slot(t, va, l) == t * 512 + page_number(va, l),
    ;
    if l > 0 {
        let e = m[slot(t, va, l)];
        lemma_follow_bits(pte_flag_bits(e));
        if follows(e) {
            lemma_wf_follow(base, cap, m, slot(t, va, l));
            assert(m.len() as int / 512 == n) by (nonlinear_arith)
                requires
                    m.len() == n * 512,
            ;
            assert(walk_to(base, n, m, root, va, l - 1) == frame_index(base, n, pte_phys(e)));
            lemma_probe_free_walk(base, cap, n, m, root, va, l - 1);
        }
    }
}

/// The entries `m2` differ from `m1`, and are as many, only at the entry of `va` in the
/// last-level table that the walk of `va` from table `root` reaches in `m1`.
#[verifier::opaque]
pub open spec fn last_slot_written(base: u64, n1: int, m1: Seq<u64>, n2: int, m2: Seq<u64>, root: int, va: u64) -> bool {
    &&& n2 == n1
    &&& walk_to(base, n1, m1, root, va, 0) is Some
    &&& m2 == m1.update(
        slot(walk_to(base, n1, m1, root, va, 0)->0, va, 0),
        m2[slot(walk_to(base, n1, m1, root, va, 0)->0, va, 0)],
    )
}

/// A mapping of a 4 KiB page that found a free entry in a last-level table changes that entry
/// alone.
proof fn lemma_free_slot_write(
    base: u64,
    cap: int,
    n1: int,
    m1: Seq<u64>,
    n2: int,
    m2: Seq<u64>,
    root: int,
    va: u64,
    leaf_pa: int,
)
    requires
        cells_wf(base, cap, m1),
        m1.len() == n1 * 512,
        m2.len() == n2 * 512,
        0 <= root < n1,
        grows(m1, m2),
        n2 == n1,
        map_probe(base, n1, m1, root, va, 0, 3) == MapProbe::Free(0),
        map_changes(base, m1, n2, m2, root, va, 0, 3, leaf_pa),
    ensures
        last_slot_written(base, n1, m1, n2, m2, root, va),
{
    reveal(last_slot_written);
    lemma_probe_free_walk(base, cap, n1, m1, root, va, 3);
    lemma_grows_walk(base, n1, m1, n2, m2, root, va, 0);
    let last = slot(walk_to(base, n1, m1, root, va, 0)->0, va, 0);
    assert(m1.len() as int / 512 == n1) by (nonlinear_arith)
        requires
            m1.len() == n1 * 512,
    ;
    assert forall|s: int| 0 <= s < m2.len() implies #[trigger] m2[s] == m1.update(last, m2[last])[s] by {
        if s != last && m2[s] != m1[s] {
            assert(on_walk(base, n2, m2, root, va, 0, 3, s) && new_target(base, n2, m2[s], n1));
            if on_walk_at(base, n2, m2, root, va, 0, 3, s, 1) || on_walk_at(base, n2, m2, root, va, 0, 3, s, 2)
                || on_walk_at(base, n2, m2, root, va, 0, 3, s, 3) {
                assert(follows(m2[s]));
                assert(false);
            }
            assert(on_walk_at(base, n2, m2, root, va, 0, 3, s, 0));
            assert(false);
        }
    }
    assert(m2 =~= m1.update(last, m2[last]));
}

/// The entry of table `t` at the page number of `va` at level index `l` lies in table `t`,
/// at that page number.
pub proof fn lemma_slot_table(t: int, va: u64, l: int)
    requires
        0 <= t,
    ensures
        0 <= page_number(va, l) < 512,
        slot(t, va, l) / 512 == t,
        slot(t, va, l) % 512 == page_number(va, l),
{
    assert(0 <= page_number(va, l) < 512);
    vstd::arithmetic::div_mod::lemma_fundamental_div_mod_converse(
        slot(t, va, l),
        512,
        t,
        page_number(va, l),
    );
}

/// A walk from the root only moves on to tables placed after the one it leaves, so it reaches
/// the root itself only at the top level.
pub proof fn lemma_walk_after_root(
    base: u64,
    cap: int,
    n: int,
    m: Seq<u64>,
    root: int,
    v: u64,
    l: int,
)
    requires
        cells_wf(base, cap, m),
        m.len() == n * 512,
        0 <= root < n,
        0 <= l <= 3,
        walk_to(base, n, m, root, v, l) is Some,
    ensures
        walk_to(base, n, m, root, v, l)->0 >= root,
        l < 3 ==> walk_to(base, n, m, root, v, l)->0 > root,
        walk_to(base, n, m, root, v, l)->0 < n,
    decreases 3 - l,
{
    reveal(cells_wf);
    if l < 3 {
        lemma_walk_after_root(base, cap, n, m, root, v, l + 1);
        let p = walk_to(base, n, m, root, v, l + 1)->0;
        lemma_slot_table(p, v, l + 1);
        let x = slot(p, v, l + 1);
        assert(follows(m[x]));
        assert(m.len() as int / 512 == n) by (nonlinear_arith)
            requires
                m.len() == n * 512,
        ;
    }
}

/// Two walks from one root that reach one table reach it at one level, and the addresses they
/// translate share their page numbers above that level.
pub proof fn lemma_walk_same_table(
    base: u64,
    cap: int,
    n: int,
    m: Seq<u64>,
    root: int,
    v: u64,
    l: int,
    w: u64,
    j: int,
)
    requires
        cells_wf(base, cap, m),
        m.len() == n * 512,
        0 <= root < n,
        0 <= l <= 3,
        0 <= j <= 3,
        walk_to(base, n, m, root, v, l) is Some,
        walk_to(base, n, m, root, v, l) == walk_to(base, n, m, root, w, j),
    ensures
        l == j,
        forall|k: int| l < k <= 3 ==> page_number(v, k) == page_number(w, k),
    decreases (3 - l) + (3 - j),
{
    lemma_walk_after_root(base, cap, n, m, root, v, l);
    lemma_walk_after_root(base, cap, n, m, root, w, j);
    if l < 3 && j < 3 {
        reveal(cells_wf);
        lemma_walk_after_root(base, cap, n, m, root, v, l + 1);
        lemma_walk_after_root(base, cap, n, m, root, w, j + 1);
        let pv = walk_to(base, n, m, root, v, l + 1)->0;
        let pw = walk_to(base, n, m, root, w, j + 1)->0;
        lemma_slot_table(pv, v, l + 1);
        lemma_slot_table(pw, w, j + 1);
        let xv = slot(pv, v, l + 1);
        let xw = slot(pw, w, j + 1);
        assert(m.len() as int / 512 == n) by (nonlinear_arith)
            requires
                m.len() == n * 512,
        ;
        assert(follows(m[xv]) && follows(m[xw]));
        assert(pte_phys(m[xv]) == pte_phys(m[xw]));
        assert(xv == xw);
        lemma_walk_same_table(base, cap, n, m, root, v, l + 1, w, j + 1);
    }
}

/// Growing the entries keeps every walk that succeeded.
pub proof fn lemma_grows_walk(
    base: u64,
    n1: int,
    m1: Seq<u64>,
    n2: int,
    m2: Seq<u64>,
    root: int,
    va: u64,
    l: int,
)
    requires
        grows(m1, m2),
        n1 <= n2,
        m1.len() == n1 * 512,
        walk_to(base, n1, m1, root, va, l) is Some,
        0 <= root < n1,
    ensures
        walk_to(base, n2, m2, root, va, l) == walk_to(base, n1, m1, root, va, l),
    decreases 3 - l,
{
    reveal(cells_wf);
    reveal(grows);
    if l < 3 {
        lemma_grows_walk(base, n1, m1, n2, m2, root, va, l + 1);
    }
}

/// Law: growing the entries keeps every translation that succeeded, from every root.
pub proof fn lemma_grows_translate(
    base: u64,
    n1: int,
    m1: Seq<u64>,
    n2: int,
    m2: Seq<u64>,
    t: int,
    va: u64,
    l: int,
)
    requires
        grows(m1, m2),
        n1 <= n2,
        m1.len() == n1 * 512,
        m2.len() == n2 * 512,
        translate_from(base, n1, m1, t, va, l) is Some,
    ensures
        translate_from(base, n2, m2, t, va, l) == translate_from(base, n1, m1, t, va, l),
    decreases l + 1,
{
    reveal(cells_wf);
    reveal(grows);
    let e = m1[slot(t, va, l)];
    assert(0 <= page_number(va, l) < 512);
    assert(slot(t, va, l) < m1.len()) by (nonlinear_arith)
        requires
            0 <= t < n1,
            0 <= page_number(va, l) < 512,
            m1.len() == n1 * 512,
            slot(t, va, l) == t * 512 + page_number(va, l),
    ;
    assert(m2[slot(t, va, l)] == e);
    let f = pte_flag_bits(e);
    if f & PTEFlags::RX == 0 {
        let nt = frame_index(base, n1, pte_phys(e))->0;
        assert(frame_index(base, n2, pte_phys(e)) == Some(nt));
        lemma_grows_translate(base, n1, m1, n2, m2, nt, va, l - 1);
    }
}

/// The physical frames that hold page tables, and the tables in them.
///
/// Table `k` lives in the frame at `base + k * PAGE_SIZE`; at most `capacity` tables fit.
pub struct TableMemory {
    base: u64,
    capacity: usize,
    entries: Vec<PTE>,
}


impl TableMemory {
    /// The address of the first frame.
    pub closed spec fn base(&self) -> u64 {
        self.base
    }

    /// The number of tables that fit.
    pub closed spec fn capacity(&self) -> int {
        self.capacity as int
    }

    /// The raw bits of all entries, table after table.
    pub closed spec fn cells(&self) -> Seq<u64> {
        self.entries@.map_values(|e: PTE| e.0)
    }

    /// The number of tables held.
    pub closed spec fn count(&self) -> int {
        self.entries.len() as int / 512
    }

    /// The table index of the frame at `pa`, if it holds a table.
    pub open spec fn index_of(&self, pa: u64) -> Option<int> {
        frame_index(self.base(), self.count(), pa)
    }

    /// The translation of `va` from the root table at `root`.
    pub open spec fn translation(&self, root: u64, va: u64) -> Option<(u64, PageLevel)> {
        match self.index_of(root) {
            Some(t) => translate_from(self.base(), self.count(), self.cells(), t, va, 3),
            None => None,
        }
    }

    /// Whether the walk of `va` from the root table at `root` is clear (see [`clear_from`]).
    pub open spec fn clear_walk(&self, root: u64, va: u64) -> bool {
        match self.index_of(root) {
            Some(t) => clear_from(self.base(), self.count(), self.cells(), t, va, 3),
            None => false,
        }
    }

    /// Whether `va` translates from the root table at `root` to the address `pa`.
    pub open spec fn maps(&self, root: u64, va: u64, pa: int) -> bool {
        match self.translation(root, va) {
            Some((p, _)) => p == pa,
            None => false,
        }
    }

    /// A mapping that changed only the last-level entry of `va` (see [`last_slot_written`]),
    /// which was free, keeps the probe of a 4 KiB mapping of every address `v` of another page
    /// of the same 2 MiB block.
    pub proof fn lemma_neighbour_probe(&self, other: &TableMemory, root: u64, va: u64, v: u64)
        requires
            self.wf(),
            other.base() == self.base(),
            self.index_of(root) is Some,
            map_probe(self.base(), self.count(), self.cells(), self.index_of(root)->0, va, 0, 3)
                == MapProbe::Free(0),
            last_slot_written(
                self.base(),
                self.count(),
                self.cells(),
                other.count(),
                other.cells(),
                self.index_of(root)->0,
                va,
            ),
            forall|j: int| 0 < j <= 3 ==> page_number(v, j) == page_number(va, j),
            page_number(v, 0) != page_number(va, 0),
        ensures
            other.index_of(root) == self.index_of(root),
            map_probe(other.base(), other.count(), other.cells(), self.index_of(root)->0, v, 0, 3)
                == map_probe(self.base(), self.count(), self.cells(), self.index_of(root)->0, v, 0, 3),
    {
        reveal(last_slot_written);
        self.lemma_wf();
        self.lemma_count_bound();
        let base = self.base();
        let n = self.count();
        let m1 = self.cells();
        let m2 = other.cells();
        let rt = self.index_of(root)->0;
        lemma_probe_free_walk(base, self.capacity(), n, m1, rt, va, 3);
        let t0 = walk_to(base, n, m1, rt, va, 0)->0;
        let last = slot(t0, va, 0);
        assert(grows(m1, m2)) by {
            reveal(grows);
        }
        lemma_grows_walk(base, n, m1, n, m2, rt, va, 0);
        lemma_walk_same_numbers(base, n, m1, rt, v, va, 0);
        lemma_walk_same_numbers(base, n, m2, rt, v, va, 0);
        lemma_walk_probe(base, n, m1, rt, v, 0);
        lemma_walk_probe(base, n, m2, rt, v, 0);
        assert(slot(t0, v, 0) != last);
        assert(m2.len() == m1.len());
        if 0 <= slot(t0, v, 0) < m1.len() {
            assert(m2[slot(t0, v, 0)] == m1[slot(t0, v, 0)]);
        }
    }

    /// Tables that grew from these hold every table these hold, at the same index.
    pub proof fn lemma_index_grows(&self, other: &TableMemory, root: u64)
        requires
            self.base() == other.base(),
            self.count() <= other.count(),
            self.index_of(root) is Some,
        ensures
            other.index_of(root) == self.index_of(root),
    {
    }

    /// Tables that grew from these keep every translation these make.
    pub proof fn lemma_grows_keeps_translation(&self, other: &TableMemory, root: u64, va: u64)
        requires
            self.wf(),
            other.wf(),
            self.base() == other.base(),
            self.count() <= other.count(),
            grows(self.cells(), other.cells()),
            self.translation(root, va) is Some,
        ensures
            other.translation(root, va) == self.translation(root, va),
            other.index_of(root) == self.index_of(root),
    {
        self.lemma_wf();
        other.lemma_wf();
        let t = self.index_of(root)->0;
        lemma_grows_translate(self.base(), self.count(), self.cells(), other.count(), other.cells(), t, va, 3);
    }

    /// Well-formedness: whole tables, within capacity and the addressable range, and every entry
    /// that points to a further table names a table held here.
    pub closed spec fn wf(&self) -> bool {
        &&& cells_wf(self.base, self.capacity as int, self.cells())
        &&& self.cells().len() == self.entries.len()
    }

    /// The facts that well-formedness keeps about the layout.
    proof fn lemma_wf(&self)
        requires
            self.wf(),
        ensures
            self.base() % 0x1000 == 0,
            self.base() + self.capacity() * 0x1000 <= entry_addr_limit(),
            self.entries.len() % 512 == 0,
            self.count() <= self.capacity(),
            self.cells().len() == self.entries.len(),
            self.cells().len() == self.count() * 512,
    {
        reveal(cells_wf);
    }

    /// The entries of well-formed tables are well-formed, one table per 512 entries.
    pub proof fn lemma_cells_wf(&self)
        requires
            self.wf(),
        ensures
            cells_wf(self.base(), self.capacity() as int, self.cells()),
            self.cells().len() as int / 512 == self.count(),
    {
        self.lemma_wf();
        assert(self.cells().len() as int / 512 == self.count()) by (nonlinear_arith)
            requires
                self.cells().len() == self.count() * 512,
        ;
    }

    /// The frame of table `k` is held here as table `k`.
    pub proof fn lemma_frame_held(&self, k: int)
        requires
            self.wf(),
            0 <= k < self.count(),
        ensures
            self.index_of((self.base() + k * 0x1000) as u64) == Some(k),
            self.base() + k * 0x1000 + 0x1000 <= entry_addr_limit(),
    {
        self.lemma_wf();
        assert(k * 0x1000 + 0x1000 <= self.capacity() * 0x1000) by (nonlinear_arith)
            requires
                k < self.capacity(),
        ;
        assert((k * 0x1000) % 0x1000 == 0) by (nonlinear_arith);
        assert((k * 0x1000) / 0x1000 == k) by (nonlinear_arith);
    }

    /// Well-formed tables stay within capacity.
    pub proof fn lemma_count_bound(&self)
        requires
            self.wf(),
        ensures
            0 <= self.count() <= self.capacity(),
            self.cells().len() == self.count() * 512,
    {
        self.lemma_wf();
    }

    /// A held frame is aligned to a page and ends below the addressable limit.
    pub proof fn lemma_held_bound(&self, pa: u64)
        requires
            self.wf(),
            self.index_of(pa) is Some,
        ensures
            pa + 0x1000 <= entry_addr_limit(),
            pa % 0x1000 == 0,
    {
        let k = self.index_of(pa)->0;
        self.lemma_frame_held(k);
        self.lemma_wf();
        assert(pa == self.base() + k * 0x1000);
        assert((self.base() + k * 0x1000) % 0x1000 == 0) by (nonlinear_arith)
            requires
                self.base() % 0x1000 == 0,
        ;
    }

    /// A held frame lies below the end of the frames of this memory.
    pub proof fn lemma_frame_below_capacity(&self, pa: u64)
        requires
            self.wf(),
            self.index_of(pa) is Some,
        ensures
            pa < self.base() + self.capacity() * 0x1000,
    {
        self.lemma_wf();
        let k = self.index_of(pa)->0;
        assert(pa < self.base() + self.capacity() * 0x1000) by (nonlinear_arith)
            requires
                pa >= self.base(),
                (pa - self.base()) % 0x1000 == 0,
                (pa - self.base()) / 0x1000 == k,
                k < self.count(),
                self.count() <= self.capacity(),
        ;
    }

    /// Frames of held tables end below the addressable limit.
    pub proof fn lemma_frame_bound(&self, k: int)
        requires
            self.wf(),
            0 <= k < self.count(),
        ensures
            self.base() + k * 0x1000 + 0x1000 <= entry_addr_limit(),
    {
        self.lemma_frame_held(k);
    }

    /// Creates an empty table memory over the frames starting at `base`, with room for
    /// `capacity` tables.
    pub fn new(base: PAddr, capacity: usize) -> (r: TableMemory)
        requires
            base@ % PAGE_SIZE == 0,
            base@ + capacity * PAGE_SIZE <= entry_addr_limit(),
        ensures
            r.wf(),
            r.base() == base@,
            r.capacity() == capacity,
            r.count() == 0,
    {
        let r = TableMemory { base: base.addr(), capacity, entries: Vec::new() };
        proof {
            reveal(cells_wf);
            assert(r.cells().len() == 0);
        }
        r
    }

    /// The number of tables held.
    pub fn table_count(&self) -> (r: usize)
        ensures
            r == self.count(),
    {
        self.entries.len() / 512
    }

    /// The table index of the frame at `pa`, if it holds a table.
    pub fn frame_to_index(&self, pa: PAddr) -> (r: Option<usize>)
        ensures
            r matches Some(k) ==> self.index_of(pa@) == Some(k as int),
            r is None ==> self.index_of(pa@) is None,
    {
        let a = pa.addr();
        if a < self.base {
            return None;
        }
        let d = a - self.base;
        if d % PAGE_SIZE != 0 {
            return None;
        }
        let k = d / PAGE_SIZE;
        let n = self.table_count();
        if k < n as u64 {
            Some(k as usize)
        } else {
            None
        }
    }

    /// The address of the frame holding table `k`.
    pub fn index_to_frame(&self, k: usize) -> (r: PAddr)
        requires
            self.wf(),
            k < self.count(),
        ensures
            r@ == self.base() + k * 0x1000,
            self.index_of(r@) == Some(k as int),
            r@ % 0x1000 == 0,
    {
        proof {
            self.lemma_wf();
            vstd::arithmetic::div_mod::lemma_mod_multiples_vanish(k as int, self.base() as int, 0x1000);
            assert(k * 0x1000 <= self.capacity * 0x1000) by (nonlinear_arith)
                requires
                    k <= self.capacity,
            ;
        }
        let r = PAddr::new(self.base + k as u64 * PAGE_SIZE);
        proof {
            assert((k * 0x1000) % 0x1000 == 0) by (nonlinear_arith);
            assert((k * 0x1000) / 0x1000 == k) by (nonlinear_arith);
        }
        r
    }

    /// Adds an empty table, if there is room for one, and returns its index.
    pub fn alloc_table(&mut self) -> (r: Option<usize>)
        requires
            old(self).wf(),
        ensures
            final(self).wf(),
            final(self).base() == old(self).base(),
            final(self).capacity() == old(self).capacity(),
            grows(old(self).cells(), final(self).cells()),
            old(self).count() < old(self).capacity() ==> r == Some(old(self).count() as usize)
                && final(self).count() == old(self).count() + 1,
            old(self).count() >= old(self).capacity() ==> r is None && final(self).cells()
                == old(self).cells(),
            r is Some ==> forall|i: int|
                0 <= i < 512 ==> #[trigger] final(self).cells()[old(self).count() * 512 + i] == 0,
            r is Some ==> final(self).cells().len() == old(self).cells().len() + 512,
            r is None ==> final(self).count() == old(self).count(),
            forall|j: int|
                0 <= j < old(self).cells().len() ==> #[trigger] final(self).cells()[j] == old(self).cells()[j],
    {
        proof {
            self.lemma_wf();
            lemma_grows_refl(self.cells());
        }
        let n = self.table_count();
        if n >= self.capacity {
            return None;
        }
        let ghost old_cells = self.cells();
        let ghost old_len = self.entries.len() as int;
        let mut i: usize = 0;
        while i < 512
            invariant
                i <= 512,
                self.base == old(self).base,
                self.capacity == old(self).capacity,
                self.entries.len() == old_len + i,
                old_len == old(self).entries.len(),
                old_len % 512 == 0,
                old_len / 512 == n,
                n < self.capacity,
                old_cells == old(self).cells(),
                forall|j: int| 0 <= j < old_len ==> #[trigger] self.cells()[j] == old_cells[j],
                forall|j: int| old_len <= j < old_len + i ==> #[trigger] self.cells()[j] == 0,
            decreases 512 - i,
        {
            let ghost prev = self.cells();
            self.entries.push(PTE::empty());
            proof {
                assert(self.cells() =~= prev.push(0));
            }
            i = i + 1;
        }
        proof {
            reveal(cells_wf);
            reveal(grows);
            assert(self.entries.len() == (n + 1) * 512);
            assert(self.count() == n + 1);
            assert forall|j: int|
                0 <= j < self.cells().len() && follows(#[trigger] self.cells()[j]) implies self.index_of(
                pte_phys(self.cells()[j]),
            ) is Some by {
                assert(j < old_len);
                assert(old(self).index_of(pte_phys(old_cells[j])) is Some);
            }
            assert forall|j: int| 0 <= j < 512 implies #[trigger] self.cells()[n * 512 + j] == 0 by {
                assert(old_len <= n * 512 + j < old_len + 512);
            }
        }
        Some(n)
    }

    /// Overwrites entry `i` of table `t`.
    fn set_entry(&mut self, t: usize, i: usize, e: PTE)
        requires
            t < old(self).count(),
            i < 512,
            old(self).entries.len() % 512 == 0,
        ensures
            final(self).cells() == old(self).cells().update(t * 512 + i, e.0),
            final(self).base() == old(self).base(),
            final(self).capacity() == old(self).capacity(),
            final(self).count() == old(self).count(),
            final(self).entries.len() == old(self).entries.len(),
    {
        proof {
            assert(t * 512 + i < self.entries.len()) by (nonlinear_arith)
                requires
                    t < self.entries.len() / 512,
                    i < 512,
                    self.entries.len() % 512 == 0,
            ;
        }
        self.entries.set(t * 512 + i, e);
        proof {
            assert(self.cells() =~= old(self).cells().update(t * 512 + i, e.0));
        }
    }

    /// Reads entry `i` of table `t`.
    fn entry(&self, t: usize, i: usize) -> (r: PTE)
        requires
            t < self.count(),
            i < 512,
            self.entries.len() % 512 == 0,
        ensures
            r.0 == self.cells()[t * 512 + i],
            t * 512 + i < self.cells().len(),
    {
        proof {
            assert(t * 512 + i < self.entries.len()) by (nonlinear_arith)
                requires
                    t < self.entries.len() / 512,
                    i < 512,
                    self.entries.len() % 512 == 0,
            ;
        }
        self.entries[t * 512 + i]
    }

    /// Performs a virtual address translation by walking the page tables starting from the
    /// given root table.
    ///
    /// Returns a [`Some`] containing the physical address and the mapped page level, or [`None`]
    /// if:
    /// - The virtual address is not mapped by any valid entry.
    /// - The virtual address corresponds to a valid, but not a leaf entry.
    /// - The virtual address is mapped, but the physical address is invalid at its level.
    #[verifier::rlimit(50)]
    pub fn translate_virt(&self, root: PAddr, va: VAddr) -> (r: Option<(PAddr, PageLevel)>)
        requires
            self.wf(),
        ensures
            r matches Some((pa, lv)) ==> self.translation(root@, va@) == Some((pa@, lv)),
            r is None ==> self.translation(root@, va@) is None,
    {
        proof {
            self.lemma_wf();
        }
        let vpn = va.vpn();
        let mut t = match self.frame_to_index(root) {
            Some(t) => t,
            None => return None,
        };
        let ghost root_t = t as int;
        let mut l: usize = 4;
        while l > 0
            invariant
                self.wf(),
                l <= 4,
                t < self.count(),
                self.index_of(root@) == Some(root_t),
                vpn[0] == page_number(va@, 0),
                vpn[1] == page_number(va@, 1),
                vpn[2] == page_number(va@, 2),
                vpn[3] == page_number(va@, 3),
                translate_from(self.base(), self.count(), self.cells(), root_t, va@, 3)
                    == translate_from(self.base(), self.count(), self.cells(), t as int, va@, l - 1),
            decreases l,
        {
            let lv = l - 1;
            proof {
                self.lemma_wf();
            }
            let pte = self.entry(t, vpn[lv]);
            let flags = pte.flags();
            proof {
                let f = flags.bits;
                assert((f & 0x02 == 0x02) == (f & 0x02 != 0) && (f & 0x04 == 0x04) == (f & 0x04
                    != 0)) by (bit_vector);
            }
            if !pte.is_valid() || (!flags.contains(PTEFlags::from_bits_retain(PTEFlags::READ))
                && flags.contains(PTEFlags::from_bits_retain(PTEFlags::WRITE))) {
                return None;
            } else if flags.intersects(PTEFlags::from_bits_retain(PTEFlags::RX)) {
                let pa = pte.phys_addr();
                let level = PageLevel::from_index(lv);
                let off_mask = level.size() - 1;
                proof {
                    crate::sv48::lemma_size_pow2(lv as int);
                    crate::addr::lemma_mask_align_down(pa@, level_size(level));
                    crate::addr::lemma_mask_align_down(va@, level_size(level));
                }
                if pa.addr() & off_mask != 0 {
                    return None;
                } else {
                    let off = va.addr() & off_mask;
                    proof {
                        lemma_aligned_add(pa@, off, lv as int);
                    }
                    return Some((pa + off, level));
                }
            } else {
                let next = pte.phys_addr();
                match self.frame_to_index(next) {
                    Some(nt) => {
                        t = nt;
                    },
                    None => {
                        return None;
                    },
                }
            }
            l = lv;
        }
        None
    }

    /// The mapping walk from table `t` at level index `l` down to the level of `level`.
    #[verifier::rlimit(60)]
    fn map_from(
        &mut self,
        Ghost(root): Ghost<int>,
        t: usize,
        l: usize,
        vpn: &[usize; 4],
        va: VAddr,
        pa: PAddr,
        level: PageLevel,
        flags: PTEFlags,
    ) -> (r: Result<Vec<PAddr>, MapError>)
        requires
            old(self).wf(),
            t < old(self).count(),
            level_index(level) <= l <= 3,
            va@ % level_size(level) == 0,
            pa@ % level_size(level) == 0,
            flags.bits & PTEFlags::RWX != 0,
            vpn[0] == page_number(va@, 0),
            vpn[1] == page_number(va@, 1),
            vpn[2] == page_number(va@, 2),
            vpn[3] == page_number(va@, 3),
            0 <= root < old(self).count(),
            walk_to(old(self).base(), old(self).count(), old(self).cells(), root, va@, l as int)
                == Some(t as int),
        ensures
            final(self).wf(),
            map_changes(
                old(self).base(),
                old(self).cells(),
                final(self).count(),
                final(self).cells(),
                root,
                va@,
                level_index(level),
                l as int,
                pa@ as int,
            ),
            map_post(
                old(self).base(),
                old(self).capacity(),
                old(self).count(),
                old(self).cells(),
                final(self).base(),
                final(self).capacity(),
                final(self).count(),
                final(self).cells(),
                r,
                t as int,
                l as int,
                va@,
                pa@,
                level,
                flags.bits,
            ),
        decreases l, 1int,
    {
        let ghost base = self.base();
        proof {
            self.lemma_wf();
            lemma_grows_refl(self.cells());
            lemma_map_changes_none(base, self.cells(), self.count(), root, va@, level_index(level), l as int, pa@ as int);
        }
        let target = level.level();
        let pte = self.entry(t, vpn[l]);
        let ghost idx = t * 512 + vpn[l as int];
        assert(idx == slot(t as int, va@, l as int));
        if l == target {
            return self.map_leaf(Ghost(root), t, l, vpn, va, pa, level, flags);
        }
        if pte.is_valid() && !pte.is_leaf() {
            let next_pa = pte.phys_addr();
            proof {
                lemma_follow_bits(pte_flag_bits(pte.0));
                lemma_wf_follow(base, self.capacity(), self.cells(), idx);
            }
            let nt = match self.frame_to_index(next_pa) {
                Some(nt) => nt,
                None => return Err(MapError::OutOfMemory),
            };
            let ghost before = self.cells();
            let ghost n_before = self.count();
            let r = self.map_from(Ghost(root), nt, l - 1, vpn, va, pa, level, flags);
            proof {
                lemma_map_changes_widen(base, before, self.count(), self.cells(), root, va@, level_index(level), l - 1, l as int, pa@ as int);
                self.lemma_wf();
                if r is Ok && readable_leaf(flags.bits) && pa@ < entry_addr_limit() {
                    lemma_follow_preserved(base, n_before, before, self.count(), self.cells(), t as int, nt as int, l as int, va@, pa@, level);
                }
                if r is Ok {
                    lemma_leaf_kept(base, n_before, before, self.count(), self.cells(), t as int, nt as int, l as int, va@, pa@, level, flags.bits);
                }
            }
            return r;
        }
        if pte.is_valid() {
            let mapped_pa = pte.phys_addr().compute_phys(&va, Some(level));
            return Err(MapError::AlreadyMapped(mapped_pa, PageLevel::from_index(l), pte.flags()));
        }
        self.map_alloc(Ghost(root), t, l, vpn, va, pa, level, flags)
    }

    /// The last step of the mapping walk: the entry of table `t` at the level of `level`.
    #[verifier::rlimit(40)]
    fn map_leaf(
        &mut self,
        Ghost(root): Ghost<int>,
        t: usize,
        l: usize,
        vpn: &[usize; 4],
        va: VAddr,
        pa: PAddr,
        level: PageLevel,
        flags: PTEFlags,
    ) -> (r: Result<Vec<PAddr>, MapError>)
        requires
            old(self).wf(),
            t < old(self).count(),
            level_index(level) == l,
            va@ % level_size(level) == 0,
            pa@ % level_size(level) == 0,
            flags.bits & PTEFlags::RWX != 0,
            vpn[0] == page_number(va@, 0),
            vpn[1] == page_number(va@, 1),
            vpn[2] == page_number(va@, 2),
            vpn[3] == page_number(va@, 3),
            0 <= root < old(self).count(),
            walk_to(old(self).base(), old(self).count(), old(self).cells(), root, va@, l as int)
                == Some(t as int),
        ensures
            final(self).wf(),
            map_changes(
                old(self).base(),
                old(self).cells(),
                final(self).count(),
                final(self).cells(),
                root,
                va@,
                level_index(level),
                l as int,
                pa@ as int,
            ),
            map_post(
                old(self).base(),
                old(self).capacity(),
                old(self).count(),
                old(self).cells(),
                final(self).base(),
                final(self).capacity(),
                final(self).count(),
                final(self).cells(),
                r,
                t as int,
                l as int,
                va@,
                pa@,
                level,
                flags.bits,
            ),
    {
        let ghost base = self.base();
        proof {
            self.lemma_wf();
            lemma_grows_refl(self.cells());
            lemma_map_changes_none(base, self.cells(), self.count(), root, va@, l as int, l as int, pa@ as int);
        }
        let pte = self.entry(t, vpn[l]);
        let ghost idx = t * 512 + vpn[l as int];
        assert(idx == slot(t as int, va@, l as int));
        if pte.is_valid() {
            let mapped_pa = pte.phys_addr().compute_phys(&va, Some(level));
            return Err(MapError::AlreadyMapped(mapped_pa, PageLevel::from_index(l), pte.flags()));
        }
        let mut e = pte;
        e.set_leaf(pa, level, flags);
        let ghost before = self.cells();
        let ghost n_before = self.count();
        self.set_entry(t, vpn[l], e);
        proof {
            lemma_leaf_bits(pa@, flags.bits);
            crate::sv48::lemma_size_pow2(l as int);
            if pa@ < entry_addr_limit() {
                crate::sv48::lemma_pte_bits_roundtrip(pa@, (flags.bits | PTEFlags::VALID) as u8);
                lemma_finer_page(pa@, l as int);
            }
            lemma_write_on_walk(base, n_before, before, root, va@, l as int, l as int, t as int, e.0, pa@ as int);
            lemma_write_invalid(base, self.capacity(), before, idx, e.0);
            self.lemma_wf();
            if readable_leaf(flags.bits) && pa@ < entry_addr_limit() {
                lemma_leaf_translates_at(base, self.count(), self.cells(), t as int, va@, pa@, level, flags.bits);
            }
            assert(self.cells()[idx] == e.0);
            assert(leaf_written(base, self.count(), self.cells(), t as int, va@, l as int, level, pa@, flags.bits));
        }
        Ok(Vec::new())
    }

    /// After a table is created and entered at the walk of `va` at level index `l`, the walk
    /// reaches it one level down.
    proof fn lemma_alloc_walk(
        &self,
        before: Seq<u64>,
        n_before: int,
        mid: Seq<u64>,
        root: int,
        va: u64,
        l: int,
        t: int,
        nt: int,
        e: u64,
    )
        requires
            self.wf(),
            cells_wf(self.base(), self.capacity(), before),
            before.len() == n_before * 512,
            0 <= root < n_before,
            0 < l <= 3,
            walk_to(self.base(), n_before, before, root, va, l) == Some(t),
            0 <= t < n_before,
            n_before <= self.count(),
            grows(before, self.cells()),
            0 <= slot(t, va, l) < mid.len(),
            self.cells() == mid.update(slot(t, va, l), e),
            follows(e),
            frame_index(self.base(), self.count(), pte_phys(e)) == Some(nt),
        ensures
            walk_to(self.base(), self.count(), self.cells(), root, va, l - 1) == Some(nt),
    {
        self.lemma_wf();
        lemma_grows_walk(self.base(), n_before, before, self.count(), self.cells(), root, va, l);
        assert(walk_to(self.base(), self.count(), self.cells(), root, va, l) == Some(t));
        lemma_slot_table(t, va, l);
        assert(slot(t, va, l) < self.cells().len()) by (nonlinear_arith)
            requires
                slot(t, va, l) == t * 512 + page_number(va, l),
                page_number(va, l) < 512,
                t < self.count(),
                self.cells().len() == self.count() * 512,
        ;
        assert(self.cells()[slot(t, va, l)] == e);
    }

    /// The entries after a table is created: the earlier ones, then a cleared table.
    proof fn lemma_alloc_cleared(before: Seq<u64>, n_before: int, mid: Seq<u64>)
        requires
            before.len() == n_before * 512,
            mid.len() == before.len() + 512,
            forall|i: int| 0 <= i < 512 ==> #[trigger] mid[n_before * 512 + i] == 0,
        ensures
            forall|i: int| before.len() <= i < mid.len() ==> #[trigger] mid[i] == 0,
    {
        assert forall|i: int| before.len() <= i < mid.len() implies #[trigger] mid[i] == 0 by {
            assert(mid[n_before * 512 + (i - n_before * 512)] == 0);
        }
    }

    /// A step of the mapping walk at an invalid entry above the target level: a table is
    /// created, entered into table `t`, and the walk goes on in it.
    #[verifier::rlimit(100)]
    fn map_alloc(
        &mut self,
        Ghost(root): Ghost<int>,
        t: usize,
        l: usize,
        vpn: &[usize; 4],
        va: VAddr,
        pa: PAddr,
        level: PageLevel,
        flags: PTEFlags,
    ) -> (r: Result<Vec<PAddr>, MapError>)
        requires
            old(self).wf(),
            t < old(self).count(),
            level_index(level) < l <= 3,
            va@ % level_size(level) == 0,
            pa@ % level_size(level) == 0,
            flags.bits & PTEFlags::RWX != 0,
            vpn[0] == page_number(va@, 0),
            vpn[1] == page_number(va@, 1),
            vpn[2] == page_number(va@, 2),
            vpn[3] == page_number(va@, 3),
            0 <= root < old(self).count(),
            walk_to(old(self).base(), old(self).count(), old(self).cells(), root, va@, l as int)
                == Some(t as int),
            !pte_valid(old(self).cells()[slot(t as int, va@, l as int)]),
        ensures
            final(self).wf(),
            map_changes(
                old(self).base(),
                old(self).cells(),
                final(self).count(),
                final(self).cells(),
                root,
                va@,
                level_index(level),
                l as int,
                pa@ as int,
            ),
            map_post(
                old(self).base(),
                old(self).capacity(),
                old(self).count(),
                old(self).cells(),
                final(self).base(),
                final(self).capacity(),
                final(self).count(),
                final(self).cells(),
                r,
                t as int,
                l as int,
                va@,
                pa@,
                level,
                flags.bits,
            ),
        decreases l, 0int,
    {
        let ghost base = self.base();
        proof {
            self.lemma_wf();
            lemma_grows_refl(self.cells());
            lemma_map_changes_none(base, self.cells(), self.count(), root, va@, level_index(level), l as int, pa@ as int);
        }
        let pte = self.entry(t, vpn[l]);
        let ghost idx = t * 512 + vpn[l as int];
        assert(idx == slot(t as int, va@, l as int));
        let ghost before = self.cells();
        let ghost n_before = self.count();
        let nt = match self.alloc_table() {
            Some(nt) => nt,
            None => return Err(MapError::OutOfMemory),
        };
        let frame = self.index_to_frame(nt);
        let mut e = pte;
        e.set_table(frame);
        let ghost mid = self.cells();
        proof {
            self.lemma_wf();
            assert(mid[idx] == before[idx]);
        }
        self.set_entry(t, vpn[l], e);
        proof {
            crate::sv48::lemma_pte_bits_roundtrip(frame@, PTEFlags::VALID);
            lemma_table_bits(frame@);
            assert forall|i: int| 0 <= i < mid.len() && follows(#[trigger] mid[i]) implies pte_phys(
                mid[i],
            ) != pte_phys(e.0) by {
                if i < before.len() {
                    assert(mid[i] == before[i]);
                    lemma_wf_follow(base, self.capacity(), before, i);
                } else {
                    let k = i - before.len();
                    assert(before.len() == n_before * 512);
                    assert(mid[n_before * 512 + k] == 0);
                    assert(0u64 % 2 == 0);
                }
            }
            lemma_write_invalid(base, self.capacity(), mid, idx, e.0);
            lemma_grows_trans(before, mid, self.cells());
            self.lemma_wf();
            assert forall|i: int| 0 <= i < 512 implies #[trigger] self.cells()[nt * 512 + i] == 0 by {
                assert(idx < nt * 512 + i) by (nonlinear_arith)
                    requires
                        idx == t * 512 + vpn[l as int],
                        vpn[l as int] < 512,
                        t < nt,
                        0 <= i,
                ;
                assert(mid[nt * 512 + i] == 0);
            }
            lemma_fresh_probe(base, self.count(), self.cells(), nt as int, va@, level_index(level), l as int - 1);
        }
        let ghost after_set = self.cells();
        let ghost n_set = self.count();
        proof {
            self.lemma_alloc_walk(before, n_before, mid, root, va@, l as int, t as int, nt as int, e.0);
            Self::lemma_alloc_cleared(before, n_before, mid);
        }
        let rest = self.map_from(Ghost(root), nt, l - 1, vpn, va, pa, level, flags);
        proof {
            self.lemma_wf();
            lemma_grows_trans(before, after_set, self.cells());
            lemma_grows_walk(base, n_before, before, self.count(), self.cells(), root, va@, l as int);
            lemma_map_changes_alloc(base, n_before, before, mid, after_set, self.count(), self.cells(), root, va@, level_index(level), l as int, t as int, pa@ as int);
        }
        match rest {
            Ok(mut allocs) => {
                allocs.insert(0, frame);
                proof {
                    if readable_leaf(flags.bits) && pa@ < entry_addr_limit() {
                        lemma_follow_preserved(base, n_set, after_set, self.count(), self.cells(), t as int, nt as int, l as int, va@, pa@, level);
                    }
                    lemma_leaf_kept(base, n_set, after_set, self.count(), self.cells(), t as int, nt as int, l as int, va@, pa@, level, flags.bits);
                }
                Ok(allocs)
            },
            Err(e) => Err(e),
        }
    }

    /// Unmaps a virtual address from the address space within the provided root table.
    ///
    /// Returns the [`PageLevel`] of the entry that was cleared, or an [`UnmapError`] if virtual
    /// unmapping fails for any reason.
    pub fn unmap_page(&mut self, root: PAddr, va: VAddr) -> (r: Result<PageLevel, UnmapError>)
        requires
            old(self).wf(),
            old(self).index_of(root@) is Some,
            unmap_walk(
                old(self).base(),
                old(self).count(),
                old(self).cells(),
                old(self).index_of(root@)->0,
                va@,
                3,
            ) is Some,
        ensures
            final(self).wf(),
            final(self).base() == old(self).base(),
            final(self).capacity() == old(self).capacity(),
            final(self).count() == old(self).count(),
            match unmap_walk(
                old(self).base(),
                old(self).count(),
                old(self).cells(),
                old(self).index_of(root@)->0,
                va@,
                3,
            ) {
                Some(Ok((s, l))) => r == Ok::<PageLevel, UnmapError>(level_at(l)) && final(self).cells() == old(self).cells().update(s, 0),
                _ => r == Err::<PageLevel, UnmapError>(UnmapError::NotMapped) && final(self).cells() == old(self).cells(),
            },
            r is Ok ==> final(self).translation(root@, va@) is None,
            (forall|v: u64|
                #[trigger] unmap_walk(
                    old(self).base(),
                    old(self).count(),
                    old(self).cells(),
                    old(self).index_of(root@)->0,
                    v,
                    3,
                ) is Some) ==> (forall|v: u64|
                #[trigger] unmap_walk(
                    final(self).base(),
                    final(self).count(),
                    final(self).cells(),
                    final(self).index_of(root@)->0,
                    v,
                    3,
                ) is Some),
    {
        proof {
            self.lemma_wf();
        }
        let vpn = va.vpn();
        let mut t = match self.frame_to_index(root) {
            Some(t) => t,
            None => return Err(UnmapError::NotMapped),
        };
        let ghost root_t = t as int;
        let ghost base = self.base();
        let ghost n = self.count();
        let ghost m = self.cells();
        let mut l: usize = 4;
        while l > 0
            invariant
                self.wf(),
                self.cells() == m,
                self.base() == base,
                self.count() == n,
                m == old(self).cells(),
                n == old(self).count(),
                base == old(self).base(),
                self.capacity() == old(self).capacity(),
                old(self).index_of(root@) == Some(root_t),
                l <= 4,
                t < n,
                vpn[0] == page_number(va@, 0),
                vpn[1] == page_number(va@, 1),
                vpn[2] == page_number(va@, 2),
                vpn[3] == page_number(va@, 3),
                unmap_walk(base, n, m, root_t, va@, 3) == unmap_walk(base, n, m, t as int, va@, l - 1),
            decreases l,
        {
            let lv = l - 1;
            proof {
                self.lemma_wf();
            }
            let pte = self.entry(t, vpn[lv]);
            let ghost idx = t * 512 + vpn[lv as int];
            assert(idx == slot(t as int, va@, lv as int));
            proof {
                lemma_follow_bits(pte_flag_bits(pte.0));
            }
            if pte.is_valid() && !pte.is_leaf() {
                let next_pa = pte.phys_addr();
                proof {
                    lemma_wf_follow(base, self.capacity(), m, idx);
                }
                match self.frame_to_index(next_pa) {
                    Some(nt) => {
                        t = nt;
                    },
                    None => {
                        return Err(UnmapError::NotMapped);
                    },
                }
            } else if pte.is_valid() {
                let ghost before = self.cells();
                let mut e = pte;
                e.clear();
                self.set_entry(t, vpn[lv], e);
                proof {
                    lemma_unmap_translate(base, n, m, root_t, va@, 3);
                    self.lemma_clear_wf(before, idx);
                    assert forall|v: u64| (forall|v2: u64| #[trigger] unmap_walk(base, n, m, root_t, v2, 3) is Some) implies #[trigger] unmap_walk(base, n, m.update(idx, 0), root_t, v, 3) is Some by {
                        assert(unmap_walk(base, n, m, root_t, v, 3) is Some);
                        lemma_clear_keeps_walk(base, n, m, idx, root_t, v, 3);
                    }
                    assert(self.cells().len() == m.len());
                }
                return Ok(PageLevel::from_index(lv));
            } else {
                return Err(UnmapError::NotMapped);
            }
            l = lv;
        }
        proof {
            assert(false);
        }
        Err(UnmapError::NotMapped)
    }

    /// Clearing an entry that does not point to a further table keeps the tables well-formed.
    proof fn lemma_clear_wf(&self, before: Seq<u64>, idx: int)
        requires
            cells_wf(self.base, self.capacity as int, before),
            0 <= idx < before.len(),
            self.cells() == before.update(idx, 0),
            self.cells().len() == self.entries.len(),
        ensures
            self.wf(),
    {
        reveal(cells_wf);
        assert forall|i: int| 0 <= i < self.cells().len() && follows(#[trigger] self.cells()[i]) implies frame_index(
            self.base,
            self.cells().len() as int / 512,
            pte_phys(self.cells()[i]),
        ) is Some by {
            assert(0u64 % 2 == 0);
            assert(i != idx);
            assert(self.cells()[i] == before[i]);
        }
    }

    /// Maps a virtual address to a given physical address at a certain level, using the
    /// provided root table.
    ///
    /// Returns the frames of all the intermediate tables created for the mapping, or a
    /// [`MapError`] if virtual mapping fails for any reason. Tables created before a failure stay
    /// in place.
    pub fn map_page(
        &mut self,
        root: PAddr,
        va: VAddr,
        pa: PAddr,
        level: PageLevel,
        flags: PTEFlags,
    ) -> (r: Result<Vec<PAddr>, MapError>)
        requires
            old(self).wf(),
            old(self).index_of(root@) is Some,
            flags.bits & PTEFlags::RWX != 0,
        ensures
            pa@ < 0x1_0000_0000_0000 || level_index(level) > 0 ==> keeps_clear(
                old(self).base(),
                old(self).count(),
                old(self).cells(),
                final(self).count(),
                final(self).cells(),
                old(self).index_of(root@)->0,
                va@,
                level_index(level),
            ),
            final(self).wf(),
            final(self).base() == old(self).base(),
            final(self).capacity() == old(self).capacity(),
            grows(old(self).cells(), final(self).cells()),
            old(self).count() <= final(self).count(),
            !(va@ % level_size(level) == 0 && pa@ % level_size(level) == 0) ==> r == Err::<
                Vec<PAddr>,
                MapError,
            >(MapError::Misaligned) && final(self).cells() == old(self).cells(),
            va@ % level_size(level) == 0 && pa@ % level_size(level) == 0 ==> match map_probe(
                old(self).base(),
                old(self).count(),
                old(self).cells(),
                old(self).index_of(root@)->0,
                va@,
                level_index(level),
                3,
            ) {
                MapProbe::Mapped(p, lv, f) => r == Err::<Vec<PAddr>, MapError>(
                    MapError::AlreadyMapped(PAddr(p as u64), lv, PTEFlags { bits: f }),
                ) && final(self).cells() == old(self).cells() && final(self).count() == old(
                    self,
                ).count(),
                MapProbe::Free(k) => (k <= old(self).capacity() - old(self).count() ==> r is Ok
                    && r->Ok_0.len() == k && final(self).count() == old(self).count() + k) && (k
                    > old(self).capacity() - old(self).count() ==> r == Err::<Vec<PAddr>, MapError>(
                    MapError::OutOfMemory,
                )),
            },
            r matches Ok(allocs) ==> forall|i: int|
                0 <= i < allocs.len() ==> (#[trigger] allocs[i])@ == old(self).base() + (old(self).count() + i) * 0x1000,
            r is Ok && readable_leaf(flags.bits) && pa@ < entry_addr_limit() ==> forall|off: u64|
                off < level_size(level) ==> #[trigger] final(self).translation(
                    root@,
                    (va@ + off) as u64,
                ) == Some(((pa@ + off) as u64, level)),
            r is Ok ==> leaf_written(
                final(self).base(),
                final(self).count(),
                final(self).cells(),
                old(self).index_of(root@)->0,
                va@,
                3,
                level,
                pa@,
                flags.bits,
            ),
            level_index(level) == 0 && va@ % 0x1000 == 0 && pa@ % 0x1000 == 0 && map_probe(
                old(self).base(),
                old(self).count(),
                old(self).cells(),
                old(self).index_of(root@)->0,
                va@,
                0,
                3,
            ) == MapProbe::Free(0) ==> last_slot_written(
                old(self).base(),
                old(self).count(),
                old(self).cells(),
                final(self).count(),
                final(self).cells(),
                old(self).index_of(root@)->0,
                va@,
            ),
    {
        proof {
            lemma_grows_refl(self.cells());
        }
        if !level.is_aligned(va.addr()) || !level.is_aligned(pa.addr()) {
            return Err(MapError::Misaligned);
        }
        let vpn = va.vpn();
        let t = match self.frame_to_index(root) {
            Some(t) => t,
            None => return Err(MapError::Misaligned),
        };
        let ghost m1 = self.cells();
        let ghost n1 = self.count();
        proof {
            self.lemma_wf();
        }
        let r = self.map_from(Ghost(t as int), t, 3, &vpn, va, pa, level, flags);
        proof {
            self.lemma_wf();
            assert forall|v: u64|
                (pa@ < 0x1_0000_0000_0000 || level_index(level) > 0) && clear_from(self.base(), n1, m1, t as int, v, 3) && (level_index(level) == 0
                    || !same_numbers_from(v, va@, level_index(level))) implies #[trigger] clear_from(
                self.base(),
                self.count(),
                self.cells(),
                t as int,
                v,
                3,
            ) by {
                lemma_map_keeps_clear_at(
                    self.base(),
                    self.capacity(),
                    n1,
                    m1,
                    self.count(),
                    self.cells(),
                    t as int,
                    va@,
                    level_index(level),
                    pa@ as int,
                    v,
                    3,
                    t as int,
                );
            }
            if level_index(level) == 0 && va@ % 0x1000 == 0 && pa@ % 0x1000 == 0 && map_probe(
                self.base(),
                n1,
                m1,
                t as int,
                va@,
                0,
                3,
            ) == MapProbe::Free(0) {
                lemma_free_slot_write(self.base(), self.capacity(), n1, m1, self.count(), self.cells(), t as int, va@, pa@ as int);
            }
        }
        r
    }
}

} // verus!

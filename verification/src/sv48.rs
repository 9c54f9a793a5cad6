//! The Sv48 paging scheme: page levels, entry flags and page table entries.
use vstd::prelude::*;

use crate::addr::{PAGE_SIZE, PAddr, VAddr, is_pow2, lemma_mask_align_down};
use vstd::arithmetic::power2::{lemma2_to64, lemma2_to64_rest, pow2};

verus! {

/// The maximum number of entries in a [`PageTable`].
pub const PT_MAX_ENTRIES: usize = 512;

/// The maximum page table depth used by the current protocol.
pub const PAGE_TABLE_DEPTH: usize = 4;

/// The supported page levels that can be mapped with a single [`PTE`].
#[derive(Clone, Copy, PartialEq, Eq, Structural, Debug)]
pub enum PageLevel {
    /// A page of size 4 KiB.
    Page4K,
    /// A megapage of size 2 MiB.
    Megapage2M,
    /// A gigapage of size 1 GiB.
    Gigapage1G,
    /// A terapage of size 512 GiB.
    Terapage512G,
}

/// The index of a level: 0 for 4 KiB pages up to 3 for 512 GiB pages.
pub open spec fn level_index(l: PageLevel) -> int {
    match l {
        PageLevel::Page4K => 0,
        PageLevel::Megapage2M => 1,
        PageLevel::Gigapage1G => 2,
        PageLevel::Terapage512G => 3,
    }
}

/// The level with the given index (`0..4`).
pub open spec fn level_at(i: int) -> PageLevel {
    if i <= 0 {
        PageLevel::Page4K
    } else if i == 1 {
        PageLevel::Megapage2M
    } else if i == 2 {
        PageLevel::Gigapage1G
    } else {
        PageLevel::Terapage512G
    }
}

/// The number of bytes a page of level index `i` spans: `4096 * 512^i`.
pub open spec fn size_at(i: int) -> u64 {
    if i <= 0 {
        0x1000
    } else if i == 1 {
        0x20_0000
    } else if i == 2 {
        0x4000_0000
    } else {
        0x80_0000_0000
    }
}

/// The number of bytes a page of level `l` spans.
pub open spec fn level_size(l: PageLevel) -> u64 {
    size_at(level_index(l))
}

/// Whether a page of level index `i` fits `size_bytes` (raised to at least one page) and both
/// addresses are aligned to its size.
pub open spec fn level_fits(va: u64, pa: u64, size_bytes: u64, i: int) -> bool {
    &&& size_at(i) <= (if size_bytes < PAGE_SIZE { PAGE_SIZE } else { size_bytes })
    &&& va % size_at(i) == 0
    &&& pa % size_at(i) == 0
}

/// The largest page level that fits (see [`level_fits`]), if any: the level [`PageLevel::fit_level`]
/// gives.
pub open spec fn fit_level_spec(va: u64, pa: u64, size_bytes: u64) -> Option<PageLevel> {
    if level_fits(va, pa, size_bytes, 3) {
        Some(PageLevel::Terapage512G)
    } else if level_fits(va, pa, size_bytes, 2) {
        Some(PageLevel::Gigapage1G)
    } else if level_fits(va, pa, size_bytes, 1) {
        Some(PageLevel::Megapage2M)
    } else if level_fits(va, pa, size_bytes, 0) {
        Some(PageLevel::Page4K)
    } else {
        None
    }
}

/// Whether a page of level index `i` spans at least `size_bytes` and both addresses are aligned
/// to its size.
pub open spec fn level_selectable(va: u64, pa: u64, size_bytes: u64, i: int) -> bool {
    &&& size_at(i) >= size_bytes
    &&& va % size_at(i) == 0
    &&& pa % size_at(i) == 0
}

/// The largest page level that [`level_selectable`] holds of, if any.
pub open spec fn select_size_spec(va: u64, pa: u64, size_bytes: u64) -> Option<PageLevel> {
    if level_selectable(va, pa, size_bytes, 3) {
        Some(PageLevel::Terapage512G)
    } else if level_selectable(va, pa, size_bytes, 2) {
        Some(PageLevel::Gigapage1G)
    } else if level_selectable(va, pa, size_bytes, 1) {
        Some(PageLevel::Megapage2M)
    } else if level_selectable(va, pa, size_bytes, 0) {
        Some(PageLevel::Page4K)
    } else {
        None
    }
}

/// A selected level aligns both addresses.
pub proof fn lemma_fit_level_aligned(va: u64, pa: u64, size_bytes: u64)
    ensures
        fit_level_spec(va, pa, size_bytes) matches Some(l) ==> va % level_size(l) == 0 && pa
            % level_size(l) == 0,
{
}

/// A region of at most one page, at page-aligned addresses, is mapped by one 4 KiB page.
pub proof fn lemma_fit_one_page(va: u64, pa: u64, size_bytes: u64)
    requires
        size_bytes <= 0x1000,
        va % 0x1000 == 0,
        pa % 0x1000 == 0,
    ensures
        fit_level_spec(va, pa, size_bytes) == Some(PageLevel::Page4K),
{
}

/// A region of at least one page and less than 2 MiB, at page-aligned addresses, is mapped
/// page by page in 4 KiB pages.
pub proof fn lemma_fit_small(va: u64, pa: u64, size_bytes: u64)
    requires
        0x1000 <= size_bytes < 0x20_0000,
        va % 0x1000 == 0,
        pa % 0x1000 == 0,
    ensures
        fit_level_spec(va, pa, size_bytes) == Some(PageLevel::Page4K),
{
}

/// Every level size is a power of two.
pub proof fn lemma_size_pow2(i: int)
    ensures
        is_pow2(size_at(i)),
        size_at(i) > 0,
        size_at(i) <= 0x80_0000_0000,
        size_at(i) % PAGE_SIZE == 0,
{
    lemma2_to64();
    lemma2_to64_rest();
    if i <= 0 {
        assert(size_at(i) == pow2(12));
    } else if i == 1 {
        assert(size_at(i) == pow2(21));
    } else if i == 2 {
        assert(size_at(i) == pow2(30));
    } else {
        assert(size_at(i) == pow2(39));
    }
}

impl PageLevel {
    /// The level with the given index (`0..4`).
    pub fn from_index(i: usize) -> (r: PageLevel)
        requires
            i < 4,
        ensures
            r == level_at(i as int),
            level_index(r) == i,
    {
        if i == 0 {
            PageLevel::Page4K
        } else if i == 1 {
            PageLevel::Megapage2M
        } else if i == 2 {
            PageLevel::Gigapage1G
        } else {
            PageLevel::Terapage512G
        }
    }

    /// The level of the next page that a mapping of `size_bytes` from `va` to `pa` places: the
    /// largest level whose page fits in the region (its size is at most `size_bytes`, a region
    /// smaller than a 4 KiB page counting as one such page) and whose size both addresses are
    /// aligned to, or [`None`] if no level is.
    pub fn fit_level(va: VAddr, pa: PAddr, size_bytes: u64) -> (r: Option<PageLevel>)
        ensures
            r == fit_level_spec(va@, pa@, size_bytes),
    {
        let min_size = if size_bytes < PageLevel::Page4K.size() {
            PageLevel::Page4K.size()
        } else {
            size_bytes
        };
        let mut i: usize = 4;
        while i > 0
            invariant
                i <= 4,
                min_size == (if size_bytes < PAGE_SIZE { PAGE_SIZE } else { size_bytes }),
                forall|j: int| i <= j < 4 ==> !level_fits(va@, pa@, size_bytes, j),
            decreases i,
        {
            i = i - 1;
            let s = PageLevel::from_index(i);
            if s.size() > min_size {
                continue;
            }
            let low_mask = s.size() - 1;
            proof {
                lemma_size_pow2(i as int);
                lemma_mask_align_down(va@, level_size(s));
                lemma_mask_align_down(pa@, level_size(s));
            }
            if va.addr() & low_mask == 0 && pa.addr() & low_mask == 0 {
                return Some(s);
            }
        }
        None
    }

    /// Returns the largest [`PageLevel`] such that a page of such level fulfills these criteria:
    /// - The page size is greater than or equal to `size_bytes`.
    /// - The base address aligns with both `va` and `pa`.
    ///
    /// If no such `PageLevel` exists, the function returns [`None`](None).
    pub fn select_size(va: VAddr, pa: PAddr, size_bytes: u64) -> (r: Option<PageLevel>)
        ensures
            r == select_size_spec(va@, pa@, size_bytes),
    {
        let mut i: usize = 4;
        while i > 0
            invariant
                i <= 4,
                forall|j: int| i <= j < 4 ==> !level_selectable(va@, pa@, size_bytes, j),
            decreases i,
        {
            i = i - 1;
            let s = PageLevel::from_index(i);
            if s.size() >= size_bytes && s.is_aligned(va.addr()) && s.is_aligned(pa.addr()) {
                return Some(s);
            }
        }
        None
    }

    /// Checks whether an address has sufficient alignment for this level.
    pub fn is_aligned(&self, addr: u64) -> (r: bool)
        ensures
            r == (addr % level_size(*self) == 0),
    {
        proof {
            lemma_size_pow2(level_index(*self));
            lemma_mask_align_down(addr, level_size(*self));
        }
        addr & (self.size() - 1) == 0
    }

    /// The corresponding size, in bytes.
    pub fn size(&self) -> (r: u64)
        ensures
            r == level_size(*self),
    {
        proof {
            assert(0x1000u64 << 9u64 == 0x20_0000u64) by (bit_vector);
            assert(0x1000u64 << 18u64 == 0x4000_0000u64) by (bit_vector);
            assert(0x1000u64 << 27u64 == 0x80_0000_0000u64) by (bit_vector);
        }
        match self {
            PageLevel::Page4K => PAGE_SIZE,
            PageLevel::Megapage2M => PAGE_SIZE << 9u64,
            PageLevel::Gigapage1G => PAGE_SIZE << 18u64,
            PageLevel::Terapage512G => PAGE_SIZE << 27u64,
        }
    }

    /// The corresponding level index.
    pub fn level(&self) -> (r: usize)
        ensures
            r == level_index(*self),
    {
        match self {
            PageLevel::Page4K => 0,
            PageLevel::Megapage2M => 1,
            PageLevel::Gigapage1G => 2,
            PageLevel::Terapage512G => 3,
        }
    }
}

/// Various flags that can be associated with a [`PTE`].
#[derive(Clone, Copy, PartialEq, Eq, Structural, Debug)]
pub struct PTEFlags {
    pub bits: u8,
}

impl PTEFlags {
    /// Marks a [`PTE`] as representing a valid mapping.
    pub const VALID: u8 = 0x01;
    /// Marks a [`PTE`] mapping as a readable leaf.
    pub const READ: u8 = 0x02;
    /// Marks a [`PTE`] mapping as a writable leaf.
    pub const WRITE: u8 = 0x04;
    /// Marks a [`PTE`] mapping as an executable leaf.
    pub const EXECUTE: u8 = 0x08;
    /// Marks a [`PTE`] mapping as accessible from user-mode.
    pub const USER: u8 = 0x10;
    /// Marks a [`PTE`] mapping as global and should stay valid in the cache across flushes.
    pub const GLOBAL: u8 = 0x20;
    /// Marks a [`PTE`] mapping as accessed.
    pub const ACCESSED: u8 = 0x40;
    /// Marks a [`PTE`] mapping as dirty.
    pub const DIRTY: u8 = 0x80;
    /// Readable and writable.
    pub const RW: u8 = 0x06;
    /// Readable and executable.
    pub const RX: u8 = 0x0a;
    /// Readable, writable, and executable.
    pub const RWX: u8 = 0x0e;
    /// Global readable.
    pub const GR: u8 = 0x22;
    /// Global readable and writable.
    pub const GRW: u8 = 0x26;
    /// Global readable and executable.
    pub const GRX: u8 = 0x2a;
    /// Global readable, writable, and executable.
    pub const GRWX: u8 = 0x2e;
    /// The access and privilege flags that matter when comparing two entries: `RWXUG`.
    pub const COMPARE_MASK: u8 = 0x3e;

    /// Creates a flag set holding exactly the given bits.
    pub fn from_bits_retain(bits: u8) -> (r: PTEFlags)
        ensures
            r.bits == bits,
    {
        PTEFlags { bits }
    }

    /// The raw bits of the flag set.
    pub fn bits(&self) -> (r: u8)
        ensures
            r == self.bits,
    {
        self.bits
    }

    /// Whether all flags of `other` are set.
    pub fn contains(&self, other: PTEFlags) -> (r: bool)
        ensures
            r == (self.bits & other.bits == other.bits),
    {
        self.bits & other.bits == other.bits
    }

    /// Whether any flag of `other` is set.
    pub fn intersects(&self, other: PTEFlags) -> (r: bool)
        ensures
            r == (self.bits & other.bits != 0),
    {
        self.bits & other.bits != 0
    }

    /// The flags set in either.
    pub fn union(self, other: PTEFlags) -> (r: PTEFlags)
        ensures
            r.bits == self.bits | other.bits,
    {
        PTEFlags { bits: self.bits | other.bits }
    }

    /// The flags set in both.
    pub fn intersection(self, other: PTEFlags) -> (r: PTEFlags)
        ensures
            r.bits == self.bits & other.bits,
    {
        PTEFlags { bits: self.bits & other.bits }
    }

    /// Gets the compare mask of the field.
    ///
    /// This includes all access and privilege flags that matter in terms of comparation with
    /// other fields.
    pub fn get_mask(&self) -> (r: PTEFlags)
        ensures
            r.bits == self.bits & PTEFlags::COMPARE_MASK,
    {
        self.intersection(PTEFlags::from_bits_retain(PTEFlags::COMPARE_MASK))
    }

    /// Returns `true` if two fields have matching access and privilege flags.
    pub fn matches(&self, other: &PTEFlags) -> (r: bool)
        ensures
            r == (self.bits & PTEFlags::COMPARE_MASK == other.bits & PTEFlags::COMPARE_MASK),
    {
        self.get_mask().bits() == other.get_mask().bits()
    }
}

/// The physical address an entry with raw bits `e` points to: the 44-bit page number held in
/// bits 10..54, shifted into place, with bit 53 extended into the top eight bits.
pub open spec fn pte_phys(e: u64) -> u64 {
    ((((e / 0x400) % 0x1000_0000_0000) * 0x1000) + (if (e / 0x20_0000_0000_0000) % 2 == 1 {
        0xff00_0000_0000_0000u64 as int
    } else {
        0
    })) as u64
}

/// The raw bits of an entry pointing at `pa` with `flags`.
pub open spec fn pte_bits(pa: u64, flags: u8) -> u64 {
    (((pa as int / 0x1000) % 0x1000_0000_0000) * 0x400 + flags as int) as u64
}

/// Whether an entry with raw bits `e` is valid.
pub open spec fn pte_valid(e: u64) -> bool {
    e % 2 == 1
}

/// The flag bits of an entry with raw bits `e`.
pub open spec fn pte_flag_bits(e: u64) -> u8 {
    (e % 256) as u8
}

/// Whether an entry is a valid leaf: valid, with any of read, write or execute set.
pub open spec fn pte_leaf(e: u64) -> bool {
    pte_valid(e) && pte_flag_bits(e) & PTEFlags::RWX != 0
}

/// Setting an address whose page lies below bit 55 and reading it back gives it unchanged
/// up to its page offset.
pub proof fn lemma_pte_bits_roundtrip(pa: u64, flags: u8)
    requires
        pa < 0x80_0000_0000_0000,
    ensures
        pte_phys(pte_bits(pa, flags)) == pa - pa % 0x1000,
        pte_flag_bits(pte_bits(pa, flags)) == flags,
{
    let e = pte_bits(pa, flags);
    assert(e as int == (pa as int / 0x1000) * 0x400 + flags as int);
    assert(e / 0x400 == pa as int / 0x1000) by {
        vstd::arithmetic::div_mod::lemma_fundamental_div_mod_converse(e as int, 0x400, pa as int / 0x1000, flags as int);
    }
    assert((e / 0x20_0000_0000_0000) == 0);
    assert(e % 256 == flags) by {
        vstd::arithmetic::div_mod::lemma_fundamental_div_mod_converse(e as int, 256, (pa as int / 0x1000) * 4, flags as int);
    }
}

/// A [`PageTable`] entry.
#[derive(Clone, Copy, Debug)]
pub struct PTE(pub u64);

impl PTE {
    /// An empty entry.
    pub fn empty() -> (r: PTE)
        ensures
            r.0 == 0,
    {
        PTE(0)
    }

    /// Creates a [`PTE`] that points to the given physical address.
    pub fn new(page_addr: PAddr, flags: PTEFlags) -> (r: PTE)
        requires
            page_addr@ % PAGE_SIZE == 0,
        ensures
            r.0 == pte_bits(page_addr@, flags.bits),
    {
        let b = flags.bits();
        let fbits = b as u64 & 0xff;
        let ppn = page_addr.ppn_all();
        let paddr = ppn << 10u64;
        proof {
            assert((b as u64) & 0xff == b as u64) by (bit_vector);
            assert((ppn << 10u64) | fbits == ppn * 0x400 + fbits) by (bit_vector)
                requires
                    ppn < 0x1000_0000_0000,
                    fbits < 256,
            ;
        }
        PTE(paddr | fbits)
    }

    /// Gets the physical address pointed to by the entry.
    pub fn phys_addr(&self) -> (r: PAddr)
        ensures
            r@ == pte_phys(self.0),
    {
        let e = self.0;
        let raw = (e >> 10u64) & 0xfff_ffff_ffff;
        let hi: u64 = if e & 0x20_0000_0000_0000 != 0 {
            0xff00_0000_0000_0000
        } else {
            0
        };
        proof {
            assert((e >> 10u64) & 0xfff_ffff_ffff == (e / 0x400) % 0x1000_0000_0000) by (bit_vector);
            assert((e & 0x20_0000_0000_0000 != 0) == ((e / 0x20_0000_0000_0000) % 2 == 1)) by (bit_vector);
            assert(raw < 0x1000_0000_0000);
            assert((raw << 12u64) | hi == raw * 0x1000 + hi) by (bit_vector)
                requires
                    raw < 0x1000_0000_0000,
                    hi == 0 || hi == 0xff00_0000_0000_0000,
            ;
        }
        PAddr::new((raw << 12u64) | hi)
    }

    /// Gets the flags set on the entry.
    pub fn flags(&self) -> (r: PTEFlags)
        ensures
            r.bits == pte_flag_bits(self.0),
    {
        let e = self.0;
        proof {
            assert(e & 0xff == e % 256) by (bit_vector);
        }
        PTEFlags::from_bits_retain((e & 0xff) as u8)
    }

    /// Returns whether this entry is valid (i.e. [`PTEFlags::VALID`] is set).
    pub fn is_valid(&self) -> (r: bool)
        ensures
            r == pte_valid(self.0),
    {
        let f = self.flags();
        let e = self.0;
        proof {
            assert(((e % 256) as u8 & 1u8 == 1u8) == (e % 2 == 1)) by (bit_vector);
        }
        f.contains(PTEFlags::from_bits_retain(PTEFlags::VALID))
    }

    /// Returns whether this entry is a leaf: it is valid and any of [`PTEFlags::READ`],
    /// [`PTEFlags::WRITE`], or [`PTEFlags::EXECUTE`] is set.
    pub fn is_leaf(&self) -> (r: bool)
        ensures
            r == pte_leaf(self.0),
    {
        self.is_valid() && self.flags().intersects(PTEFlags::from_bits_retain(PTEFlags::RWX))
    }

    /// Sets the entry as a non-leaf entry pointing to another [`PageTable`].
    pub fn set_table(&mut self, pa: PAddr)
        requires
            pa@ % PAGE_SIZE == 0,
        ensures
            final(self).0 == pte_bits(pa@, PTEFlags::VALID),
    {
        self.set(pa, PTEFlags::from_bits_retain(PTEFlags::VALID));
    }

    /// Sets the entry as a leaf entry pointing to a physical memory location.
    ///
    /// The physical address must be aligned to `level`.
    pub fn set_leaf(&mut self, pa: PAddr, level: PageLevel, flags: PTEFlags)
        requires
            pa@ % level_size(level) == 0,
        ensures
            final(self).0 == pte_bits(pa@, flags.bits | PTEFlags::VALID),
    {
        proof {
            let x = pa@ as int;
            match level {
                PageLevel::Page4K => {},
                PageLevel::Megapage2M => {
                    vstd::arithmetic::div_mod::lemma_mod_mod(x, 0x1000, 0x200);
                },
                PageLevel::Gigapage1G => {
                    vstd::arithmetic::div_mod::lemma_mod_mod(x, 0x1000, 0x4_0000);
                },
                PageLevel::Terapage512G => {
                    vstd::arithmetic::div_mod::lemma_mod_mod(x, 0x1000, 0x800_0000);
                },
            }
        }
        self.set(pa, flags.union(PTEFlags::from_bits_retain(PTEFlags::VALID)));
    }

    /// Clears this entry.
    pub fn clear(&mut self)
        ensures
            final(self).0 == 0,
    {
        self.0 = 0;
    }

    fn set(&mut self, page_addr: PAddr, flags: PTEFlags)
        requires
            page_addr@ % PAGE_SIZE == 0,
        ensures
            final(self).0 == pte_bits(page_addr@, flags.bits),
    {
        *self = PTE::new(page_addr, flags);
    }
}

} // verus!

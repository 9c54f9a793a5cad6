//! Physical and virtual addresses of the Sv48 paging scheme.
use vstd::prelude::*;

use crate::sv48::PageLevel;
use vstd::arithmetic::power2::{lemma2_to64, lemma_pow2_pos, pow2};
use vstd::bits::{low_bits_mask, lemma_u64_low_bits_mask_is_mod};

verus! {

/// The size of a page, in bytes.
pub const PAGE_SIZE: u64 = 0x1000;

/// `x` is a power of two (`u64::is_power_of_two`).
pub open spec fn is_pow2(x: u64) -> bool {
    exists|n: nat| n < 64 && x == pow2(n)
}

/// The page size is a power of two.
pub proof fn lemma_page_size_pow2()
    ensures
        is_pow2(PAGE_SIZE),
{
    lemma2_to64();
    assert(PAGE_SIZE == pow2(12));
}

/// The page-number fields and page offset that `from_parts` packs into an address:
/// each page number keeps its low nine bits, the offset its low twelve bits.
pub open spec fn packed_parts(p0: usize, p1: usize, p2: usize, p3: usize, off: u64) -> int {
    (p3 % 512) * 0x80_0000_0000 + (p2 % 512) * 0x4000_0000 + (p1 % 512) * 0x20_0000 + (p0 % 512)
        * 0x1000 + off % 0x1000
}

/// Law: an address below bit 48 is rebuilt from its page numbers and its page offset, as
/// `from_parts` builds it from what `vpn` and `ppn` give.
pub proof fn lemma_parts_roundtrip(a: u64)
    requires
        a < 0x1_0000_0000_0000,
    ensures
        packed_parts(
            page_number(a, 0) as usize,
            page_number(a, 1) as usize,
            page_number(a, 2) as usize,
            page_number(a, 3) as usize,
            a,
        ) == a,
{
    let x = a as int;
    let q0 = x / 0x1000;
    let q1 = q0 / 512;
    let q2 = q1 / 512;
    let q3 = q2 / 512;
    vstd::arithmetic::div_mod::lemma_fundamental_div_mod(x, 0x1000);
    vstd::arithmetic::div_mod::lemma_fundamental_div_mod(q0, 512);
    vstd::arithmetic::div_mod::lemma_fundamental_div_mod(q1, 512);
    vstd::arithmetic::div_mod::lemma_fundamental_div_mod(q2, 512);
    vstd::arithmetic::div_mod::lemma_div_denominator(x, 0x1000, 512);
    vstd::arithmetic::div_mod::lemma_div_denominator(x, 0x20_0000, 512);
    vstd::arithmetic::div_mod::lemma_div_denominator(x, 0x4000_0000, 512);
    assert(q3 < 512) by {
        vstd::arithmetic::div_mod::lemma_div_by_multiple_is_strongly_ordered(
            x,
            0x1_0000_0000_0000,
            512,
            0x80_0000_0000,
        );
    }
    vstd::arithmetic::div_mod::lemma_small_mod(q3 as nat, 512);
    assert(page_number(a, 3) == q3);
    assert(x == q3 * 0x80_0000_0000 + (q2 % 512) * 0x4000_0000 + (q1 % 512) * 0x20_0000 + (q0
        % 512) * 0x1000 + x % 0x1000) by (nonlinear_arith)
        requires
            x == 0x1000 * q0 + x % 0x1000,
            q0 == 512 * q1 + q0 % 512,
            q1 == 512 * q2 + q1 % 512,
            q2 == 512 * q3 + q2 % 512,
    ;
}

/// The largest multiple of a power of two `align` that is at most `a`.
pub open spec fn align_down_spec(a: int, align: int) -> int {
    a - a % align
}

/// The smallest multiple of a power of two `align` that is at least `a`.
pub open spec fn align_up_spec(a: int, align: int) -> int {
    if a % align == 0 {
        a
    } else {
        a - a % align + align
    }
}

/// The page number of `a` at translation level `i` (nine bits each, from bit 12 upwards).
pub open spec fn page_number(a: u64, i: int) -> int {
    if i == 0 {
        (a as int / 0x1000) % 512
    } else if i == 1 {
        (a as int / 0x20_0000) % 512
    } else if i == 2 {
        (a as int / 0x4000_0000) % 512
    } else {
        (a as int / 0x80_0000_0000) % 512
    }
}

/// The address that `PAddr::compute_phys` yields: the page offset of `va`, the page numbers of
/// `va` below the cutoff `level`, and the page numbers of `pa` from the cutoff up; that is, the
/// offset of `va` within a page of `level` added to the page of `pa`.
pub open spec fn compute_phys_spec(pa: u64, va: u64, level: Option<PageLevel>) -> int {
    let cut: int = match level {
        None => 0,
        Some(PageLevel::Page4K) => 0,
        Some(PageLevel::Megapage2M) => 1,
        Some(PageLevel::Gigapage1G) => 2,
        Some(PageLevel::Terapage512G) => 3,
    };
    (if cut > 3 { page_number(va, 3) } else { page_number(pa, 3) }) * 0x80_0000_0000 + (if cut
        > 2 {
        page_number(va, 2)
    } else {
        page_number(pa, 2)
    }) * 0x4000_0000 + (if cut > 1 {
        page_number(va, 1)
    } else {
        page_number(pa, 1)
    }) * 0x20_0000 + (if cut > 0 {
        page_number(va, 0)
    } else {
        page_number(pa, 0)
    }) * 0x1000 + va % 0x1000
}

proof fn lemma_small_mask(x: usize)
    ensures
        x & 0x1ff == x % 512,
{
    assert(x & 0x1ff == x % 512) by (bit_vector);
}

proof fn lemma_pack_parts(p0: u64, p1: u64, p2: u64, p3: u64, off: u64)
    requires
        p0 < 512,
        p1 < 512,
        p2 < 512,
        p3 < 512,
    ensures
        (p3 << 39u64) | (p2 << 30u64) | (p1 << 21u64) | (p0 << 12u64) | (off & 0xfff) == p3
            * 0x80_0000_0000 + p2 * 0x4000_0000 + p1 * 0x20_0000 + p0 * 0x1000 + off % 0x1000,
{
    assert((p3 << 39u64) | (p2 << 30u64) | (p1 << 21u64) | (p0 << 12u64) | (off & 0xfff) == p3
        * 0x80_0000_0000 + p2 * 0x4000_0000 + p1 * 0x20_0000 + p0 * 0x1000 + off % 0x1000)
        by (bit_vector)
        requires
            p0 < 512,
            p1 < 512,
            p2 < 512,
            p3 < 512,
    ;
}

/// Masking with `!(align - 1)` rounds down to a multiple of a power of two.
pub proof fn lemma_mask_align_down(a: u64, align: u64)
    requires
        is_pow2(align),
    ensures
        a & !((align - 1) as u64) == align_down_spec(a as int, align as int),
        (a & !((align - 1) as u64)) % align == 0,
        a & !((align - 1) as u64) <= a,
        a & ((align - 1) as u64) == a % align,
{
    let n = choose|n: nat| n < 64 && align == pow2(n);
    lemma_pow2_pos(n);
    lemma_u64_low_bits_mask_is_mod(a, n);
    assert(low_bits_mask(n) == align - 1);
    let m = (align - 1) as u64;
    assert(a & !m == a - (a & m)) by (bit_vector);
    assert(a & m <= a) by (bit_vector);
    let d = a & !m;
    vstd::arithmetic::div_mod::lemma_fundamental_div_mod(a as int, align as int);
    assert(d as int == align * (a as int / align as int));
    vstd::arithmetic::div_mod::lemma_mod_multiples_basic(a as int / align as int, align as int);
    vstd::arithmetic::mul::lemma_mul_is_commutative(align as int, a as int / align as int);
}

proof fn lemma_mask_align_up(a: u64, align: u64)
    requires
        is_pow2(align),
        a + align - 1 <= u64::MAX,
    ensures
        ((a + align - 1) as u64) & !((align - 1) as u64) == align_up_spec(a as int, align as int),
{
    let b = (a + align - 1) as u64;
    lemma_mask_align_down(b, align);
    let n = choose|n: nat| n < 64 && align == pow2(n);
    lemma_pow2_pos(n);
    if a % align == 0 {
        vstd::arithmetic::div_mod::lemma_mod_add_multiples_vanish((align - 1) as int, align as int);
        assert((a + (align - 1)) % (align as int) == (align - 1)) by {
            vstd::arithmetic::div_mod::lemma_fundamental_div_mod(a as int, align as int);
            vstd::arithmetic::div_mod::lemma_mod_multiples_vanish(a as int / align as int, (align - 1) as int, align as int);
            vstd::arithmetic::div_mod::lemma_small_mod((align - 1) as nat, align as nat);
        }
    } else {
        vstd::arithmetic::div_mod::lemma_fundamental_div_mod(a as int, align as int);
        let q = a as int / align as int;
        let r = a as int % align as int;
        assert(b as int == align * (q + 1) + (r - 1)) by (nonlinear_arith)
            requires b as int == a + align - 1, a as int == align * q + r;
        vstd::arithmetic::div_mod::lemma_mod_multiples_vanish(q + 1, r - 1, align as int);
        vstd::arithmetic::div_mod::lemma_small_mod((r - 1) as nat, align as nat);
    }
}

/// Represents a physical address. A pointer should not be derived from this address directly
/// unless it has been made sure that the resulting pointer is properly mapped.
#[derive(Clone, Copy, PartialEq, Eq, Structural, Debug)]
pub struct PAddr(pub u64);

impl View for PAddr {
    type V = u64;

    open spec fn view(&self) -> u64 {
        self.0
    }
}

impl PAddr {
    /// Creates a new physical address from raw unsigned integer.
    pub fn new(addr: u64) -> (r: Self)
        ensures
            r@ == addr,
    {
        PAddr(addr)
    }

    /// Creates a physical address from known physical page numbers, as well as an offset.
    pub fn from_parts(ppn: [usize; 4], page_offset: u64) -> (r: Self)
        requires
            ppn[0] < 512,
            ppn[1] < 512,
            ppn[2] < 512,
            ppn[3] < 512,
        ensures
            r@ == packed_parts(ppn[0], ppn[1], ppn[2], ppn[3], page_offset),
    {
        Self::pack(ppn, page_offset)
    }

    /// Packs page numbers and an offset into an address, keeping the low nine bits of each
    /// page number and the low twelve bits of the offset.
    fn pack(ppn: [usize; 4], page_offset: u64) -> (r: Self)
        ensures
            r@ == packed_parts(ppn[0], ppn[1], ppn[2], ppn[3], page_offset),
    {
        let p0 = (ppn[0] & 0x1ff) as u64;
        let p1 = (ppn[1] & 0x1ff) as u64;
        let p2 = (ppn[2] & 0x1ff) as u64;
        let p3 = (ppn[3] & 0x1ff) as u64;
        let ppn0 = p0 << 12u64;
        let ppn1 = p1 << 21u64;
        let ppn2 = p2 << 30u64;
        let ppn3 = p3 << 39u64;
        let off = page_offset & 0xfff;
        proof {
            lemma_small_mask(ppn[0]);
            lemma_small_mask(ppn[1]);
            lemma_small_mask(ppn[2]);
            lemma_small_mask(ppn[3]);
            lemma_pack_parts(p0, p1, p2, p3, page_offset);
        }
        PAddr(ppn3 | ppn2 | ppn1 | ppn0 | off)
    }

    /// Gets the unsigned integer address of this physical address.
    pub fn addr(&self) -> (r: u64)
        ensures
            r == self@,
    {
        self.0
    }

    /// Gets the physical page numbers of the physical page containing this address.
    pub fn ppn(&self) -> (r: [usize; 4])
        ensures
            r[0] == page_number(self@, 0),
            r[1] == page_number(self@, 1),
            r[2] == page_number(self@, 2),
            r[3] == (self@ / 0x80_0000_0000) % 0x2_0000,
    {
        let a = self.0;
        proof {
            assert((a >> 12u64) & 0x1ff == (a / 0x1000) % 512) by (bit_vector);
            assert((a >> 21u64) & 0x1ff == (a / 0x20_0000) % 512) by (bit_vector);
            assert((a >> 30u64) & 0x1ff == (a / 0x4000_0000) % 512) by (bit_vector);
            assert((a >> 39u64) & 0x1ffff == (a / 0x80_0000_0000) % 0x2_0000) by (bit_vector);
        }
        [
            ((a >> 12u64) & 0x1ff) as usize,
            ((a >> 21u64) & 0x1ff) as usize,
            ((a >> 30u64) & 0x1ff) as usize,
            ((a >> 39u64) & 0x1ffff) as usize,
        ]
    }

    /// Gets the aggregated physical page number of the physical page containing this address.
    pub fn ppn_all(&self) -> (r: u64)
        ensures
            r == (self@ / PAGE_SIZE) % 0x1000_0000_0000,
    {
        let a = self.0;
        proof {
            assert((a / 0x1000) & 0xfff_ffff_ffff == (a / 0x1000) % 0x1000_0000_0000)
                by (bit_vector);
        }
        (a / PAGE_SIZE) & 0xfff_ffff_ffff
    }

    /// Aligns down to the first aligned address less than equal than the current address.
    ///
    /// Only correct if `align` is a power of two.
    pub fn align_down(&self, align: u64) -> (r: Self)
        requires
            align > 0,
        ensures
            r@ == self@ & !((align - 1) as u64),
            is_pow2(align) ==> r@ == align_down_spec(self@ as int, align as int),
    {
        proof {
            if is_pow2(align) {
                lemma_mask_align_down(self.0, align);
            }
        }
        PAddr(self.0 & !(align - 1))
    }

    /// Aligns up to the first aligned address greater or equal than the current address.
    ///
    /// Only correct if `align` is a power of two.
    pub fn align_up(&self, align: u64) -> (r: Self)
        requires
            align > 0,
            self@ + align - 1 <= u64::MAX,
        ensures
            r@ == ((self@ + align - 1) as u64) & !((align - 1) as u64),
            is_pow2(align) ==> r@ == align_up_spec(self@ as int, align as int),
    {
        proof {
            if is_pow2(align) {
                lemma_mask_align_up(self.0, align);
            }
        }
        PAddr((self.0 + (align - 1)) & !(align - 1))
    }

    /// Aligns the address to its page.
    pub fn align_to_page(&self) -> (r: Self)
        ensures
            r@ == align_down_spec(self@ as int, PAGE_SIZE as int),
    {
        proof {
            lemma_page_size_pow2();
        }
        self.align_down(PAGE_SIZE)
    }

    /// Aligns the address to the next page.
    pub fn align_to_next_page(&self) -> (r: Self)
        requires
            self@ + PAGE_SIZE - 1 <= u64::MAX,
        ensures
            r@ == align_up_spec(self@ as int, PAGE_SIZE as int),
    {
        proof {
            lemma_page_size_pow2();
        }
        self.align_up(PAGE_SIZE)
    }

    /// Computes the effective physical address from the combination of the base physical address
    /// and the effective offset, which is computed from the given virtual address and the
    /// [`PageLevel`] at which the cutoff should happen.
    #[verifier::rlimit(40)]
    pub fn compute_phys(&self, va: &VAddr, level: Option<PageLevel>) -> (r: Self)
        ensures
            r@ == compute_phys_spec(self@, va@, level),
    {
        let offset = va.addr() % PAGE_SIZE;
        let p = self.ppn();
        let v = va.vpn();
        let ppns = match level {
            None => [p[0], p[1], p[2], p[3]],
            Some(PageLevel::Page4K) => [p[0], p[1], p[2], p[3]],
            Some(PageLevel::Megapage2M) => [v[0], p[1], p[2], p[3]],
            Some(PageLevel::Gigapage1G) => [v[0], v[1], p[2], p[3]],
            Some(PageLevel::Terapage512G) => [v[0], v[1], v[2], p[3]],
        };
        Self::pack(ppns, offset)
    }

}

impl core::ops::Add<u64> for PAddr {
    type Output = PAddr;

    fn add(self, rhs: u64) -> (r: PAddr) {
        PAddr(self.0.wrapping_add(rhs))
    }
}

impl vstd::std_specs::ops::AddSpecImpl<u64> for PAddr {
    open spec fn obeys_add_spec() -> bool {
        true
    }

    open spec fn add_req(self, rhs: u64) -> bool {
        true
    }

    open spec fn add_spec(self, rhs: u64) -> PAddr {
        PAddr(vstd::wrapping::u64_specs::wrapping_add(self.0, rhs))
    }
}

impl core::ops::Sub<u64> for PAddr {
    type Output = PAddr;

    fn sub(self, rhs: u64) -> (r: PAddr) {
        PAddr(self.0.wrapping_sub(rhs))
    }
}

impl vstd::std_specs::ops::SubSpecImpl<u64> for PAddr {
    open spec fn obeys_sub_spec() -> bool {
        true
    }

    open spec fn sub_req(self, rhs: u64) -> bool {
        true
    }

    open spec fn sub_spec(self, rhs: u64) -> PAddr {
        PAddr(vstd::wrapping::u64_specs::wrapping_sub(self.0, rhs))
    }
}

impl core::ops::Sub<PAddr> for PAddr {
    type Output = u64;

    fn sub(self, rhs: PAddr) -> (r: u64) {
        self.0.wrapping_sub(rhs.0)
    }
}

impl vstd::std_specs::ops::SubSpecImpl<PAddr> for PAddr {
    open spec fn obeys_sub_spec() -> bool {
        true
    }

    open spec fn sub_req(self, rhs: PAddr) -> bool {
        true
    }

    open spec fn sub_spec(self, rhs: PAddr) -> u64 {
        vstd::wrapping::u64_specs::wrapping_sub(self.0, rhs.0)
    }
}

/// Represents a virtual address.
#[derive(Clone, Copy, PartialEq, Eq, Structural, Debug)]
pub struct VAddr(pub u64);

impl View for VAddr {
    type V = u64;

    open spec fn view(&self) -> u64 {
        self.0
    }
}

impl VAddr {
    /// Creates a new virtual address from raw unsigned integer.
    pub fn new(addr: u64) -> (r: Self)
        ensures
            r@ == addr,
    {
        VAddr(addr)
    }

    /// Creates an identity-mapped virtual address from a physical address.
    pub fn identity(paddr: PAddr) -> (r: Self)
        ensures
            r@ == paddr@,
    {
        VAddr(paddr.addr())
    }

    /// Creates a virtual address from known virtual page numbers, as well as an offset.
    pub fn from_parts(vpn: [usize; 4], page_offset: u64) -> (r: Self)
        requires
            vpn[0] < 512,
            vpn[1] < 512,
            vpn[2] < 512,
            vpn[3] < 512,
        ensures
            r@ == packed_parts(vpn[0], vpn[1], vpn[2], vpn[3], page_offset),
    {
        let p0 = (vpn[0] & 0x1ff) as u64;
        let p1 = (vpn[1] & 0x1ff) as u64;
        let p2 = (vpn[2] & 0x1ff) as u64;
        let p3 = (vpn[3] & 0x1ff) as u64;
        let vpn0 = p0 << 12u64;
        let vpn1 = p1 << 21u64;
        let vpn2 = p2 << 30u64;
        let vpn3 = p3 << 39u64;
        let off = page_offset & 0xfff;
        proof {
            lemma_small_mask(vpn[0]);
            lemma_small_mask(vpn[1]);
            lemma_small_mask(vpn[2]);
            lemma_small_mask(vpn[3]);
            lemma_pack_parts(p0, p1, p2, p3, page_offset);
        }
        VAddr(vpn3 | vpn2 | vpn1 | vpn0 | off)
    }

    /// Gets the unsigned integer address of this virtual address.
    pub fn addr(&self) -> (r: u64)
        ensures
            r == self@,
    {
        self.0
    }

    /// Gets the virtual page numbers of the virtual page containing this address.
    pub fn vpn(&self) -> (r: [usize; 4])
        ensures
            r[0] == page_number(self@, 0),
            r[1] == page_number(self@, 1),
            r[2] == page_number(self@, 2),
            r[3] == page_number(self@, 3),
    {
        let a = self.0;
        proof {
            assert((a >> 12u64) & 0x1ff == (a / 0x1000) % 512) by (bit_vector);
            assert((a >> 21u64) & 0x1ff == (a / 0x20_0000) % 512) by (bit_vector);
            assert((a >> 30u64) & 0x1ff == (a / 0x4000_0000) % 512) by (bit_vector);
            assert((a >> 39u64) & 0x1ff == (a / 0x80_0000_0000) % 512) by (bit_vector);
        }
        [
            ((a >> 12u64) & 0x1ff) as usize,
            ((a >> 21u64) & 0x1ff) as usize,
            ((a >> 30u64) & 0x1ff) as usize,
            ((a >> 39u64) & 0x1ff) as usize,
        ]
    }

    /// Gets the aggregated virtual page number of the virtual page containing this address.
    pub fn vpn_all(&self) -> (r: u64)
        ensures
            r == (self@ / PAGE_SIZE) % 0x10_0000_0000,
    {
        let a = self.0;
        proof {
            assert((a / 0x1000) & 0xf_ffff_ffff == (a / 0x1000) % 0x10_0000_0000) by (bit_vector);
        }
        (a / PAGE_SIZE) & 0xf_ffff_ffff
    }

    /// Aligns down to the first aligned address less than equal than the current address.
    ///
    /// Only correct if `align` is a power of two.
    pub fn align_down(&self, align: u64) -> (r: Self)
        requires
            align > 0,
        ensures
            r@ == self@ & !((align - 1) as u64),
            is_pow2(align) ==> r@ == align_down_spec(self@ as int, align as int),
    {
        proof {
            if is_pow2(align) {
                lemma_mask_align_down(self.0, align);
            }
        }
        VAddr(self.0 & !(align - 1))
    }

    /// Aligns up to the first aligned address greater or equal than the current address.
    ///
    /// Only correct if `align` is a power of two.
    pub fn align_up(&self, align: u64) -> (r: Self)
        requires
            align > 0,
            self@ + align - 1 <= u64::MAX,
        ensures
            r@ == ((self@ + align - 1) as u64) & !((align - 1) as u64),
            is_pow2(align) ==> r@ == align_up_spec(self@ as int, align as int),
    {
        proof {
            if is_pow2(align) {
                lemma_mask_align_up(self.0, align);
            }
        }
        VAddr((self.0 + (align - 1)) & !(align - 1))
    }

    /// Aligns the address to its page.
    pub fn align_to_page(&self) -> (r: Self)
        ensures
            r@ == align_down_spec(self@ as int, PAGE_SIZE as int),
    {
        proof {
            lemma_page_size_pow2();
        }
        self.align_down(PAGE_SIZE)
    }

    /// Aligns the address to the next page.
    pub fn align_to_next_page(&self) -> (r: Self)
        requires
            self@ + PAGE_SIZE - 1 <= u64::MAX,
        ensures
            r@ == align_up_spec(self@ as int, PAGE_SIZE as int),
    {
        proof {
            lemma_page_size_pow2();
        }
        self.align_up(PAGE_SIZE)
    }
}

impl core::ops::Add<u64> for VAddr {
    type Output = VAddr;

    fn add(self, rhs: u64) -> (r: VAddr) {
        VAddr(self.0.wrapping_add(rhs))
    }
}

impl vstd::std_specs::ops::AddSpecImpl<u64> for VAddr {
    open spec fn obeys_add_spec() -> bool {
        true
    }

    open spec fn add_req(self, rhs: u64) -> bool {
        true
    }

    open spec fn add_spec(self, rhs: u64) -> VAddr {
        VAddr(vstd::wrapping::u64_specs::wrapping_add(self.0, rhs))
    }
}

impl core::ops::Sub<u64> for VAddr {
    type Output = VAddr;

    fn sub(self, rhs: u64) -> (r: VAddr) {
        VAddr(self.0.wrapping_sub(rhs))
    }
}

impl vstd::std_specs::ops::SubSpecImpl<u64> for VAddr {
    open spec fn obeys_sub_spec() -> bool {
        true
    }

    open spec fn sub_req(self, rhs: u64) -> bool {
        true
    }

    open spec fn sub_spec(self, rhs: u64) -> VAddr {
        VAddr(vstd::wrapping::u64_specs::wrapping_sub(self.0, rhs))
    }
}

impl core::ops::Sub<VAddr> for VAddr {
    type Output = u64;

    fn sub(self, rhs: VAddr) -> (r: u64) {
        self.0.wrapping_sub(rhs.0)
    }
}

impl vstd::std_specs::ops::SubSpecImpl<VAddr> for VAddr {
    open spec fn obeys_sub_spec() -> bool {
        true
    }

    open spec fn sub_req(self, rhs: VAddr) -> bool {
        true
    }

    open spec fn sub_spec(self, rhs: VAddr) -> u64 {
        vstd::wrapping::u64_specs::wrapping_sub(self.0, rhs.0)
    }
}

} // verus!

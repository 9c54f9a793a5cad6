//! The Sv32 paging scheme of 32-bit harts: page table entries and virtual page numbers.
//! Addresses and sizes are those of the 32-bit target the scheme runs on.
use vstd::prelude::*;

verus! {

/// The entry maps something.
pub const SV32_VALID: u8 = 0x01;

/// The mapped page can be read.
pub const SV32_READ: u8 = 0x02;

/// The mapped page can be written.
pub const SV32_WRITE: u8 = 0x04;

/// The mapped page can be executed.
pub const SV32_EXECUTE: u8 = 0x08;

/// The mapped page can be accessed in user mode.
pub const SV32_USER: u8 = 0x10;

/// The mapping exists in all address spaces.
pub const SV32_GLOBAL: u8 = 0x20;

/// The page has been accessed.
pub const SV32_ACCESSED: u8 = 0x40;

/// The page has been written.
pub const SV32_DIRTY: u8 = 0x80;

/// Readable and writable.
pub const SV32_RW: u8 = 0x06;

/// Readable and executable.
pub const SV32_RX: u8 = 0x0a;

/// Readable, writable and executable.
pub const SV32_RWX: u8 = 0x0e;

/// Readable, writable, executable and accessible in user mode.
pub const SV32_RWXU: u8 = 0x1e;

/// The number of entries of a page table.
pub const PT_ENTRY_COUNT: usize = 1024;

/// The mask of the offset within a page.
pub const PAGE_LOW_MASK: u32 = 0xfff;

/// A page table entry of the Sv32 scheme.
#[derive(Clone, Copy, PartialEq, Eq, Structural, Debug)]
pub struct Sv32PTE {
    pub bits: u32,
}

/// The flags of an entry: its low eight bits.
pub open spec fn sv32_flags(bits: u32) -> u8 {
    (bits % 0x100) as u8
}

/// The physical address an entry maps: the page number, moved into place, within 32 bits.
pub open spec fn sv32_paddr(bits: u32) -> u64 {
    (((bits as int * 4) % 0x1_0000_0000) as u32 & !PAGE_LOW_MASK) as u64
}

/// The operations on a page table entry.
pub trait PageTableEntry {
    /// The entry maps something.
    fn is_valid(&self) -> bool;

    /// The entry maps a page (rather than a table).
    fn is_leaf(&self) -> bool;

    /// Sets the given flags, keeping the others.
    fn set_flags(&mut self, flags: u8);

    /// The physical address the entry maps.
    fn get_paddr(&self) -> u64;

    /// Sets the physical address the entry maps.
    fn set_paddr(&mut self, ppn: u64);
}

impl Sv32PTE {
    /// The flags of the entry.
    pub fn flags(&self) -> (r: u8)
        ensures
            r == sv32_flags(self.bits),
    {
        proof {
            let b = self.bits;
            assert(b & 0xff == b % 0x100) by (bit_vector);
        }
        (self.bits & 0xff) as u8
    }
}

impl PageTableEntry for Sv32PTE {
    fn is_valid(&self) -> (r: bool)
        ensures
            r == (sv32_flags(self.bits) & SV32_VALID != 0),
    {
        self.flags() & SV32_VALID != 0
    }

    fn is_leaf(&self) -> (r: bool)
        ensures
            r == (sv32_flags(self.bits) & SV32_RWX != 0),
    {
        self.flags() & SV32_RWX != 0
    }

    fn set_flags(&mut self, flags: u8)
        ensures
            final(self).bits == (old(self).bits & !0xffu32) | ((sv32_flags(old(self).bits) | flags) as u32),
    {
        let sh = self.bits & !0xffu32;
        let pteflags = self.flags() | flags;
        self.bits = sh | (pteflags as u32);
    }

    fn get_paddr(&self) -> (r: u64)
        ensures
            r == sv32_paddr(self.bits),
    {
        let b = self.bits;
        let shifted: u32 = b << 2u32;
        proof {
            assert(b << 2u32 == ((b as int * 4) % 0x1_0000_0000) as u32) by (bit_vector);
        }
        (shifted & !PAGE_LOW_MASK) as u64
    }

    fn set_paddr(&mut self, ppn: u64)
        ensures
            final(self).bits == ((((ppn % 0x1_0000_0000) as u32) & !PAGE_LOW_MASK) >> 2u32) | (old(
                self,
            ).bits & PAGE_LOW_MASK),
    {
        let p: u32 = (ppn & 0xffff_ffff) as u32;
        proof {
            assert(ppn & 0xffff_ffff == ppn % 0x1_0000_0000) by (bit_vector);
        }
        let sh = (p & !PAGE_LOW_MASK) >> 2u32;
        self.bits = sh | (self.bits & PAGE_LOW_MASK);
    }
}

/// Law: a page address set in an entry reads back, where the address lies below 4 GiB and
/// the entry's two reserved bits above its flags are clear; setting flags keeps the address
/// and leaves the given flags set.
pub proof fn lemma_sv32_entry(bits: u32, pa: u64, flags: u8)
    requires
        pa < 0x1_0000_0000,
        pa % 0x1000 == 0,
        bits & 0xc00 == 0,
    ensures
        sv32_paddr(((((pa % 0x1_0000_0000) as u32) & !PAGE_LOW_MASK) >> 2u32) | (bits
            & PAGE_LOW_MASK)) == pa,
        sv32_paddr((bits & !0xffu32) | ((sv32_flags(bits) | flags) as u32)) == sv32_paddr(bits),
        sv32_flags((bits & !0xffu32) | ((sv32_flags(bits) | flags) as u32)) & flags == flags,
{
    let p = pa as u32;
    assert(p as u64 == pa);
    lemma_low_bits32(p);
    lemma_sv32_roundtrip(p, bits);
    let f: u8 = ((bits % 0x100) as u8) | flags;
    assert(((((bits & !0xffu32) | (f as u32)) as int * 4) % 0x1_0000_0000) as u32 & !0xfffu32
        == ((bits as int * 4) % 0x1_0000_0000) as u32 & !0xfffu32) by (bit_vector);
    assert((((bits & !0xffu32) | (f as u32)) % 0x100) as u8 & flags == flags) by (bit_vector)
        requires
            f == ((bits % 0x100) as u8) | flags,
    ;
}

/// The offsets of a virtual address within a page and within a megapage.
proof fn lemma_low_bits32(vaddr: u32)
    by (bit_vector)
    ensures
        vaddr & 0xfffu32 == vaddr % 0x1000,
        vaddr & 0x3f_ffffu32 == vaddr % 0x40_0000,
        vaddr & 0xfffu32 <= 0xfff,
        vaddr & 0x3f_ffffu32 <= 0x3f_ffff,
{
}

/// The page and megapage of a physical address, and adding an offset to them.
proof fn lemma_page_bits64(pte_paddr: u64, lo: u64, hi: u64)
    by (bit_vector)
    requires
        lo <= 0xfff,
        hi <= 0x3f_ffff,
    ensures
        pte_paddr & !(0xfffu32 as u64) == pte_paddr - pte_paddr % 0x1000,
        pte_paddr & !(0x3f_ffffu32 as u64) == pte_paddr - pte_paddr % 0x40_0000,
        (pte_paddr & !(0xfffu32 as u64)) | lo == (pte_paddr & !(0xfffu32 as u64)) + lo,
        (pte_paddr & !(0x3f_ffffu32 as u64)) | hi == (pte_paddr & !(0x3f_ffffu32 as u64)) + hi,
{
}

/// A page number set in an entry reads back where the reserved bits above the flags are clear.
proof fn lemma_sv32_roundtrip(p: u32, bits: u32)
    by (bit_vector)
    requires
        p & 0xfff == 0,
        bits & 0xc00 == 0,
    ensures
        ((((((p & !0xfffu32) >> 2u32) | (bits & 0xfffu32)) as int * 4) % 0x1_0000_0000) as u32
            & !0xfffu32) == p,
{
}

/// A page table of the Sv32 scheme.
pub struct Sv32PT {
    pub entries: Vec<Sv32PTE>,
}

/// The operations on a page table.
pub trait PageTable {
    /// The number of entries of a table.
    fn len() -> usize;
}

impl PageTable for Sv32PT {
    fn len() -> (r: usize)
        ensures
            r == PT_ENTRY_COUNT,
    {
        PT_ENTRY_COUNT
    }
}

/// The Sv32 paging mode.
pub struct Sv32;

/// The mask of the offset within a page mapped at `level`.
pub open spec fn level_mask(level: usize) -> int {
    if level == 0 {
        0xfff
    } else {
        0x3f_ffff
    }
}

/// The virtual page number of `vaddr` at `level`.
pub open spec fn vpn_index_spec(vaddr: u32, level: usize) -> int {
    if level == 0 {
        (vaddr as int / 0x1000) % 0x400
    } else {
        (vaddr as int / 0x40_0000) % 0x400
    }
}

impl Sv32 {
    /// The physical address `vaddr` translates to through a leaf at `level` that maps
    /// `pte_paddr`: the page of `pte_paddr`, the offset of `vaddr` within it. On the 32-bit
    /// target, a level of two would shift a word by its width, so the level is below two.
    pub fn v_to_p(vaddr: u32, pte_paddr: u64, level: usize) -> (r: u64)
        requires
            level < 2,
        ensures
            r == pte_paddr as int - pte_paddr as int % (level_mask(level) + 1) + vaddr as int % (
            level_mask(level) + 1),
    {
        let mask: u32 = if level == 0 {
            0xfff
        } else {
            0x3f_ffff
        };
        let vaddr_lower = vaddr & mask;
        let paddr_upper = pte_paddr & !(mask as u64);
        proof {
            lemma_low_bits32(vaddr);
            lemma_page_bits64(
                pte_paddr,
                (vaddr & 0xfffu32) as u64,
                (vaddr & 0x3f_ffffu32) as u64,
            );
        }
        paddr_upper | (vaddr_lower as u64)
    }

    /// The virtual page number of `vaddr` at `level`, which is below two.
    pub fn vpn_index(vaddr: u32, level: usize) -> (r: usize)
        requires
            level < 2,
        ensures
            r == vpn_index_spec(vaddr, level),
    {
        if level == 0 {
            proof {
                assert((vaddr >> 12u32) & 0x3ff == (vaddr / 0x1000) % 0x400) by (bit_vector);
            }
            ((vaddr >> 12u32) & 0x3ff) as usize
        } else {
            proof {
                assert((vaddr >> 22u32) & 0x3ff == (vaddr / 0x40_0000) % 0x400) by (bit_vector);
            }
            ((vaddr >> 22u32) & 0x3ff) as usize
        }
    }

    /// The virtual page numbers of `vaddr`, level by level.
    pub fn vpn_indices(vaddr: u32) -> (r: [usize; 2])
        ensures
            r[0] == vpn_index_spec(vaddr, 0),
            r[1] == vpn_index_spec(vaddr, 1),
    {
        let mut vpn = [0usize; 2];
        vpn[0] = Self::vpn_index(vaddr, 0);
        vpn[1] = Self::vpn_index(vaddr, 1);
        vpn
    }
}

/// The flags a mapping may be given: some of read, write, execute and user, at least one of
/// read, write and execute, and read wherever write.
pub open spec fn map_flags_allowed(flags: u8) -> bool {
    &&& flags & !SV32_RWXU == 0
    &&& flags & SV32_RWX != 0
    &&& flags & SV32_WRITE != 0 ==> flags & SV32_READ != 0
}

/// Checks the flags of a mapping (see [`map_flags_allowed`]).
pub fn validate_map_flags(flags: u8) -> (r: bool)
    ensures
        r == map_flags_allowed(flags),
{
    if flags & !SV32_RWXU != 0 {
        return false;
    }
    if flags & SV32_RWX == 0 {
        return false;
    }
    if flags & SV32_WRITE != 0 && flags & SV32_READ == 0 {
        return false;
    }
    true
}

} // verus!

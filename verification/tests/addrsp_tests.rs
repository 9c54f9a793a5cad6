use cinnamos_kernel::addr::{PAddr, VAddr};
use cinnamos_kernel::addrsp::{AddressSpace, AddressSpaceError};
use cinnamos_kernel::bump::{phys_alloc, BumpAllocator};
use cinnamos_kernel::paging::{MapError, TableMemory};
use cinnamos_kernel::sv48::{PTEFlags, PageLevel};

const P2V: u64 = 0xffff_8000_0000_0000;

fn space(capacity: usize) -> (TableMemory, AddressSpace) {
    let mut mem = TableMemory::new(PAddr::new(0x8000_0000), capacity);
    let k = mem.alloc_table().unwrap();
    let root = mem.index_to_frame(k);
    let a = AddressSpace::new(7, root, &mut mem, 4, P2V).unwrap();
    (mem, a)
}

#[test]
fn new_maps_the_root_table_above_its_frame() {
    let (mem, a) = space(16);
    assert_eq!(a.id(), 7);
    assert_eq!(a.root_pa().addr(), 0x8000_0000);
    assert_eq!(
        a.translate_virt(&mem, VAddr::new(P2V + 0x8000_0010)),
        Some((PAddr::new(0x8000_0010), PageLevel::Page4K))
    );
}

#[test]
fn map_raw_relaxed_maps_every_page_of_the_region() {
    let (mut mem, mut a) = space(32);
    let flags = PTEFlags::from_bits_retain(PTEFlags::RW);
    a.map_raw_relaxed(&mut mem, VAddr::new(0x10_0000), PAddr::new(0x9000_0000), 0x3000, flags).unwrap();
    for off in [0u64, 0x1000, 0x2fff] {
        assert_eq!(
            a.translate_virt(&mem, VAddr::new(0x10_0000 + off)),
            Some((PAddr::new(0x9000_0000 + off), PageLevel::Page4K))
        );
    }
    assert_eq!(a.translate_virt(&mem, VAddr::new(0x10_3000)), None);
}

#[test]
fn map_raw_relaxed_skips_identical_mappings() {
    let (mut mem, mut a) = space(32);
    let flags = PTEFlags::from_bits_retain(PTEFlags::RW);
    a.map_raw_relaxed(&mut mem, VAddr::new(0x10_0000), PAddr::new(0x9000_0000), 0x1000, flags).unwrap();
    assert_eq!(a.map_raw_relaxed(&mut mem, VAddr::new(0x10_0000), PAddr::new(0x9000_0000), 0x2000, flags), Ok(()));
    assert_eq!(
        a.translate_virt(&mem, VAddr::new(0x10_1000)),
        Some((PAddr::new(0x9000_1000), PageLevel::Page4K))
    );
}

#[test]
fn map_raw_relaxed_reports_a_different_address() {
    let (mut mem, mut a) = space(32);
    let flags = PTEFlags::from_bits_retain(PTEFlags::RW);
    a.map_raw_relaxed(&mut mem, VAddr::new(0x10_0000), PAddr::new(0x9000_0000), 0x1000, flags).unwrap();
    let r = a.map_raw_relaxed(&mut mem, VAddr::new(0x10_0000), PAddr::new(0xa000_0000), 0x1000, flags);
    assert_eq!(
        r,
        Err(AddressSpaceError::MappedDifferentAddress { expected: PAddr::new(0xa000_0000), actual: PAddr::new(0x9000_0000) })
    );
}

#[test]
fn map_raw_relaxed_reports_different_flags() {
    let (mut mem, mut a) = space(32);
    a.map_raw_relaxed(&mut mem, VAddr::new(0x10_0000), PAddr::new(0x9000_0000), 0x1000, PTEFlags::from_bits_retain(PTEFlags::RW)).unwrap();
    let r = a.map_raw_relaxed(&mut mem, VAddr::new(0x10_0000), PAddr::new(0x9000_0000), 0x1000, PTEFlags::from_bits_retain(PTEFlags::RX));
    assert_eq!(
        r,
        Err(AddressSpaceError::MappedDifferentFlags {
            expected: PTEFlags::from_bits_retain(PTEFlags::RX),
            actual: PTEFlags::from_bits_retain(PTEFlags::RW),
        })
    );
}

#[test]
fn map_raw_relaxed_reports_misalignment() {
    let (mut mem, mut a) = space(32);
    let r = a.map_raw_relaxed(&mut mem, VAddr::new(0x10_0010), PAddr::new(0x9000_0000), 0x1000, PTEFlags::from_bits_retain(PTEFlags::RW));
    assert_eq!(r, Err(AddressSpaceError::AddressMisaligned(VAddr::new(0x10_0010), PAddr::new(0x9000_0000))));
}

#[test]
fn map_raw_relaxed_reports_running_out_of_tables() {
    let mut mem = TableMemory::new(PAddr::new(0x8000_0000), 4);
    let k = mem.alloc_table().unwrap();
    let root = mem.index_to_frame(k);
    let mut a = AddressSpace::new(1, root, &mut mem, 4, P2V).unwrap();
    let r = a.map_raw_relaxed(&mut mem, VAddr::new(0x10_0000), PAddr::new(0x9000_0000), 0x1000, PTEFlags::from_bits_retain(PTEFlags::RW));
    assert_eq!(r, Err(AddressSpaceError::Mapping(MapError::OutOfMemory)));
}

#[test]
fn empty_region_changes_nothing() {
    let (mut mem, mut a) = space(32);
    let before = mem.table_count();
    assert_eq!(a.map_raw_relaxed(&mut mem, VAddr::new(0x10_0000), PAddr::new(0x9000_0000), 0, PTEFlags::from_bits_retain(PTEFlags::RW)), Ok(()));
    assert_eq!(mem.table_count(), before);
}

#[test]
fn unmap_raw_removes_the_region() {
    let (mut mem, mut a) = space(32);
    let flags = PTEFlags::from_bits_retain(PTEFlags::RW);
    a.map_raw_relaxed(&mut mem, VAddr::new(0x10_0000), PAddr::new(0x9000_0000), 0x2000, flags).unwrap();
    assert_eq!(a.unmap_raw(&mut mem, VAddr::new(0x10_0000), 0x2000), Ok(()));
    assert_eq!(a.translate_virt(&mem, VAddr::new(0x10_0000)), None);
    assert_eq!(a.translate_virt(&mem, VAddr::new(0x10_1000)), None);
    assert!(a.unmap_raw(&mut mem, VAddr::new(0x10_0000), 0x1000).is_err());
}

#[test]
fn remap_maps_the_tables_at_the_new_offset() {
    let (mut mem, mut a) = space(32);
    let flags = PTEFlags::from_bits_retain(PTEFlags::RW);
    a.map_raw_relaxed(&mut mem, VAddr::new(0x10_0000), PAddr::new(0x9000_0000), 0x1000, flags).unwrap();
    let other = 0xffff_c000_0000_0000;
    assert_eq!(a.remap(&mut mem, other), Ok(()));
    assert_eq!(
        a.translate_virt(&mem, VAddr::new(other + 0x8000_0000)),
        Some((PAddr::new(0x8000_0000), PageLevel::Page4K))
    );
}

#[test]
fn realloc_keeps_the_space() {
    let (mut mem, mut a) = space(32);
    let flags = PTEFlags::from_bits_retain(PTEFlags::RW);
    a.map_raw_relaxed(&mut mem, VAddr::new(0x10_0000), PAddr::new(0x9000_0000), 0x1000, flags).unwrap();
    a.realloc();
    assert_eq!(a.id(), 7);
    assert_eq!(
        a.translate_virt(&mem, VAddr::new(0x10_0000)),
        Some((PAddr::new(0x9000_0000), PageLevel::Page4K))
    );
}

#[test]
fn unmap_raw_removes_a_large_page_whole() {
    let (mut mem, mut a) = space(32);
    let flags = PTEFlags::from_bits_retain(PTEFlags::RW);
    a.map_raw_relaxed(&mut mem, VAddr::new(0x4000_0000), PAddr::new(0xa000_0000), 0x20_0000, flags).unwrap();
    assert_eq!(
        a.translate_virt(&mem, VAddr::new(0x4010_0000)),
        Some((PAddr::new(0xa010_0000), PageLevel::Megapage2M))
    );
    assert_eq!(a.unmap_raw(&mut mem, VAddr::new(0x4000_0000), 0x20_0000), Ok(()));
    for off in [0u64, 0x1000, 0x1f_f000] {
        assert_eq!(a.translate_virt(&mem, VAddr::new(0x4000_0000 + off)), None);
    }
}

#[test]
fn unmap_raw_from_inside_a_large_page_steps_a_whole_page() {
    let (mut mem, mut a) = space(32);
    let flags = PTEFlags::from_bits_retain(PTEFlags::RW);
    a.map_raw_relaxed(&mut mem, VAddr::new(0x4000_0000), PAddr::new(0xa000_0000), 0x20_0000, flags).unwrap();
    a.map_raw_relaxed(&mut mem, VAddr::new(0x4020_0000), PAddr::new(0xb000_0000), 0x1000, flags).unwrap();
    assert_eq!(a.unmap_raw(&mut mem, VAddr::new(0x4000_1000), 0x20_0000), Ok(()));
    assert_eq!(a.translate_virt(&mem, VAddr::new(0x4000_0000)), None);
    assert_eq!(
        a.translate_virt(&mem, VAddr::new(0x4020_0000)),
        Some((PAddr::new(0xb000_0000), PageLevel::Page4K))
    );
}

#[test]
fn map_raw_relaxed_uses_large_pages_where_aligned() {
    let (mut mem, mut a) = space(32);
    let flags = PTEFlags::from_bits_retain(PTEFlags::RW);
    a.map_raw_relaxed(&mut mem, VAddr::new(0x3f_f000), PAddr::new(0x9ff_f000), 0x20_2000, flags).unwrap();
    assert_eq!(
        a.translate_virt(&mem, VAddr::new(0x3f_f000)),
        Some((PAddr::new(0x9ff_f000), PageLevel::Page4K))
    );
    assert_eq!(
        a.translate_virt(&mem, VAddr::new(0x40_0000)),
        Some((PAddr::new(0xa00_0000), PageLevel::Megapage2M))
    );
    assert_eq!(
        a.translate_virt(&mem, VAddr::new(0x60_0000)),
        Some((PAddr::new(0xa20_0000), PageLevel::Page4K))
    );
}

#[test]
fn map_raw_relaxed_skips_an_identical_large_page() {
    let (mut mem, mut a) = space(32);
    let flags = PTEFlags::from_bits_retain(PTEFlags::RW);
    a.map_raw_relaxed(&mut mem, VAddr::new(0x4000_0000), PAddr::new(0xa000_0000), 0x20_0000, flags).unwrap();
    let before = mem.table_count();
    assert_eq!(
        a.map_raw_relaxed(&mut mem, VAddr::new(0x4000_0000), PAddr::new(0xa000_0000), 0x20_1000, flags),
        Ok(())
    );
    assert_eq!(
        a.translate_virt(&mem, VAddr::new(0x401f_f000)),
        Some((PAddr::new(0xa01f_f000), PageLevel::Megapage2M))
    );
    assert_eq!(
        a.translate_virt(&mem, VAddr::new(0x4020_0000)),
        Some((PAddr::new(0xa020_0000), PageLevel::Page4K))
    );
    assert!(mem.table_count() > before);
}

#[test]
fn unmap_raw_stops_at_the_first_unmapped_page() {
    let (mut mem, mut a) = space(32);
    let flags = PTEFlags::from_bits_retain(PTEFlags::RW);
    a.map_raw_relaxed(&mut mem, VAddr::new(0x10_0000), PAddr::new(0x9000_0000), 0x1000, flags).unwrap();
    assert_eq!(
        a.unmap_raw(&mut mem, VAddr::new(0x10_0000), 0x2000),
        Err(AddressSpaceError::Unmap(cinnamos_kernel::paging::UnmapError::NotMapped))
    );
    assert_eq!(a.translate_virt(&mem, VAddr::new(0x10_0000)), None);
}

#[test]
fn a_space_without_room_for_its_tables_runs_out_of_memory() {
    let mut mem = TableMemory::new(PAddr::new(0x8000_0000), 2);
    let k = mem.alloc_table().unwrap();
    let root = mem.index_to_frame(k);
    let r = AddressSpace::new(7, root, &mut mem, 4, P2V);
    assert!(matches!(r, Err(AddressSpaceError::Mapping(MapError::OutOfMemory))));
    let mut mem = TableMemory::new(PAddr::new(0x8000_0000), 4);
    let k = mem.alloc_table().unwrap();
    let root = mem.index_to_frame(k);
    assert!(matches!(
        AddressSpace::new(7, root, &mut mem, 4, P2V + 0x10),
        Err(AddressSpaceError::AddressMisaligned(_, _))
    ));
}

#[test]
fn map_checks_the_sizes_first() {
    let (mut mem, mut a) = space(32);
    let flags = PTEFlags::from_bits_retain(PTEFlags::RW);
    let mut bump = BumpAllocator::new(PAddr::new(0x9000_0000), PAddr::new(0x9010_0000));
    let frames = phys_alloc(&mut bump, 2).unwrap();
    let tables = mem.table_count();
    assert_eq!(
        a.map(&mut mem, VAddr::new(0x10_0000), 1, &frames, flags),
        Err(AddressSpaceError::MismatchedSize)
    );
    assert_eq!(mem.table_count(), tables);
    assert_eq!(a.translate_virt(&mem, VAddr::new(0x10_0000)), None);
    assert_eq!(a.map(&mut mem, VAddr::new(0x10_0000), 2, &frames, flags), Ok(()));
    assert_eq!(
        a.translate_virt(&mem, VAddr::new(0x10_1abc)),
        Some((PAddr::new(0x9000_1abc), PageLevel::Page4K))
    );
}

#[test]
fn unmap_removes_the_pages_of_an_allocation() {
    let (mut mem, mut a) = space(32);
    let flags = PTEFlags::from_bits_retain(PTEFlags::RW);
    a.map_raw_relaxed(&mut mem, VAddr::new(0x10_0000), PAddr::new(0x9000_0000), 0x2000, flags).unwrap();
    assert_eq!(a.unmap(&mut mem, VAddr::new(0x10_0000), 2), Ok(()));
    assert_eq!(a.translate_virt(&mem, VAddr::new(0x10_0000)), None);
    assert_eq!(a.translate_virt(&mem, VAddr::new(0x10_1000)), None);
}

#[test]
fn remap_at_the_same_offset_changes_nothing() {
    let (mut mem, mut a) = space(32);
    let flags = PTEFlags::from_bits_retain(PTEFlags::RW);
    a.map_raw_relaxed(&mut mem, VAddr::new(0x10_0000), PAddr::new(0x9000_0000), 0x1000, flags).unwrap();
    let tables = mem.table_count();
    assert_eq!(a.remap(&mut mem, P2V), Ok(()));
    assert_eq!(mem.table_count(), tables);
    assert_eq!(
        a.translate_virt(&mem, VAddr::new(P2V + 0x8000_0000)),
        Some((PAddr::new(0x8000_0000), PageLevel::Page4K))
    );
}

#[test]
fn map_raw_relaxed_maps_a_page_into_a_free_slot_without_new_tables() {
    let (mut mem, mut a) = space(32);
    let flags = PTEFlags::from_bits_retain(PTEFlags::RW);
    a.map_raw_relaxed(&mut mem, VAddr::new(0x10_0000), PAddr::new(0x9000_0000), 0x1000, flags).unwrap();
    let tables = mem.table_count();
    assert_eq!(a.map_raw_relaxed(&mut mem, VAddr::new(0x10_5000), PAddr::new(0x9100_0000), 0x1000, flags), Ok(()));
    assert_eq!(mem.table_count(), tables);
    assert_eq!(
        a.translate_virt(&mem, VAddr::new(0x10_5004)),
        Some((PAddr::new(0x9100_0004), PageLevel::Page4K))
    );
}

#[test]
fn mapping_an_identical_region_again_changes_nothing() {
    let (mut mem, mut a) = space(32);
    let flags = PTEFlags::from_bits_retain(PTEFlags::RW);
    a.map_raw_relaxed(&mut mem, VAddr::new(0x10_0000), PAddr::new(0x9000_0000), 0x3000, flags).unwrap();
    let tables = mem.table_count();
    assert_eq!(a.map_raw_relaxed(&mut mem, VAddr::new(0x10_0000), PAddr::new(0x9000_0000), 0x3000, flags), Ok(()));
    assert_eq!(mem.table_count(), tables);
    assert_eq!(
        a.translate_virt(&mem, VAddr::new(0x10_2fff)),
        Some((PAddr::new(0x9000_2fff), PageLevel::Page4K))
    );
}

#[test]
fn pages_into_an_existing_last_level_table_need_no_new_table() {
    let (mut mem, mut a) = space(32);
    let flags = PTEFlags::from_bits_retain(PTEFlags::RW);
    a.map_raw_relaxed(&mut mem, VAddr::new(0x10_0000), PAddr::new(0x9000_0000), 0x1000, flags).unwrap();
    let tables = mem.table_count();
    assert_eq!(a.map_raw_relaxed(&mut mem, VAddr::new(0x10_3000), PAddr::new(0x9200_0000), 0x3000, flags), Ok(()));
    assert_eq!(mem.table_count(), tables);
    assert_eq!(
        a.translate_virt(&mem, VAddr::new(0x10_5008)),
        Some((PAddr::new(0x9200_2008), PageLevel::Page4K))
    );
}

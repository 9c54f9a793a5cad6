use cinnamos_kernel::addr::{PAddr, VAddr};
use cinnamos_kernel::paging::{MapError, TableMemory, UnmapError};
use cinnamos_kernel::sv48::{PTEFlags, PageLevel};

fn fresh(capacity: usize) -> (TableMemory, PAddr) {
    let mut mem = TableMemory::new(PAddr::new(0x8000_0000), capacity);
    let k = mem.alloc_table().unwrap();
    let root = mem.index_to_frame(k);
    (mem, root)
}

#[test]
fn table_memory_starts_empty_and_grows() {
    let mut mem = TableMemory::new(PAddr::new(0x8000_0000), 2);
    assert_eq!(mem.table_count(), 0);
    assert_eq!(mem.alloc_table(), Some(0));
    assert_eq!(mem.alloc_table(), Some(1));
    assert_eq!(mem.alloc_table(), None);
    assert_eq!(mem.table_count(), 2);
    assert_eq!(mem.index_to_frame(1).addr(), 0x8000_1000);
    assert_eq!(mem.frame_to_index(PAddr::new(0x8000_1000)), Some(1));
    assert_eq!(mem.frame_to_index(PAddr::new(0x8000_1008)), None);
    assert_eq!(mem.frame_to_index(PAddr::new(0x8000_2000)), None);
}

#[test]
fn map_then_translate_gives_the_mapped_address() {
    let (mut mem, root) = fresh(8);
    let flags = PTEFlags::from_bits_retain(PTEFlags::RW);
    let allocs = mem.map_page(root, VAddr::new(0x4000_0000), PAddr::new(0x9000_0000), PageLevel::Page4K, flags).unwrap();
    assert_eq!(allocs.len(), 3);
    assert_eq!(allocs[0].addr(), 0x8000_1000);
    assert_eq!(allocs[2].addr(), 0x8000_3000);
    assert_eq!(mem.translate_virt(root, VAddr::new(0x4000_0123)), Some((PAddr::new(0x9000_0123), PageLevel::Page4K)));
    assert_eq!(mem.translate_virt(root, VAddr::new(0x4000_1000)), None);
}

#[test]
fn map_megapage_then_translate() {
    let (mut mem, root) = fresh(8);
    let flags = PTEFlags::from_bits_retain(PTEFlags::RX);
    let allocs = mem.map_page(root, VAddr::new(0x20_0000), PAddr::new(0x8040_0000), PageLevel::Megapage2M, flags).unwrap();
    assert_eq!(allocs.len(), 2);
    assert_eq!(mem.translate_virt(root, VAddr::new(0x3f_fff0)), Some((PAddr::new(0x805f_fff0), PageLevel::Megapage2M)));
}

#[test]
fn map_reuses_existing_tables() {
    let (mut mem, root) = fresh(8);
    let flags = PTEFlags::from_bits_retain(PTEFlags::RW);
    mem.map_page(root, VAddr::new(0x1000), PAddr::new(0x9000_0000), PageLevel::Page4K, flags).unwrap();
    let again = mem.map_page(root, VAddr::new(0x2000), PAddr::new(0x9000_1000), PageLevel::Page4K, flags).unwrap();
    assert_eq!(again.len(), 0);
    assert_eq!(mem.table_count(), 4);
}

#[test]
fn map_misaligned_is_refused() {
    let (mut mem, root) = fresh(8);
    let flags = PTEFlags::from_bits_retain(PTEFlags::RW);
    let r = mem.map_page(root, VAddr::new(0x1000), PAddr::new(0x9000_0000), PageLevel::Megapage2M, flags);
    assert_eq!(r, Err(MapError::Misaligned));
    assert_eq!(mem.table_count(), 1);
}

#[test]
fn map_twice_reports_the_existing_mapping() {
    let (mut mem, root) = fresh(8);
    let flags = PTEFlags::from_bits_retain(PTEFlags::RW);
    mem.map_page(root, VAddr::new(0x1000), PAddr::new(0x9000_0000), PageLevel::Page4K, flags).unwrap();
    let r = mem.map_page(root, VAddr::new(0x1000), PAddr::new(0xa000_0000), PageLevel::Page4K, flags);
    match r {
        Err(MapError::AlreadyMapped(pa, lv, f)) => {
            assert_eq!(pa.addr(), 0x9000_0000);
            assert_eq!(lv, PageLevel::Page4K);
            assert_eq!(f.bits(), PTEFlags::RW | PTEFlags::VALID);
        }
        other => panic!("unexpected {:?}", other),
    }
}

#[test]
fn map_out_of_tables_is_refused() {
    let (mut mem, root) = fresh(2);
    let flags = PTEFlags::from_bits_retain(PTEFlags::RW);
    let r = mem.map_page(root, VAddr::new(0x1000), PAddr::new(0x9000_0000), PageLevel::Page4K, flags);
    assert_eq!(r, Err(MapError::OutOfMemory));
}

#[test]
fn unmap_then_translate_gives_nothing() {
    let (mut mem, root) = fresh(8);
    let flags = PTEFlags::from_bits_retain(PTEFlags::RW);
    mem.map_page(root, VAddr::new(0x1000), PAddr::new(0x9000_0000), PageLevel::Page4K, flags).unwrap();
    assert_eq!(mem.unmap_page(root, VAddr::new(0x1000)), Ok(PageLevel::Page4K));
    assert_eq!(mem.translate_virt(root, VAddr::new(0x1000)), None);
    assert_eq!(mem.unmap_page(root, VAddr::new(0x1000)), Err(UnmapError::NotMapped));
}

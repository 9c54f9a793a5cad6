use cinnamos_kernel::rel::{
    find_rela_table, rela_entry_addr, rela_entry_count, relocate_entry, relocation_writes, slide_entry, DynEntry,
    RelaEntry, RelaTable,
};

fn d(tag: i64, val: u64) -> DynEntry {
    DynEntry { d_tag: tag, d_un: val }
}

#[test]
fn table_is_read_up_to_the_end_entry() {
    let dyns = vec![d(7, 0x9000), d(8, 0x48), d(9, 0x18), d(6, 0x1), d(0, 0), d(7, 0x1234)];
    assert_eq!(find_rela_table(&dyns, 0), RelaTable { addr: 0x9000, size: 0x48, ent_size: 0x18 });
    assert_eq!(find_rela_table(&dyns, 0x1000), RelaTable { addr: 0x8000, size: 0x48, ent_size: 0x18 });
}

#[test]
fn missing_table_reads_zero() {
    let dyns = vec![d(8, 0x48), d(0, 0)];
    let t = find_rela_table(&dyns, 0x1000);
    assert_eq!(t, RelaTable { addr: 0, size: 0x48, ent_size: 0 });
    assert_eq!(rela_entry_count(&t), 0);
}

#[test]
fn entries_of_a_table() {
    let t = RelaTable { addr: 0x9000, size: 0x48, ent_size: 0x18 };
    assert_eq!(rela_entry_count(&t), 3);
    assert_eq!(rela_entry_addr(&t, 2), 0x9030);
}

#[test]
fn relative_relocations_write_slid_addends() {
    let rel = RelaEntry { r_offset: 0xffff_c000_0000_1000, r_info: 3, r_addend: 0x2000 };
    let other = RelaEntry { r_offset: 0x10, r_info: 0x1_0000_0002, r_addend: 0 };
    let slide = 0xffff_c000_0000_0000;
    assert_eq!(relocate_entry(&rel, slide), Some((0x1000, 0x2000u64.wrapping_sub(slide))));
    assert_eq!(relocate_entry(&other, slide), None);
    assert_eq!(slide_entry(&rel), Some(0xffff_c000_0000_1000));
    assert_eq!(slide_entry(&other), None);
    let high_type = RelaEntry { r_offset: 0x20, r_info: 0x5_0000_0003, r_addend: 1 };
    assert_eq!(relocation_writes(&vec![rel, other, high_type], 0), vec![(0xffff_c000_0000_1000, 0x2000), (0x20, 1)]);
}

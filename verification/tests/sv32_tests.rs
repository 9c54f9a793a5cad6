use cinnamos_kernel::sv32::{
    validate_map_flags, PageTable, PageTableEntry, Sv32, Sv32PT, Sv32PTE, SV32_READ, SV32_RW, SV32_RWX, SV32_VALID,
    SV32_WRITE,
};

#[test]
fn entry_flags_and_kinds() {
    let e = Sv32PTE { bits: 0x1234_5600 | (SV32_VALID | SV32_RW) as u32 };
    assert_eq!(e.flags(), SV32_VALID | SV32_RW);
    assert!(e.is_valid());
    assert!(e.is_leaf());
    let t = Sv32PTE { bits: SV32_VALID as u32 };
    assert!(!t.is_leaf());
}

#[test]
fn entry_address_round_trip() {
    let mut e = Sv32PTE { bits: SV32_VALID as u32 };
    e.set_paddr(0x8765_4000);
    assert_eq!(e.get_paddr(), 0x8765_4000);
    e.set_flags(SV32_RW);
    assert_eq!(e.get_paddr(), 0x8765_4000);
    assert_eq!(e.flags(), SV32_VALID | SV32_RW);
}

#[test]
fn address_bits_above_32_are_dropped() {
    let mut e = Sv32PTE { bits: 0 };
    e.set_paddr(0x3_0000_1000);
    assert_eq!(e.get_paddr(), 0x1000);
}

#[test]
fn virtual_to_physical() {
    assert_eq!(Sv32::v_to_p(0x1234_5678, 0x8000_0000, 0), 0x8000_0678);
    assert_eq!(Sv32::v_to_p(0x1234_5678, 0x8040_0000, 1), 0x8074_5678);
    assert_eq!(Sv32::vpn_index(0x1234_5678, 0), 0x345);
    assert_eq!(Sv32::vpn_index(0x1234_5678, 1), 0x48);
    assert_eq!(Sv32::vpn_indices(0x1234_5678), [0x345, 0x48]);
    assert_eq!(Sv32PT::len(), 1024);
}

#[test]
fn mapping_flags_are_checked() {
    assert!(validate_map_flags(SV32_READ));
    assert!(validate_map_flags(SV32_RWX));
    assert!(!validate_map_flags(SV32_WRITE));
    assert!(!validate_map_flags(0));
    assert!(!validate_map_flags(SV32_READ | SV32_VALID));
}

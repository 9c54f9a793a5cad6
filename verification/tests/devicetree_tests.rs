use cinnamos_kernel::addr::PAddr;
use cinnamos_kernel::blob::check_blob;
use cinnamos_kernel::devicetree::get_region_slices;
use cinnamos_kernel::cpus::check_cpus;
use cinnamos_kernel::dtnodes::{all_with_interrupts, blob_timer_interval, find_compatible, read_nodes, timer_interval, DtNode};
use cinnamos_kernel::region::SizedMemoryRegion;

/// Builds a flattened devicetree blob.
struct Blob {
    structs: Vec<u8>,
    strings: Vec<u8>,
}

impl Blob {
    fn new() -> Self {
        Blob { structs: Vec::new(), strings: Vec::new() }
    }

    fn word(&mut self, w: u32) {
        self.structs.extend_from_slice(&w.to_be_bytes());
    }

    fn pad(&mut self) {
        while self.structs.len() % 4 != 0 {
            self.structs.push(0);
        }
    }

    fn begin(&mut self, name: &str) {
        self.word(1);
        self.structs.extend_from_slice(name.as_bytes());
        self.structs.push(0);
        self.pad();
    }

    fn end(&mut self) {
        self.word(2);
    }

    fn prop(&mut self, name: &str, value: &[u8]) {
        let off = self.strings.len() as u32;
        self.strings.extend_from_slice(name.as_bytes());
        self.strings.push(0);
        self.word(3);
        self.word(value.len() as u32);
        self.word(off);
        self.structs.extend_from_slice(value);
        self.pad();
    }

    fn cells(&mut self, name: &str, cells: &[u32]) {
        let mut v = Vec::new();
        for c in cells {
            v.extend_from_slice(&c.to_be_bytes());
        }
        self.prop(name, &v);
    }

    fn finish(mut self, reservations: &[(u64, u64)]) -> Vec<u8> {
        self.word(9);
        let mut rsv = Vec::new();
        for (a, s) in reservations.iter().chain([(0u64, 0u64)].iter()) {
            rsv.extend_from_slice(&a.to_be_bytes());
            rsv.extend_from_slice(&s.to_be_bytes());
        }
        let off_rsv = 40u32;
        let off_struct = off_rsv + rsv.len() as u32;
        let off_strings = off_struct + self.structs.len() as u32;
        let total = off_strings + self.strings.len() as u32;
        let mut out = Vec::new();
        for w in [
            0xd00d_feedu32,
            total,
            off_struct,
            off_strings,
            off_rsv,
            17,
            16,
            0,
            self.strings.len() as u32,
            self.structs.len() as u32,
        ] {
            out.extend_from_slice(&w.to_be_bytes());
        }
        out.extend_from_slice(&rsv);
        out.extend_from_slice(&self.structs);
        out.extend_from_slice(&self.strings);
        out
    }
}

fn sample(with_memory: bool) -> Vec<u8> {
    let mut b = Blob::new();
    b.begin("");
    b.cells("#address-cells", &[2]);
    b.cells("#size-cells", &[2]);
    if with_memory {
        b.begin("memory@80000000");
        b.prop("device_type", b"memory\0");
        b.cells("reg", &[0, 0x8000_0000, 0, 0x1000_0000]);
        b.end();
    }
    b.begin("reserved-memory");
    b.cells("#address-cells", &[2]);
    b.cells("#size-cells", &[2]);
    b.begin("mmode@80000000");
    b.cells("reg", &[0, 0x8000_0000, 0, 0x20_0000]);
    b.end();
    b.begin("shared");
    b.end();
    b.end();
    b.end();
    b.finish(&[(0x8800_0000, 0x1000)])
}

fn spans(v: &[SizedMemoryRegion]) -> Vec<(u64, u64)> {
    v.iter().map(|r| (r.start().addr(), r.size())).collect()
}

#[test]
fn regions_of_a_devicetree_blob() {
    let blob = sample(true);
    assert!(check_blob(&blob));
    let kernel = SizedMemoryRegion::new_unchecked(PAddr::new(0x8020_0000), 0x20_0000);
    let (usable, reserved) = get_region_slices(&blob, vec![kernel]);
    assert_eq!(spans(&reserved), vec![(0x8000_0000, 0x20_0000), (0x8020_0000, 0x20_0000), (0x8800_0000, 0x1000)]);
    assert_eq!(spans(&usable), vec![(0x8040_0000, 0x7c0_0000), (0x8800_1000, 0x7ff_f000)]);
}

#[test]
fn a_devicetree_without_memory_has_no_usable_region() {
    let blob = sample(false);
    assert!(check_blob(&blob));
    let (usable, reserved) = get_region_slices(&blob, vec![]);
    assert!(usable.is_empty());
    assert_eq!(spans(&reserved), vec![(0x8000_0000, 0x20_0000), (0x8800_0000, 0x1000)]);
}

#[test]
fn malformed_blobs_are_refused() {
    let blob = sample(true);
    assert!(check_blob(&blob));
    let mut bad_magic = blob.clone();
    bad_magic[0] = 0;
    assert!(!check_blob(&bad_magic));
    let cut = blob[..blob.len() - 8].to_vec();
    assert!(!check_blob(&cut));
    assert!(!check_blob(&blob[..39]));
    let mut b = Blob::new();
    b.begin("");
    b.prop("#size-cells", &[0, 1]);
    b.end();
    assert!(!check_blob(&b.finish(&[])));
    let mut b = Blob::new();
    b.begin("");
    b.begin("open");
    b.end();
    assert!(!check_blob(&b.finish(&[])));
}

fn soc_blob() -> Vec<u8> {
    let mut b = Blob::new();
    b.begin("");
    b.cells("#address-cells", &[2]);
    b.cells("#size-cells", &[2]);
    b.begin("soc");
    b.cells("#address-cells", &[2]);
    b.cells("#size-cells", &[2]);
    b.begin("plic@c000000");
    b.prop("compatible", b"sifive,plic-1.0.0\0riscv,plic0\0");
    b.cells("reg", &[0, 0xc00_0000, 0, 0x60_0000]);
    b.cells("phandle", &[3]);
    b.cells("#interrupt-cells", &[1]);
    b.end();
    b.begin("uart@10000000");
    b.prop("compatible", b"ns16550a\0");
    b.cells("reg", &[0, 0x1000_0000, 0, 0x100]);
    b.cells("interrupt-parent", &[3]);
    b.cells("interrupts", &[10]);
    b.end();
    b.begin("virtio_mmio@10001000");
    b.prop("compatible", b"virtio,mmio\0");
    b.cells("interrupt-parent", &[3]);
    b.cells("interrupts", &[0, 1]);
    b.end();
    b.end();
    b.end();
    b.finish(&[])
}

#[test]
fn nodes_of_a_devicetree_blob() {
    let blob = soc_blob();
    assert!(check_blob(&blob));
    let nodes = read_nodes(&blob);
    let names: Vec<&str> = nodes.iter().map(|n| n.name.as_str()).collect();
    assert_eq!(names, vec!["/", "soc", "plic@c000000", "uart@10000000", "virtio_mmio@10001000"]);
    assert_eq!(nodes[2].compatible, vec!["sifive,plic-1.0.0".to_string(), "riscv,plic0".to_string()]);
    assert_eq!(nodes[3].reg, vec![(0x1000_0000, Some(0x100))]);
    assert_eq!(nodes[3].interrupts, Some(vec![10]));
    assert_eq!(nodes[3].interrupt_parent, Some("plic@c000000".to_string()));
    assert!(nodes[4].reg.is_empty());
}

#[test]
fn the_first_compatible_node_and_its_region() {
    let nodes = read_nodes(&soc_blob());
    let (k, region) = find_compatible(&nodes, &vec!["riscv,plic0".to_string()]).unwrap();
    assert_eq!(k, 2);
    assert_eq!(region.start().addr(), 0xc00_0000);
    assert_eq!(region.size(), Some(0x60_0000));
    assert!(find_compatible(&nodes, &vec!["virtio,mmio".to_string()]).is_none());
    assert!(find_compatible(&nodes, &vec!["none".to_string()]).is_none());
    let (k, _) = find_compatible(&nodes, &vec!["none".to_string(), "ns16550a".to_string()]).unwrap();
    assert_eq!(k, 3);
}

#[test]
fn nodes_whose_interrupts_go_to_a_controller() {
    let nodes = read_nodes(&soc_blob());
    let found = all_with_interrupts(&nodes, &"plic@c000000".to_string());
    assert_eq!(found, vec![(3, vec![10]), (4, vec![1])]);
    assert!(all_with_interrupts(&nodes, &"soc".to_string()).is_empty());
}

#[test]
fn nodes_built_by_hand_are_searched_in_order() {
    let node = |name: &str, compat: &[&str], reg: Vec<(u64, Option<u64>)>| DtNode {
        name: name.to_string(),
        compatible: compat.iter().map(|c| c.to_string()).collect(),
        reg,
        interrupts: None,
        interrupt_parent: None,
    };
    let nodes = vec![node("a", &["x"], vec![]), node("b", &["x"], vec![(0x1000, None)])];
    assert!(find_compatible(&nodes, &vec!["x".to_string()]).is_none());
}

#[test]
fn the_timer_interval_of_a_hart() {
    let cpus = vec![(vec![0], 10_000_000), (vec![1, 2], 20_000_050)];
    assert_eq!(timer_interval(&cpus, 0), Some(100_000));
    assert_eq!(timer_interval(&cpus, 2), Some(200_000));
    assert_eq!(timer_interval(&cpus, 5), None);
}

fn cpus_blob(cpu1_reg: bool) -> Vec<u8> {
    let mut b = Blob::new();
    b.begin("");
    b.cells("#address-cells", &[2]);
    b.cells("#size-cells", &[2]);
    b.begin("cpus");
    b.cells("#address-cells", &[1]);
    b.cells("#size-cells", &[0]);
    b.cells("timebase-frequency", &[10_000_000]);
    b.begin("cpu@0");
    b.cells("reg", &[0]);
    b.end();
    b.begin("cpu@1");
    if cpu1_reg {
        b.cells("reg", &[1]);
    }
    b.cells("timebase-frequency", &[20_000_050]);
    b.end();
    b.begin("cpu-map");
    b.end();
    b.end();
    b.end();
    b.finish(&[])
}

#[test]
fn the_timer_interval_of_a_hart_from_a_blob() {
    let blob = cpus_blob(true);
    assert!(check_blob(&blob));
    assert!(check_cpus(&blob));
    assert_eq!(blob_timer_interval(&blob, 0), Some(100_000));
    assert_eq!(blob_timer_interval(&blob, 1), Some(200_000));
    assert_eq!(blob_timer_interval(&blob, 5), None);
}

#[test]
fn blobs_without_readable_cpus_are_refused() {
    let blob = cpus_blob(false);
    assert!(check_blob(&blob));
    assert!(!check_cpus(&blob));
    let blob = soc_blob();
    assert!(check_blob(&blob));
    assert!(!check_cpus(&blob));
}

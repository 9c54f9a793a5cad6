use cinnamos_kernel::irq::{InterruptPriority, InterruptPriorityThreshold};
use cinnamos_kernel::plic::{begin_serve, claim_irq, end_serve, low_priority_writes, Plic, PlicRegisters};

#[test]
fn priority_numbers_round_trip() {
    let p = Plic::new(0xc00_0000, 7);
    for pr in [InterruptPriority::Disabled, InterruptPriority::Low, InterruptPriority::Medium, InterruptPriority::High] {
        assert_eq!(p.priority_from_num(p.to_priority_num(pr)), Some(pr));
    }
    assert_eq!(p.to_priority_num(InterruptPriority::Medium), 4);
    assert_eq!(p.to_priority_num(InterruptPriority::High), 7);
    assert_eq!(p.priority_from_num(5), None);
    for t in [
        InterruptPriorityThreshold::All,
        InterruptPriorityThreshold::Medium,
        InterruptPriorityThreshold::High,
        InterruptPriorityThreshold::Disabled,
    ] {
        assert_eq!(p.threshold_from_num(p.to_threshold_num(t)), Some(t));
    }
    assert_eq!(p.threshold_from_num(6), None);
}

#[test]
fn small_plics_merge_priorities() {
    let p = Plic::new(0xc00_0000, 1);
    assert_eq!(p.to_priority_num(InterruptPriority::Medium), 1);
    assert_eq!(p.priority_from_num(1), Some(InterruptPriority::Low));
    let q = Plic::new(0xc00_0000, 0);
    assert_eq!(q.priority_register_value(InterruptPriority::Low), 0);
}

#[test]
fn claim_threshold_masks_the_claimed_priority() {
    let p = Plic::new(0xc00_0000, 7);
    assert_eq!(p.claim_threshold(1), Some(1));
    assert_eq!(p.claim_threshold(4), Some(4));
    assert_eq!(p.claim_threshold(7), Some(7));
    assert_eq!(p.claim_threshold(3), None);
}

#[test]
fn register_addresses() {
    let r = PlicRegisters::new(0xc00_0000, 7);
    assert_eq!(r.set_priority(10, 9), (0xc00_0028, 7));
    assert_eq!(r.set_priority(10, 3), (0xc00_0028, 3));
    assert_eq!(PlicRegisters::plic_ctx_id(2), 5);
    assert_eq!(r.plic_ctx(0), 0xc20_1000);
    assert_eq!(r.set_threshold(1), 0xc20_3000);
    assert_eq!(r.claim_complete_addr(0), 0xc20_1004);
    assert_eq!(r.set_enabled(33, 0, 0b1, true), (0xc00_2000 + 128 + 4, 0b11));
    assert_eq!(r.set_enabled(33, 0, 0b11, false), (0xc00_2084, 0b1));
}

#[test]
fn claims_of_pending_interrupts() {
    assert!(claim_irq(0, 0).is_none());
    let c = claim_irq(2, 17).unwrap();
    assert_eq!(c.irq_id(), 17);
    assert_eq!(c.hid(), 2);
}

#[test]
fn serving_raises_the_threshold_then_restores_it() {
    let p = Plic::new(0xc00_0000, 7);
    let regs = PlicRegisters::new(0xc00_0000, 7);
    assert!(begin_serve(&p, &regs, 1, 0, 2, 0).is_none());
    let (addr, raised, serving) = begin_serve(&p, &regs, 1, 10, 2, 4).unwrap();
    assert_eq!(addr, regs.set_threshold(1));
    assert_eq!(raised, 4);
    assert_eq!(serving.irq_id(), 10);
    let (complete, irq, restore, restored) = end_serve(&regs, serving);
    assert_eq!(complete, regs.claim_complete_addr(1));
    assert_eq!(irq, 10);
    assert_eq!(restore, regs.set_threshold(1));
    assert_eq!(restored, 2);
    let (_, raised, _) = begin_serve(&p, &regs, 1, 3, 0, 7).unwrap();
    assert_eq!(raised, 7);
}

#[test]
fn every_routed_source_gets_the_low_priority() {
    let p = Plic::new(0xc00_0000, 7);
    let regs = PlicRegisters::new(0xc00_0000, 7);
    let ints = vec![(0usize, vec![1u64, 10]), (3usize, vec![5u64])];
    assert_eq!(
        low_priority_writes(&p, &regs, &ints),
        vec![(0xc00_0004, 1), (0xc00_0028, 1), (0xc00_0014, 1)]
    );
    let flat = PlicRegisters::new(0xc00_0000, 0);
    assert_eq!(low_priority_writes(&Plic::new(0xc00_0000, 0), &flat, &ints)[1], (0xc00_0028, 0));
    assert!(low_priority_writes(&p, &regs, &vec![]).is_empty());
}

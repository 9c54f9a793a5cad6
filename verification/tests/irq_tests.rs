use cinnamos_kernel::addr::VAddr;
use cinnamos_kernel::irq::{
    critical_enter, critical_leave, dispatch_irq, register_irq_handler, InterruptController, InterruptError,
    InterruptMask, InterruptPriority, InterruptPriorityThreshold, InterruptType, IrqHandlers,
};
use cinnamos_kernel::task::HartLocal;

#[test]
fn dispatch_finds_the_registered_handler() {
    let mut t: IrqHandlers<u32> = IrqHandlers::new();
    assert_eq!(register_irq_handler(&mut t, 10, 111), Ok(()));
    assert_eq!(register_irq_handler(&mut t, 1023, 222), Ok(()));
    assert_eq!(dispatch_irq(&t, 10), Ok(111));
    assert_eq!(dispatch_irq(&t, 1023), Ok(222));
    assert_eq!(register_irq_handler(&mut t, 10, 333), Ok(()));
    assert_eq!(dispatch_irq(&t, 10), Ok(333));
}

#[test]
fn unregistered_and_invalid_sources_are_errors() {
    let mut t: IrqHandlers<u32> = IrqHandlers::new();
    assert_eq!(dispatch_irq(&t, 5), Err(InterruptError::InterruptUnhandled));
    assert_eq!(dispatch_irq(&t, 0), Err(InterruptError::InvalidInterruptSource));
    assert_eq!(dispatch_irq(&t, 1024), Err(InterruptError::InvalidInterruptSource));
    assert_eq!(register_irq_handler(&mut t, 0, 1), Err(InterruptError::InvalidInterruptSource));
    assert_eq!(register_irq_handler(&mut t, 1024, 1), Err(InterruptError::InvalidInterruptSource));
}

#[test]
fn mask_from_masks_the_priority_and_below() {
    assert_eq!(InterruptPriorityThreshold::mask_from(InterruptPriority::Disabled), InterruptPriorityThreshold::All);
    assert_eq!(InterruptPriorityThreshold::mask_from(InterruptPriority::Low), InterruptPriorityThreshold::Medium);
    assert_eq!(InterruptPriorityThreshold::mask_from(InterruptPriority::Medium), InterruptPriorityThreshold::High);
    assert_eq!(InterruptPriorityThreshold::mask_from(InterruptPriority::High), InterruptPriorityThreshold::Disabled);
}

#[test]
fn critical_sections_nest() {
    let mut h = HartLocal::new(0, VAddr::new(0x9000));
    assert!(critical_enter(&mut h));
    assert!(!critical_enter(&mut h));
    assert!(!critical_leave(&mut h));
    assert!(critical_leave(&mut h));
    assert_eq!(*h.critical_nesting(), 0);
}

#[test]
fn interrupt_controller_mask() {
    let mut c = InterruptController::new();
    let m = c.enable(InterruptType::External);
    assert_eq!(m, InterruptMask { timer: true, external: true, software: false });
    let m = c.disable(InterruptType::Timer);
    assert_eq!(m, InterruptMask { timer: false, external: true, software: false });
    let m = c.enable(InterruptType::Software);
    assert_eq!(m, InterruptMask { timer: false, external: true, software: true });
    assert_eq!(InterruptMask::default(), InterruptMask { timer: true, external: false, software: false });
}

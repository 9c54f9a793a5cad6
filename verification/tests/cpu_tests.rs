use cinnamos_kernel::cpu::{
    id_map_range, ktrap_handle, start_hart_result, trap_cause, valid_hart_local_ptr, Context, CpuLocal,
    HartStartError, PrivMode, RiscvContext, RiscvCpuLocal, SbiCaps, TrapCause,
};
use cinnamos_kernel::trap::TrapKind;

#[test]
fn context_privilege_and_interrupts() {
    let mut c = RiscvContext::new(PrivMode::Supervisor);
    assert_eq!(c.sstatus, 0x100);
    assert_eq!(c.privilege(), PrivMode::Supervisor);
    assert!(!c.interrupts_enabled());
    c.set_interrupts_enabled(true);
    assert!(c.interrupts_enabled());
    assert_eq!(c.privilege(), PrivMode::Supervisor);
    c.set_privilege(PrivMode::User);
    assert_eq!(c.privilege(), PrivMode::User);
    assert!(c.interrupts_enabled());
    c.set_pc(0x8020_0000);
    assert_eq!(c.pc(), 0x8020_0000);
    let u = RiscvContext::new(PrivMode::User);
    assert_eq!(u.sstatus, 0);
}

#[test]
fn context_drops_bits_outside_the_register() {
    let mut c = RiscvContext::new(PrivMode::User);
    c.sstatus = 0x1;
    c.set_interrupts_enabled(true);
    assert_eq!(c.sstatus, 0x2);
}

#[test]
fn kernel_traps() {
    let mut c = RiscvContext::new(PrivMode::User);
    assert!(ktrap_handle(&mut c, TrapCause::Error));
    assert!(!ktrap_handle(&mut c, TrapCause::TimerInterrupt));
    assert_eq!(trap_cause(TrapKind::UserEnvCall), TrapCause::EnvCall);
    assert_eq!(trap_cause(TrapKind::SupervisorExternal), TrapCause::ExternalInterrupt);
    assert_eq!(trap_cause(TrapKind::LoadFault), TrapCause::Error);
}

#[test]
fn hart_start_errors() {
    assert_eq!(start_hart_result(None, None), Err(HartStartError::UnmappedEntry));
    assert_eq!(start_hart_result(Some(0x8020_0000), None), Ok(()));
    assert_eq!(start_hart_result(Some(0x8020_0000), Some(-5)), Err(HartStartError::InvalidAddress));
    assert_eq!(start_hart_result(Some(0x8020_0000), Some(-3)), Err(HartStartError::InvalidHartId));
    assert_eq!(start_hart_result(Some(0x8020_0000), Some(-6)), Err(HartStartError::AlreadyStarted));
    assert_eq!(start_hart_result(Some(0x8020_0000), Some(-1)), Err(HartStartError::Unknown));
}

#[test]
fn per_hart_records() {
    let mut l = RiscvCpuLocal::new();
    l.set_kernel_sp(0x9000);
    l.set_next_deadline(77);
    assert_eq!((l.id(), l.kernel_sp(), l.next_deadline()), (0, 0x9000, 77));
    let caps = SbiCaps::new(true, false);
    assert!(caps.has_timer());
    assert!(!caps.has_debug_console());
    assert!(valid_hart_local_ptr(0x8000));
    assert!(!valid_hart_local_ptr(0));
    assert!(!valid_hart_local_ptr(0x8004));
}

#[test]
fn identity_mapping_pages() {
    assert_eq!(id_map_range(0x1010, 0x3001), vec![0x1000, 0x2000, 0x3000]);
    assert_eq!(id_map_range(0x1000, 0x3000), vec![0x1000, 0x2000]);
    assert_eq!(id_map_range(0x1000, 0x1000), Vec::<u64>::new());
}

use cinnamos_kernel::addr::VAddr;
use cinnamos_kernel::task::{HartLocal, Scheduler, Task, TaskControlBlock, TaskState};
use cinnamos_kernel::trap::{
    create_init_context, create_init_trap_frame, dispatch_syscall, interrupt_mask_bits, syscall_args, syscall_number,
    syscall_trap, timer_tick, trap_handler, Context, SyscallOutcome, TickOutcome, TrapAction, TrapFrame, TrapKind,
    REG_A0, REG_A1, REG_SP, REG_TP,
};
use cinnamos_kernel::irq::InterruptMask;

fn frame() -> TrapFrame {
    let mut regs = [0u64; 32];
    for (i, r) in regs.iter_mut().enumerate() {
        *r = i as u64 * 3;
    }
    TrapFrame { regs, sstatus: 0x22, sepc: VAddr::new(0x8020_0100) }
}

#[test]
fn environment_calls_and_breakpoints_skip_the_instruction() {
    let mut f = frame();
    assert_eq!(trap_handler(TrapKind::UserEnvCall, &mut f), TrapAction::Syscall);
    assert_eq!(f.sepc.addr(), 0x8020_0104);
    assert_eq!(trap_handler(TrapKind::Breakpoint, &mut f), TrapAction::Resume);
    assert_eq!(f.sepc.addr(), 0x8020_0108);
}

#[test]
fn faults_are_fatal_and_leave_the_frame() {
    for kind in [TrapKind::LoadPageFault, TrapKind::IllegalInstruction, TrapKind::StoreFault, TrapKind::Other] {
        let mut f = frame();
        assert_eq!(trap_handler(kind, &mut f), TrapAction::Fatal);
        assert_eq!(f.sepc.addr(), 0x8020_0100);
        assert_eq!(f.regs, frame().regs);
    }
}

#[test]
fn interrupts_map_to_their_actions() {
    let mut f = frame();
    assert_eq!(trap_handler(TrapKind::SupervisorTimer, &mut f), TrapAction::Timer);
    assert_eq!(trap_handler(TrapKind::SupervisorExternal, &mut f), TrapAction::External);
    assert_eq!(trap_handler(TrapKind::SupervisorSoft, &mut f), TrapAction::Software);
    assert_eq!(f.sepc.addr(), 0x8020_0100);
}

#[test]
fn unknown_syscalls_set_the_error_code() {
    let mut f = frame();
    f.regs[17] = u64::MAX;
    f.sepc = VAddr::new(0x8000_1000);
    let before = f.regs;
    syscall_trap(&mut f, SyscallOutcome::Unknown(0xdead));
    assert_eq!(f.sepc.addr(), 0x8000_1004);
    assert_eq!(f.regs[REG_A0], 0xdead);
    for i in 0..32 {
        if i != REG_A0 {
            assert_eq!(f.regs[i], before[i]);
        }
    }
    assert_eq!(f.sstatus, 0x22);
}

#[test]
fn system_calls_read_their_number_and_six_arguments() {
    let f = frame();
    assert_eq!(syscall_number(&f), 17 * 3);
    assert_eq!(syscall_args(&f), [30, 33, 36, 39, 42, 45]);
}

#[test]
fn system_call_results_go_to_a0_and_a1() {
    let mut f = frame();
    dispatch_syscall(&mut f, SyscallOutcome::Done(7));
    assert_eq!((f.regs[REG_A0], f.regs[REG_A1]), (0, 7));
    let mut g = frame();
    dispatch_syscall(&mut g, SyscallOutcome::Failed(3));
    assert_eq!((g.regs[REG_A0], g.regs[REG_A1]), (3, 33));
    assert_eq!(g.sepc.addr(), 0x8020_0100);
}

#[test]
fn init_frames_and_contexts() {
    let f = create_init_trap_frame(VAddr::new(0x8020_0000), VAddr::new(0x9000), 0x2, 0x4000);
    assert_eq!(f.regs[REG_SP], 0x9000);
    assert_eq!(f.regs[REG_TP], 0x4000);
    assert_eq!(f.regs[0], 0);
    assert_eq!(f.sstatus, 0x122);
    assert_eq!(f.sepc.addr(), 0x8020_0000);
    let c = create_init_context(VAddr::new(0x8020_1000));
    assert_eq!(c.ra.addr(), 0x8020_1000);
    assert_eq!(c.saved, [0u64; 20]);
    let k = Context::kernel_task_enter(0x8020_2000, 0x100, VAddr::new(0x8020_3000));
    assert_eq!(k.ra.addr(), 0x8020_3000);
    assert_eq!(k.saved[12], 0x8020_2000);
    assert_eq!(k.saved[13], 0x102);
    assert_eq!(Context::new(VAddr::new(4)).saved, [0u64; 20]);
}

#[test]
fn timer_ticks_use_up_the_quantum_then_switch() {
    let mut s = Scheduler::new();
    let mut h = HartLocal::new(0, VAddr::new(0x9000));
    assert_eq!(timer_tick(&mut s, &mut h), TickOutcome::Idle);
    for i in 0..2 {
        s.enqueue(Task::new(VAddr::new(i), VAddr::new(i), TaskControlBlock { id: 0, state: TaskState::Ready, time_quantum: 0 }));
    }
    s.start(&mut h);
    for left in (0..5).rev() {
        assert_eq!(timer_tick(&mut s, &mut h), TickOutcome::Continue);
        assert_eq!(h.curr_task().unwrap().tcb().time_quantum, left);
    }
    assert_eq!(timer_tick(&mut s, &mut h), TickOutcome::Switch(0, 1));
}

#[test]
fn interrupt_mask_sets_the_enable_bits() {
    let m = InterruptMask { timer: true, external: false, software: true };
    assert_eq!(interrupt_mask_bits(0x200, m), 0x22);
    assert_eq!(interrupt_mask_bits(0x1000, InterruptMask { timer: false, external: true, software: false }), 0x1200);
}

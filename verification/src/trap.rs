//! Trap frames, task contexts, and the decisions the trap handler takes on each trap.
use vstd::prelude::*;

use crate::addr::VAddr;
use crate::irq::InterruptMask;
use crate::task::{activated, schedule, yielded, HartLocal, Scheduler, TaskControlBlock};

verus! {

/// The bits of `sstatus` that the register holds (those outside read as zero).
pub const SSTATUS_MASK: u64 = 0x8000_0003_000d_e762;

/// The supervisor interrupt enable bit of `sstatus`.
pub const SSTATUS_SIE: u64 = 0x2;

/// The supervisor previous interrupt enable bit of `sstatus`.
pub const SSTATUS_SPIE: u64 = 0x20;

/// The supervisor previous privilege bit of `sstatus` (set for supervisor mode).
pub const SSTATUS_SPP: u64 = 0x100;

/// `bits` with the bit `bit` set or cleared.
pub open spec fn with_bit(bits: u64, bit: u64, on: bool) -> u64 {
    if on {
        bits | bit
    } else {
        bits & !bit
    }
}

/// A frame containing the snapshot of the hart state.
#[derive(Debug)]
pub struct TrapFrame {
    /// The contents of all registers in the snapshot.
    pub regs: [u64; 32],
    /// The value of the `sstatus` register.
    pub sstatus: u64,
    /// The address that the trap handler returns to after exiting the trap.
    pub sepc: VAddr,
}

/// The index of the stack pointer among the registers of a frame.
pub const REG_SP: usize = 2;

/// The index of the thread pointer among the registers of a frame.
pub const REG_TP: usize = 4;

/// The index of the first argument register among the registers of a frame.
pub const REG_A0: usize = 10;

/// The index of the second argument register among the registers of a frame.
pub const REG_A1: usize = 11;

/// The index of the sixth argument register among the registers of a frame.
pub const REG_A5: usize = 15;

/// The index of the system call number register among the registers of a frame.
pub const REG_A7: usize = 17;

/// The number of arguments of a system call.
pub const SYSCALL_ARG_COUNT: usize = 6;

impl TrapFrame {
    /// Fabricates the hart state of a fresh kernel task: all registers zero but the stack
    /// pointer `stack_ptr` and the thread pointer `tp`; `sstatus` as read, with previous
    /// interrupts enabled and supervisor as the previous privilege; returning to `entry`.
    fn create_kernel_frame(entry: VAddr, stack_ptr: VAddr, sstatus: u64, tp: u64) -> (r: Self)
        ensures
            r.regs[REG_SP as int] == stack_ptr@,
            r.regs[REG_TP as int] == tp,
            forall|i: int| 0 <= i < 32 && i != REG_SP && i != REG_TP ==> r.regs[i] == 0,
            r.sstatus == sstatus | SSTATUS_SPIE | SSTATUS_SPP,
            r.sepc == entry,
    {
        let status = sstatus | SSTATUS_SPIE | SSTATUS_SPP;
        let mut regs = [0u64; 32];
        regs[REG_SP] = stack_ptr.addr();
        regs[REG_TP] = tp;
        TrapFrame { regs, sstatus: status, sepc: entry }
    }
}

/// Fabricates a snapshot of an empty hart state with the given stack pointer. When loading
/// this frame, the hart will jump to `entry`. `sstatus` is the value of the register at the
/// time of the call, and `tp` the pointer to the hart-local storage.
pub fn create_init_trap_frame(entry: VAddr, task_sp: VAddr, sstatus: u64, tp: u64) -> (r:
    TrapFrame)
    ensures
        r.regs[REG_SP as int] == task_sp@,
        r.regs[REG_TP as int] == tp,
        forall|i: int| 0 <= i < 32 && i != REG_SP && i != REG_TP ==> r.regs[i] == 0,
        r.sstatus == sstatus | SSTATUS_SPIE | SSTATUS_SPP,
        r.sepc == entry,
{
    TrapFrame::create_kernel_frame(entry, task_sp, sstatus, tp)
}

/// Represents a context within a call stack.
#[derive(Debug)]
pub struct Context {
    /// The return address from the current context.
    pub ra: VAddr,
    /// The contents of callee-saved registers.
    pub saved: [u64; 20],
}

/// The index of the first argument register among the saved registers of a context.
pub const CTX_REG_A0: usize = 12;

/// The index of the second argument register among the saved registers of a context.
pub const CTX_REG_A1: usize = 13;

impl Context {
    /// Creates an empty context with the given return address.
    pub fn new(ret: VAddr) -> (r: Self)
        ensures
            r.ra == ret,
            forall|i: int| 0 <= i < 20 ==> r.saved[i] == 0,
    {
        Context { ra: ret, saved: [0u64; 20] }
    }

    /// Creates a context that returns to the task entry trampoline at `enter`, which calls
    /// `entry` with `sstatus` (as read at the time of the call) with interrupts enabled.
    pub fn kernel_task_enter(entry: u64, sstatus: u64, enter: VAddr) -> (r: Self)
        ensures
            r.ra == enter,
            r.saved[CTX_REG_A0 as int] == entry,
            r.saved[CTX_REG_A1 as int] == sstatus | SSTATUS_SIE,
            forall|i: int| 0 <= i < 20 && i != CTX_REG_A0 && i != CTX_REG_A1 ==> r.saved[i] == 0,
    {
        let mut saved = [0u64; 20];
        saved[CTX_REG_A0] = entry;
        saved[CTX_REG_A1] = sstatus | SSTATUS_SIE;
        Context { ra: enter, saved }
    }
}

/// Fabricates an initial context that simply jumps to the trap exit at `trap_exit`. Intended to
/// be coupled with a [`TrapFrame`] to form a complete stack that loads the frame and jumps to
/// its entry point.
pub fn create_init_context(trap_exit: VAddr) -> (r: Context)
    ensures
        r.ra == trap_exit,
        forall|i: int| 0 <= i < 20 ==> r.saved[i] == 0,
{
    Context::new(trap_exit)
}

/// The cause of a trap, as the hardware reports it.
#[derive(Clone, Copy, PartialEq, Eq, Structural, Debug)]
pub enum TrapKind {
    InstructionMisaligned,
    InstructionFault,
    IllegalInstruction,
    LoadMisaligned,
    LoadFault,
    StoreMisaligned,
    StoreFault,
    InstructionPageFault,
    LoadPageFault,
    StorePageFault,
    UserEnvCall,
    Breakpoint,
    SupervisorTimer,
    SupervisorExternal,
    SupervisorSoft,
    /// Any other exception or interrupt.
    Other,
}

/// What remains to be done for a trap once the frame is updated.
#[derive(Clone, Copy, PartialEq, Eq, Structural, Debug)]
pub enum TrapAction {
    /// The trap cannot be handled: the kernel stops with a report of the trap.
    Fatal,
    /// Dispatch the system call that the frame requests.
    Syscall,
    /// Nothing more: resume execution.
    Resume,
    /// Re-arm the timer and account the tick to the current task.
    Timer,
    /// Claim and dispatch a pending external interrupt.
    External,
    /// Report the software interrupt.
    Software,
}

/// The action taken for each kind of trap.
pub open spec fn trap_action(kind: TrapKind) -> TrapAction {
    match kind {
        TrapKind::UserEnvCall => TrapAction::Syscall,
        TrapKind::Breakpoint => TrapAction::Resume,
        TrapKind::SupervisorTimer => TrapAction::Timer,
        TrapKind::SupervisorExternal => TrapAction::External,
        TrapKind::SupervisorSoft => TrapAction::Software,
        _ => TrapAction::Fatal,
    }
}

/// The kinds of trap that are exceptions: raised by the instruction that trapped, rather than
/// interrupts from outside it.
pub open spec fn is_exception(kind: TrapKind) -> bool {
    ||| kind == TrapKind::InstructionMisaligned
    ||| kind == TrapKind::InstructionFault
    ||| kind == TrapKind::IllegalInstruction
    ||| kind == TrapKind::LoadMisaligned
    ||| kind == TrapKind::LoadFault
    ||| kind == TrapKind::StoreMisaligned
    ||| kind == TrapKind::StoreFault
    ||| kind == TrapKind::InstructionPageFault
    ||| kind == TrapKind::LoadPageFault
    ||| kind == TrapKind::StorePageFault
    ||| kind == TrapKind::UserEnvCall
    ||| kind == TrapKind::Breakpoint
}

/// Whether the trap returns past the instruction that raised it.
pub open spec fn skips_instruction(kind: TrapKind) -> bool {
    kind == TrapKind::UserEnvCall || kind == TrapKind::Breakpoint
}

/// Decides how a trap is handled: environment calls and breakpoints return past the trapping
/// instruction (four bytes on), every other trap leaves the frame as it is. Returns what
/// remains to be done; for an environment call, that is to write the outcome of the system call
/// to the frame with [`dispatch_syscall`] ([`syscall_trap`] does both steps).
pub fn trap_handler(kind: TrapKind, frame: &mut TrapFrame) -> (r: TrapAction)
    ensures
        r == trap_action(kind),
        is_exception(kind) && kind != TrapKind::UserEnvCall && kind != TrapKind::Breakpoint ==> r
            == TrapAction::Fatal,
        kind == TrapKind::Other ==> r == TrapAction::Fatal,
        r == TrapAction::Resume ==> kind == TrapKind::Breakpoint,
        r == TrapAction::Syscall <==> kind == TrapKind::UserEnvCall,
        final(frame).regs == old(frame).regs,
        final(frame).sstatus == old(frame).sstatus,
        skips_instruction(kind) ==> final(frame).sepc@ == vstd::wrapping::u64_specs::wrapping_add(
            old(frame).sepc@,
            4,
        ),
        !skips_instruction(kind) ==> final(frame).sepc == old(frame).sepc,
{
    match kind {
        TrapKind::UserEnvCall => {
            frame.sepc = frame.sepc + 4;
            TrapAction::Syscall
        },
        TrapKind::Breakpoint => {
            frame.sepc = frame.sepc + 4;
            TrapAction::Resume
        },
        TrapKind::SupervisorTimer => TrapAction::Timer,
        TrapKind::SupervisorExternal => TrapAction::External,
        TrapKind::SupervisorSoft => TrapAction::Software,
        _ => TrapAction::Fatal,
    }
}

/// Law: every exception but an environment call or a breakpoint (misaligned, illegal or
/// faulting instructions, and access and page faults on fetch, load or store) cannot be handled,
/// and neither can a trap of an unknown kind; only a breakpoint resumes without further work.
pub proof fn lemma_faults_are_fatal(kind: TrapKind)
    ensures
        is_exception(kind) && kind != TrapKind::UserEnvCall && kind != TrapKind::Breakpoint
            ==> trap_action(kind) == TrapAction::Fatal,
        kind == TrapKind::Other ==> trap_action(kind) == TrapAction::Fatal,
        trap_action(kind) == TrapAction::Resume <==> kind == TrapKind::Breakpoint,
        trap_action(kind) == TrapAction::Fatal <==> (kind == TrapKind::Other || (is_exception(kind)
            && kind != TrapKind::UserEnvCall && kind != TrapKind::Breakpoint)),
{
}

/// The number of the system call a frame requests: the value of `a7`.
pub fn syscall_number(frame: &TrapFrame) -> (r: u64)
    ensures
        r == frame.regs[REG_A7 as int],
{
    frame.regs[REG_A7]
}

/// The arguments of the system call a frame requests: the six registers from `a0` to `a5`.
pub fn syscall_args(frame: &TrapFrame) -> (r: [u64; 6])
    ensures
        forall|i: int| 0 <= i < 6 ==> #[trigger] r[i] == frame.regs[REG_A0 + i],
{
    [
        frame.regs[REG_A0],
        frame.regs[REG_A0 + 1],
        frame.regs[REG_A0 + 2],
        frame.regs[REG_A0 + 3],
        frame.regs[REG_A0 + 4],
        frame.regs[REG_A0 + 5],
    ]
}

/// How the system call a frame requests went, as the system call layer reports it once it has
/// decoded the number of [`syscall_number`] and run the call with [`syscall_args`].
#[derive(Clone, Copy, PartialEq, Eq, Structural, Debug)]
pub enum SyscallOutcome {
    /// The number names no system call; the value is the code of the unknown-call error.
    Unknown(u64),
    /// The call returned the value.
    Done(u64),
    /// The call failed with the error of the code.
    Failed(u64),
}

/// The registers of a frame once the system call it requested went as `outcome` says: a call
/// that returned puts zero in `a0` and its value in `a1`; a failed or unknown call puts the
/// error code in `a0`. Nothing else changes.
pub open spec fn syscall_regs(regs: Seq<u64>, outcome: SyscallOutcome) -> Seq<u64> {
    match outcome {
        SyscallOutcome::Unknown(code) => regs.update(REG_A0 as int, code),
        SyscallOutcome::Done(ret) => regs.update(REG_A0 as int, 0).update(REG_A1 as int, ret),
        SyscallOutcome::Failed(code) => regs.update(REG_A0 as int, code),
    }
}

/// Writes the outcome of the system call a frame requested back to the frame.
pub fn dispatch_syscall(frame: &mut TrapFrame, outcome: SyscallOutcome)
    ensures
        final(frame).regs@ == syscall_regs(old(frame).regs@, outcome),
        final(frame).sstatus == old(frame).sstatus,
        final(frame).sepc == old(frame).sepc,
{
    match outcome {
        SyscallOutcome::Unknown(code) => {
            frame.regs[REG_A0] = code;
        },
        SyscallOutcome::Done(ret) => {
            frame.regs[REG_A0] = 0;
            frame.regs[REG_A1] = ret;
        },
        SyscallOutcome::Failed(code) => {
            frame.regs[REG_A0] = code;
        },
    }
}

/// Handles an environment call from user mode: the frame returns past the calling instruction,
/// with the registers that the outcome of the call gives.
pub fn syscall_trap(frame: &mut TrapFrame, outcome: SyscallOutcome)
    ensures
        final(frame).regs@ == syscall_regs(old(frame).regs@, outcome),
        final(frame).sstatus == old(frame).sstatus,
        final(frame).sepc@ == vstd::wrapping::u64_specs::wrapping_add(old(frame).sepc@, 4),
{
    dispatch_syscall(frame, outcome);
    let _ = trap_handler(TrapKind::UserEnvCall, frame);
}

/// What a timer tick did to the current task of a hart.
#[derive(Clone, Copy, PartialEq, Eq, Structural, Debug)]
pub enum TickOutcome {
    /// The hart runs no task.
    Idle,
    /// The current task used one unit of its time quantum and keeps running.
    Continue,
    /// The current task had no time quantum left and yielded: the hart switches from the
    /// first task to the second (by thread ID).
    Switch(u64, u64),
}

/// Accounts a timer tick to the current task of the hart whose storage is `hloc`: a task with
/// time quantum left uses one unit of it, a task with none left yields to the scheduler.
pub fn timer_tick(sched: &mut Scheduler, hloc: &mut HartLocal) -> (r: TickOutcome)
    ensures
        match old(hloc).curr_task_spec() {
            None => {
                &&& r == TickOutcome::Idle
                &&& *final(hloc) == *old(hloc)
                &&& final(sched).queue_spec() == old(sched).queue_spec()
            },
            Some(t) => if t.tcb_spec().time_quantum > 0 {
                &&& r == TickOutcome::Continue
                &&& *final(hloc) == old(hloc).with_curr_task(
                    Some(
                        t.with_tcb(
                            (TaskControlBlock {
                                time_quantum: (t.tcb_spec().time_quantum - 1) as u64,
                                ..t.tcb_spec()
                            }),
                        ),
                    ),
                )
                &&& final(sched).queue_spec() == old(sched).queue_spec()
            } else {
                let q = old(sched).queue_spec().push(t.with_tcb(yielded(t.tcb_spec())));
                &&& r == TickOutcome::Switch(t.tcb_spec().id, q[0].tcb_spec().id)
                &&& final(sched).queue_spec() == q.drop_first()
                &&& *final(hloc) == old(hloc).with_curr_task(
                    Some(q[0].with_tcb(activated(q[0].tcb_spec()))),
                )
            },
        },
{
    let ghost h0 = *hloc;
    let curr = hloc.take_curr_task();
    proof {
        h0.lemma_with(None, 0);
        h0.lemma_with_curr_task(None, None);
    }
    match curr {
        None => {
            TickOutcome::Idle
        },
        Some(t) => {
            let mut t = t;
            let q = t.tcb().time_quantum;
            if q != 0 {
                let tcb = t.tcb_mut();
                tcb.time_quantum = q - 1;
                let ghost t1 = t;
                hloc.set_curr_task(t);
                proof {
                    h0.lemma_with_curr_task(None, Some(t1));
                }
                TickOutcome::Continue
            } else {
                let ghost t1 = t;
                hloc.set_curr_task(t);
                proof {
                    h0.lemma_with_curr_task(None, Some(t1));
                    h0.lemma_with(Some(t1), 0);
                    h0.lemma_with_curr_task(Some(t1), Some(t1));
                    assert(*hloc == h0);
                }
                let (prev, next) = schedule(sched, hloc);
                TickOutcome::Switch(prev, next)
            }
        },
    }
}

/// The supervisor software interrupt enable bit of `sie`.
pub const SIE_SSOFT: u64 = 0x2;

/// The supervisor timer interrupt enable bit of `sie`.
pub const SIE_STIMER: u64 = 0x20;

/// The supervisor external interrupt enable bit of `sie`.
pub const SIE_SEXT: u64 = 0x200;

/// The value of `sie` that enables the interrupts `mask` enables, from its value `sie`: the
/// timer, external and software bits follow the mask, the others are kept.
pub fn interrupt_mask_bits(sie: u64, mask: InterruptMask) -> (r: u64)
    ensures
        r == with_bit(with_bit(with_bit(sie, SIE_STIMER, mask.timer), SIE_SEXT, mask.external), SIE_SSOFT, mask.software),
{
    let a = if mask.timer {
        sie | SIE_STIMER
    } else {
        sie & !SIE_STIMER
    };
    let b = if mask.external {
        a | SIE_SEXT
    } else {
        a & !SIE_SEXT
    };
    if mask.software {
        b | SIE_SSOFT
    } else {
        b & !SIE_SSOFT
    }
}

} // verus!

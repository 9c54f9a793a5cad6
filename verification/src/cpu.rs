//! Per-hart state and capabilities: the firmware's capabilities, the per-hart record of a
//! 32-bit hart, the register state of a hart and its privilege, hart start errors, and the
//! identity mapping of kernel sections.
use vstd::prelude::*;

use crate::addr::PAGE_SIZE;
use crate::trap::{with_bit, TrapKind, SSTATUS_MASK, SSTATUS_SIE, SSTATUS_SPP};

verus! {

/// The firmware extensions the kernel can use.
#[derive(Clone, Copy, PartialEq, Eq, Structural, Debug)]
pub struct SbiCaps {
    timer: bool,
    debug_console: bool,
}

impl SbiCaps {
    /// Whether the timer extension is available.
    pub closed spec fn timer_spec(&self) -> bool {
        self.timer
    }

    /// Whether the debug console extension is available.
    pub closed spec fn debug_console_spec(&self) -> bool {
        self.debug_console
    }

    /// The capabilities that probing the firmware found.
    pub fn new(timer: bool, debug_console: bool) -> (r: Self)
        ensures
            r.timer_spec() == timer,
            r.debug_console_spec() == debug_console,
    {
        SbiCaps { timer, debug_console }
    }

    /// Whether the timer extension is available.
    pub fn has_timer(&self) -> (r: bool)
        ensures
            r == self.timer_spec(),
    {
        self.timer
    }

    /// Whether the debug console extension is available.
    pub fn has_debug_console(&self) -> (r: bool)
        ensures
            r == self.debug_console_spec(),
    {
        self.debug_console
    }
}

/// The per-hart record of a hart.
pub trait CpuLocal {
    /// The ID of the hart.
    fn id(&self) -> u64;

    /// The kernel stack pointer of the hart.
    fn kernel_sp(&self) -> u64;

    /// Sets the kernel stack pointer of the hart.
    fn set_kernel_sp(&mut self, sp: u64);

    /// The time of the next timer interrupt of the hart.
    fn next_deadline(&self) -> u64;

    /// Sets the time of the next timer interrupt of the hart.
    fn set_next_deadline(&mut self, next_deadline: u64);
}

/// The per-hart record of a hart.
#[derive(Clone, Copy, PartialEq, Eq, Structural, Debug)]
pub struct RiscvCpuLocal {
    pub hid: u64,
    pub kernel_sp: u64,
    pub scratch: u64,
    pub next_deadline: u64,
}

impl RiscvCpuLocal {
    /// A record with all fields zero.
    pub fn new() -> (r: Self)
        ensures
            r == (RiscvCpuLocal { hid: 0, kernel_sp: 0, scratch: 0, next_deadline: 0 }),
    {
        RiscvCpuLocal { hid: 0, kernel_sp: 0, scratch: 0, next_deadline: 0 }
    }
}

impl CpuLocal for RiscvCpuLocal {
    fn id(&self) -> (r: u64)
        ensures
            r == self.hid,
    {
        self.hid
    }

    fn kernel_sp(&self) -> (r: u64)
        ensures
            r == self.kernel_sp,
    {
        self.kernel_sp
    }

    fn set_kernel_sp(&mut self, sp: u64)
        ensures
            *final(self) == (RiscvCpuLocal { kernel_sp: sp, ..*old(self) }),
    {
        self.kernel_sp = sp;
    }

    fn next_deadline(&self) -> (r: u64)
        ensures
            r == self.next_deadline,
    {
        self.next_deadline
    }

    fn set_next_deadline(&mut self, next_deadline: u64)
        ensures
            *final(self) == (RiscvCpuLocal { next_deadline, ..*old(self) }),
    {
        self.next_deadline = next_deadline;
    }
}

/// Reflects errors that might occur while attempting to start a hart.
#[derive(Clone, Copy, PartialEq, Eq, Structural, Debug)]
pub enum HartStartError {
    /// The entry address cannot be translated to a physical address within the kernel address
    /// space.
    UnmappedEntry,
    /// The entry address translates to an invalid physical address.
    InvalidAddress,
    /// The given hart ID is invalid or cannot start in s-mode.
    InvalidHartId,
    /// The hart is already running.
    AlreadyStarted,
    /// The hart cannot be started for an unknown reason.
    Unknown,
}

/// The firmware's error code for an invalid address.
pub const SBI_ERR_INVALID_ADDRESS: i64 = -5;

/// The firmware's error code for an invalid parameter.
pub const SBI_ERR_INVALID_PARAM: i64 = -3;

/// The firmware's error code for something already available.
pub const SBI_ERR_ALREADY_AVAILABLE: i64 = -6;

/// The outcome of starting a hart: [`HartStartError::UnmappedEntry`] where its entry has no
/// physical address (`entry_pa` is [`None`]), else what the firmware's hart start call
/// answered (`sbi_error` is [`None`] on success, else the error code).
pub fn start_hart_result(entry_pa: Option<u64>, sbi_error: Option<i64>) -> (r: Result<(), HartStartError>)
    ensures
        entry_pa is None ==> r == Err::<(), HartStartError>(HartStartError::UnmappedEntry),
        entry_pa is Some ==> match sbi_error {
            None => r is Ok,
            Some(e) => r == Err::<(), HartStartError>(
                if e == SBI_ERR_INVALID_ADDRESS {
                    HartStartError::InvalidAddress
                } else if e == SBI_ERR_INVALID_PARAM {
                    HartStartError::InvalidHartId
                } else if e == SBI_ERR_ALREADY_AVAILABLE {
                    HartStartError::AlreadyStarted
                } else {
                    HartStartError::Unknown
                },
            ),
        },
{
    match entry_pa {
        None => Err(HartStartError::UnmappedEntry),
        Some(_) => match sbi_error {
            None => Ok(()),
            Some(e) => {
                if e == SBI_ERR_INVALID_ADDRESS {
                    Err(HartStartError::InvalidAddress)
                } else if e == SBI_ERR_INVALID_PARAM {
                    Err(HartStartError::InvalidHartId)
                } else if e == SBI_ERR_ALREADY_AVAILABLE {
                    Err(HartStartError::AlreadyStarted)
                } else {
                    Err(HartStartError::Unknown)
                }
            },
        },
    }
}

/// A pointer to a hart-local storage that can be used: not null, and aligned to the storage's
/// eight bytes.
pub fn valid_hart_local_ptr(ptr: u64) -> (r: bool)
    ensures
        r == (ptr != 0 && ptr % 8 == 0),
{
    ptr != 0 && ptr % 8 == 0
}

/// The page boundary at or below `x`.
pub open spec fn page_floor(x: u64) -> int {
    x - x % PAGE_SIZE
}

/// The page boundary at or above `x`.
pub open spec fn page_ceil(x: u64) -> int {
    if x % PAGE_SIZE == 0 {
        x as int
    } else {
        x - x % PAGE_SIZE + PAGE_SIZE
    }
}

/// The pages that identity-mapping the range from `start` up to `end` maps, in order: from the
/// page of `start` up to the page boundary at or above `end`.
pub fn id_map_range(start: u64, end: u64) -> (r: Vec<u64>)
    requires
        end + PAGE_SIZE - 1 <= u64::MAX,
        start <= end,
    ensures
        r@.len() == (page_ceil(end) - page_floor(start)) / (PAGE_SIZE as int),
        forall|k: int| 0 <= k < r@.len() ==> #[trigger] r@[k] == page_floor(start) + k * PAGE_SIZE,
{
    let base = start - start % PAGE_SIZE;
    let top = if end % PAGE_SIZE == 0 {
        end
    } else {
        end - end % PAGE_SIZE + PAGE_SIZE
    };
    let num_pages = (top - base) / PAGE_SIZE;
    let mut out: Vec<u64> = Vec::new();
    let mut i: u64 = 0;
    while i < num_pages
        invariant
            i <= num_pages,
            base == page_floor(start),
            top == page_ceil(end),
            base <= top,
            num_pages == (top - base) / (PAGE_SIZE as int),
            out@.len() == i,
            forall|k: int| 0 <= k < i ==> #[trigger] out@[k] == base + k * PAGE_SIZE,
        decreases num_pages - i,
    {
        proof {
            assert(i * PAGE_SIZE < num_pages * PAGE_SIZE) by (nonlinear_arith)
                requires
                    i < num_pages,
            ;
            assert(num_pages * PAGE_SIZE <= top - base) by (nonlinear_arith)
                requires
                    num_pages == (top - base) / 4096,
                    base <= top,
            ;
        }
        out.push(base + i * PAGE_SIZE);
        i = i + 1;
    }
    out
}

/// The privilege mode of a hart.
#[derive(Clone, Copy, PartialEq, Eq, Structural, Debug)]
pub enum PrivMode {
    User,
    Supervisor,
}

/// The saved state of a hart, as its trap handling keeps it.
pub trait Context {
    /// The address execution resumes at.
    fn pc(&self) -> u64;

    /// Sets the address execution resumes at.
    fn set_pc(&mut self, pc: u64);

    /// The privilege mode execution resumes in.
    fn privilege(&self) -> PrivMode;

    /// Sets the privilege mode execution resumes in.
    fn set_privilege(&mut self, privilege: PrivMode);

    /// Whether interrupts are enabled.
    fn interrupts_enabled(&self) -> bool;

    /// Enables or disables interrupts.
    fn set_interrupts_enabled(&mut self, enabled: bool);
}

/// The register state of a hart.
#[derive(Debug)]
pub struct RiscvContext {
    pub regs: [u64; 32],
    pub sstatus: u64,
    pub sepc: u64,
}

impl RiscvContext {
    /// Creates a context with all registers zero that resumes in `privilege`.
    pub fn new(privilege: PrivMode) -> (r: Self)
        ensures
            forall|i: int| 0 <= i < 32 ==> r.regs[i] == 0,
            r.sepc == 0,
            r.sstatus == (if privilege == PrivMode::Supervisor {
                SSTATUS_SPP
            } else {
                0
            }),
    {
        let mut ctx = RiscvContext { regs: [0u64; 32], sstatus: 0, sepc: 0 };
        ctx.set_privilege(privilege);
        proof {
            lemma_sstatus_bits(0);
        }
        ctx
    }
}

impl Context for RiscvContext {
    fn pc(&self) -> (r: u64)
        ensures
            r == self.sepc,
    {
        self.sepc
    }

    fn set_pc(&mut self, pc: u64)
        ensures
            final(self).sepc == pc,
            final(self).regs == old(self).regs,
            final(self).sstatus == old(self).sstatus,
    {
        self.sepc = pc;
    }

    fn privilege(&self) -> (r: PrivMode)
        ensures
            r == (if self.sstatus & SSTATUS_SPP != 0 {
                PrivMode::Supervisor
            } else {
                PrivMode::User
            }),
    {
        let bits = self.sstatus & SSTATUS_MASK;
        proof {
            lemma_sstatus_bits(self.sstatus);
        }
        if bits & SSTATUS_SPP != 0 {
            PrivMode::Supervisor
        } else {
            PrivMode::User
        }
    }

    fn set_privilege(&mut self, privilege: PrivMode)
        ensures
            final(self).sstatus == with_bit(
                old(self).sstatus & SSTATUS_MASK,
                SSTATUS_SPP,
                privilege == PrivMode::Supervisor,
            ),
            final(self).regs == old(self).regs,
            final(self).sepc == old(self).sepc,
    {
        let bits = self.sstatus & SSTATUS_MASK;
        proof {
            lemma_sstatus_bits(self.sstatus);
        }
        let new_bits = match privilege {
            PrivMode::User => bits & !SSTATUS_SPP,
            PrivMode::Supervisor => bits | SSTATUS_SPP,
        };
        proof {
            lemma_sstatus_bits(self.sstatus);
        }
        self.sstatus = new_bits & SSTATUS_MASK;
    }

    fn interrupts_enabled(&self) -> (r: bool)
        ensures
            r == (self.sstatus & SSTATUS_SIE != 0),
    {
        let bits = self.sstatus & SSTATUS_MASK;
        proof {
            lemma_sstatus_bits(self.sstatus);
        }
        bits & SSTATUS_SIE != 0
    }

    fn set_interrupts_enabled(&mut self, enabled: bool)
        ensures
            final(self).sstatus == with_bit(old(self).sstatus & SSTATUS_MASK, SSTATUS_SIE, enabled),
            final(self).regs == old(self).regs,
            final(self).sepc == old(self).sepc,
    {
        let bits = self.sstatus & SSTATUS_MASK;
        proof {
            lemma_sstatus_bits(self.sstatus);
        }
        let new_bits = if enabled {
            bits | SSTATUS_SIE
        } else {
            bits & !SSTATUS_SIE
        };
        proof {
            lemma_sstatus_bits(self.sstatus);
        }
        self.sstatus = new_bits & SSTATUS_MASK;
    }
}

/// Law: the privilege mode and the interrupt enable bit of a context read back what was last
/// set, and setting one keeps the other.
pub proof fn lemma_context_bits(s: u64, spp: bool, sie: bool)
    ensures
        (with_bit(s & SSTATUS_MASK, SSTATUS_SPP, spp) & SSTATUS_SPP != 0) == spp,
        (with_bit(s & SSTATUS_MASK, SSTATUS_SIE, sie) & SSTATUS_SIE != 0) == sie,
        with_bit(s & SSTATUS_MASK, SSTATUS_SPP, spp) & SSTATUS_SIE == s & SSTATUS_SIE,
        with_bit(s & SSTATUS_MASK, SSTATUS_SIE, sie) & SSTATUS_SPP == s & SSTATUS_SPP,
{
    lemma_sstatus_bits(s);
}

/// The bits of `sstatus` that its privilege and interrupt enable updates touch.
proof fn lemma_sstatus_bits(s: u64)
    by (bit_vector)
    ensures
        (s & SSTATUS_MASK) & SSTATUS_MASK == s & SSTATUS_MASK,
        (s & SSTATUS_MASK) & SSTATUS_SPP == s & SSTATUS_SPP,
        (s & SSTATUS_MASK) & SSTATUS_SIE == s & SSTATUS_SIE,
        ((s & SSTATUS_MASK) | SSTATUS_SPP) & SSTATUS_MASK == (s & SSTATUS_MASK) | SSTATUS_SPP,
        ((s & SSTATUS_MASK) & !SSTATUS_SPP) & SSTATUS_MASK == (s & SSTATUS_MASK) & !SSTATUS_SPP,
        ((s & SSTATUS_MASK) | SSTATUS_SIE) & SSTATUS_MASK == (s & SSTATUS_MASK) | SSTATUS_SIE,
        ((s & SSTATUS_MASK) & !SSTATUS_SIE) & SSTATUS_MASK == (s & SSTATUS_MASK) & !SSTATUS_SIE,
        ((s & SSTATUS_MASK) | SSTATUS_SPP) & SSTATUS_SPP != 0,
        ((s & SSTATUS_MASK) & !SSTATUS_SPP) & SSTATUS_SPP == 0,
        ((s & SSTATUS_MASK) | SSTATUS_SIE) & SSTATUS_SIE != 0,
        ((s & SSTATUS_MASK) & !SSTATUS_SIE) & SSTATUS_SIE == 0,
        ((s & SSTATUS_MASK) | SSTATUS_SPP) & SSTATUS_SIE == s & SSTATUS_SIE,
        ((s & SSTATUS_MASK) & !SSTATUS_SPP) & SSTATUS_SIE == s & SSTATUS_SIE,
        ((s & SSTATUS_MASK) | SSTATUS_SIE) & SSTATUS_SPP == s & SSTATUS_SPP,
        ((s & SSTATUS_MASK) & !SSTATUS_SIE) & SSTATUS_SPP == s & SSTATUS_SPP,
        (0u64 & SSTATUS_MASK) | SSTATUS_SPP == SSTATUS_SPP,
        (0u64 & SSTATUS_MASK) & !SSTATUS_SPP == 0,
{
}

/// The cause of a trap taken by the kernel.
#[derive(Clone, Copy, PartialEq, Eq, Structural, Debug)]
pub enum TrapCause {
    Error,
    EnvCall,
    TimerInterrupt,
    ExternalInterrupt,
    SoftwareInterrupt,
}

/// Handles a trap taken by the kernel. Returns whether the hart must stop and idle for good,
/// which is the case for an error; every other cause is ignored.
pub fn ktrap_handle<C: Context>(ctx: &mut C, cause: TrapCause) -> (r: bool)
    ensures
        r == (cause == TrapCause::Error),
        *final(ctx) == *old(ctx),
{
    match cause {
        TrapCause::Error => true,
        _ => false,
    }
}

/// The cause the kernel gives a trap: environment calls and the supervisor interrupts keep
/// theirs, every other trap is an error.
pub fn trap_cause(kind: TrapKind) -> (r: TrapCause)
    ensures
        r == match kind {
            TrapKind::UserEnvCall => TrapCause::EnvCall,
            TrapKind::SupervisorTimer => TrapCause::TimerInterrupt,
            TrapKind::SupervisorExternal => TrapCause::ExternalInterrupt,
            TrapKind::SupervisorSoft => TrapCause::SoftwareInterrupt,
            _ => TrapCause::Error,
        },
{
    match kind {
        TrapKind::UserEnvCall => TrapCause::EnvCall,
        TrapKind::SupervisorTimer => TrapCause::TimerInterrupt,
        TrapKind::SupervisorExternal => TrapCause::ExternalInterrupt,
        TrapKind::SupervisorSoft => TrapCause::SoftwareInterrupt,
        _ => TrapCause::Error,
    }
}

} // verus!

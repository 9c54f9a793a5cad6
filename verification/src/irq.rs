//! Interrupt priorities, the table of interrupt handlers, critical-section nesting, and the
//! interrupt enable mask of a hart.
use vstd::prelude::*;

use crate::task::HartLocal;

verus! {

/// The maximum number of interrupt numbers supported by the PLIC specification.
pub const INTERRUPT_COUNT: u64 = 1024;

/// Represents possible errors that may occur when handling an IRQ.
#[derive(Clone, Copy, PartialEq, Eq, Structural, Debug)]
pub enum InterruptError {
    /// The IRQ source has an invalid identifier.
    InvalidInterruptSource,
    /// No handler has been registered for this IRQ.
    InterruptUnhandled,
}

/// Denotes the priority at which interrupts are chosen.
///
/// Higher priority interrupts will mask lower priority ones.
#[derive(Clone, Copy, PartialEq, Eq, Structural, Debug)]
pub enum InterruptPriority {
    /// This interrupt is disabled.
    Disabled,
    /// This interrupt is considered low priority.
    Low,
    /// This interrupt is considered medium priority.
    Medium,
    /// This interrupt is considered high priority.
    /// No other interrupts should be raised while handling an interrupt with this priority level.
    High,
}

/// Denotes the minimum level of priority of interrupts that should be raised on an interrupt
/// context.
///
/// Each value corresponds to the minimum [`InterruptPriority`] that is enabled.
#[derive(Clone, Copy, PartialEq, Eq, Structural, Debug)]
pub enum InterruptPriorityThreshold {
    /// The interrupt context allows all priority levels, starting from [`InterruptPriority::Low`].
    All,
    /// The interrupt context only allows a minimum level of [`InterruptPriority::Medium`].
    Medium,
    /// The interrupt context only allows a minimum level of [`InterruptPriority::High`].
    High,
    /// The interrupt context disables all interrupts.
    Disabled,
}

/// The rank of a priority, from disabled (0) to high (3).
pub open spec fn priority_rank(p: InterruptPriority) -> int {
    match p {
        InterruptPriority::Disabled => 0,
        InterruptPriority::Low => 1,
        InterruptPriority::Medium => 2,
        InterruptPriority::High => 3,
    }
}

/// The rank of the lowest priority a threshold lets through (4 where it lets none through).
pub open spec fn threshold_rank(t: InterruptPriorityThreshold) -> int {
    match t {
        InterruptPriorityThreshold::All => 1,
        InterruptPriorityThreshold::Medium => 2,
        InterruptPriorityThreshold::High => 3,
        InterruptPriorityThreshold::Disabled => 4,
    }
}

impl InterruptPriorityThreshold {
    /// Generates a threshold that masks interrupts with equal or lower level than `priority`.
    pub fn mask_from(priority: InterruptPriority) -> (r: Self)
        ensures
            threshold_rank(r) == priority_rank(priority) + 1,
            forall|p: InterruptPriority| #[trigger]
                priority_rank(p) >= threshold_rank(r) <==> priority_rank(p) > priority_rank(
                    priority,
                ),
    {
        match priority {
            InterruptPriority::Disabled => InterruptPriorityThreshold::All,
            InterruptPriority::Low => InterruptPriorityThreshold::Medium,
            InterruptPriority::Medium => InterruptPriorityThreshold::High,
            InterruptPriority::High => InterruptPriorityThreshold::Disabled,
        }
    }
}

/// The registered interrupt handlers, one slot per interrupt source.
pub struct IrqHandlers<H> {
    handlers: Vec<Option<H>>,
}

/// A valid interrupt source: not zero, and below the number of interrupt numbers.
pub open spec fn valid_source(source: u64) -> bool {
    1 <= source < INTERRUPT_COUNT
}

impl<H: Copy> IrqHandlers<H> {
    /// The handler registered for each source.
    pub closed spec fn handlers_spec(&self) -> Seq<Option<H>> {
        self.handlers@
    }

    /// There is one slot per interrupt number.
    pub open spec fn wf(&self) -> bool {
        self.handlers_spec().len() == INTERRUPT_COUNT
    }

    /// Creates a table with no handler registered.
    pub fn new() -> (r: Self)
        ensures
            r.wf(),
            forall|i: int| 0 <= i < INTERRUPT_COUNT ==> #[trigger] r.handlers_spec()[i] is None,
    {
        let mut handlers: Vec<Option<H>> = Vec::new();
        let mut i: u64 = 0;
        while i < INTERRUPT_COUNT
            invariant
                i <= INTERRUPT_COUNT,
                handlers@.len() == i,
                forall|j: int| 0 <= j < i ==> #[trigger] handlers@[j] is None,
            decreases INTERRUPT_COUNT - i,
        {
            handlers.push(None);
            i = i + 1;
        }
        IrqHandlers { handlers }
    }
}

/// Registers a function to be called to handle interrupts from a source.
///
/// # Errors
/// If the given `source` is an invalid interrupt source, this function returns
/// [`InvalidInterruptSource`](InterruptError::InvalidInterruptSource).
pub fn register_irq_handler<H: Copy>(table: &mut IrqHandlers<H>, source: u64, handler: H) -> (r:
    Result<(), InterruptError>)
    requires
        old(table).wf(),
    ensures
        final(table).wf(),
        valid_source(source) ==> r is Ok && final(table).handlers_spec() == old(
            table,
        ).handlers_spec().update(source as int, Some(handler)),
        !valid_source(source) ==> r == Err::<(), InterruptError>(
            InterruptError::InvalidInterruptSource,
        ) && final(table).handlers_spec() == old(table).handlers_spec(),
{
    if 1 <= source && source < INTERRUPT_COUNT {
        let idx = source as usize;
        table.handlers.set(idx, Some(handler));
        Ok(())
    } else {
        Err(InterruptError::InvalidInterruptSource)
    }
}

/// Finds the handler of an IRQ, which the caller then invokes.
///
/// # Errors
/// - If the given `irq` is an invalid interrupt source, this function returns
///   [`InvalidInterruptSource`](InterruptError::InvalidInterruptSource).
/// - If no handler is registered for `irq`, this function returns
///   [`InterruptUnhandled`](InterruptError::InterruptUnhandled).
pub fn dispatch_irq<H: Copy>(table: &IrqHandlers<H>, irq: u64) -> (r: Result<H, InterruptError>)
    requires
        table.wf(),
    ensures
        !valid_source(irq) ==> r == Err::<H, InterruptError>(
            InterruptError::InvalidInterruptSource,
        ),
        valid_source(irq) ==> match table.handlers_spec()[irq as int] {
            Some(h) => r == Ok::<H, InterruptError>(h),
            None => r == Err::<H, InterruptError>(InterruptError::InterruptUnhandled),
        },
{
    if 1 <= irq && irq < INTERRUPT_COUNT {
        let idx = irq as usize;
        match table.handlers[idx] {
            Some(h) => Ok(h),
            None => Err(InterruptError::InterruptUnhandled),
        }
    } else {
        Err(InterruptError::InvalidInterruptSource)
    }
}

/// Law: dispatching an IRQ finds the handler last registered for it; registering a handler
/// for one source does not change what any other source dispatches to; an invalid source is
/// refused by both.
pub proof fn lemma_dispatch_after_register<H>(
    before: Seq<Option<H>>,
    source: u64,
    handler: H,
    irq: u64,
)
    requires
        before.len() == INTERRUPT_COUNT,
        valid_source(source),
        valid_source(irq),
    ensures
        irq == source ==> before.update(source as int, Some(handler))[irq as int] == Some(handler),
        irq != source ==> before.update(source as int, Some(handler))[irq as int] == before[irq as int],
{
}

/// The nesting level after entering a critical section, and whether the section must take
/// the global lock (it is the outermost one).
pub open spec fn enter_step(nesting: u64) -> (bool, int) {
    (nesting == 0, nesting + 1)
}

/// The nesting level after leaving a critical section, and whether the section releases the
/// global lock (it was the outermost one).
pub open spec fn leave_step(nesting: u64) -> (bool, int) {
    (nesting == 1, nesting - 1)
}

/// Enters a critical section on the hart whose storage is `hloc`: increments its nesting
/// level, and returns whether the section is the outermost one, which takes the global lock
/// (with interrupts disabled).
pub fn critical_enter(hloc: &mut HartLocal) -> (r: bool)
    requires
        old(hloc).critical_nesting_spec() < u64::MAX,
    ensures
        r == enter_step(old(hloc).critical_nesting_spec()).0,
        r <==> old(hloc).critical_nesting_spec() == 0,
        final(hloc).critical_nesting_spec() == old(hloc).critical_nesting_spec() + 1,
        final(hloc).critical_nesting_spec() == enter_step(old(hloc).critical_nesting_spec()).1,
        final(hloc).hid_spec() == old(hloc).hid_spec(),
        final(hloc).curr_task_spec() == old(hloc).curr_task_spec(),
{
    let ghost h0 = *hloc;
    let nesting = hloc.critical_nesting();
    let outermost = *nesting == 0;
    *nesting = *nesting + 1;
    proof {
        h0.lemma_with(None, (h0.critical_nesting_spec() + 1) as u64);
    }
    outermost
}

/// Leaves a critical section on the hart whose storage is `hloc`: decrements its nesting
/// level, and returns whether the section was the outermost one, which releases the global
/// lock (and re-enables interrupts where they were enabled on entry).
pub fn critical_leave(hloc: &mut HartLocal) -> (r: bool)
    requires
        old(hloc).critical_nesting_spec() > 0,
    ensures
        r == leave_step(old(hloc).critical_nesting_spec()).0,
        r <==> old(hloc).critical_nesting_spec() == 1,
        final(hloc).critical_nesting_spec() == old(hloc).critical_nesting_spec() - 1,
        final(hloc).critical_nesting_spec() == leave_step(old(hloc).critical_nesting_spec()).1,
        final(hloc).hid_spec() == old(hloc).hid_spec(),
        final(hloc).curr_task_spec() == old(hloc).curr_task_spec(),
{
    let ghost h0 = *hloc;
    let nesting = hloc.critical_nesting();
    let prev = *nesting;
    *nesting = prev - 1;
    proof {
        h0.lemma_with(None, (h0.critical_nesting_spec() - 1) as u64);
    }
    prev == 1
}

/// Law: leaving a critical section undoes entering it: the nesting level is back where it
/// was, and the section releases the global lock exactly when it took it.
pub proof fn lemma_critical_balanced(nesting: u64)
    requires
        nesting < u64::MAX,
    ensures
        leave_step((enter_step(nesting).1) as u64).1 == nesting,
        leave_step((enter_step(nesting).1) as u64).0 == enter_step(nesting).0,
{
}

/// Law: only the outermost critical section takes and releases the global lock. Entering takes
/// it exactly when the hart is in no critical section, and leaving releases it exactly when the
/// hart leaves its last one; the nesting level counts the sections entered and not left.
pub proof fn lemma_critical_outermost(nesting: u64)
    ensures
        enter_step(nesting).0 <==> nesting == 0,
        enter_step(nesting).1 == nesting + 1,
        nesting > 0 ==> (leave_step(nesting).0 <==> nesting == 1),
        nesting > 0 ==> leave_step(nesting).1 == nesting - 1,
{
}

/// Law: from outside any critical section, `k` nested entries take the global lock once, at the
/// first, and the `k` matching exits release it once, at the last.
pub proof fn lemma_critical_nested(k: u64, j: u64)
    requires
        1 <= k < u64::MAX,
        j < k,
    ensures
        enter_step(j).0 <==> j == 0,
        leave_step((j + 1) as u64).0 <==> j == 0,
{
}

/// The kinds of interrupts a hart can take.
#[derive(Clone, Copy, PartialEq, Eq, Structural, Debug)]
pub enum InterruptType {
    Timer,
    External,
    Software,
}

/// Which kinds of interrupts are enabled.
#[derive(Clone, Copy, PartialEq, Eq, Structural, Debug)]
pub struct InterruptMask {
    pub timer: bool,
    pub external: bool,
    pub software: bool,
}

impl Default for InterruptMask {
    /// Timer interrupts alone are enabled.
    fn default() -> (r: Self)
        ensures
            r == (InterruptMask { timer: true, external: false, software: false }),
    {
        InterruptMask { timer: true, external: false, software: false }
    }
}

/// The mask with the interrupts of kind `t` enabled or disabled.
pub open spec fn mask_with(m: InterruptMask, t: InterruptType, on: bool) -> InterruptMask {
    match t {
        InterruptType::Timer => InterruptMask { timer: on, ..m },
        InterruptType::External => InterruptMask { external: on, ..m },
        InterruptType::Software => InterruptMask { software: on, ..m },
    }
}

/// Keeps the interrupt enable mask of a hart; the caller writes it to the hart after each
/// change.
pub struct InterruptController {
    mask: InterruptMask,
}

impl InterruptController {
    /// The interrupt enable mask.
    pub closed spec fn mask_spec(&self) -> InterruptMask {
        self.mask
    }

    /// Creates a controller with timer interrupts alone enabled.
    pub fn new() -> (r: Self)
        ensures
            r.mask_spec() == (InterruptMask { timer: true, external: false, software: false }),
    {
        InterruptController { mask: InterruptMask { timer: true, external: false, software: false } }
    }

    /// Enables the interrupts of a kind. Returns the mask to write to the hart.
    pub fn enable(&mut self, interrupt: InterruptType) -> (r: InterruptMask)
        ensures
            final(self).mask_spec() == mask_with(old(self).mask_spec(), interrupt, true),
            r == final(self).mask_spec(),
    {
        match interrupt {
            InterruptType::Timer => self.mask.timer = true,
            InterruptType::External => self.mask.external = true,
            InterruptType::Software => self.mask.software = true,
        }
        self.mask
    }

    /// Disables the interrupts of a kind. Returns the mask to write to the hart.
    pub fn disable(&mut self, interrupt: InterruptType) -> (r: InterruptMask)
        ensures
            final(self).mask_spec() == mask_with(old(self).mask_spec(), interrupt, false),
            r == final(self).mask_spec(),
    {
        match interrupt {
            InterruptType::Timer => self.mask.timer = false,
            InterruptType::External => self.mask.external = false,
            InterruptType::Software => self.mask.software = false,
        }
        self.mask
    }
}

/// Law: disabling a kind of interrupts undoes enabling it where it was disabled, and the two
/// leave the other kinds as they were.
pub proof fn lemma_enable_disable(m: InterruptMask, t: InterruptType, u: InterruptType)
    ensures
        mask_with(m, t, false) == m ==> mask_with(mask_with(m, t, true), t, false) == m,
        mask_with(m, t, true) == m ==> mask_with(mask_with(m, t, false), t, true) == m,
        t != u ==> mask_with(mask_with(m, t, true), u, false) == mask_with(
            mask_with(m, u, false),
            t,
            true,
        ),
{
}

} // verus!

//! The platform-level interrupt controller: its priority numbers, and the registers each of
//! its operations reads or writes. The memory-mapped accesses themselves are the caller's.
use vstd::prelude::*;

use crate::dtnodes::index_views;
use crate::irq::{
    priority_rank, threshold_rank, InterruptPriority, InterruptPriorityThreshold,
};

verus! {

/// The maximum number of PLIC contexts supported by the PLIC specification.
pub const MAX_PLIC_CONTEXT: u64 = 15872;

/// The offset of the interrupt priority registers.
pub const OFFSET_INTERRUPT_PRIORITY: u64 = 0x000000;

/// The offset of the interrupt enable bits.
pub const OFFSET_INTERRUPT_ENABLE: u64 = 0x002000;

/// The offset of the context registers.
pub const OFFSET_INTERRUPT_CONTEXT: u64 = 0x200000;

/// The distance between the registers of two contexts.
pub const STRIDE_INTERRUPT_CONTEXT: u64 = 0x001000;

/// The distance between the enable bits of two contexts (one bit per interrupt number).
pub const CTX_WIDTH: u64 = 128;

/// The size of the memory-mapped region of a PLIC.
pub const PLIC_REGION_SIZE: u64 = 0x400_0000;

/// A hart whose supervisor context the PLIC has.
pub open spec fn valid_hid(hid: u64) -> bool {
    hid < MAX_PLIC_CONTEXT / 2
}

/// The supervisor context of a hart.
pub open spec fn ctx_id_spec(hid: u64) -> int {
    2 * hid + 1
}

/// The priority number of a priority, for a PLIC whose highest priority number is `max`.
pub open spec fn priority_num(max: u32, p: InterruptPriority) -> int {
    match p {
        InterruptPriority::Disabled => 0,
        InterruptPriority::Low => 1,
        InterruptPriority::Medium => (max + 1) / 2,
        InterruptPriority::High => max as int,
    }
}

/// The priority a priority number stands for, if any.
pub open spec fn priority_of_num(max: u32, num: u32) -> Option<InterruptPriority> {
    if num == 0 {
        Some(InterruptPriority::Disabled)
    } else if num == 1 {
        Some(InterruptPriority::Low)
    } else if num == (max + 1) / 2 {
        Some(InterruptPriority::Medium)
    } else if num == max {
        Some(InterruptPriority::High)
    } else {
        None
    }
}

/// The threshold number of a threshold: the priority number of the highest priority it masks.
pub open spec fn threshold_num(max: u32, t: InterruptPriorityThreshold) -> int {
    match t {
        InterruptPriorityThreshold::All => 0,
        InterruptPriorityThreshold::Medium => priority_num(max, InterruptPriority::Low),
        InterruptPriorityThreshold::High => priority_num(max, InterruptPriority::Medium),
        InterruptPriorityThreshold::Disabled => priority_num(max, InterruptPriority::High),
    }
}

/// The threshold a threshold number stands for, if any.
pub open spec fn threshold_of_num(max: u32, num: u32) -> Option<InterruptPriorityThreshold> {
    if num == 0 {
        Some(InterruptPriorityThreshold::All)
    } else if num == priority_num(max, InterruptPriority::Low) {
        Some(InterruptPriorityThreshold::Medium)
    } else if num == priority_num(max, InterruptPriority::Medium) {
        Some(InterruptPriorityThreshold::High)
    } else if num == priority_num(max, InterruptPriority::High) {
        Some(InterruptPriorityThreshold::Disabled)
    } else {
        None
    }
}

/// A PLIC driver: the priority numbers of the interrupt controller.
#[derive(Debug)]
pub struct Plic {
    base_addr: u64,
    max_priority_num: u32,
}

impl Plic {
    /// The base address of the memory-mapped region.
    pub closed spec fn base_spec(&self) -> u64 {
        self.base_addr
    }

    /// The highest priority number the PLIC supports.
    pub closed spec fn max_spec(&self) -> u32 {
        self.max_priority_num
    }

    /// Creates a driver for the PLIC mapped at `base_addr`, whose priority registers hold at
    /// most `max_priority_num` (what a register reads back after all ones are written to it).
    pub fn new(base_addr: u64, max_priority_num: u32) -> (r: Self)
        ensures
            r.base_spec() == base_addr,
            r.max_spec() == max_priority_num,
    {
        Plic { base_addr, max_priority_num }
    }

    /// The priority a priority number stands for, if any.
    pub fn priority_from_num(&self, num: u32) -> (r: Option<InterruptPriority>)
        ensures
            r == priority_of_num(self.max_spec(), num),
    {
        if num == 0 {
            Some(InterruptPriority::Disabled)
        } else if num == 1 {
            Some(InterruptPriority::Low)
        } else if num == self.max_priority_num / 2 + self.max_priority_num % 2 {
            Some(InterruptPriority::Medium)
        } else if num == self.max_priority_num {
            Some(InterruptPriority::High)
        } else {
            None
        }
    }

    /// The priority number of a priority.
    pub fn to_priority_num(&self, priority: InterruptPriority) -> (r: u32)
        ensures
            r == priority_num(self.max_spec(), priority),
    {
        match priority {
            InterruptPriority::Disabled => 0,
            InterruptPriority::Low => 1,
            InterruptPriority::Medium => self.max_priority_num / 2 + self.max_priority_num % 2,
            InterruptPriority::High => self.max_priority_num,
        }
    }

    /// The threshold a threshold number stands for, if any.
    pub fn threshold_from_num(&self, num: u32) -> (r: Option<InterruptPriorityThreshold>)
        ensures
            r == threshold_of_num(self.max_spec(), num),
    {
        if num == 0 {
            Some(InterruptPriorityThreshold::All)
        } else if num == self.to_priority_num(InterruptPriority::Low) {
            Some(InterruptPriorityThreshold::Medium)
        } else if num == self.to_priority_num(InterruptPriority::Medium) {
            Some(InterruptPriorityThreshold::High)
        } else if num == self.to_priority_num(InterruptPriority::High) {
            Some(InterruptPriorityThreshold::Disabled)
        } else {
            None
        }
    }

    /// The threshold number of a threshold.
    pub fn to_threshold_num(&self, threshold: InterruptPriorityThreshold) -> (r: u32)
        ensures
            r == threshold_num(self.max_spec(), threshold),
    {
        match threshold {
            InterruptPriorityThreshold::All => 0,
            InterruptPriorityThreshold::Medium => self.to_priority_num(InterruptPriority::Low),
            InterruptPriorityThreshold::High => self.to_priority_num(InterruptPriority::Medium),
            InterruptPriorityThreshold::Disabled => self.to_priority_num(InterruptPriority::High),
        }
    }

    /// The number written to a priority register for `priority`: its priority number, capped
    /// at the highest one the PLIC supports.
    pub fn priority_register_value(&self, priority: InterruptPriority) -> (r: u32)
        ensures
            r == if priority_num(self.max_spec(), priority) <= self.max_spec() {
                priority_num(self.max_spec(), priority)
            } else {
                self.max_spec() as int
            },
    {
        let n = self.to_priority_num(priority);
        if n < self.max_priority_num {
            n
        } else {
            self.max_priority_num
        }
    }

    /// The threshold number to set while an IRQ whose priority register reads `num` is served:
    /// the threshold that masks its priority and all below, or [`None`] where `num` stands for
    /// no priority.
    pub fn claim_threshold(&self, num: u32) -> (r: Option<u32>)
        ensures
            match priority_of_num(self.max_spec(), num) {
                Some(p) => r == Some(threshold_num(self.max_spec(), mask_from_spec(p)) as u32),
                None => r is None,
            },
    {
        match self.priority_from_num(num) {
            Some(p) => Some(self.to_threshold_num(InterruptPriorityThreshold::mask_from(p))),
            None => None,
        }
    }
}

/// The threshold that masks a priority and all below it.
pub open spec fn mask_from_spec(p: InterruptPriority) -> InterruptPriorityThreshold {
    match p {
        InterruptPriority::Disabled => InterruptPriorityThreshold::All,
        InterruptPriority::Low => InterruptPriorityThreshold::Medium,
        InterruptPriority::Medium => InterruptPriorityThreshold::High,
        InterruptPriority::High => InterruptPriorityThreshold::Disabled,
    }
}

/// Law: on a PLIC with at least three priority numbers, every priority and every threshold
/// reads back from its number, and an interrupt passes the threshold set while another is
/// served exactly when its priority is higher.
pub proof fn lemma_priority_numbers(max: u32, p: InterruptPriority, q: InterruptPriority, t: InterruptPriorityThreshold)
    requires
        max >= 3,
    ensures
        priority_of_num(max, priority_num(max, p) as u32) == Some(p),
        threshold_of_num(max, threshold_num(max, t) as u32) == Some(t),
        (priority_num(max, p) > threshold_num(max, mask_from_spec(q))) <==> (priority_rank(p)
            > priority_rank(q)),
        threshold_rank(mask_from_spec(q)) == priority_rank(q) + 1,
{
}

/// A memory-mapped PLIC: the registers of its interrupt sources and hart contexts.
#[derive(Debug)]
pub struct PlicRegisters {
    base_addr: u64,
    max_priority: u32,
}

/// A source whose registers exist.
pub open spec fn valid_irq_source(source: u16) -> bool {
    1 <= source < 1024
}

/// The address of the priority register of `source`.
pub open spec fn priority_addr(base: u64, source: u16) -> int {
    base + OFFSET_INTERRUPT_PRIORITY + 4 * source
}

/// The address of the word that holds the enable bit of `source` for the context of `hid`.
pub open spec fn enable_addr(base: u64, source: u16, hid: u64) -> int {
    base + OFFSET_INTERRUPT_ENABLE + ctx_id_spec(hid) * CTX_WIDTH + 4 * (source / 32)
}

/// The address of the registers of the context of `hid` (the priority threshold, then the
/// claim and completion register).
pub open spec fn ctx_addr(base: u64, hid: u64) -> int {
    base + OFFSET_INTERRUPT_CONTEXT + ctx_id_spec(hid) * STRIDE_INTERRUPT_CONTEXT
}

/// The enable word `old` with the bit of `source` set or cleared.
pub open spec fn enable_word(old: u32, source: u16, enabled: bool) -> u32 {
    if enabled {
        old | (1u32 << (source % 32) as u32)
    } else {
        old & !(1u32 << (source % 32) as u32)
    }
}

impl PlicRegisters {
    /// The base address of the memory-mapped region.
    pub closed spec fn base_spec(&self) -> u64 {
        self.base_addr
    }

    /// The highest priority the PLIC supports.
    pub closed spec fn max_spec(&self) -> u32 {
        self.max_priority
    }

    /// The memory-mapped region lies within the address space.
    pub closed spec fn wf(&self) -> bool {
        self.base_addr + PLIC_REGION_SIZE <= u64::MAX
    }

    /// Creates a driver for the PLIC mapped at `base_addr`, whose priority registers hold at
    /// most `max_priority`.
    pub fn new(base_addr: u64, max_priority: u32) -> (r: Self)
        requires
            base_addr + PLIC_REGION_SIZE <= u64::MAX,
        ensures
            r.wf(),
            r.base_spec() == base_addr,
            r.max_spec() == max_priority,
    {
        PlicRegisters { base_addr, max_priority }
    }

    /// The context of a hart.
    pub fn plic_ctx_id(hid: u64) -> (r: u64)
        requires
            valid_hid(hid),
        ensures
            r == ctx_id_spec(hid),
    {
        2 * hid + 1
    }

    /// The address of the registers of the context of `hid`.
    pub fn plic_ctx(&self, hid: u64) -> (r: u64)
        requires
            self.wf(),
            valid_hid(hid),
        ensures
            r == ctx_addr(self.base_spec(), hid),
    {
        self.base_addr + OFFSET_INTERRUPT_CONTEXT + Self::plic_ctx_id(hid) * STRIDE_INTERRUPT_CONTEXT
    }

    /// Sets the global priority for an interrupt source: returns the register to write and
    /// the value, `priority` capped at the highest priority the PLIC supports.
    pub fn set_priority(&self, source: u16, priority: u32) -> (r: (u64, u32))
        requires
            self.wf(),
            valid_irq_source(source),
        ensures
            r.0 == priority_addr(self.base_spec(), source),
            r.1 == if priority < self.max_spec() {
                priority
            } else {
                self.max_spec()
            },
    {
        let value = if priority < self.max_priority {
            priority
        } else {
            self.max_priority
        };
        (self.base_addr + OFFSET_INTERRUPT_PRIORITY + 4 * (source as u64), value)
    }

    /// The priority register of `source`.
    pub fn priority_reg(&self, source: u16) -> (r: u64)
        requires
            self.wf(),
            valid_irq_source(source),
        ensures
            r == priority_addr(self.base_spec(), source),
    {
        self.base_addr + OFFSET_INTERRUPT_PRIORITY + 4 * (source as u64)
    }

    /// Enables or disables interrupts from a source for the context of `hid`: returns the
    /// register to write and the value, the register's current value `current` with the bit of
    /// `source` set or cleared.
    pub fn set_enabled(&self, source: u16, hid: u64, current: u32, enabled: bool) -> (r: (u64, u32))
        requires
            self.wf(),
            valid_irq_source(source),
            valid_hid(hid),
        ensures
            r.0 == enable_addr(self.base_spec(), source, hid),
            r.1 == enable_word(current, source, enabled),
    {
        let addr = self.base_addr + OFFSET_INTERRUPT_ENABLE + Self::plic_ctx_id(hid) * CTX_WIDTH + 4
            * ((source / 32) as u64);
        let shift = (source % 32) as u32;
        let value = if enabled {
            current | (1u32 << shift)
        } else {
            current & !(1u32 << shift)
        };
        (addr, value)
    }

    /// Sets the minimum priority for interrupts that can be taken by the context of `hid`:
    /// returns the register to write.
    pub fn set_threshold(&self, hid: u64) -> (r: u64)
        requires
            self.wf(),
            valid_hid(hid),
        ensures
            r == ctx_addr(self.base_spec(), hid),
    {
        self.plic_ctx(hid)
    }

    /// The claim and completion register of the context of `hid`.
    pub fn claim_complete_addr(&self, hid: u64) -> (r: u64)
        requires
            self.wf(),
            valid_hid(hid),
        ensures
            r == ctx_addr(self.base_spec(), hid) + 4,
    {
        self.plic_ctx(hid) + 4
    }
}

/// Law: after the enable bit of a source is set or cleared, it reads back as set or cleared,
/// and the bits of the other sources of the word are kept.
pub proof fn lemma_enable_word(old: u32, source: u16, other: u16, enabled: bool)
    requires
        source / 32 == other / 32,
        source != other,
    ensures
        (enable_word(old, source, enabled) & (1u32 << (source % 32) as u32) != 0) == enabled,
        enable_word(old, source, enabled) & (1u32 << (other % 32) as u32) == old & (1u32 << (other
            % 32) as u32),
{
    let s: u32 = (source % 32) as u32;
    let o: u32 = (other % 32) as u32;
    assert(s < 32 && o < 32 && s != o);
    assert((old | (1u32 << s)) & (1u32 << s) != 0 && (old & !(1u32 << s)) & (1u32 << s) == 0)
        by (bit_vector)
        requires
            s < 32,
    ;
    assert((old | (1u32 << s)) & (1u32 << o) == old & (1u32 << o) && (old & !(1u32 << s)) & (1u32
        << o) == old & (1u32 << o)) by (bit_vector)
        requires
            s < 32,
            o < 32,
            s != o,
    ;
}

/// An IRQ claimed by a hart. The IRQ is disabled for as long as the claim is active, and the
/// claim is completed (its ID written to the claim and completion register) when the interrupt
/// service is done.
#[derive(Debug)]
pub struct PlicIrqClaim {
    hid: u64,
    irq_id: u16,
}

impl PlicIrqClaim {
    /// The hart that claimed the IRQ.
    pub closed spec fn hid_spec(&self) -> u64 {
        self.hid
    }

    /// The ID of the claimed IRQ.
    pub closed spec fn irq_spec(&self) -> u16 {
        self.irq_id
    }

    /// Gets the ID of the interrupt being served.
    pub fn irq_id(&self) -> (r: u16)
        ensures
            r == self.irq_spec(),
    {
        self.irq_id
    }

    /// The hart that claimed the IRQ.
    pub fn hid(&self) -> (r: u64)
        ensures
            r == self.hid_spec(),
    {
        self.hid
    }
}

/// The claim of the hart `hid` whose claim register reads `raw`, or [`None`] where no
/// interrupt is pending (the register reads zero).
pub fn claim_irq(hid: u64, raw: u16) -> (r: Option<PlicIrqClaim>)
    ensures
        raw == 0 ==> r is None,
        raw != 0 ==> (r matches Some(c) && c.hid_spec() == hid && c.irq_spec() == raw),
{
    if raw == 0 {
        None
    } else {
        Some(PlicIrqClaim { hid, irq_id: raw })
    }
}


/// An interrupt being served by a hart: its claim, and the threshold number to restore once
/// the service completes.
#[derive(Debug)]
pub struct Serving {
    claim: PlicIrqClaim,
    saved: u32,
}

impl Serving {
    /// The claim being served.
    pub closed spec fn claim_spec(&self) -> (u64, u16) {
        (self.claim.hid, self.claim.irq_id)
    }

    /// The threshold number to restore.
    pub closed spec fn saved_spec(&self) -> u32 {
        self.saved
    }

    /// The ID of the interrupt being served.
    pub fn irq_id(&self) -> (r: u16)
        ensures
            r == self.claim_spec().1,
    {
        self.claim.irq_id
    }
}

/// The first step of serving an interrupt on the hart `hid`, once its claim register has read
/// `raw`: nothing where no interrupt is pending (`raw` is zero). Otherwise the threshold
/// register of the hart's context and the threshold number to write to it before the handler
/// runs, which masks the priority of the claimed interrupt and all below (`priority` is what its
/// priority register reads), with the service, which keeps `saved` (what the threshold register
/// read before the claim) to restore.
pub fn begin_serve(plic: &Plic, regs: &PlicRegisters, hid: u64, raw: u16, saved: u32, priority: u32) -> (r:
    Option<(u64, u32, Serving)>)
    requires
        regs.wf(),
        valid_hid(hid),
        raw != 0 ==> priority_of_num(plic.max_spec(), priority) is Some,
    ensures
        raw == 0 ==> r is None,
        raw != 0 ==> (r matches Some((addr, t, s)) && addr == ctx_addr(regs.base_spec(), hid) && t
            == threshold_num(plic.max_spec(), mask_from_spec(priority_of_num(plic.max_spec(), priority).unwrap()))
            && s.claim_spec() == (hid, raw) && s.saved_spec() == saved),
{
    match claim_irq(hid, raw) {
        None => None,
        Some(claim) => {
            let t = match plic.claim_threshold(priority) {
                Some(t) => t,
                None => {
                    return None;
                },
            };
            Some((regs.set_threshold(hid), t, Serving { claim, saved }))
        },
    }
}

/// The last step of serving an interrupt, once its handler has run: the claim and completion
/// register to write the interrupt's ID to, the ID, and the threshold register to write the
/// saved threshold number back to, with that number.
pub fn end_serve(regs: &PlicRegisters, s: Serving) -> (r: (u64, u16, u64, u32))
    requires
        regs.wf(),
        valid_hid(s.claim_spec().0),
    ensures
        r.0 == ctx_addr(regs.base_spec(), s.claim_spec().0) + 4,
        r.1 == s.claim_spec().1,
        r.2 == ctx_addr(regs.base_spec(), s.claim_spec().0),
        r.3 == s.saved_spec(),
{
    let hid = s.claim.hid;
    (regs.claim_complete_addr(hid), s.claim.irq_id, regs.set_threshold(hid), s.saved)
}


/// The writes that give each source of `srcs` the priority number `num`, capped at `max`: the
/// source's priority register and the capped number.
pub open spec fn priority_writes(base: u64, max: u32, num: u32, srcs: Seq<u64>) -> Seq<(u64, u32)> {
    srcs.map_values(
        |s: u64|
            (
                (base + OFFSET_INTERRUPT_PRIORITY + 4 * s) as u64,
                if num < max {
                    num
                } else {
                    max
                },
            ),
    )
}

/// The writes that give every source of every node of `ints`, node by node, the priority number
/// `num`, capped at `max`.
pub open spec fn all_priority_writes(base: u64, max: u32, num: u32, ints: Seq<(usize, Seq<u64>)>) -> Seq<
    (u64, u32),
>
    decreases ints.len(),
{
    if ints.len() == 0 {
        Seq::empty()
    } else {
        all_priority_writes(base, max, num, ints.drop_last()) + priority_writes(
            base,
            max,
            num,
            ints.last().1,
        )
    }
}

/// The register writes that give every interrupt source of the nodes in `ints` (as
/// [`crate::dtnodes::all_with_interrupts`] lists them) the low priority, node by node and source
/// by source: each source's priority register and the number of the low priority, capped at the
/// highest priority the PLIC supports.
pub fn low_priority_writes(prio: &Plic, regs: &PlicRegisters, ints: &Vec<(usize, Vec<u64>)>) -> (r: Vec<
    (u64, u32),
>)
    requires
        regs.wf(),
        forall|i: int, j: int|
            0 <= i < ints@.len() && 0 <= j < ints@[i].1@.len() ==> 1 <= #[trigger] ints@[i].1@[j]
                < 1024,
    ensures
        r@ == all_priority_writes(
            regs.base_spec(),
            regs.max_spec(),
            priority_num(prio.max_spec(), InterruptPriority::Low) as u32,
            index_views(ints@),
        ),
{
    let num = prio.to_priority_num(InterruptPriority::Low);
    let ghost base = regs.base_spec();
    let ghost max = regs.max_spec();
    let ghost all = index_views(ints@);
    let mut out: Vec<(u64, u32)> = Vec::new();
    let mut k: usize = 0;
    proof {
        assert(all.subrange(0, 0) =~= Seq::<(usize, Seq<u64>)>::empty());
    }
    while k < ints.len()
        invariant
            regs.wf(),
            base == regs.base_spec(),
            max == regs.max_spec(),
            all == index_views(ints@),
            k <= ints.len(),
            forall|i: int, j: int|
                0 <= i < ints@.len() && 0 <= j < ints@[i].1@.len() ==> 1 <= #[trigger] ints@[i].1@[j]
                    < 1024,
            out@ == all_priority_writes(base, max, num, all.subrange(0, k as int)),
        decreases ints.len() - k,
    {
        let srcs = &ints[k].1;
        let ghost before = out@;
        let mut j: usize = 0;
        proof {
            assert(srcs@.subrange(0, 0) =~= Seq::<u64>::empty());
            assert(before + priority_writes(base, max, num, srcs@.subrange(0, 0)) =~= before);
        }
        while j < srcs.len()
            invariant
                regs.wf(),
                base == regs.base_spec(),
                max == regs.max_spec(),
                j <= srcs.len(),
                srcs@ == ints@[k as int].1@,
                k < ints.len(),
                forall|i: int, j: int|
                    0 <= i < ints@.len() && 0 <= j < ints@[i].1@.len() ==> 1 <= #[trigger] ints@[i].1@[j]
                        < 1024,
                out@ == before + priority_writes(base, max, num, srcs@.subrange(0, j as int)),
            decreases srcs.len() - j,
        {
            let x = srcs[j];
            proof {
                assert(1 <= ints@[k as int].1@[j as int] < 1024);
            }
            let w = regs.set_priority(x as u16, num);
            out.push(w);
            proof {
                assert(srcs@.subrange(0, j as int + 1) =~= srcs@.subrange(0, j as int).push(x));
                assert(priority_writes(base, max, num, srcs@.subrange(0, j as int + 1))
                    =~= priority_writes(base, max, num, srcs@.subrange(0, j as int)).push(w));
            }
            j = j + 1;
        }
        proof {
            let sub = all.subrange(0, k as int + 1);
            assert(sub.drop_last() =~= all.subrange(0, k as int));
            assert(sub.last() == all[k as int]);
            assert(all[k as int].1 == srcs@);
            assert(srcs@.subrange(0, srcs@.len() as int) =~= srcs@);
        }
        k = k + 1;
    }
    proof {
        assert(all.subrange(0, ints@.len() as int) =~= all);
    }
    out
}

} // verus!

//! Tasks, the hart-local storage that holds the running one, and the round-robin scheduler.
use vstd::prelude::*;

use std::collections::VecDeque;

use crate::addr::VAddr;

verus! {

/// The execution state of a task.
#[derive(Clone, Copy, PartialEq, Eq, Structural, Debug)]
pub enum TaskState {
    /// The task waits in the run queue.
    Ready,
    /// The task is being executed by a hart.
    Running,
}

/// The scheduling information of a task.
#[derive(Clone, Copy, PartialEq, Eq, Structural, Debug)]
pub struct TaskControlBlock {
    /// The thread ID of the task.
    pub id: u64,
    /// The execution state of the task.
    pub state: TaskState,
    /// The number of timer ticks the task may still run before it yields.
    pub time_quantum: u64,
}

/// The time quantum given to a task that starts running with none left.
pub const DEFAULT_TIME_QUANTUM: u64 = 5;

/// A task struct representing a runnable thread.
#[derive(Debug)]
pub struct Task {
    context_sp: VAddr,
    kernel_sp: VAddr,
    tcb: TaskControlBlock,
}

impl Task {
    /// The working stack pointer of the task.
    pub closed spec fn context_sp_spec(&self) -> VAddr {
        self.context_sp
    }

    /// The kernel stack pointer of the task.
    pub closed spec fn kernel_sp_spec(&self) -> VAddr {
        self.kernel_sp
    }

    /// The control block of the task.
    pub closed spec fn tcb_spec(&self) -> TaskControlBlock {
        self.tcb
    }

    /// The same task with another control block.
    pub closed spec fn with_tcb(self, tcb: TaskControlBlock) -> Task {
        Task { tcb, ..self }
    }

    /// Replacing the control block keeps the stacks and sets the control block.
    pub proof fn lemma_with_tcb(self, tcb: TaskControlBlock)
        ensures
            self.with_tcb(tcb).tcb_spec() == tcb,
            self.with_tcb(tcb).context_sp_spec() == self.context_sp_spec(),
            self.with_tcb(tcb).kernel_sp_spec() == self.kernel_sp_spec(),
    {
    }

    /// Creates a new task. `context_sp` and `kernel_sp` must point to writable, mapped stack
    /// memory.
    pub fn new(context_sp: VAddr, kernel_sp: VAddr, tcb: TaskControlBlock) -> (r: Self)
        ensures
            r.context_sp_spec() == context_sp,
            r.kernel_sp_spec() == kernel_sp,
            r.tcb_spec() == tcb,
    {
        Task { context_sp, kernel_sp, tcb }
    }

    /// The control block of the task.
    pub fn tcb(&self) -> (r: &TaskControlBlock)
        ensures
            *r == self.tcb_spec(),
    {
        &self.tcb
    }

    /// The control block of the task, to change it.
    pub fn tcb_mut(&mut self) -> (r: &mut TaskControlBlock)
        ensures
            *r == old(self).tcb_spec(),
            *final(self) == old(self).with_tcb(*final(r)),
    {
        &mut self.tcb
    }
}

/// The storage object that is exclusive for each hart.
#[derive(Debug)]
pub struct HartLocal {
    hid: u64,
    scratch: u64,
    trap_stack_top: VAddr,
    curr_task: Option<Task>,
    critical_nesting: u64,
}

impl HartLocal {
    /// The ID of the hart.
    pub closed spec fn hid_spec(&self) -> u64 {
        self.hid
    }

    /// The scratch word that the trap entry uses while it switches stacks.
    pub closed spec fn scratch_spec(&self) -> u64 {
        self.scratch
    }

    /// The top of the trap stack of the hart.
    pub closed spec fn trap_stack_top_spec(&self) -> VAddr {
        self.trap_stack_top
    }

    /// The task being executed by the hart, if any.
    pub closed spec fn curr_task_spec(&self) -> Option<Task> {
        self.curr_task
    }

    /// The nesting level of critical sections by the hart.
    pub closed spec fn critical_nesting_spec(&self) -> u64 {
        self.critical_nesting
    }

    /// The same storage with another current task.
    pub closed spec fn with_curr_task(self, t: Option<Task>) -> HartLocal {
        HartLocal { curr_task: t, ..self }
    }

    /// The same storage with another nesting level.
    pub closed spec fn with_critical_nesting(self, n: u64) -> HartLocal {
        HartLocal { critical_nesting: n, ..self }
    }

    /// Replacing the current task or the nesting level changes that alone.
    pub proof fn lemma_with(self, t: Option<Task>, n: u64)
        ensures
            self.with_curr_task(t).curr_task_spec() == t,
            self.with_curr_task(t).hid_spec() == self.hid_spec(),
            self.with_curr_task(t).critical_nesting_spec() == self.critical_nesting_spec(),
            self.with_curr_task(t).trap_stack_top_spec() == self.trap_stack_top_spec(),
            self.with_curr_task(t).scratch_spec() == self.scratch_spec(),
            self.with_critical_nesting(n).scratch_spec() == self.scratch_spec(),
            self.with_critical_nesting(n).critical_nesting_spec() == n,
            self.with_critical_nesting(n).hid_spec() == self.hid_spec(),
            self.with_critical_nesting(n).curr_task_spec() == self.curr_task_spec(),
    {
    }

    /// Replacing the current task twice keeps the second; replacing it by itself changes
    /// nothing.
    pub proof fn lemma_with_curr_task(self, a: Option<Task>, b: Option<Task>)
        ensures
            self.with_curr_task(a).with_curr_task(b) == self.with_curr_task(b),
            self.with_curr_task(self.curr_task_spec()) == self,
    {
    }

    /// Creates a new hart-local storage object. This does not load it into the hart state.
    pub fn new(hid: u64, tsp: VAddr) -> (r: Self)
        ensures
            r.hid_spec() == hid,
            r.trap_stack_top_spec() == tsp,
            r.curr_task_spec() is None,
            r.critical_nesting_spec() == 0,
            r.scratch_spec() == 0,
    {
        HartLocal { hid, scratch: 0, trap_stack_top: tsp, curr_task: None, critical_nesting: 0 }
    }

    /// The ID of the current hart.
    pub fn hid(&self) -> (r: u64)
        ensures
            r == self.hid_spec(),
    {
        self.hid
    }

    /// The current task being executed by the current hart, if any.
    pub fn curr_task(&mut self) -> (r: Option<&mut Task>)
        ensures
            match old(self).curr_task_spec() {
                None => r is None && *final(self) == *old(self),
                Some(t) => r is Some && *r.unwrap() == t && *final(self) == old(
                    self,
                ).with_curr_task(Some(*final(r.unwrap()))),
            },
    {
        self.curr_task.as_mut()
    }

    /// Takes the current task out of the storage.
    pub fn take_curr_task(&mut self) -> (r: Option<Task>)
        ensures
            r == old(self).curr_task_spec(),
            *final(self) == old(self).with_curr_task(None),
    {
        self.curr_task.take()
    }

    /// Saves a task into the storage, returning the previous one if it exists.
    pub fn set_curr_task(&mut self, task: Task) -> (r: Option<Task>)
        ensures
            r == old(self).curr_task_spec(),
            *final(self) == old(self).with_curr_task(Some(task)),
    {
        let prev = self.curr_task.take();
        self.curr_task = Some(task);
        prev
    }

    /// The nesting level of critical sections by this hart.
    pub fn critical_nesting(&mut self) -> (r: &mut u64)
        ensures
            *r == old(self).critical_nesting_spec(),
            *final(self) == old(self).with_critical_nesting(*final(r)),
    {
        &mut self.critical_nesting
    }
}

/// The control block of a task that starts running: it is marked running, and it gets the
/// default time quantum where it has none left.
pub open spec fn activated(tcb: TaskControlBlock) -> TaskControlBlock {
    TaskControlBlock {
        state: TaskState::Running,
        time_quantum: if tcb.time_quantum == 0 {
            DEFAULT_TIME_QUANTUM
        } else {
            tcb.time_quantum
        },
        ..tcb
    }
}

/// The control block of a task that yields: a running task becomes ready.
pub open spec fn yielded(tcb: TaskControlBlock) -> TaskControlBlock {
    if tcb.state == TaskState::Running {
        TaskControlBlock { state: TaskState::Ready, ..tcb }
    } else {
        tcb
    }
}

/// A task scheduler responsible for managing which and when tasks should be executed.
pub struct Scheduler {
    next_free_id: u64,
    run_queue: VecDeque<Task>,
}

impl Scheduler {
    /// The tasks waiting to run, in the order they will run.
    pub closed spec fn queue_spec(&self) -> Seq<Task> {
        self.run_queue@
    }

    /// The thread ID given to the next enqueued task.
    pub closed spec fn next_id_spec(&self) -> u64 {
        self.next_free_id
    }

    /// Creates a scheduler with an empty run queue.
    pub fn new() -> (r: Self)
        ensures
            r.queue_spec() == Seq::<Task>::empty(),
            r.next_id_spec() == 0,
    {
        Scheduler { next_free_id: 0, run_queue: VecDeque::new() }
    }

    /// Makes a task ready to run: it gets the next thread ID, is marked ready with no time
    /// quantum, and joins the back of the run queue. The task must be enterable, i.e. have an
    /// initialized call stack loaded into its context.
    pub fn enqueue(&mut self, task: Task)
        ensures
            final(self).queue_spec() == old(self).queue_spec().push(
                task.with_tcb(
                    TaskControlBlock {
                        id: old(self).next_id_spec(),
                        state: TaskState::Ready,
                        time_quantum: 0,
                    },
                ),
            ),
            final(self).next_id_spec() == vstd::wrapping::u64_specs::wrapping_add(
                old(self).next_id_spec(),
                1,
            ),
    {
        let mut task = task;
        let next_free_id = self.next_free_id;
        self.next_free_id = next_free_id.wrapping_add(1);
        let tcb = task.tcb_mut();
        tcb.id = next_free_id;
        tcb.state = TaskState::Ready;
        tcb.time_quantum = 0;
        self.run_queue.push_back(task);
    }

    /// Takes the task at the front of the run queue, marks it running and makes it the
    /// current task of the hart.
    fn run_next(&mut self, hloc: &mut HartLocal) -> (r: u64)
        requires
            old(self).queue_spec().len() > 0,
        ensures
            final(self).next_id_spec() == old(self).next_id_spec(),
            final(self).queue_spec() == old(self).queue_spec().drop_first(),
            *final(hloc) == old(hloc).with_curr_task(
                Some(old(self).queue_spec()[0].with_tcb(activated(old(self).queue_spec()[0].tcb_spec()))),
            ),
            r == old(self).queue_spec()[0].tcb_spec().id,
    {
        let next = self.run_queue.pop_front();
        match next {
            Some(next) => {
                let mut next = next;
                let tcb = next.tcb_mut();
                tcb.state = TaskState::Running;
                if tcb.time_quantum == 0 {
                    tcb.time_quantum = DEFAULT_TIME_QUANTUM;
                }
                let id = next.tcb().id;
                hloc.set_curr_task(next);
                id
            },
            None => {
                proof {
                    assert(false);
                }
                0
            },
        }
    }

    /// Yields execution of the current task and switches to the next one: the current task
    /// joins the back of the run queue, and the task at the front becomes the current one.
    /// Returns the thread IDs of the task that yields and of the one that runs next.
    pub fn schedule(&mut self, hloc: &mut HartLocal) -> (r: (u64, u64))
        requires
            old(hloc).curr_task_spec() is Some,
        ensures
            ({
                let curr = old(hloc).curr_task_spec().unwrap();
                let q = old(self).queue_spec().push(curr.with_tcb(yielded(curr.tcb_spec())));
                &&& final(self).queue_spec() == q.drop_first()
                &&& *final(hloc) == old(hloc).with_curr_task(
                    Some(q[0].with_tcb(activated(q[0].tcb_spec()))),
                )
                &&& r == (curr.tcb_spec().id, q[0].tcb_spec().id)
                &&& final(self).next_id_spec() == old(self).next_id_spec()
            }),
    {
        let curr = hloc.take_curr_task();
        match curr {
            Some(curr) => {
                let mut curr = curr;
                let tcb = curr.tcb_mut();
                if tcb.state == TaskState::Running {
                    tcb.state = TaskState::Ready;
                }
                let curr_id = curr.tcb().id;
                self.run_queue.push_back(curr);
                let next_id = self.run_next(hloc);
                proof {
                    old(hloc).lemma_with(None, 0);
                }
                (curr_id, next_id)
            },
            None => {
                proof {
                    assert(false);
                }
                (0, 0)
            },
        }
    }

    /// Starts execution of the scheduler: the task at the front of the run queue becomes the
    /// current one. Returns its thread ID.
    pub fn start(&mut self, hloc: &mut HartLocal) -> (r: u64)
        requires
            old(self).queue_spec().len() > 0,
        ensures
            final(self).queue_spec() == old(self).queue_spec().drop_first(),
            *final(hloc) == old(hloc).with_curr_task(
                Some(old(self).queue_spec()[0].with_tcb(activated(old(self).queue_spec()[0].tcb_spec()))),
            ),
            r == old(self).queue_spec()[0].tcb_spec().id,
    {
        self.run_next(hloc)
    }
}

/// Starts execution of the scheduler `sched` on the hart whose storage is `hloc`, as
/// [`Scheduler::start`] does.
pub fn start(sched: &mut Scheduler, hloc: &mut HartLocal) -> (r: u64)
    requires
        old(sched).queue_spec().len() > 0,
    ensures
        final(sched).queue_spec() == old(sched).queue_spec().drop_first(),
        *final(hloc) == old(hloc).with_curr_task(
            Some(old(sched).queue_spec()[0].with_tcb(activated(old(sched).queue_spec()[0].tcb_spec()))),
        ),
        r == old(sched).queue_spec()[0].tcb_spec().id,
{
    sched.start(hloc)
}

/// Yields the current task of the hart whose storage is `hloc` to the scheduler `sched`, as
/// [`Scheduler::schedule`] does.
pub fn schedule(sched: &mut Scheduler, hloc: &mut HartLocal) -> (r: (u64, u64))
    requires
        old(hloc).curr_task_spec() is Some,
    ensures
        ({
            let curr = old(hloc).curr_task_spec().unwrap();
            let q = old(sched).queue_spec().push(curr.with_tcb(yielded(curr.tcb_spec())));
            &&& final(sched).queue_spec() == q.drop_first()
            &&& *final(hloc) == old(hloc).with_curr_task(
                Some(q[0].with_tcb(activated(q[0].tcb_spec()))),
            )
            &&& r == (curr.tcb_spec().id, q[0].tcb_spec().id)
        }),
{
    sched.schedule(hloc)
}

/// The run queue and the current task after `j` calls of [`Scheduler::schedule`] from the run
/// queue `q` and the current task `c`, as its contract states each call.
pub open spec fn schedule_steps(q: Seq<Task>, c: Task, j: nat) -> (Seq<Task>, Task)
    decreases j,
{
    if j == 0 {
        (q, c)
    } else {
        let (q1, c1) = schedule_steps(q, c, (j - 1) as nat);
        let q2 = q1.push(c1.with_tcb(yielded(c1.tcb_spec())));
        (q2.drop_first(), q2[0].with_tcb(activated(q2[0].tcb_spec())))
    }
}

/// Law: a task that becomes the current one is running and keeps its identity; it keeps the
/// time quantum it has left, and only a task with no quantum left gets the default quantum, so
/// a task that yields early gains no time.
pub proof fn lemma_activation_keeps_quantum(tcb: TaskControlBlock)
    ensures
        activated(tcb).state == TaskState::Running,
        activated(tcb).id == tcb.id,
        tcb.time_quantum != 0 ==> activated(tcb).time_quantum == tcb.time_quantum,
        activated(tcb).time_quantum == DEFAULT_TIME_QUANTUM ==> tcb.time_quantum == 0
            || tcb.time_quantum == DEFAULT_TIME_QUANTUM,
        tcb.time_quantum == 0 ==> activated(tcb).time_quantum == DEFAULT_TIME_QUANTUM,
        activated(tcb).time_quantum > 0,
{
}

/// Law: scheduling is round-robin. The queue keeps its length, and the `j`-th call of
/// [`Scheduler::schedule`] makes the task that was `j`-th in the run queue the current one,
/// for as many calls as the queue holds tasks.
pub proof fn lemma_round_robin(q: Seq<Task>, c: Task, j: nat)
    requires
        j <= q.len(),
    ensures
        schedule_steps(q, c, j).0.len() == q.len(),
        schedule_steps(q, c, j).0.subrange(0, q.len() - j) == q.subrange(j as int, q.len() as int),
        j >= 1 ==> schedule_steps(q, c, j).1 == q[j - 1].with_tcb(activated(q[j - 1].tcb_spec())),
    decreases j,
{
    if j == 0 {
        assert(q.subrange(0, q.len() as int) =~= q);
    } else {
        lemma_round_robin(q, c, (j - 1) as nat);
        let (q1, c1) = schedule_steps(q, c, (j - 1) as nat);
        let q2 = q1.push(c1.with_tcb(yielded(c1.tcb_spec())));
        assert(q1.subrange(0, q.len() - (j - 1)) =~= q.subrange(j - 1, q.len() as int));
        assert(q1[0] == q1.subrange(0, q.len() - (j - 1))[0]);
        assert(q2[0] == q[j - 1]);
        assert(q2.drop_first().subrange(0, q.len() - j) =~= q.subrange(j as int, q.len() as int))
            by {
            assert forall|i: int| 0 <= i < q.len() - j implies q2.drop_first().subrange(
                0,
                q.len() - j,
            )[i] == q.subrange(j as int, q.len() as int)[i] by {
                assert(q2.drop_first()[i] == q2[i + 1]);
                assert(q2[i + 1] == q1[i + 1]);
                assert(q1[i + 1] == q1.subrange(0, q.len() - (j - 1))[i + 1]);
            }
        }
    }
}

} // verus!

use cinnamos_kernel::addr::VAddr;
use cinnamos_kernel::task::{schedule, start, HartLocal, Scheduler, Task, TaskControlBlock, TaskState};

fn task(tag: u64) -> Task {
    Task::new(
        VAddr::new(0x1000 * tag),
        VAddr::new(0x2000 * tag),
        TaskControlBlock { id: 99, state: TaskState::Running, time_quantum: 7 },
    )
}

#[test]
fn enqueue_assigns_fresh_ids_and_resets_the_block() {
    let mut s = Scheduler::new();
    s.enqueue(task(1));
    s.enqueue(task(2));
    let mut h = HartLocal::new(0, VAddr::new(0x9000));
    assert_eq!(s.start(&mut h), 0);
    let t = h.curr_task().unwrap();
    assert_eq!(*t.tcb(), TaskControlBlock { id: 0, state: TaskState::Running, time_quantum: 5 });
}

#[test]
fn schedule_is_round_robin() {
    let mut s = Scheduler::new();
    for i in 1..=3 {
        s.enqueue(task(i));
    }
    let mut h = HartLocal::new(1, VAddr::new(0x9000));
    assert_eq!(start(&mut s, &mut h), 0);
    assert_eq!(schedule(&mut s, &mut h), (0, 1));
    assert_eq!(schedule(&mut s, &mut h), (1, 2));
    assert_eq!(schedule(&mut s, &mut h), (2, 0));
    assert_eq!(h.curr_task().unwrap().tcb().state, TaskState::Running);
}

#[test]
fn a_lone_task_schedules_itself() {
    let mut s = Scheduler::new();
    s.enqueue(task(1));
    let mut h = HartLocal::new(0, VAddr::new(0x9000));
    s.start(&mut h);
    h.curr_task().unwrap().tcb_mut().time_quantum = 0;
    assert_eq!(s.schedule(&mut h), (0, 0));
    assert_eq!(h.curr_task().unwrap().tcb().time_quantum, 5);
}

#[test]
fn hart_local_holds_the_current_task() {
    let mut h = HartLocal::new(3, VAddr::new(0x9000));
    assert_eq!(h.hid(), 3);
    assert!(h.curr_task().is_none());
    assert!(h.set_curr_task(task(1)).is_none());
    let prev = h.set_curr_task(task(2)).unwrap();
    assert_eq!(prev.tcb().id, 99);
    assert!(h.take_curr_task().is_some());
    assert!(h.take_curr_task().is_none());
    *h.critical_nesting() += 2;
    assert_eq!(*h.critical_nesting(), 2);
}

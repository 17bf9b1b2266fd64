use treereduce::error::ReductionError;
use treereduce::id::NodeId;
use treereduce::task::{PrioritizedTask, Reduction, Task};
use treereduce::tasks::{Tasks, WaitEvent, WaitStep};

fn explore(id: usize) -> Task {
    Task::Explore(NodeId { id })
}

fn explored(ptask: &PrioritizedTask) -> usize {
    match &ptask.task {
        Task::Explore(node_id) => node_id.get(),
        _ => panic!("not an exploration"),
    }
}

#[test]
fn an_empty_queue_gives_nothing() {
    let mut tasks = Tasks::new();
    assert_eq!(tasks.len(), 0);
    assert!(tasks.pop().is_none());
    assert_eq!(tasks.first_priority(), None);
    assert_eq!(tasks.take_signals(), 0);
}

#[test]
fn a_lone_task_comes_back() {
    let mut tasks = Tasks::new();
    tasks.push(
        Task::Reduce(Reduction::Replace { node_id: NodeId { id: 7 }, with: "0".to_string() }),
        12,
    );
    let got = tasks.pop().unwrap();
    assert_eq!(got.id.get(), 0);
    assert_eq!(got.priority, 12);
    match got.task {
        Task::Reduce(Reduction::Replace { node_id, with }) => {
            assert_eq!(node_id, NodeId { id: 7 });
            assert_eq!(with, "0");
        }
        _ => panic!("another task came back"),
    }
    assert!(tasks.pop().is_none());
}

#[test]
fn larger_tasks_come_first() {
    let mut tasks = Tasks::new();
    let priorities = [5, 1, 9, 3, 7, 2, 8, 0, 6, 4];
    for (i, priority) in priorities.iter().enumerate() {
        tasks.push(explore(i + 100), *priority);
    }
    assert_eq!(tasks.len(), 10);
    for expected in (0..10).rev() {
        assert_eq!(tasks.first_priority(), Some(expected));
        let got = tasks.pop().unwrap();
        assert_eq!(got.priority, expected);
        // The number tells when the task was queued.
        assert_eq!(priorities[got.id.get()], expected);
        assert_eq!(explored(&got), got.id.get() + 100);
    }
    assert!(tasks.pop().is_none());
}

#[test]
fn the_largest_tasks_can_be_told() {
    let mut tasks = Tasks::new();
    assert!(tasks.first_explore(NodeId { id: 1 }));
    tasks.push(explore(1), 5);
    tasks.push(explore(2), 3);
    assert!(tasks.first_explore(NodeId { id: 1 }));
    assert!(!tasks.first_explore(NodeId { id: 2 }));
    tasks.push(Task::Reduce(Reduction::Delete(NodeId { id: 1 })), 5);
    assert!(!tasks.first_explore(NodeId { id: 1 }));
}

#[test]
fn equal_tasks_all_come_back() {
    let mut tasks = Tasks::new();
    for i in 0..50 {
        tasks.push(explore(i), i % 3);
    }
    let mut seen = vec![false; 50];
    let mut last = usize::MAX;
    while let Some(got) = tasks.pop() {
        assert!(got.priority <= last);
        last = got.priority;
        assert!(!seen[explored(&got)]);
        seen[explored(&got)] = true;
    }
    assert!(seen.iter().all(|s| *s));
}

#[test]
fn pushes_and_pops_can_alternate() {
    let mut tasks = Tasks::new();
    tasks.push(explore(0), 4);
    tasks.push(explore(1), 6);
    assert_eq!(tasks.pop().unwrap().priority, 6);
    tasks.push(explore(2), 5);
    tasks.push(explore(3), 1);
    assert_eq!(tasks.pop().unwrap().priority, 5);
    assert_eq!(tasks.pop().unwrap().priority, 4);
    let last = tasks.pop().unwrap();
    assert_eq!(last.priority, 1);
    assert_eq!(last.id.get(), 3);
}

#[test]
fn a_push_wakes_a_worker_and_a_batch_does_not() {
    let mut tasks = Tasks::new();
    tasks.push(explore(0), 1);
    tasks.push(explore(1), 2);
    assert_eq!(tasks.take_signals(), 2);
    assert_eq!(tasks.take_signals(), 0);
    tasks.push_all(vec![(explore(2), 3), (explore(3), 8)]);
    assert_eq!(tasks.take_signals(), 0);
    assert_eq!(tasks.len(), 4);
    let first = tasks.pop().unwrap();
    assert_eq!(first.priority, 8);
    assert_eq!(first.id.get(), 3);
    assert_eq!(tasks.pop().unwrap().id.get(), 2);
}

#[test]
fn owed_signals_do_not_overflow() {
    let mut tasks = Tasks::new();
    tasks.signal(usize::MAX);
    tasks.signal(3);
    assert_eq!(tasks.take_signals(), usize::MAX);
}

#[test]
fn only_the_worker_with_the_lock_waits() {
    assert!(matches!(Tasks::wait_for_push(WaitEvent::Acquired), Ok(WaitStep::Wait)));
    assert!(matches!(Tasks::wait_for_push(WaitEvent::WouldBlock), Ok(WaitStep::GoOn)));
    assert!(matches!(Tasks::wait_for_push(WaitEvent::Waited), Ok(WaitStep::GoOn)));
    assert!(matches!(
        Tasks::wait_for_push(WaitEvent::Poisoned),
        Err(ReductionError::Poisoned)
    ));
}

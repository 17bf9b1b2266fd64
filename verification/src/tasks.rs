//! The queue of tasks, a binary heap in which a larger priority comes first.
use vstd::multiset::Multiset;
use vstd::prelude::*;

use crate::error::ReductionError;
use crate::id::NodeId;
use crate::task::{PrioritizedTask, PrioritizedTaskView, Task, TaskId, TaskView};

verus! {

/// Tasks that wait to be worked on.
///
/// The heap lies in a vector: the children of the entry at `i` are those at
/// `2 * i + 1` and `2 * i + 2`, and no entry has a larger priority than its
/// parent.
#[derive(Debug)]
pub struct Tasks {
    heap: Vec<PrioritizedTask>,
    task_id: usize,
    signals: usize,
}

/// The mathematical value of [`Tasks`].
#[verifier::ext_equal]
pub struct TasksView {
    /// What is queued.
    pub queued: Multiset<PrioritizedTaskView>,
    /// The number that the next task gets.
    pub next_id: usize,
    /// How often a waiting worker is to be woken.
    pub signals: usize,
}

/// The number after `id`; past the largest number the count starts again at zero.
pub open spec fn id_after(id: usize) -> usize {
    if id == usize::MAX {
        0
    } else {
        (id + 1) as usize
    }
}

/// A count that stays at its largest value instead of overflowing.
pub open spec fn counted(count: int) -> usize {
    if count > usize::MAX {
        usize::MAX
    } else {
        count as usize
    }
}

impl TasksView {
    /// The queue after a task has entered it, with no worker woken.
    pub open spec fn enqueue(self, task: TaskView, priority: usize) -> TasksView {
        TasksView {
            queued: self.queued.insert(
                PrioritizedTaskView { task, id: self.next_id, priority },
            ),
            next_id: id_after(self.next_id),
            signals: self.signals,
        }
    }

    /// The queue with `count` more wake-ups owed.
    pub open spec fn signal(self, count: nat) -> TasksView {
        TasksView { signals: counted(self.signals + count), ..self }
    }

    /// The queue after a task has entered it and a worker has been woken for it.
    pub open spec fn pushed(self, task: TaskView, priority: usize) -> TasksView {
        self.enqueue(task, priority).signal(1)
    }

    /// The queue after all of `tasks` have entered it, first to last, with no
    /// worker woken.
    pub open spec fn enqueue_all(self, tasks: Seq<(TaskView, usize)>) -> TasksView
        decreases tasks.len(),
    {
        if tasks.len() == 0 {
            self
        } else {
            self.enqueue_all(tasks.drop_last()).enqueue(tasks.last().0, tasks.last().1)
        }
    }

    /// Whether `task` is queued and nothing queued has a larger priority.
    pub open spec fn is_first(self, task: PrioritizedTaskView) -> bool {
        &&& self.queued.contains(task)
        &&& forall|other: PrioritizedTaskView| #[trigger]
            self.queued.contains(other) ==> other.priority <= task.priority
    }

    /// The queue without one occurrence of `task`.
    pub open spec fn without(self, task: PrioritizedTaskView) -> TasksView {
        TasksView { queued: self.queued.remove(task), ..self }
    }
}

/// What befell a worker that waits for a push.
#[derive(Clone, Copy, Debug)]
pub enum WaitEvent {
    /// It holds the lock of the push signal.
    Acquired,
    /// Another worker holds the lock.
    WouldBlock,
    /// A worker panicked while it held the lock.
    Poisoned,
    /// It has waited: a push came, or the time ran out.
    Waited,
}

/// What a worker that waits for a push does.
#[derive(Clone, Copy, Debug)]
pub enum WaitStep {
    /// Nothing more.
    GoOn,
    /// Wait for the push signal, for a limited time.
    Wait,
}

/// The values of tasks and priorities.
pub open spec fn queue_items(tasks: Seq<(Task, usize)>) -> Seq<(TaskView, usize)> {
    tasks.map_values(|item: (Task, usize)| (item.0@, item.1))
}

/// The values of the entries of a heap.
pub closed spec fn entries(heap: Seq<PrioritizedTask>) -> Seq<PrioritizedTaskView> {
    heap.map_values(|p: PrioritizedTask| p@)
}

impl View for Tasks {
    type V = TasksView;

    closed spec fn view(&self) -> TasksView {
        TasksView {
            queued: entries(self.heap@).to_multiset(),
            next_id: self.task_id,
            signals: self.signals,
        }
    }
}

/// Where the parent of the entry at `i` lies.
spec fn parent(i: int) -> int {
    (i - 1) / 2
}

/// Whether the entry at `i` has no larger priority than its parent.
spec fn below_parent(heap: Seq<PrioritizedTask>, i: int) -> bool {
    heap[i].priority <= heap[parent(i)].priority
}

/// No entry has a larger priority than its parent.
spec fn is_heap(heap: Seq<PrioritizedTask>) -> bool {
    forall|i: int| 0 < i < heap.len() ==> #[trigger] below_parent(heap, i)
}

/// A heap but for the entry at `hole`, which may be too large for its place.
spec fn is_heap_but_rising(heap: Seq<PrioritizedTask>, hole: int) -> bool {
    &&& forall|i: int| 0 < i < heap.len() && i != hole ==> #[trigger] below_parent(heap, i)
    &&& hole > 0 ==> forall|i: int|
        0 < i < heap.len() && parent(i) == hole ==> (#[trigger] heap[i]).priority
            <= heap[parent(hole)].priority
}

/// A heap but for the entry at `hole`, which may be too small for its place.
spec fn is_heap_but_sinking(heap: Seq<PrioritizedTask>, hole: int) -> bool {
    &&& forall|i: int|
        0 < i < heap.len() && parent(i) != hole ==> #[trigger] below_parent(heap, i)
    &&& hole > 0 ==> forall|i: int|
        0 < i < heap.len() && parent(i) == hole ==> (#[trigger] heap[i]).priority
            <= heap[parent(hole)].priority
}

/// `heap` with the entries at `i` and `j` exchanged.
spec fn exchanged<A>(s: Seq<A>, i: int, j: int) -> Seq<A> {
    s.update(i, s[j]).update(j, s[i])
}

proof fn lemma_update_to_multiset<A>(s: Seq<A>, i: int, a: A)
    requires
        0 <= i < s.len(),
    ensures
        s.update(i, a).to_multiset() == s.to_multiset().remove(s[i]).insert(a),
{
    vstd::seq_lib::to_multiset_remove(s, i);
    vstd::seq_lib::to_multiset_insert(s.remove(i), i, a);
    assert(s.remove(i).insert(i, a) =~= s.update(i, a));
}

/// Exchanging two entries leaves what is queued unchanged.
proof fn lemma_exchanged_entries(heap: Seq<PrioritizedTask>, i: int, j: int)
    requires
        0 <= i < heap.len(),
        0 <= j < heap.len(),
    ensures
        entries(exchanged(heap, i, j)).to_multiset() == entries(heap).to_multiset(),
{
    let s = entries(heap);
    let once = s.update(i, s[j]);
    assert(entries(exchanged(heap, i, j)) =~= once.update(j, s[i]));
    lemma_update_to_multiset(s, i, s[j]);
    lemma_update_to_multiset(once, j, s[i]);
    vstd::seq_lib::to_multiset_contains(s, s[i]);
    assert(s.contains(s[i]));
    assert(once[j] == s[j]);
    assert(once.update(j, s[i]).to_multiset() =~= s.to_multiset());
}

/// The first entry of a heap has the largest priority.
proof fn lemma_first_is_largest(heap: Seq<PrioritizedTask>, i: int)
    requires
        is_heap(heap),
        0 <= i < heap.len(),
    ensures
        heap[i].priority <= heap[0].priority,
    decreases i,
{
    if i > 0 {
        assert(below_parent(heap, i));
        lemma_first_is_largest(heap, parent(i));
    }
}

/// Exchange the entries at `i` and `j`.
fn exchange(heap: &mut Vec<PrioritizedTask>, i: usize, j: usize)
    requires
        i < old(heap).len(),
        j < old(heap).len(),
        i != j,
    ensures
        final(heap)@ == exchanged(old(heap)@, i as int, j as int),
{
    let mut held = PrioritizedTask {
        task: Task::Explore(NodeId { id: 0 }),
        id: TaskId { id: 0 },
        priority: 0,
    };
    std::mem::swap(&mut heap[i], &mut held);
    std::mem::swap(&mut heap[j], &mut held);
    std::mem::swap(&mut heap[i], &mut held);
    assert(heap@ =~= exchanged(old(heap)@, i as int, j as int));
}

/// Let the entry at `start` rise to its place.
fn sift_up(heap: &mut Vec<PrioritizedTask>, start: usize)
    requires
        start < old(heap).len(),
        is_heap_but_rising(old(heap)@, start as int),
    ensures
        is_heap(final(heap)@),
        entries(final(heap)@).to_multiset() == entries(old(heap)@).to_multiset(),
{
    let mut i: usize = start;
    while i > 0
        invariant_except_break
            is_heap_but_rising(heap@, i as int),
        invariant
            i < heap.len(),
            entries(heap@).to_multiset() == entries(old(heap)@).to_multiset(),
        ensures
            is_heap(heap@),
        decreases i,
    {
        let up: usize = (i - 1) / 2;
        if heap[i].priority <= heap[up].priority {
            assert(below_parent(heap@, i as int));
            break;
        }
        let ghost before = heap@;
        exchange(heap, i, up);
        proof {
            lemma_exchanged_entries(before, i as int, up as int);
            assert forall|k: int| 0 < k < heap.len() && k != up implies #[trigger] below_parent(
                heap@,
                k,
            ) by {
                if k != i {
                    assert(below_parent(before, k));
                }
            }
            if up > 0 {
                assert(below_parent(before, up as int));
                assert forall|k: int| 0 < k < heap.len() && parent(k) == up implies (
                #[trigger] heap@[k]).priority <= heap@[parent(up as int)].priority by {
                    assert(below_parent(before, k) || k == i);
                }
            }
        }
        i = up;
    }
}

/// Let the entry at `start` sink to its place.
fn sift_down(heap: &mut Vec<PrioritizedTask>, start: usize)
    requires
        start <= old(heap).len(),
        is_heap_but_sinking(old(heap)@, start as int),
    ensures
        is_heap(final(heap)@),
        entries(final(heap)@).to_multiset() == entries(old(heap)@).to_multiset(),
{
    let mut i: usize = start;
    let len: usize = heap.len();
    loop
        invariant_except_break
            is_heap_but_sinking(heap@, i as int),
        invariant
            i <= len,
            len == heap.len(),
            entries(heap@).to_multiset() == entries(old(heap)@).to_multiset(),
        ensures
            is_heap(heap@),
        decreases len - i,
    {
        if len < 2 || i > (len - 2) / 2 {
            proof {
                assert forall|k: int| 0 < k < len implies #[trigger] below_parent(heap@, k) by {
                    assert(parent(k) != i);
                }
            }
            break;
        }
        let left: usize = 2 * i + 1;
        let mut child: usize = left;
        if left + 1 < len && heap[left].priority < heap[left + 1].priority {
            child = left + 1;
        }
        if heap[child].priority <= heap[i].priority {
            proof {
                assert forall|k: int| 0 < k < len implies #[trigger] below_parent(heap@, k) by {
                    if parent(k) == i {
                        assert(k == left || k == left + 1);
                    }
                }
            }
            break;
        }
        let ghost before = heap@;
        exchange(heap, i, child);
        proof {
            lemma_exchanged_entries(before, i as int, child as int);
            assert forall|k: int| 0 < k < len && parent(k) != child implies #[trigger] below_parent(
                heap@,
                k,
            ) by {
                if parent(k) == i {
                    assert(k == left || k == left + 1);
                } else if k == i {
                    assert(before[child as int].priority <= before[parent(i as int)].priority);
                } else {
                    assert(below_parent(before, k));
                }
            }
            assert forall|k: int| 0 < k < len && parent(k) == child implies (
            #[trigger] heap@[k]).priority <= heap@[parent(child as int)].priority by {
                assert(below_parent(before, k));
            }
        }
        i = child;
    }
}

impl Tasks {
    /// The shape that every operation keeps.
    #[verifier::type_invariant]
    spec fn inv(self) -> bool {
        is_heap(self.heap@)
    }

    /// An empty queue.
    pub fn new() -> (r: Self)
        ensures
            r@ == (TasksView { queued: Multiset::empty(), next_id: 0, signals: 0 }),
    {
        let r = Tasks { heap: Vec::new(), task_id: 0, signals: 0 };
        proof {
            vstd::seq_lib::to_multiset_len(entries(r.heap@));
            vstd::multiset::lemma_multiset_empty_len(r@.queued);
        }
        r
    }

    /// Queue a task under the next number.
    fn enqueue(&mut self, task: Task, priority: usize)
        ensures
            final(self)@ == old(self)@.enqueue(task@, priority),
    {
        proof {
            use_type_invariant(&*self);
        }
        let mut heap: Vec<PrioritizedTask> = Vec::new();
        std::mem::swap(&mut heap, &mut self.heap);
        let ghost before = heap@;
        let ptask = PrioritizedTask { task, id: TaskId { id: self.task_id }, priority };
        let ghost added = ptask@;
        let last: usize = heap.len();
        heap.push(ptask);
        proof {
            assert forall|i: int| 0 < i < heap.len() && i != last implies #[trigger] below_parent(
                heap@,
                i,
            ) by {
                assert(below_parent(before, i));
            }
            assert(entries(heap@) =~= entries(before).push(added));
            vstd::seq_lib::to_multiset_build(entries(before), added);
        }
        sift_up(&mut heap, last);
        self.heap = heap;
        self.task_id = self.task_id.wrapping_add(1);
        assert(self@.queued =~= old(self)@.enqueue(task@, priority).queued);
    }

    /// Queue a task, and wake a worker for it.
    pub fn push(&mut self, task: Task, priority: usize)
        ensures
            final(self)@ == old(self)@.pushed(task@, priority),
    {
        self.enqueue(task, priority);
        self.signal(1);
    }

    /// Ask for `count` more wake-ups.
    pub fn signal(&mut self, count: usize)
        ensures
            final(self)@ == old(self)@.signal(count as nat),
    {
        proof {
            use_type_invariant(&*self);
        }
        self.signals = self.signals.saturating_add(count);
    }

    /// How often the caller is to wake a waiting worker; from here on, none is owed.
    pub fn take_signals(&mut self) -> (r: usize)
        ensures
            r == old(self)@.signals,
            final(self)@ == (TasksView { signals: 0, ..old(self)@ }),
    {
        proof {
            use_type_invariant(&*self);
        }
        let signals: usize = self.signals;
        self.signals = 0;
        signals
    }

    /// Queue tasks in the order in which they are given, each with its priority.
    /// No worker is woken.
    pub fn push_all(&mut self, tasks: Vec<(Task, usize)>)
        ensures
            final(self)@ == old(self)@.enqueue_all(queue_items(tasks@)),
    {
        let ghost all = queue_items(tasks@);
        let ghost given = tasks@;
        assert(all.take(0) =~= Seq::empty());
        for item in iter: tasks
            invariant
                iter.seq() == given,
                all == queue_items(given),
                self@ == old(self)@.enqueue_all(all.take(iter.index())),
        {
            let (task, priority): (Task, usize) = item;
            self.enqueue(task, priority);
            proof {
                let n = iter.index();
                assert(all.take(n + 1).drop_last() =~= all.take(n));
            }
        }
        assert(all.take(all.len() as int) =~= all);
    }

    /// Take a task of the largest priority off the queue.
    ///
    /// Which of several tasks of the largest priority is taken is left open.
    pub fn pop(&mut self) -> (r: Option<PrioritizedTask>)
        ensures
            match r {
                Some(ptask) => {
                    &&& old(self)@.is_first(ptask@)
                    &&& final(self)@ == old(self)@.without(ptask@)
                },
                None => {
                    &&& old(self)@.queued.len() == 0
                    &&& final(self)@ == old(self)@
                },
            },
    {
        proof {
            use_type_invariant(&*self);
            vstd::seq_lib::to_multiset_len(entries(self.heap@));
        }
        if self.heap.len() == 0 {
            return None;
        }
        let mut heap: Vec<PrioritizedTask> = Vec::new();
        std::mem::swap(&mut heap, &mut self.heap);
        let ghost before = heap@;
        let first = heap.swap_remove(0);
        proof {
            let s = entries(before);
            let n = before.len() - 1;
            assert(s[0] == first@);
            assert forall|other: PrioritizedTaskView| #[trigger]
                old(self)@.queued.contains(other) implies other.priority <= first.priority by {
                vstd::seq_lib::to_multiset_contains(s, other);
                let k = choose|k: int| 0 <= k < s.len() && s[k] == other;
                lemma_first_is_largest(before, k);
            }
            vstd::seq_lib::to_multiset_contains(s, first@);
            assert(s.contains(s[0]));
            vstd::seq_lib::to_multiset_remove(s, n);
            if n == 0 {
                assert(entries(heap@) =~= s.remove(0));
            } else {
                assert(entries(heap@) =~= s.remove(n).update(0, s[n]));
                lemma_update_to_multiset(s.remove(n), 0, s[n]);
                assert(s.contains(s[n]));
                vstd::seq_lib::to_multiset_contains(s, s[n]);
                assert(s.remove(n)[0] == s[0]);
                vstd::seq_lib::to_multiset_contains(s.remove(n), s[0]);
                assert(s.remove(n).contains(s.remove(n)[0]));
                assert(entries(heap@).to_multiset() =~= s.to_multiset().remove(s[0]));
            }
            assert forall|i: int| 0 < i < heap.len() && parent(i) != 0 implies #[trigger] below_parent(
                heap@,
                i,
            ) by {
                assert(below_parent(before, i));
            }
        }
        sift_down(&mut heap, 0);
        self.heap = heap;
        Some(first)
    }

    /// The largest priority of the tasks that are queued, if there are any.
    pub fn first_priority(&self) -> (r: Option<usize>)
        ensures
            match r {
                Some(priority) => exists|first: PrioritizedTaskView| #[trigger]
                    self@.is_first(first) && first.priority == priority,
                None => self@.queued.len() == 0,
            },
    {
        proof {
            use_type_invariant(self);
            vstd::seq_lib::to_multiset_len(entries(self.heap@));
        }
        if self.heap.len() == 0 {
            return None;
        }
        let priority: usize = self.heap[0].priority;
        proof {
            let s = entries(self.heap@);
            let first = self.heap[0]@;
            assert(s[0] == first);
            assert(s.contains(s[0]));
            vstd::seq_lib::to_multiset_contains(s, first);
            assert forall|other: PrioritizedTaskView| #[trigger]
                self@.queued.contains(other) implies other.priority <= first.priority by {
                vstd::seq_lib::to_multiset_contains(s, other);
                let k = choose|k: int| 0 <= k < s.len() && s[k] == other;
                lemma_first_is_largest(self.heap@, k);
            }
            assert(self@.is_first(first));
        }
        Some(priority)
    }

    /// Whether the tasks of the largest priority all explore the node `id`.
    pub fn first_explore(&self, id: NodeId) -> (r: bool)
        ensures
            r == forall|first: PrioritizedTaskView| #[trigger]
                self@.is_first(first) ==> first.task == TaskView::Explore(id),
    {
        let largest: usize = match self.first_priority() {
            Some(priority) => priority,
            None => {
                return true;
            },
        };
        let ghost s = entries(self.heap@);
        let ghost top = choose|first: PrioritizedTaskView| #[trigger]
            self@.is_first(first) && first.priority == largest;
        let mut i: usize = 0;
        while i < self.heap.len()
            invariant
                i <= self.heap.len(),
                s == entries(self.heap@),
                self@.is_first(top),
                top.priority == largest,
                forall|k: int|
                    0 <= k < i && (#[trigger] s[k]).priority == largest ==> s[k].task
                        == TaskView::Explore(id),
            decreases self.heap.len() - i,
        {
            let entry = &self.heap[i];
            assert(s[i as int] == entry@);
            let explores = match entry.task {
                Task::Explore(node_id) => node_id == id,
                _ => false,
            };
            if entry.priority == largest && !explores {
                proof {
                    vstd::seq_lib::to_multiset_contains(s, entry@);
                    assert(s.contains(s[i as int]));
                    assert(self@.is_first(entry@));
                }
                return false;
            }
            i = i + 1;
        }
        proof {
            assert forall|first: PrioritizedTaskView| #[trigger]
                self@.is_first(first) implies first.task == TaskView::Explore(id) by {
                vstd::seq_lib::to_multiset_contains(s, first);
                let k = choose|k: int| 0 <= k < s.len() && s[k] == first;
                assert(self@.queued.contains(top));
                assert(s[k].priority == largest);
            }
        }
        true
    }

    /// How many tasks are queued.
    pub fn len(&self) -> (r: usize)
        ensures
            r == self@.queued.len(),
    {
        proof {
            vstd::seq_lib::to_multiset_len(entries(self.heap@));
        }
        self.heap.len()
    }

    /// What a worker that waits for a push is to do.
    ///
    /// Only one worker waits at a time.  One that finds the lock taken goes on
    /// at once.
    pub fn wait_for_push(event: WaitEvent) -> (r: Result<WaitStep, ReductionError>)
        ensures
            r == (match event {
                WaitEvent::WouldBlock | WaitEvent::Waited => Ok(WaitStep::GoOn),
                WaitEvent::Acquired => Ok(WaitStep::Wait),
                WaitEvent::Poisoned => Err(ReductionError::Poisoned),
            }),
    {
        match event {
            WaitEvent::WouldBlock | WaitEvent::Waited => Ok(WaitStep::GoOn),
            WaitEvent::Acquired => Ok(WaitStep::Wait),
            WaitEvent::Poisoned => Err(ReductionError::Poisoned),
        }
    }
}

} // verus!

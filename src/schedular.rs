use std::collections::VecDeque;
use vstd::prelude::*;
use crate::task::{TaskSlot, TaskView, running_count, lemma_running_count_push};

verus! {

/// What a call of the scheduler's poll tells the root executor.
#[derive(Debug, PartialEq, Eq, Structural, Clone, Copy, Hash)]
pub enum SchedularPoll {
    /// Stop polling for this turn and yield to the root executor; more work
    /// is expected soon, so the caller signals its own waker.
    ShouldYield,
    /// No task is alive, so no work could be done.
    Empty,
    /// Tasks are alive but none could make progress.
    Pending,
    /// Some tasks were driven; others are still pending.
    PendingProgress,
}

/// The scheduler: an arena of task slots, the list of live tasks threaded
/// through the slots, the ready queue, the live-task count and the depth of
/// nested polls.
pub struct Schedular {
    tasks: Vec<TaskSlot>,
    queue: VecDeque<usize>,
    all_next: Option<usize>,
    all_prev: Option<usize>,
    len: usize,
    reentrant: usize,
    list: Ghost<Seq<usize>>,
}

/// The abstract state of a scheduler.
pub struct SchedularView {
    /// Every task ever spawned, by index.
    pub tasks: Seq<TaskView>,
    /// The live tasks, in list order (most recently spawned first).
    pub list: Seq<usize>,
    /// The ready queue, front first.
    pub queue: Seq<usize>,
    /// The live-task count.
    pub len: nat,
    /// The depth of nested polls: how many tasks are being driven.
    pub reentrant: nat,
}

impl View for Schedular {
    type V = SchedularView;

    closed spec fn view(&self) -> SchedularView {
        SchedularView {
            tasks: self.tasks@.map_values(|s: TaskSlot| s.view()),
            list: self.list@,
            queue: self.queue@,
            len: self.len as nat,
            reentrant: self.reentrant as nat,
        }
    }
}

/// Owners of a task's storage, as the state accounts them.
pub open spec fn owners(t: TaskView, queue: Seq<usize>, id: usize) -> nat {
    (if !t.done {
        1nat
    } else {
        0nat
    }) + (if queue.contains(id) {
        1nat
    } else {
        0nat
    }) + t.wakers + (if t.running {
        1nat
    } else {
        0nat
    })
}

/// The slot a fresh task starts in: linked, queued, owned by list and queue.
pub open spec fn fresh_task() -> TaskView {
    TaskView { queued: true, running: false, done: false, wakers: 0, refs: 2 }
}

/// A task after its removal from the list of all tasks.
pub open spec fn unlinked(t: TaskView) -> TaskView {
    TaskView { queued: true, done: true, refs: (t.refs - 1) as nat, ..t }
}

/// What the driver of a poll does next.
#[derive(Debug, PartialEq, Eq, Structural, Clone, Copy)]
pub enum PollAction {
    /// The poll is over, with this status.
    Return(SchedularPoll),
    /// Drive the task with this index one step, then report how the step
    /// ended with `Schedular::complete_drive`.
    Drive(usize),
}

/// The counters of one call of poll, from its start until it returns. A
/// nested poll (a drive step that polls the same scheduler again) has a run
/// of its own.
pub struct PollRun {
    started: bool,
    iteration: usize,
    yielded: usize,
    popped_running: usize,
    driving: Option<usize>,
}

/// The abstract state of a poll run.
pub struct PollRunView {
    /// Whether the run has looked at the scheduler yet.
    pub started: bool,
    /// Tasks driven so far.
    pub iteration: nat,
    /// Pending drive steps after which the task was already queued again.
    pub yielded: nat,
    /// Entries popped whose task was being driven further up the stack.
    pub popped_running: nat,
    /// The task handed out to drive, until its step is reported.
    pub driving: Option<usize>,
}

impl View for PollRun {
    type V = PollRunView;

    closed spec fn view(&self) -> PollRunView {
        PollRunView {
            started: self.started,
            iteration: self.iteration as nat,
            yielded: self.yielded as nat,
            popped_running: self.popped_running as nat,
            driving: self.driving,
        }
    }
}

impl PollRun {
    /// The run's invariant.
    pub open spec fn wf(&self) -> bool {
        &&& self@.yielded <= self@.iteration
        &&& self@.driving is Some ==> self@.yielded < self@.iteration
    }

    /// A run that has not started.
    pub fn new() -> (r: Self)
        ensures
            r.wf(),
            r@ == (PollRunView {
                started: false,
                iteration: 0,
                yielded: 0,
                popped_running: 0,
                driving: None,
            }),
    {
        PollRun { started: false, iteration: 0, yielded: 0, popped_running: 0, driving: None }
    }

    /// The task handed out to drive, if its step is not reported yet.
    pub fn driving(&self) -> (r: Option<usize>)
        ensures
            r == self@.driving,
    {
        self.driving
    }

    /// Tasks driven so far in this run.
    pub fn iteration(&self) -> (r: usize)
        ensures
            r == self@.iteration,
    {
        self.iteration
    }
}

/// A task after the scheduler was cleared: finished, its list and queue
/// shares dropped.
pub open spec fn cleared(t: TaskView) -> TaskView {
    TaskView {
        queued: true,
        done: true,
        refs: t.wakers + if t.running {
            1nat
        } else {
            0nat
        },
        ..t
    }
}

/// The status of a run that found nothing more to drive.
pub open spec fn idle_status(iteration: nat) -> SchedularPoll {
    if iteration > 0 {
        SchedularPoll::PendingProgress
    } else {
        SchedularPoll::Pending
    }
}

/// Whether a run must hand control back to the root executor after a
/// pending step: more than two tasks queued themselves again right away, or
/// the run drove more tasks than are alive.
pub open spec fn yield_due(run: PollRunView, len: nat) -> bool {
    run.yielded > 2 || run.iteration > len
}

/// Each of the first `k` entries of the ready queue belongs to a task that
/// is done or being driven: entries a poll passes over.
pub open spec fn skipped(v: SchedularView, k: int) -> bool {
    forall|j: int|
        0 <= j < k ==> #[trigger] v.tasks[v.queue[j] as int].done || v.tasks[v.queue[j] as int].running
}

/// `r` holds entries among the first `k` of the ready queue whose tasks are
/// being driven: those a poll put back at the end of the queue.
pub open spec fn moved_back(v: SchedularView, k: int, r: Seq<usize>) -> bool {
    forall|i: int|
        0 <= i < r.len() ==> v.queue.subrange(0, k).contains(#[trigger] r[i]) && v.tasks[r[i] as int].running
}

proof fn lemma_skipped_next(v: SchedularView, k: int)
    requires
        0 <= k < v.queue.len(),
        skipped(v, k),
        v.tasks[v.queue[k] as int].done || v.tasks[v.queue[k] as int].running,
    ensures
        skipped(v, k + 1),
{
}

/// One step of a poll keeps what the poll promises of every slot but the
/// one it touched, and keeps the queue within the queue it started from.
proof fn lemma_poll_step(s_in: SchedularView, s0: SchedularView, s1: SchedularView, id: usize)
    requires
        s0.tasks.len() == s_in.tasks.len(),
        s1.tasks.len() == s_in.tasks.len(),
        forall|x: int| 0 <= x < s_in.tasks.len() ==> same_flags(#[trigger] s0.tasks[x], s_in.tasks[x]),
        forall|x: int|
            0 <= x < s_in.tasks.len() && !s_in.tasks[x].done ==> #[trigger] s0.tasks[x]
                == s_in.tasks[x],
        forall|x: int| 0 <= x < s_in.tasks.len() && x != id ==> #[trigger] s1.tasks[x] == s0.tasks[x],
    ensures
        forall|x: int|
            0 <= x < s_in.tasks.len() && x != id ==> same_flags(#[trigger] s1.tasks[x], s_in.tasks[x]),
        forall|x: int|
            0 <= x < s_in.tasks.len() && x != id && !s_in.tasks[x].done ==> #[trigger] s1.tasks[x]
                == s_in.tasks[x],
        same_flags(s1.tasks[id as int], s0.tasks[id as int]) ==> forall|x: int|
            0 <= x < s_in.tasks.len() ==> same_flags(#[trigger] s1.tasks[x], s_in.tasks[x]),
        (id < s_in.tasks.len() && s_in.tasks[id as int].done) ==> forall|x: int|
            0 <= x < s_in.tasks.len() && !s_in.tasks[x].done ==> #[trigger] s1.tasks[x]
                == s_in.tasks[x],
        (id < s_in.tasks.len() && s1.tasks[id as int] == s0.tasks[id as int]) ==> forall|x: int|
            0 <= x < s_in.tasks.len() && !s_in.tasks[x].done ==> #[trigger] s1.tasks[x]
                == s_in.tasks[x],
{
    assert forall|x: int| 0 <= x < s_in.tasks.len() && x != id implies same_flags(
        #[trigger] s1.tasks[x],
        s_in.tasks[x],
    ) by {
        assert(same_flags(s0.tasks[x], s_in.tasks[x]));
    }
    if same_flags(s1.tasks[id as int], s0.tasks[id as int]) {
        assert forall|x: int| 0 <= x < s_in.tasks.len() implies same_flags(
            #[trigger] s1.tasks[x],
            s_in.tasks[x],
        ) by {
            assert(same_flags(s0.tasks[x], s_in.tasks[x]));
        }
    }
}

/// Two states of a task that agree on everything but the count of owners.
pub open spec fn same_flags(a: TaskView, b: TaskView) -> bool {
    a.queued == b.queued && a.running == b.running && a.done == b.done && a.wakers == b.wakers
}

/// Popping the front of a queue without duplicates removes exactly that entry.
proof fn lemma_pop_front(q: Seq<usize>)
    requires
        q.len() > 0,
        q.no_duplicates(),
    ensures
        q.subrange(1, q.len() as int).no_duplicates(),
        forall|x: usize| #[trigger]
            q.subrange(1, q.len() as int).contains(x) <==> (q.contains(x) && x != q[0]),
{
    let r = q.subrange(1, q.len() as int);
    assert forall|x: usize| #[trigger] r.contains(x) <==> (q.contains(x) && x != q[0]) by {
        if r.contains(x) {
            let k = choose|k: int| 0 <= k < r.len() && r[k] == x;
            assert(q[k + 1] == x);
        }
        if q.contains(x) && x != q[0] {
            let k = choose|k: int| 0 <= k < q.len() && q[k] == x;
            assert(r[k - 1] == x);
        }
    }
}

/// Pushing an entry that is not in a queue without duplicates adds exactly it.
proof fn lemma_push_back(q: Seq<usize>, v: usize)
    requires
        q.no_duplicates(),
        !q.contains(v),
    ensures
        q.push(v).no_duplicates(),
        forall|x: usize| #[trigger] q.push(v).contains(x) <==> (q.contains(x) || x == v),
{
    let r = q.push(v);
    assert(r[q.len() as int] == v);
    assert forall|x: usize| #[trigger] r.contains(x) <==> (q.contains(x) || x == v) by {
        if r.contains(x) {
            let k = choose|k: int| 0 <= k < r.len() && r[k] == x;
            if k < q.len() {
                assert(q[k] == x);
            }
        }
        if q.contains(x) {
            let k = choose|k: int| 0 <= k < q.len() && q[k] == x;
            assert(r[k] == x);
        }
    }
    assert forall|i: int, j: int| 0 <= i < r.len() && 0 <= j < r.len() && i != j implies r[i]
        != r[j] by {
        if i < q.len() && j < q.len() {
            assert(r[i] == q[i] && r[j] == q[j]);
        } else if i < q.len() {
            assert(r[i] == q[i]);
        } else {
            assert(r[j] == q[j]);
        }
    }
}

impl Schedular {
    /// The invariant survives a change of one slot's flags and counts, and
    /// of the queue's entry for it, when the slot's own accounting holds.
    proof fn lemma_wf_step(s0: &Schedular, s1: &Schedular, id: usize)
        requires
            s0.wf(),
            id < s0.tasks@.len(),
            s1.list@ == s0.list@,
            s1.len == s0.len,
            s1.all_next == s0.all_next,
            s1.all_prev == s0.all_prev,
            s1.tasks@.len() == s0.tasks@.len(),
            forall|j: int| 0 <= j < s0.tasks@.len() && j != id ==> s1.tasks@[j] == s0.tasks@[j],
            s1.tasks@[id as int].next == s0.tasks@[id as int].next,
            s1.tasks@[id as int].prev == s0.tasks@[id as int].prev,
            s1.tasks@[id as int].done == s0.tasks@[id as int].done,
            s1.queue@.no_duplicates(),
            forall|i: int| 0 <= i < s1.queue@.len() ==> #[trigger] s1.queue@[i] < s0.tasks@.len(),
            forall|x: usize| x != id ==> (s1.queue@.contains(x) <==> s0.queue@.contains(x)),
            ({
                let t = s1.tasks@[id as int];
                &&& (!t.done ==> (t.queued <==> s1.queue@.contains(id)))
                &&& (t.done ==> t.queued)
                &&& t.refs == owners(t.view(), s1.queue@, id)
            }),
            s1.reentrant + (if s0.tasks@[id as int].running {
                1int
            } else {
                0int
            }) == s0.reentrant + (if s1.tasks@[id as int].running {
                1int
            } else {
                0int
            }),
        ensures
            s1.wf(),
    {
        let v0 = s0@.tasks;
        assert(s1@.tasks =~= v0.update(id as int, s1.tasks@[id as int].view()));
        crate::task::lemma_running_count_update(v0, id as int, s1.tasks@[id as int].view());
        let l = s0.list@;
        let t = s1.tasks@;
        assert forall|i: int| 0 <= i < l.len() implies #[trigger] t[l[i] as int].next == if i + 1
            < l.len() {
            Some(l[i + 1])
        } else {
            None
        } by {
            assert(s0.tasks@[l[i] as int].next == t[l[i] as int].next);
        }
        assert forall|i: int| 0 <= i < l.len() implies #[trigger] t[l[i] as int].prev == if i
            > 0 {
            Some(l[i - 1])
        } else {
            None
        } by {
            assert(s0.tasks@[l[i] as int].prev == t[l[i] as int].prev);
        }
        assert(s1.links_ok());
        assert forall|x: usize| x < t.len() implies {
            let s = #[trigger] t[x as int];
            &&& (!s.done <==> l.contains(x))
            &&& (!s.done ==> (s.queued <==> s1.queue@.contains(x)))
            &&& (s.done ==> s.queued)
            &&& s.refs == owners(s.view(), s1.queue@, x)
        } by {
            if x != id {
                assert(s0.tasks@[x as int] == t[x as int]);
            }
        }
    }

    pub closed spec fn links_ok(&self) -> bool {
        let l = self.list@;
        let t = self.tasks@;
        &&& forall|i: int|
            0 <= i < l.len() ==> #[trigger] t[l[i] as int].next == if i + 1 < l.len() {
                Some(l[i + 1])
            } else {
                None
            }
        &&& forall|i: int|
            0 <= i < l.len() ==> #[trigger] t[l[i] as int].prev == if i > 0 {
                Some(l[i - 1])
            } else {
                None
            }
    }

    /// The scheduler's invariant.
    pub closed spec fn wf(&self) -> bool {
        &&& self.len == self.list@.len()
        &&& self.shape_ok()
    }

    /// The invariant but for the live-task count agreeing with the list.
    pub closed spec fn shape_ok(&self) -> bool {
        let l = self.list@;
        let t = self.tasks@;
        let q = self.queue@;
        &&& self.len <= t.len()
        &&& l.no_duplicates()
        &&& forall|i: int| 0 <= i < l.len() ==> #[trigger] l[i] < t.len()
        &&& self.all_next == if l.len() == 0 {
            None
        } else {
            Some(l[0])
        }
        &&& self.all_prev == if l.len() == 0 {
            None
        } else {
            Some(l.last())
        }
        &&& self.links_ok()
        &&& q.no_duplicates()
        &&& forall|i: int| 0 <= i < q.len() ==> #[trigger] q[i] < t.len()
        &&& forall|id: usize|
            id < t.len() ==> {
                let s = #[trigger] t[id as int];
                &&& (!s.done <==> l.contains(id))
                &&& (!s.done ==> (s.queued <==> q.contains(id)))
                &&& (s.done ==> s.queued)
                &&& s.refs == owners(s.view(), q, id)
            }
        &&& self.reentrant == running_count(self@.tasks)
    }

    /// Creates a scheduler with no tasks.
    pub fn new() -> (s: Self)
        ensures
            s.wf(),
            s@.tasks.len() == 0,
            s@.list.len() == 0,
            s@.queue.len() == 0,
            s@.len == 0,
            s@.reentrant == 0,
    {
        let s = Schedular {
            tasks: Vec::new(),
            queue: VecDeque::new(),
            all_next: None,
            all_prev: None,
            len: 0,
            reentrant: 0,
            list: Ghost(Seq::empty()),
        };
        assert(s@.tasks =~= Seq::<TaskView>::empty());
        s
    }

    /// Whether no task is alive.
    pub fn is_empty(&self) -> (r: bool)
        requires
            self.wf(),
        ensures
            r == (self@.list.len() == 0),
    {
        self.all_next.is_none()
    }

    /// Appends a fresh slot and links it in front of the list of all tasks;
    /// the list owns the one share of it that exists so far. The live-task
    /// count is left to the caller.
    fn push_task_to_all(&mut self) -> (id: usize)
        requires
            old(self).wf(),
            old(self)@.tasks.len() < usize::MAX,
        ensures
            final(self).shape_ok(),
            final(self)@.len + 1 == final(self)@.list.len(),
            id == old(self)@.tasks.len(),
            final(self)@.tasks == old(self)@.tasks.push(
                TaskView { queued: false, running: false, done: false, wakers: 0, refs: 1 },
            ),
            final(self)@.list == seq![id].add(old(self)@.list),
            final(self)@.queue == old(self)@.queue,
            final(self)@.len == old(self)@.len,
            final(self)@.reentrant == old(self)@.reentrant,
    {
        let ghost old_tasks = self@.tasks;
        let ghost l = self.list@;
        let id = self.tasks.len();
        let slot = TaskSlot {
            queued: false,
            running: false,
            done: false,
            next: self.all_next,
            prev: None,
            wakers: 0,
            refs: 1,
        };
        self.tasks.push(slot);
        if let Some(x) = self.all_next {
            let mut first = self.tasks[x];
            first.prev = Some(id);
            self.tasks.set(x, first);
        }
        self.all_next = Some(id);
        if self.all_prev.is_none() {
            self.all_prev = Some(id);
        }
        self.list = Ghost(seq![id].add(l));
        proof {
            let nl = self.list@;
            let t = self.tasks@;
            assert forall|i: int| 0 <= i < id implies #[trigger] t[i].view() == old(
                self,
            ).tasks@[i].view() && t[i].done == old(self).tasks@[i].done && t[i].queued == old(
                self,
            ).tasks@[i].queued && t[i].refs == old(self).tasks@[i].refs by {}
            assert(self@.tasks =~= old_tasks.push(
                TaskView { queued: false, running: false, done: false, wakers: 0, refs: 1 },
            ));
            lemma_running_count_push(
                old_tasks,
                TaskView { queued: false, running: false, done: false, wakers: 0, refs: 1 },
            );
            assert forall|i: int| 0 <= i < nl.len() implies #[trigger] nl[i] < t.len() by {
                if i > 0 {
                    assert(nl[i] == l[i - 1]);
                }
            }
            assert(nl.no_duplicates()) by {
                assert forall|i: int, j: int|
                    0 <= i < nl.len() && 0 <= j < nl.len() && i != j implies nl[i] != nl[j] by {
                    if i > 0 && j > 0 {
                        assert(nl[i] == l[i - 1]);
                        assert(nl[j] == l[j - 1]);
                    } else if i > 0 {
                        assert(l[i - 1] < id);
                    } else {
                        assert(l[j - 1] < id);
                    }
                }
            }
            assert forall|i: int| 0 <= i < nl.len() implies #[trigger] t[nl[i] as int].next == if i
                + 1 < nl.len() {
                Some(nl[i + 1])
            } else {
                None
            } by {
                if i > 0 {
                    assert(nl[i] == l[i - 1]);
                    assert(old(self).tasks@[l[i - 1] as int].next == if i < l.len() {
                        Some(l[i])
                    } else {
                        None
                    });
                }
            }
            assert forall|i: int| 0 <= i < nl.len() implies #[trigger] t[nl[i] as int].prev == if i
                > 0 {
                Some(nl[i - 1])
            } else {
                None
            } by {
                if i > 1 {
                    assert(nl[i] == l[i - 1]);
                    assert(old(self).tasks@[l[i - 1] as int].prev == Some(l[i - 2]));
                    assert(l[i - 1] != l[0]);
                }
            }
            assert(self.links_ok());
            assert forall|x: usize| x < t.len() implies {
                let s = #[trigger] t[x as int];
                &&& (!s.done <==> nl.contains(x))
                &&& (!s.done ==> (s.queued <==> self.queue@.contains(x)))
                &&& (s.done ==> s.queued)
                &&& s.refs == owners(s.view(), self.queue@, x)
            } by {
                if x < id {
                    let os = old(self).tasks@[x as int];
                    assert(t[x as int].view() == os.view());
                    if l.contains(x) {
                        let k = choose|k: int| 0 <= k < l.len() && l[k] == x;
                        assert(nl[k + 1] == x);
                    }
                    if nl.contains(x) {
                        let k = choose|k: int| 0 <= k < nl.len() && nl[k] == x;
                        assert(k > 0);
                        assert(l[k - 1] == x);
                    }
                } else {
                    assert(nl[0] == x);
                    assert(!self.queue@.contains(x));
                }
            }
        }
        id
    }

    /// Spawns a task: a fresh slot is linked into the list of all tasks and
    /// entered in the ready queue, which own one share of it each. Nothing
    /// is driven here. The caller keeps the computation under the returned
    /// index.
    pub fn push(&mut self) -> (id: usize)
        requires
            old(self).wf(),
            old(self)@.tasks.len() < usize::MAX,
        ensures
            final(self).wf(),
            id == old(self)@.tasks.len(),
            final(self)@.tasks == old(self)@.tasks.push(fresh_task()),
            final(self)@.list == seq![id].add(old(self)@.list),
            final(self)@.queue == old(self)@.queue.push(id),
            final(self)@.len == old(self)@.len + 1,
            final(self)@.reentrant == old(self)@.reentrant,
    {
        let ghost mid_tasks;
        let id = self.push_task_to_all();
        self.len = self.len + 1;
        proof {
            mid_tasks = self@.tasks;
        }
        let mut slot = self.tasks[id];
        slot.queued = true;
        slot.refs = 2;
        self.tasks.set(id, slot);
        let ghost q0 = self.queue@;
        self.queue.push_back(id);
        proof {
            let t = self.tasks@;
            let q = self.queue@;
            assert(self@.tasks =~= mid_tasks.update(id as int, fresh_task()));
            crate::task::lemma_running_count_update(mid_tasks, id as int, fresh_task());
            assert(!q0.contains(id));
            assert(q.no_duplicates()) by {
                assert forall|i: int, j: int|
                    0 <= i < q.len() && 0 <= j < q.len() && i != j implies q[i] != q[j] by {
                    if i < q0.len() && j < q0.len() {
                        assert(q[i] == q0[i] && q[j] == q0[j]);
                    } else if i < q0.len() {
                        assert(q[i] == q0[i]);
                    } else {
                        assert(q[j] == q0[j]);
                    }
                }
            }
            assert forall|i: int| 0 <= i < q.len() implies #[trigger] q[i] < t.len() by {
                if i < q0.len() {
                    assert(q[i] == q0[i]);
                }
            }
            assert forall|x: usize| x < t.len() && x != id implies (#[trigger] q.contains(x)
                <==> q0.contains(x)) by {
                if q.contains(x) {
                    let k = choose|k: int| 0 <= k < q.len() && q[k] == x;
                    assert(q0[k] == x);
                }
                if q0.contains(x) {
                    let k = choose|k: int| 0 <= k < q0.len() && q0[k] == x;
                    assert(q[k] == x);
                }
            }
            assert(q[q0.len() as int] == id);
            assert(self.links_ok()) by {
                let l = self.list@;
                assert forall|i: int| 0 <= i < l.len() implies #[trigger] t[l[i] as int].next
                    == if i + 1 < l.len() {
                    Some(l[i + 1])
                } else {
                    None
                } by {}
                assert forall|i: int| 0 <= i < l.len() implies #[trigger] t[l[i] as int].prev
                    == if i > 0 {
                    Some(l[i - 1])
                } else {
                    None
                } by {}
            }
        }
        id
    }

    /// Removes a task from the list of all tasks. The first removal marks
    /// the task done, which releases its computation (the result says
    /// whether this call did), marks it queued so that no wake-up enters
    /// it again, and drops the list's share. A task already done is left
    /// as it is.
    fn pop_task_all(&mut self, id: usize) -> (released: bool)
        requires
            old(self).wf(),
            id < old(self)@.tasks.len(),
        ensures
            final(self).wf(),
            released == !old(self)@.tasks[id as int].done,
            final(self)@.queue == old(self)@.queue,
            final(self)@.reentrant == old(self)@.reentrant,
            !released ==> final(self)@ == old(self)@,
            released ==> final(self)@.tasks == old(self)@.tasks.update(
                id as int,
                unlinked(old(self)@.tasks[id as int]),
            ),
            released ==> final(self)@.list == old(self)@.list.remove(
                old(self)@.list.index_of(id),
            ),
            released ==> final(self)@.len + 1 == old(self)@.len,
    {
        if self.tasks[id].done {
            return false;
        }
        let ghost t0 = self.tasks@;
        let ghost v0 = self@.tasks;
        let ghost l = self.list@;
        let ghost k = l.index_of(id);
        proof {
            assert(l.contains(id));
            assert(l[k] == id);
            assert(t0[l[k] as int].next == if k + 1 < l.len() { Some(l[k + 1]) } else { None });
            assert(t0[l[k] as int].prev == if k > 0 { Some(l[k - 1]) } else { None });
        }
        let mut slot = self.tasks[id];
        let next = slot.next;
        let prev = slot.prev;
        slot.queued = true;
        slot.done = true;
        slot.refs = slot.refs - 1;
        self.tasks.set(id, slot);
        let ghost t1 = self.tasks@;
        if let Some(n) = next {
            proof {
                assert(l[k + 1] < t0.len());
            }
            let mut ns = self.tasks[n];
            ns.prev = prev;
            self.tasks.set(n, ns);
        } else {
            self.all_prev = prev;
        }
        let ghost t2 = self.tasks@;
        if let Some(p) = prev {
            proof {
                assert(l[k - 1] < t0.len());
            }
            let mut ps = self.tasks[p];
            ps.next = next;
            self.tasks.set(p, ps);
        } else {
            self.all_next = next;
        }
        self.len = self.len - 1;
        self.list = Ghost(l.remove(k));
        proof {
            let nl = self.list@;
            let t = self.tasks@;
            let q = self.queue@;
            let u = unlinked(v0[id as int]);
            assert forall|i: int| 0 <= i < t.len() && i != id implies #[trigger] t[i].view()
                == t0[i].view() by {}
            assert(t[id as int].view() == u);
            assert(self@.tasks =~= v0.update(id as int, u));
            crate::task::lemma_running_count_update(v0, id as int, u);
            assert forall|i: int| 0 <= i < nl.len() implies #[trigger] nl[i] == if i < k {
                l[i]
            } else {
                l[i + 1]
            } by {}
            assert forall|i: int| 0 <= i < nl.len() implies #[trigger] nl[i] < t.len() by {
                if i >= k {
                    assert(nl[i] == l[i + 1]);
                }
            }
            assert(nl.no_duplicates()) by {
                assert forall|i: int, j: int|
                    0 <= i < nl.len() && 0 <= j < nl.len() && i != j implies nl[i] != nl[j] by {
                    let a = if i < k { i } else { i + 1 };
                    let b = if j < k { j } else { j + 1 };
                    assert(nl[i] == l[a] && nl[j] == l[b]);
                }
            }
            assert forall|i: int| 0 <= i < nl.len() implies #[trigger] t[nl[i] as int].next
                == if i + 1 < nl.len() {
                Some(nl[i + 1])
            } else {
                None
            } by {
                let a = if i < k { i } else { i + 1 };
                assert(nl[i] == l[a]);
                assert(l[a] != id);
                assert(t0[l[a] as int].next == if a + 1 < l.len() { Some(l[a + 1]) } else { None });
                if a == k - 1 {
                    if k + 1 < l.len() {
                        assert(nl[i + 1] == l[k + 1]);
                    }
                } else if i + 1 < nl.len() {
                    let b = if i + 1 < k { i + 1 } else { i + 2 };
                    assert(nl[i + 1] == l[b]);
                }
            }
            assert forall|i: int| 0 <= i < nl.len() implies #[trigger] t[nl[i] as int].prev
                == if i > 0 {
                Some(nl[i - 1])
            } else {
                None
            } by {
                let a = if i < k { i } else { i + 1 };
                assert(nl[i] == l[a]);
                assert(l[a] != id);
                assert(t0[l[a] as int].prev == if a > 0 { Some(l[a - 1]) } else { None });
                if a == k + 1 {
                    if k > 0 {
                        assert(nl[i - 1] == l[k - 1]);
                    }
                } else if i > 0 {
                    let b = if i - 1 < k { i - 1 } else { i };
                    assert(nl[i - 1] == l[b]);
                }
            }
            assert(self.links_ok());
            if nl.len() > 0 {
                if k == 0 {
                    assert(nl[0] == l[1]);
                }
                if k == l.len() - 1 {
                    assert(nl.last() == l[k - 1]);
                } else {
                    assert(nl.last() == l.last());
                }
            }
            assert forall|x: usize| x < t.len() implies {
                let s = #[trigger] t[x as int];
                &&& (!s.done <==> nl.contains(x))
                &&& (!s.done ==> (s.queued <==> q.contains(x)))
                &&& (s.done ==> s.queued)
                &&& s.refs == owners(s.view(), q, x)
            } by {
                let s0 = t0[x as int];
                if x != id {
                    assert(t[x as int].view() == s0.view());
                    if l.contains(x) {
                        let j = choose|j: int| 0 <= j < l.len() && l[j] == x;
                        assert(j != k);
                        let i = if j < k { j } else { j - 1 };
                        assert(nl[i] == x);
                    }
                    if nl.contains(x) {
                        let i = choose|i: int| 0 <= i < nl.len() && nl[i] == x;
                        let a = if i < k { i } else { i + 1 };
                        assert(l[a] == x);
                    }
                } else {
                    if nl.contains(x) {
                        let i = choose|i: int| 0 <= i < nl.len() && nl[i] == x;
                        let a = if i < k { i } else { i + 1 };
                        assert(l[a] == x);
                    }
                }
            }
        }
        true
    }

    /// Runs the scheduler's decisions of one poll up to the next drive step.
    /// A run that starts on a scheduler with no live task returns `Empty`
    /// and changes nothing. Otherwise entries are popped from the ready
    /// queue: one of a task already done is dropped; one of a task that is
    /// being driven further up the stack is put back, and once more such
    /// entries were met than polls are nested the run returns; the first
    /// other task is handed out to drive. An empty queue ends the run with
    /// `PendingProgress` when this run drove a task, else `Pending`.
    pub fn poll(&mut self, run: &mut PollRun) -> (r: PollAction)
        requires
            old(self).wf(),
            old(run).wf(),
            old(run)@.driving is None,
            old(run)@.iteration < usize::MAX,
        ensures
            final(self).wf(),
            final(run).wf(),
            final(self)@.list == old(self)@.list,
            final(self)@.len == old(self)@.len,
            final(self)@.tasks.len() == old(self)@.tasks.len(),
            final(run)@.yielded == old(run)@.yielded,
            (r == PollAction::Return(SchedularPoll::Empty)) <==> (!old(run)@.started
                && old(self)@.list.len() == 0),
            r == PollAction::Return(SchedularPoll::Empty) ==> final(self)@ == old(self)@
                && final(run)@ == old(run)@,
            r != PollAction::Return(SchedularPoll::Empty) ==> final(run)@.started
                && final(run)@.popped_running >= old(run)@.popped_running,
            forall|x: usize| #[trigger]
                final(self)@.queue.contains(x) ==> old(self)@.queue.contains(x),
            match r {
                PollAction::Return(p) => {
                    &&& final(run)@.driving is None
                    &&& final(run)@.iteration == old(run)@.iteration
                    &&& final(self)@.reentrant == old(self)@.reentrant
                    &&& p != SchedularPoll::Empty ==> p == idle_status(old(run)@.iteration)
                    &&& p != SchedularPoll::Empty ==> ((final(self)@.queue.len() == 0
                        && skipped(old(self)@, old(self)@.queue.len() as int)) || (
                    final(run)@.popped_running >= final(self)@.reentrant
                        && final(self)@.queue.len() > 0
                        && final(self)@.tasks[final(self)@.queue.last() as int].running))
                    &&& forall|x: int|
                        0 <= x < old(self)@.tasks.len() ==> same_flags(
                            #[trigger] final(self)@.tasks[x],
                            old(self)@.tasks[x],
                        )
                },
                PollAction::Drive(id) => {
                    &&& id < old(self)@.tasks.len()
                    &&& old(self)@.queue.contains(id)
                    &&& exists|k: int, r: Seq<usize>|
                        #![trigger moved_back(old(self)@, k, r)]
                        0 <= k < old(self)@.queue.len() && old(self)@.queue[k] == id && skipped(
                            old(self)@,
                            k,
                        ) && moved_back(old(self)@, k, r) && final(self)@.queue == old(
                            self,
                        )@.queue.subrange(k + 1, old(self)@.queue.len() as int) + r
                    &&& !final(self)@.queue.contains(id)
                    &&& !old(self)@.tasks[id as int].done
                    &&& !old(self)@.tasks[id as int].running
                    &&& final(self)@.tasks[id as int] == (TaskView {
                        queued: false,
                        running: true,
                        ..old(self)@.tasks[id as int]
                    })
                    &&& forall|x: int|
                        0 <= x < old(self)@.tasks.len() && x != id ==> same_flags(
                            #[trigger] final(self)@.tasks[x],
                            old(self)@.tasks[x],
                        )
                    &&& final(run)@.driving == Some(id)
                    &&& final(run)@.iteration == old(run)@.iteration + 1
                    &&& final(self)@.reentrant == old(self)@.reentrant + 1
                },
            },
    {
        if !run.started {
            if self.is_empty() {
                return PollAction::Return(SchedularPoll::Empty);
            }
            run.started = true;
        }
        let ghost s_in = self@;
        let ghost q = s_in.queue;
        let ghost mut k: int = 0;
        let ghost mut r: Seq<usize> = Seq::empty();
        proof {
            assert(self@.queue =~= q.subrange(0, q.len() as int) + r);
        }
        loop
            invariant
                self.wf(),
                run.wf(),
                run.started,
                run.driving is None,
                run@.iteration == old(run)@.iteration,
                run@.yielded == old(run)@.yielded,
                run.iteration < usize::MAX,
                run@.popped_running >= old(run)@.popped_running,
                s_in == old(self)@,
                q == s_in.queue,
                old(run)@.started || s_in.list.len() > 0,
                self.list@ == s_in.list,
                self.len == s_in.len,
                self.reentrant == s_in.reentrant,
                self@.tasks.len() == s_in.tasks.len(),
                forall|x: int|
                    0 <= x < s_in.tasks.len() ==> same_flags(#[trigger] self@.tasks[x], s_in.tasks[x]),
                forall|x: int|
                    0 <= x < s_in.tasks.len() && !s_in.tasks[x].done ==> #[trigger] self@.tasks[x]
                        == s_in.tasks[x],
                forall|x: usize| #[trigger] self@.queue.contains(x) ==> s_in.queue.contains(x),
                0 <= k <= q.len(),
                self@.queue == q.subrange(k, q.len() as int) + r,
                skipped(s_in, k),
                moved_back(s_in, k, r),
            decreases
                (if self.reentrant >= run.popped_running {
                    self.reentrant - run.popped_running
                } else {
                    0
                }),
                self.queue@.len(),
        {
            let ghost s0 = *self;
            let ghost q0 = self.queue@;
            let id = match self.queue.pop_front() {
                None => {
                    proof {
                        assert(q.subrange(k, q.len() as int).len() == 0);
                    }
                    return PollAction::Return(
                        if run.iteration > 0 {
                            SchedularPoll::PendingProgress
                        } else {
                            SchedularPoll::Pending
                        },
                    );
                },
                Some(id) => id,
            };
            let ghost from_front = k < q.len();
            let ghost rest = if from_front {
                q.subrange(k + 1, q.len() as int) + r
            } else {
                r.drop_first()
            };
            proof {
                lemma_pop_front(q0);
                assert(q0[0] < s0.tasks@.len());
                assert(q0.contains(id));
                if from_front {
                    assert(q0[0] == q[k]);
                    assert(self@.queue =~= rest);
                } else {
                    assert(q0 =~= r);
                    assert(self@.queue =~= rest);
                }
            }
            let mut slot = self.tasks[id];
            if slot.done {
                // a leftover entry of a finished task: drop its share
                slot.refs = slot.refs - 1;
                self.tasks.set(id, slot);
                proof {
                    Schedular::lemma_wf_step(&s0, self, id);
                    lemma_poll_step(s_in, s0@, self@, id);
                    assert(same_flags(self@.tasks[id as int], s0@.tasks[id as int]));
                    assert forall|x: usize| #[trigger] self@.queue.contains(x) implies s_in.queue.contains(x) by {
                        assert(q0.subrange(1, q0.len() as int).contains(x));
                        assert(s0@.queue.contains(x));
                    }
                    if from_front {
                        assert(q[k] == id);
                        assert(s_in.tasks[id as int].done);
                        lemma_skipped_next(s_in, k);
                        let r1 = r;
                        assert forall|i: int| 0 <= i < r1.len() implies q.subrange(0, k + 1).contains(
                            #[trigger] r1[i],
                        ) && s_in.tasks[r1[i] as int].running by {
                            assert(q.subrange(0, k).contains(r[i]));
                            let j = choose|j: int| 0 <= j < k && q.subrange(0, k)[j] == r[i];
                            assert(q.subrange(0, k + 1)[j] == r[i]);
                        }
                        k = k + 1;
                        assert(self@.queue =~= q.subrange(k, q.len() as int) + r);
                    } else {
                        let r1 = r.drop_first();
                        assert forall|i: int| 0 <= i < r1.len() implies q.subrange(0, k).contains(
                            #[trigger] r1[i],
                        ) && s_in.tasks[r1[i] as int].running by {
                            assert(r1[i] == r[i + 1]);
                        }
                        r = r1;
                        assert(self@.queue =~= q.subrange(k, q.len() as int) + r);
                    }
                }
                continue;
            }
            if slot.running {
                // met again by a nested poll: keep its place in the queue
                self.queue.push_back(id);
                proof {
                    lemma_push_back(q0.subrange(1, q0.len() as int), id);
                    Schedular::lemma_wf_step(&s0, self, id);
                    lemma_poll_step(s_in, s0@, self@, id);
                    assert forall|x: usize| #[trigger] self@.queue.contains(x) implies s_in.queue.contains(x) by {
                        if x != id {
                            assert(q0.subrange(1, q0.len() as int).contains(x));
                        }
                        assert(s0@.queue.contains(x));
                    }
                    assert(s0.tasks@[id as int].view() == s0@.tasks[id as int]);
                    let r1 = if from_front { r.push(id) } else { r.drop_first().push(id) };
                    let k1 = if from_front { k + 1 } else { k };
                    assert forall|i: int| 0 <= i < r1.len() implies q.subrange(0, k1).contains(
                        #[trigger] r1[i],
                    ) && s_in.tasks[r1[i] as int].running by {
                        if i == r1.len() - 1 {
                            if from_front {
                                assert(q.subrange(0, k1)[k] == id);
                            } else {
                                assert(r[0] == id);
                                assert(q.subrange(0, k).contains(r[0]));
                            }
                        } else if from_front {
                            assert(r1[i] == r[i]);
                            assert(q.subrange(0, k).contains(r[i]));
                            let j = choose|j: int| 0 <= j < k && q.subrange(0, k)[j] == r[i];
                            assert(q.subrange(0, k1)[j] == r[i]);
                        } else {
                            assert(r1[i] == r[i + 1]);
                        }
                    }
                    if from_front {
                        assert(self@.queue =~= q.subrange(k1, q.len() as int) + r1);
                    } else {
                        assert(self@.queue =~= q.subrange(k1, q.len() as int) + r1);
                    }
                    if from_front {
                        assert(q[k] == id);
                        assert(s_in.tasks[id as int].running);
                        lemma_skipped_next(s_in, k);
                    }
                    k = k1;
                    r = r1;
                }
                if run.popped_running >= self.reentrant {
                    proof {
                        assert(self@.queue.last() == id);
                        assert(self.tasks@[id as int].view() == self@.tasks[id as int]);
                    }
                    return PollAction::Return(
                        if run.iteration > 0 {
                            SchedularPoll::PendingProgress
                        } else {
                            SchedularPoll::Pending
                        },
                    );
                }
                run.popped_running = run.popped_running + 1;
                continue;
            }
            proof {
                assert(s0.tasks@[id as int].view() == s0@.tasks[id as int]);
                if !from_front {
                    assert(r[0] == id);
                    assert(s_in.tasks[id as int].running);
                }
            }
            // the queue's share now belongs to the driver
            slot.queued = false;
            slot.running = true;
            let n = self.tasks.len();
            proof {
                assert(s0@.tasks.len() == n);
                assert(!s0@.tasks[id as int].running);
                crate::task::lemma_running_count_bound(s0@.tasks, id as int);
            }
            self.tasks.set(id, slot);
            self.reentrant = self.reentrant + 1;
            proof {
                Schedular::lemma_wf_step(&s0, self, id);
                lemma_poll_step(s_in, s0@, self@, id);
                assert forall|x: usize| #[trigger] self@.queue.contains(x) implies s_in.queue.contains(x) by {
                    assert(q0.subrange(1, q0.len() as int).contains(x));
                    assert(s0@.queue.contains(x));
                }
                assert(s0@.tasks[id as int] == s_in.tasks[id as int]);
                assert(self@.tasks[id as int] == (TaskView {
                    queued: false,
                    running: true,
                    ..s_in.tasks[id as int]
                }));
            }
            run.iteration = run.iteration + 1;
            run.driving = Some(id);
            proof {
                assert(s_in.queue.contains(id)) by {
                    assert(s0@.queue.contains(id));
                }
                assert(!self@.queue.contains(id));
                assert(q[k] == id);
            }
            return PollAction::Drive(id);
        }
    }

    /// Takes back the task that the run handed out, with how its drive step
    /// ended. The driver's share of the task is dropped. A step that
    /// completed removes the task from the list of all tasks (unless it was
    /// removed meanwhile), which releases its computation. After a pending
    /// step the run counts the task as yielded if it is queued again, and
    /// returns `ShouldYield` once more than two tasks yielded or it drove
    /// more tasks than are alive; the caller then signals its waker.
    /// Otherwise the run goes on with `poll`.
    pub fn complete_drive(&mut self, run: &mut PollRun, ready: bool) -> (r: Option<
        SchedularPoll,
    >)
        requires
            old(self).wf(),
            old(run).wf(),
            old(run)@.driving is Some,
            old(run)@.driving->0 < old(self)@.tasks.len(),
            old(self)@.tasks[old(run)@.driving->0 as int].running,
        ensures
            final(self).wf(),
            final(run).wf(),
            final(run)@ == (PollRunView {
                driving: None,
                yielded: final(run)@.yielded,
                ..old(run)@
            }),
            final(self)@.queue == old(self)@.queue,
            final(self)@.reentrant + 1 == old(self)@.reentrant,
            ({
                let id = old(run)@.driving->0;
                let t = old(self)@.tasks[id as int];
                let idle = TaskView { running: false, refs: (t.refs - 1) as nat, ..t };
                if ready && !t.done {
                    &&& final(self)@.tasks == old(self)@.tasks.update(id as int, unlinked(idle))
                    &&& final(self)@.list == old(self)@.list.remove(old(self)@.list.index_of(id))
                    &&& final(self)@.len + 1 == old(self)@.len
                } else {
                    &&& final(self)@.tasks == old(self)@.tasks.update(id as int, idle)
                    &&& final(self)@.list == old(self)@.list
                    &&& final(self)@.len == old(self)@.len
                }
            }),
            ready ==> r is None && final(run)@.yielded == old(run)@.yielded,
            !ready ==> final(run)@.yielded == old(run)@.yielded + (if old(
                self,
            )@.tasks[old(run)@.driving->0 as int].queued {
                1nat
            } else {
                0nat
            }),
            !ready ==> r == if yield_due(final(run)@, final(self)@.len) {
                Some(SchedularPoll::ShouldYield)
            } else {
                None
            },
    {
        let id = run.driving.unwrap();
        run.driving = None;
        let ghost s0 = *self;
        let ghost t = s0@.tasks[id as int];
        proof {
            crate::task::lemma_running_count_pos(s0@.tasks, id as int);
            assert(s0.tasks@[id as int].view() == t);
        }
        let mut slot = self.tasks[id];
        slot.running = false;
        slot.refs = slot.refs - 1;
        self.tasks.set(id, slot);
        self.reentrant = self.reentrant - 1;
        proof {
            Schedular::lemma_wf_step(&s0, self, id);
            assert(self@.tasks =~= s0@.tasks.update(
                id as int,
                TaskView { running: false, refs: (t.refs - 1) as nat, ..t },
            ));
        }
        if ready {
            self.pop_task_all(id);
            return None;
        }
        if slot.queued {
            run.yielded = run.yielded + 1;
        }
        if run.yielded > 2 || run.iteration > self.len {
            Some(SchedularPoll::ShouldYield)
        } else {
            None
        }
    }

    /// Removes every task: each live task is unlinked, which releases its
    /// computation, and the ready queue is drained, dropping the share of
    /// each entry. Returns the tasks whose computations were released, in
    /// list order. Shares held by wake handles and drivers remain.
    pub fn clear(&mut self) -> (released: Vec<usize>)
        requires
            old(self).wf(),
        ensures
            final(self).wf(),
            released@ == old(self)@.list,
            final(self)@.list.len() == 0,
            final(self)@.len == 0,
            final(self)@.queue.len() == 0,
            final(self)@.reentrant == old(self)@.reentrant,
            final(self)@.tasks.len() == old(self)@.tasks.len(),
            forall|x: usize|
                x < old(self)@.tasks.len() ==> #[trigger] final(self)@.tasks[x as int] == cleared(
                    old(self)@.tasks[x as int],
                ),
    {
        let ghost s_in = self@;
        let mut released: Vec<usize> = Vec::new();
        proof {
            assert forall|x: usize| x < s_in.tasks.len() implies #[trigger] self@.tasks[x as int]
                == if !s_in.tasks[x as int].done && !self@.list.contains(x) {
                unlinked(s_in.tasks[x as int])
            } else {
                s_in.tasks[x as int]
            } by {
                assert(self.tasks@[x as int].view() == self@.tasks[x as int]);
            }
        }
        loop
            invariant
                self.wf(),
                self@.queue == s_in.queue,
                self@.reentrant == s_in.reentrant,
                self@.tasks.len() == s_in.tasks.len(),
                released@ + self@.list == s_in.list,
                forall|x: usize|
                    x < s_in.tasks.len() ==> #[trigger] self@.tasks[x as int] == if !s_in.tasks[x as int].done
                        && !self@.list.contains(x) {
                        unlinked(s_in.tasks[x as int])
                    } else {
                        s_in.tasks[x as int]
                    },
            ensures
                self.wf(),
                self@.queue == s_in.queue,
                self@.reentrant == s_in.reentrant,
                self@.tasks.len() == s_in.tasks.len(),
                released@ + self@.list == s_in.list,
                self@.list.len() == 0,
                forall|x: usize|
                    x < s_in.tasks.len() ==> #[trigger] self@.tasks[x as int] == if !s_in.tasks[x as int].done
                        && !self@.list.contains(x) {
                        unlinked(s_in.tasks[x as int])
                    } else {
                        s_in.tasks[x as int]
                    },
            decreases self@.list.len(),
        {
            let c = match self.all_next {
                None => break,
                Some(c) => c,
            };
            let ghost s0 = *self;
            let ghost l = self.list@;
            proof {
                assert(l[0] == c);
                assert(l.index_of(c) == 0) by {
                    assert(l.contains(c));
                    let i = l.index_of(c);
                    assert(l[i] == c);
                }
                assert(c < s0@.tasks.len());
                assert(l.contains(c));
                assert(!s0@.tasks[c as int].done);
            }
            let ghost r0 = released@;
            self.pop_task_all(c);
            released.push(c);
            proof {
                let nl = self@.list;
                assert(nl =~= l.subrange(1, l.len() as int));
                assert(released@ + nl =~= r0 + l);
                assert forall|x: usize| x < s_in.tasks.len() implies #[trigger] self@.tasks[x as int]
                    == if !s_in.tasks[x as int].done && !nl.contains(x) {
                    unlinked(s_in.tasks[x as int])
                } else {
                    s_in.tasks[x as int]
                } by {
                    if x != c {
                        assert(self@.tasks[x as int] == s0@.tasks[x as int]);
                        if l.contains(x) {
                            let j = choose|j: int| 0 <= j < l.len() && l[j] == x;
                            assert(j != 0);
                            assert(nl[j - 1] == x);
                        }
                        if nl.contains(x) {
                            let j = choose|j: int| 0 <= j < nl.len() && nl[j] == x;
                            assert(l[j + 1] == x);
                        }
                    } else {
                        assert(!nl.contains(c)) by {
                            if nl.contains(c) {
                                let j = choose|j: int| 0 <= j < nl.len() && nl[j] == c;
                                assert(l[j + 1] == c);
                            }
                        }
                    }
                }
            }
        }
        let ghost s_mid = self@;
        loop
            invariant
                self.wf(),
                self@.list.len() == 0,
                self@.reentrant == s_in.reentrant,
                self@.tasks.len() == s_in.tasks.len(),
                released@ == s_in.list,
                s_mid.tasks.len() == s_in.tasks.len(),
                forall|x: int|
                    0 <= x < s_in.tasks.len() ==> same_flags(#[trigger] self@.tasks[x], s_mid.tasks[x]),
                forall|x: usize|
                    x < s_in.tasks.len() ==> #[trigger] s_mid.tasks[x as int] == if !s_in.tasks[x as int].done {
                        unlinked(s_in.tasks[x as int])
                    } else {
                        s_in.tasks[x as int]
                    },
            ensures
                self.wf(),
                self@.list.len() == 0,
                self@.queue.len() == 0,
                self@.reentrant == s_in.reentrant,
                self@.tasks.len() == s_in.tasks.len(),
                released@ == s_in.list,
                forall|x: int|
                    0 <= x < s_in.tasks.len() ==> same_flags(#[trigger] self@.tasks[x], s_mid.tasks[x]),
            decreases self@.queue.len(),
        {
            let ghost s0 = *self;
            let ghost q0 = self.queue@;
            match self.queue.pop_front() {
                None => break,
                Some(id) => {
                    proof {
                        lemma_pop_front(q0);
                        assert(q0[0] < s0.tasks@.len());
                        assert(q0.contains(id));
                        assert(s0.tasks@[id as int].done) by {
                            assert(!s0.list@.contains(id));
                        }
                    }
                    let mut slot = self.tasks[id];
                    slot.refs = slot.refs - 1;
                    self.tasks.set(id, slot);
                    proof {
                        Schedular::lemma_wf_step(&s0, self, id);
                        assert forall|x: int| 0 <= x < s_in.tasks.len() implies same_flags(
                            #[trigger] self@.tasks[x],
                            s_mid.tasks[x],
                        ) by {
                            assert(same_flags(self@.tasks[x], s0@.tasks[x]));
                        }
                    }
                },
            }
        }
        proof {
            assert(self@.queue.len() == 0);
            assert forall|x: usize| x < s_in.tasks.len() implies #[trigger] self@.tasks[x as int]
                == cleared(s_in.tasks[x as int]) by {
                assert(same_flags(self@.tasks[x as int], s_mid.tasks[x as int]));
                assert(self.tasks@[x as int].view() == self@.tasks[x as int]);
                assert(!self.queue@.contains(x));
                assert(self.tasks@[x as int].done);
            }
        }
        released
    }

    /// Wakes a task through a handle that stays alive. A task not queued is
    /// marked queued and entered in the ready queue with a new share; a task
    /// already queued (or done) is left as it is, so that however many
    /// wake-ups come, the queue holds it at most once.
    pub fn wake_by_ref(&mut self, id: usize)
        requires
            old(self).wf(),
            id < old(self)@.tasks.len(),
            old(self)@.tasks[id as int].wakers > 0 || old(self)@.tasks[id as int].running,
            old(self)@.tasks[id as int].refs < usize::MAX,
        ensures
            final(self).wf(),
            ({
                let t = old(self)@.tasks[id as int];
                if t.queued {
                    final(self)@ == old(self)@
                } else {
                    &&& final(self)@.tasks == old(self)@.tasks.update(
                        id as int,
                        TaskView { queued: true, refs: t.refs + 1, ..t },
                    )
                    &&& final(self)@.queue == old(self)@.queue.push(id)
                    &&& final(self)@.list == old(self)@.list
                    &&& final(self)@.len == old(self)@.len
                    &&& final(self)@.reentrant == old(self)@.reentrant
                }
            }),
    {
        let mut slot = self.tasks[id];
        if slot.queued {
            return;
        }
        let ghost s0 = *self;
        proof {
            assert(s0.tasks@[id as int].view() == s0@.tasks[id as int]);
            assert(!self.queue@.contains(id));
            lemma_push_back(self.queue@, id);
        }
        slot.queued = true;
        slot.refs = slot.refs + 1;
        self.tasks.set(id, slot);
        self.queue.push_back(id);
        proof {
            Schedular::lemma_wf_step(&s0, self, id);
            assert(self@.tasks =~= s0@.tasks.update(id as int, self.tasks@[id as int].view()));
        }
    }

    /// Wakes a task through a handle that is used up. A task not queued is
    /// marked queued and the handle's share moves into the ready queue; for
    /// a task already queued (or done) the handle's share is dropped.
    pub fn wake(&mut self, id: usize)
        requires
            old(self).wf(),
            id < old(self)@.tasks.len(),
            old(self)@.tasks[id as int].wakers > 0,
        ensures
            final(self).wf(),
            final(self)@.list == old(self)@.list,
            final(self)@.len == old(self)@.len,
            final(self)@.reentrant == old(self)@.reentrant,
            ({
                let t = old(self)@.tasks[id as int];
                if t.queued {
                    &&& final(self)@.tasks == old(self)@.tasks.update(
                        id as int,
                        TaskView { wakers: (t.wakers - 1) as nat, refs: (t.refs - 1) as nat, ..t },
                    )
                    &&& final(self)@.queue == old(self)@.queue
                } else {
                    &&& final(self)@.tasks == old(self)@.tasks.update(
                        id as int,
                        TaskView { queued: true, wakers: (t.wakers - 1) as nat, ..t },
                    )
                    &&& final(self)@.queue == old(self)@.queue.push(id)
                }
            }),
    {
        let ghost s0 = *self;
        let mut slot = self.tasks[id];
        proof {
            assert(s0.tasks@[id as int].view() == s0@.tasks[id as int]);
        }
        slot.wakers = slot.wakers - 1;
        if slot.queued {
            slot.refs = slot.refs - 1;
            self.tasks.set(id, slot);
        } else {
            proof {
                assert(!self.queue@.contains(id));
                lemma_push_back(self.queue@, id);
            }
            slot.queued = true;
            self.tasks.set(id, slot);
            self.queue.push_back(id);
        }
        proof {
            Schedular::lemma_wf_step(&s0, self, id);
            assert(self@.tasks =~= s0@.tasks.update(id as int, self.tasks@[id as int].view()));
        }
    }

    /// Clones a wake handle of a task (or makes one from the handle the
    /// driver holds): one more share of the task.
    pub fn clone_waker(&mut self, id: usize)
        requires
            old(self).wf(),
            id < old(self)@.tasks.len(),
            old(self)@.tasks[id as int].wakers > 0 || old(self)@.tasks[id as int].running,
            old(self)@.tasks[id as int].refs < usize::MAX,
        ensures
            final(self).wf(),
            final(self)@ == (SchedularView {
                tasks: old(self)@.tasks.update(
                    id as int,
                    TaskView {
                        wakers: old(self)@.tasks[id as int].wakers + 1,
                        refs: old(self)@.tasks[id as int].refs + 1,
                        ..old(self)@.tasks[id as int]
                    },
                ),
                ..old(self)@
            }),
    {
        let ghost s0 = *self;
        let mut slot = self.tasks[id];
        proof {
            assert(s0.tasks@[id as int].view() == s0@.tasks[id as int]);
        }
        slot.wakers = slot.wakers + 1;
        slot.refs = slot.refs + 1;
        self.tasks.set(id, slot);
        proof {
            Schedular::lemma_wf_step(&s0, self, id);
            assert(self@.tasks =~= s0@.tasks.update(id as int, self.tasks@[id as int].view()));
        }
    }

    /// Drops a wake handle of a task, and with it one share of the task.
    pub fn drop_waker(&mut self, id: usize)
        requires
            old(self).wf(),
            id < old(self)@.tasks.len(),
            old(self)@.tasks[id as int].wakers > 0,
        ensures
            final(self).wf(),
            final(self)@ == (SchedularView {
                tasks: old(self)@.tasks.update(
                    id as int,
                    TaskView {
                        wakers: (old(self)@.tasks[id as int].wakers - 1) as nat,
                        refs: (old(self)@.tasks[id as int].refs - 1) as nat,
                        ..old(self)@.tasks[id as int]
                    },
                ),
                ..old(self)@
            }),
    {
        let ghost s0 = *self;
        let mut slot = self.tasks[id];
        proof {
            assert(s0.tasks@[id as int].view() == s0@.tasks[id as int]);
        }
        slot.wakers = slot.wakers - 1;
        slot.refs = slot.refs - 1;
        self.tasks.set(id, slot);
        proof {
            Schedular::lemma_wf_step(&s0, self, id);
            assert(self@.tasks =~= s0@.tasks.update(id as int, self.tasks@[id as int].view()));
        }
    }

    /// The live-task count equals the number of tasks in the list of all
    /// tasks, and a task is in that list exactly while it is not done.
    pub proof fn lemma_live_count(s: &Schedular)
        requires
            s.wf(),
        ensures
            s@.len == s@.list.len(),
            s@.list.no_duplicates(),
            forall|id: usize|
                id < s@.tasks.len() ==> (!#[trigger] s@.tasks[id as int].done <==> s@.list.contains(
                    id,
                )),
    {
        assert forall|id: usize| id < s@.tasks.len() implies (!#[trigger] s@.tasks[id as int].done
            <==> s@.list.contains(id)) by {
            assert(s.tasks@[id as int].view() == s@.tasks[id as int]);
        }
    }

    /// A task's storage has as many owners as hold it: the list while it is
    /// alive, the ready queue while an entry for it is there, each wake
    /// handle, and the driver while it runs. So the count is never zero while
    /// one of them holds it, and is zero once none does.
    pub proof fn lemma_shares(s: &Schedular)
        requires
            s.wf(),
        ensures
            forall|id: usize|
                id < s@.tasks.len() ==> (#[trigger] s@.tasks[id as int]).refs == owners(
                    s@.tasks[id as int],
                    s@.queue,
                    id,
                ),
            forall|id: usize|
                id < s@.tasks.len() ==> ((#[trigger] s@.tasks[id as int]).refs == 0 <==> (
                !s@.list.contains(id) && !s@.queue.contains(id) && s@.tasks[id as int].wakers == 0
                    && !s@.tasks[id as int].running)),
    {
        assert forall|id: usize| id < s@.tasks.len() implies (#[trigger] s@.tasks[id as int]).refs
            == owners(s@.tasks[id as int], s@.queue, id) && (s@.tasks[id as int].refs == 0 <==> (
        !s@.list.contains(id) && !s@.queue.contains(id) && s@.tasks[id as int].wakers == 0
            && !s@.tasks[id as int].running)) by {
            assert(s.tasks@[id as int].view() == s@.tasks[id as int]);
        }
    }

    /// The ready queue holds each task at most once, and a live task is in
    /// it exactly while it is marked queued; a task done is marked queued for
    /// good, so no wake-up enters it again.
    pub proof fn lemma_queued_once(s: &Schedular)
        requires
            s.wf(),
        ensures
            s@.queue.no_duplicates(),
            forall|i: int| 0 <= i < s@.queue.len() ==> #[trigger] s@.queue[i] < s@.tasks.len(),
            forall|id: usize|
                id < s@.tasks.len() ==> {
                    let t = #[trigger] s@.tasks[id as int];
                    &&& !t.done ==> (t.queued <==> s@.queue.contains(id))
                    &&& t.done ==> t.queued
                },
    {
        assert forall|id: usize| id < s@.tasks.len() implies {
            let t = #[trigger] s@.tasks[id as int];
            &&& !t.done ==> (t.queued <==> s@.queue.contains(id))
            &&& t.done ==> t.queued
        } by {
            assert(s.tasks@[id as int].view() == s@.tasks[id as int]);
        }
    }

    /// The depth of nested polls is the number of tasks being driven, and
    /// a task being driven is alive or was finished during its step.
    pub proof fn lemma_nesting(s: &Schedular)
        requires
            s.wf(),
        ensures
            s@.reentrant == running_count(s@.tasks),
    {
    }

    /// A run is never told to go on after more than two drive steps that
    /// each left their task queued again, nor after more steps than there
    /// are live tasks: a run whose steps all re-queued their task, and which
    /// may go on, has driven at most two tasks.
    pub proof fn lemma_self_waking_bound(run: PollRunView, len: nat)
        requires
            run.yielded == run.iteration,
            !yield_due(run, len),
        ensures
            run.iteration <= 2,
            run.iteration <= len,
    {
    }

    /// The live-task count.
    pub fn len(&self) -> (r: usize)
        requires
            self.wf(),
        ensures
            r == self@.len,
            r == self@.list.len(),
    {
        self.len
    }

    /// The number of tasks ever spawned, which bounds the task indices.
    pub fn task_count(&self) -> (r: usize)
        ensures
            r == self@.tasks.len(),
    {
        self.tasks.len()
    }

    /// The depth of nested polls.
    pub fn reentrant(&self) -> (r: usize)
        ensures
            r == self@.reentrant,
    {
        self.reentrant
    }

    /// The number of entries in the ready queue.
    pub fn queue_len(&self) -> (r: usize)
        ensures
            r == self@.queue.len(),
    {
        self.queue.len()
    }

    /// Whether the task is marked queued.
    pub fn is_queued(&self, id: usize) -> (r: bool)
        requires
            id < self@.tasks.len(),
        ensures
            r == self@.tasks[id as int].queued,
    {
        self.tasks[id].queued
    }

    /// Whether the task is being driven.
    pub fn is_running(&self, id: usize) -> (r: bool)
        requires
            id < self@.tasks.len(),
        ensures
            r == self@.tasks[id as int].running,
    {
        self.tasks[id].running
    }

    /// Whether the task is done: finished or removed, its computation released.
    pub fn is_done(&self, id: usize) -> (r: bool)
        requires
            id < self@.tasks.len(),
        ensures
            r == self@.tasks[id as int].done,
    {
        self.tasks[id].done
    }

    /// The number of live wake handles of the task.
    pub fn waker_count(&self, id: usize) -> (r: usize)
        requires
            id < self@.tasks.len(),
        ensures
            r == self@.tasks[id as int].wakers,
    {
        self.tasks[id].wakers
    }

    /// The number of owners of the task's storage.
    pub fn ref_count(&self, id: usize) -> (r: usize)
        requires
            id < self@.tasks.len(),
        ensures
            r == self@.tasks[id as int].refs,
    {
        self.tasks[id].refs
    }

    /// Whether the task's storage is released: no owner holds it.
    pub fn is_released(&self, id: usize) -> (r: bool)
        requires
            id < self@.tasks.len(),
        ensures
            r == (self@.tasks[id as int].refs == 0),
    {
        self.tasks[id].refs == 0
    }
}

} // verus!

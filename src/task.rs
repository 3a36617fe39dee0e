use vstd::prelude::*;

verus! {

/// Bookkeeping of one spawned task: its flags, its links in the all-tasks
/// list and the shares of its storage that are alive.
#[derive(Clone, Copy)]
pub(crate) struct TaskSlot {
    pub(crate) queued: bool,
    pub(crate) running: bool,
    pub(crate) done: bool,
    pub(crate) next: Option<usize>,
    pub(crate) prev: Option<usize>,
    /// Live wake handles, the one held while driving not included.
    pub(crate) wakers: usize,
    /// Owners of the task's storage: list, queue entry, wake handles, driver.
    pub(crate) refs: usize,
}

/// What a task looks like from outside the scheduler.
pub struct TaskView {
    pub queued: bool,
    pub running: bool,
    pub done: bool,
    pub wakers: nat,
    pub refs: nat,
}

impl TaskSlot {
    pub(crate) open spec fn view(&self) -> TaskView {
        TaskView {
            queued: self.queued,
            running: self.running,
            done: self.done,
            wakers: self.wakers as nat,
            refs: self.refs as nat,
        }
    }
}

/// Number of slots of `s` whose task is being driven.
pub open spec fn running_count(s: Seq<TaskView>) -> nat
    decreases s.len(),
{
    if s.len() == 0 {
        0
    } else {
        running_count(s.drop_last()) + if s.last().running {
            1nat
        } else {
            0nat
        }
    }
}

/// Changing one slot changes the count only by its own `running` flag.
pub proof fn lemma_running_count_update(s: Seq<TaskView>, i: int, t: TaskView)
    requires
        0 <= i < s.len(),
    ensures
        running_count(s.update(i, t)) + (if s[i].running {
            1int
        } else {
            0int
        }) == running_count(s) + (if t.running {
            1int
        } else {
            0int
        }),
    decreases s.len(),
{
    let u = s.update(i, t);
    if i == s.len() - 1 {
        assert(u.drop_last() =~= s.drop_last());
    } else {
        assert(u.drop_last() =~= s.drop_last().update(i, t));
        lemma_running_count_update(s.drop_last(), i, t);
    }
}

/// A running slot is counted.
pub proof fn lemma_running_count_pos(s: Seq<TaskView>, i: int)
    requires
        0 <= i < s.len(),
        s[i].running,
    ensures
        running_count(s) >= 1,
    decreases s.len(),
{
    if i < s.len() - 1 {
        lemma_running_count_pos(s.drop_last(), i);
    }
}

/// The count never exceeds the slots, and falls short of them while one
/// slot is idle.
pub proof fn lemma_running_count_bound(s: Seq<TaskView>, i: int)
    requires
        0 <= i < s.len(),
        !s[i].running,
    ensures
        running_count(s) < s.len(),
    decreases s.len(),
{
    if i < s.len() - 1 {
        lemma_running_count_bound(s.drop_last(), i);
    } else {
        lemma_running_count_le(s.drop_last());
    }
}

proof fn lemma_running_count_le(s: Seq<TaskView>)
    ensures
        running_count(s) <= s.len(),
    decreases s.len(),
{
    if s.len() > 0 {
        lemma_running_count_le(s.drop_last());
    }
}

/// Appending an idle slot leaves the count as it was.
pub proof fn lemma_running_count_push(s: Seq<TaskView>, t: TaskView)
    requires
        !t.running,
    ensures
        running_count(s.push(t)) == running_count(s),
{
    assert(s.push(t).drop_last() =~= s);
}

} // verus!

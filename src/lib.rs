//! A cooperative task scheduler that runs as one step of an outer executor.
//!
//! Tasks live in an arena of slots addressed by index. Each slot keeps the
//! flags that drive scheduling and the count of owners of its storage: the
//! list of all tasks, an entry in the ready queue, wake handles, and the
//! poll that is driving it. Driving a computation happens outside the
//! scheduler: `Schedular::poll` hands out the task to drive and
//! `Schedular::complete_drive` takes back how the step ended.

mod task;
mod schedular;

pub use task::{TaskView, running_count};
pub use schedular::{
    Schedular, SchedularPoll, SchedularView, PollRun, PollRunView, PollAction, idle_status,
    same_flags, owners, fresh_task, unlinked, cleared, yield_due, skipped, moved_back,
};

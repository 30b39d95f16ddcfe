//! The decisions of the loop that runs queued tasks on the host's main
//! thread: run a task when one is queued, wait a little when none is, and
//! stop once every sender is gone.

use vstd::prelude::*;

verus! {

/// What polling the task queue without blocking found.
#[derive(Clone, Copy, PartialEq, Eq, Structural, Debug)]
pub enum TaskPoll {
    /// A task was waiting and has been taken.
    Ready,
    /// No task is waiting yet.
    Empty,
    /// The queue is empty and nothing can send to it any more.
    Disconnected,
}

/// What the task loop does next.
#[derive(Clone, Copy, PartialEq, Eq, Structural, Debug)]
pub enum ExecutorStep {
    /// Run the task that was taken, then poll again.
    RunTask,
    /// Wait this many milliseconds, then poll again.
    Sleep { millis: u64 },
    /// Leave the loop.
    Stop,
}

/// How long the task loop waits when no task is queued.
pub const IDLE_SLEEP_MILLIS: u64 = 10;

/// The task loop's next step after a poll of the queue.
pub fn next_executor_step(poll: TaskPoll) -> (step: ExecutorStep)
    ensures
        step == match poll {
            TaskPoll::Ready => ExecutorStep::RunTask,
            TaskPoll::Empty => ExecutorStep::Sleep { millis: IDLE_SLEEP_MILLIS },
            TaskPoll::Disconnected => ExecutorStep::Stop,
        },
{
    match poll {
        TaskPoll::Ready => ExecutorStep::RunTask,
        TaskPoll::Empty => ExecutorStep::Sleep { millis: IDLE_SLEEP_MILLIS },
        TaskPoll::Disconnected => ExecutorStep::Stop,
    }
}

} // verus!

use vstd::prelude::*;

verus! {

/// The closed union of everything the aggregator can receive over the
/// shared channel: user input, the heartbeat, terminal resizes, and the
/// three messages a worker can send about its current task.  Exactly one
/// consumer ever observes these values.
pub enum Event {
    /// A key press, already translated to a plain byte by the listener.
    Input { key: u8 },
    /// The periodic heartbeat that bounds redraw latency.
    Tick,
    /// The terminal was resized; layout must be recomputed.
    Resize,
    /// A worker reports percent-complete for the task it is running.
    ProgressUpdate { worker: usize, task: u64, percent: u64 },
    /// A worker finished its task successfully.
    TaskDone { worker: usize, task: u64 },
    /// A worker failed its task and abandoned it.
    TaskError { worker: usize, task: u64, message: String },
}

/// What the control loop must do with itself after one event.
#[derive(Clone, Copy, PartialEq, Eq, Structural, Debug)]
pub enum Outcome {
    /// Keep receiving events.
    KeepGoing,
    /// The quit key was pressed: stop at once, abandoning in-flight work.
    Quit,
    /// Nothing is pending and no worker is busy: stop after the final
    /// notice.
    Finished,
}

/// A task assignment flowing from the aggregator to one worker's private
/// channel.
#[derive(Clone, Copy, PartialEq, Eq, Structural, Debug)]
pub struct Assignment {
    pub worker: usize,
    pub task_id: u64,
    pub size: u64,
}

/// One line for the completion sink: a task finished, with the
/// milliseconds it took.
pub struct CompletionNotice {
    pub name: String,
    pub elapsed_ms: u64,
}

/// One line for the completion sink: a task failed, with the worker's
/// message.
pub struct FailureNotice {
    pub name: String,
    pub message: String,
}

/// Everything the surrounding loop must act on after one processed
/// event: whether to keep looping, whether to redraw, an assignment to
/// forward to a worker, and notices for the completion sink.
pub struct Step {
    pub outcome: Outcome,
    pub redraw: bool,
    pub assignment: Option<Assignment>,
    pub completion: Option<CompletionNotice>,
    pub failure: Option<FailureNotice>,
    /// True exactly when this event declared the run complete.
    pub all_done: bool,
}

impl Step {
    /// A step that only steers the loop: no assignment and no notices.
    pub open spec fn plain(outcome: Outcome, redraw: bool) -> Step {
        Step { outcome, redraw, assignment: None, completion: None, failure: None, all_done: false }
    }
}

} // verus!

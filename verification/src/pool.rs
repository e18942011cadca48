use crate::event::{Assignment, CompletionNotice, Event, FailureNotice, Outcome, Step};
use crate::task::{Task, TaskSource};
use vstd::prelude::*;

verus! {

/// An in-flight task: created when the aggregator hands a task to a
/// worker, keyed by that worker's slot, destroyed by its terminal event.
pub struct InProgressTask {
    pub id: u64,
    pub name: String,
    /// Milliseconds on the caller's clock when the task was dispatched.
    pub started_at: u64,
    /// Percent complete, between 0 and 100.
    pub progress: u64,
}

/// A task that reached its successful terminal state.
pub struct FinishedTask {
    pub id: u64,
    pub name: String,
    pub elapsed_ms: u64,
}

/// A task that reached its failed terminal state.
pub struct FailedTask {
    pub id: u64,
    pub name: String,
    pub message: String,
}

/// How many of the pool's slots hold an in-flight task.
pub open spec fn busy_count(slots: Seq<Option<InProgressTask>>) -> nat
    decreases slots.len(),
{
    if slots.len() == 0 {
        0
    } else {
        busy_count(slots.drop_last()) + if slots.last() is Some {
            1nat
        } else {
            0nat
        }
    }
}

/// Elapsed milliseconds between dispatch and a terminal event, clamped
/// at zero should the caller's clock step backwards.
pub open spec fn elapsed_spec(now_ms: u64, started_at: u64) -> u64 {
    if now_ms >= started_at {
        (now_ms - started_at) as u64
    } else {
        0
    }
}

/// Updating one slot changes the busy count by the difference between
/// the new and the old occupancy of that slot.
pub proof fn lemma_busy_count_update(
    slots: Seq<Option<InProgressTask>>,
    w: int,
    v: Option<InProgressTask>,
)
    requires
        0 <= w < slots.len(),
    ensures
        busy_count(slots.update(w, v)) as int == busy_count(slots) as int - (if slots[w] is Some {
            1int
        } else {
            0int
        }) + (if v is Some {
            1int
        } else {
            0int
        }),
    decreases slots.len(),
{
    let s2 = slots.update(w, v);
    if w == slots.len() - 1 {
        assert(s2.drop_last() =~= slots.drop_last());
        assert(s2.last() == v);
    } else {
        assert(s2.drop_last() =~= slots.drop_last().update(w, v));
        lemma_busy_count_update(slots.drop_last(), w, v);
        assert(s2.last() == slots.last());
        assert(slots.drop_last()[w] == slots[w]);
    }
}

/// A prefix one slot longer also counts the newly included slot.
pub proof fn lemma_busy_count_prefix_step(slots: Seq<Option<InProgressTask>>, i: int)
    requires
        0 <= i < slots.len(),
    ensures
        busy_count(slots.subrange(0, i + 1)) as int == busy_count(slots.subrange(0, i)) as int + (
        if slots[i] is Some {
            1int
        } else {
            0int
        }),
{
    let p = slots.subrange(0, i + 1);
    assert(p.drop_last() =~= slots.subrange(0, i));
    assert(p.last() == slots[i]);
}

/// No prefix holds more busy slots than the whole pool.
pub proof fn lemma_busy_count_prefix_le(slots: Seq<Option<InProgressTask>>, i: int)
    requires
        0 <= i <= slots.len(),
    ensures
        busy_count(slots.subrange(0, i)) <= busy_count(slots),
    decreases slots.len() - i,
{
    if i == slots.len() {
        assert(slots.subrange(0, i) =~= slots);
    } else {
        lemma_busy_count_prefix_step(slots, i);
        lemma_busy_count_prefix_le(slots, i + 1);
    }
}

/// The aggregator's authoritative run state.  No other component reads
/// or writes it: workers and the input listener communicate with it only
/// by events, and the renderer only sees read-only snapshots.
pub struct Downloads {
    /// Tasks not yet claimed by any worker, in dispatch order.
    pub source: TaskSource,
    /// One slot per worker; `Some` exactly while that worker is busy.
    pub slots: Vec<Option<InProgressTask>>,
    /// Tasks that finished, in completion order.
    pub completed: Vec<FinishedTask>,
    /// Tasks that failed, in failure order.
    pub errored: Vec<FailedTask>,
    /// The key byte that quits the run.
    pub quit_key: u8,
    /// Whether a worker whose task failed is handed the next pending
    /// task (true) or left idle for the rest of the run (false).
    pub refeed_on_error: bool,
}

impl Downloads {
    /// The pending backlog, head first.
    pub open spec fn pending(self) -> Seq<Task> {
        self.source.backlog@
    }

    /// How many workers are busy right now.
    pub open spec fn busy(self) -> nat {
        busy_count(self.slots@)
    }

    /// Every task the run has ever been given is in exactly one of the
    /// four regions, so this sum is constant across events.
    pub open spec fn total_tasks(self) -> nat {
        self.pending().len() + self.busy() + self.completed@.len() + self.errored@.len()
    }

    /// Some pending task carries this id.
    pub open spec fn pending_has(self, id: u64) -> bool {
        exists|i: int| 0 <= i < self.pending().len() && (#[trigger] self.pending()[i]).id == id
    }

    /// Some busy worker is running the task with this id.
    pub open spec fn slot_has(self, id: u64) -> bool {
        exists|w: int|
            {
                &&& 0 <= w < self.slots@.len()
                &&& (#[trigger] self.slots@[w]) is Some
                &&& self.slots@[w]->Some_0.id == id
            }
    }

    /// Some finished task carries this id.
    pub open spec fn completed_has(self, id: u64) -> bool {
        exists|i: int| 0 <= i < self.completed@.len() && (#[trigger] self.completed@[i]).id == id
    }

    /// Some failed task carries this id.
    pub open spec fn errored_has(self, id: u64) -> bool {
        exists|i: int| 0 <= i < self.errored@.len() && (#[trigger] self.errored@[i]).id == id
    }

    /// The worker/task pair of an event names a live registry entry:
    /// the worker's slot is busy with exactly that task.  Events that
    /// fail this test are stale and are ignored, never applied.
    pub open spec fn entry_matches(self, worker: int, task: u64) -> bool {
        &&& 0 <= worker < self.slots@.len()
        &&& self.slots@[worker] is Some
        &&& self.slots@[worker]->Some_0.id == task
    }

    /// Recorded percentages never exceed 100.
    pub open spec fn progress_ok(self) -> bool {
        forall|w: int|
            0 <= w < self.slots@.len() && (#[trigger] self.slots@[w]) is Some
                ==> self.slots@[w]->Some_0.progress <= 100
    }

    /// No identifier is live twice: the pending backlog holds distinct
    /// ids, no two workers run the same task, and no pending task is
    /// also in progress.  This is what makes dispatch exclusive.
    pub open spec fn ids_distinct(self) -> bool {
        &&& forall|i: int, j: int|
            0 <= i < j < self.pending().len() ==> (#[trigger] self.pending()[i]).id != (
            #[trigger] self.pending()[j]).id
        &&& forall|w1: int, w2: int|
            0 <= w1 < w2 < self.slots@.len() && (#[trigger] self.slots@[w1]) is Some && (
            #[trigger] self.slots@[w2]) is Some ==> self.slots@[w1]->Some_0.id
                != self.slots@[w2]->Some_0.id
        &&& forall|i: int, w: int|
            0 <= i < self.pending().len() && 0 <= w < self.slots@.len() && (
            #[trigger] self.slots@[w]) is Some ==> (#[trigger] self.pending()[i]).id
                != self.slots@[w]->Some_0.id
    }

    /// The terminal logs hold distinct ids, and no logged id is still
    /// pending or in progress: a task never leaves a terminal state and
    /// never holds two of them.
    pub open spec fn logs_distinct(self) -> bool {
        &&& forall|i: int, j: int|
            0 <= i < j < self.completed@.len() ==> (#[trigger] self.completed@[i]).id != (
            #[trigger] self.completed@[j]).id
        &&& forall|i: int, j: int|
            0 <= i < j < self.errored@.len() ==> (#[trigger] self.errored@[i]).id != (
            #[trigger] self.errored@[j]).id
        &&& forall|i: int, j: int|
            0 <= i < self.completed@.len() && 0 <= j < self.errored@.len() ==> (
            #[trigger] self.completed@[i]).id != (#[trigger] self.errored@[j]).id
        &&& forall|i: int, j: int|
            0 <= i < self.pending().len() && 0 <= j < self.completed@.len() ==> (
            #[trigger] self.pending()[i]).id != (#[trigger] self.completed@[j]).id
        &&& forall|i: int, j: int|
            0 <= i < self.pending().len() && 0 <= j < self.errored@.len() ==> (
            #[trigger] self.pending()[i]).id != (#[trigger] self.errored@[j]).id
        &&& forall|w: int, j: int|
            0 <= w < self.slots@.len() && (#[trigger] self.slots@[w]) is Some && 0 <= j
                < self.completed@.len() ==> self.slots@[w]->Some_0.id != (
            #[trigger] self.completed@[j]).id
        &&& forall|w: int, j: int|
            0 <= w < self.slots@.len() && (#[trigger] self.slots@[w]) is Some && 0 <= j
                < self.errored@.len() ==> self.slots@[w]->Some_0.id != (
            #[trigger] self.errored@[j]).id
    }

    pub open spec fn wf(self) -> bool {
        self.progress_ok() && self.ids_distinct() && self.logs_distinct()
    }

    /// An empty run: no workers, nothing queued, `q` quits, workers
    /// whose task failed are left idle.
    pub fn new() -> (d: Downloads)
        ensures
            d.wf(),
            d.pending() == Seq::<Task>::empty(),
            d.slots@ == Seq::<Option<InProgressTask>>::empty(),
            d.completed@ == Seq::<FinishedTask>::empty(),
            d.errored@ == Seq::<FailedTask>::empty(),
            d.quit_key == 113u8,
            !d.refeed_on_error,
    {
        Downloads {
            source: TaskSource::new(),
            slots: Vec::new(),
            completed: Vec::new(),
            errored: Vec::new(),
            quit_key: 113u8,
            refeed_on_error: false,
        }
    }

    /// A fresh pool: `workers` idle slots, a chosen quit key, and an
    /// explicit policy for workers whose task failed.
    pub fn with_pool(workers: usize, quit_key: u8, refeed_on_error: bool) -> (d: Downloads)
        ensures
            d.wf(),
            d.pending() == Seq::<Task>::empty(),
            d.slots@.len() == workers,
            forall|w: int| 0 <= w < workers ==> (#[trigger] d.slots@[w]) is None,
            d.completed@ == Seq::<FinishedTask>::empty(),
            d.errored@ == Seq::<FailedTask>::empty(),
            d.quit_key == quit_key,
            d.refeed_on_error == refeed_on_error,
    {
        let mut slots: Vec<Option<InProgressTask>> = Vec::new();
        let mut w: usize = 0;
        while w < workers
            invariant
                w <= workers,
                slots@.len() == w,
                forall|i: int| 0 <= i < w ==> (#[trigger] slots@[i]) is None,
            decreases workers - w,
        {
            slots.push(None);
            w = w + 1;
        }
        Downloads {
            source: TaskSource::new(),
            slots,
            completed: Vec::new(),
            errored: Vec::new(),
            quit_key,
            refeed_on_error,
        }
    }

    /// Queue one more task at the tail of the backlog.  A task whose id
    /// is already tracked anywhere — pending, in progress, completed or
    /// failed — is rejected, which keeps the run's task identifiers
    /// unique; returns whether the task was accepted.
    pub fn push_task(&mut self, t: Task) -> (accepted: bool)
        requires
            old(self).wf(),
        ensures
            final(self).wf(),
            accepted == (!old(self).pending_has(t.id) && !old(self).slot_has(t.id) && !old(
                self,
            ).completed_has(t.id) && !old(self).errored_has(t.id)),
            accepted ==> {
                &&& final(self).source.backlog@ == old(self).source.backlog@.push(t)
                &&& final(self).slots@ == old(self).slots@
                &&& final(self).completed@ == old(self).completed@
                &&& final(self).errored@ == old(self).errored@
                &&& final(self).quit_key == old(self).quit_key
                &&& final(self).refeed_on_error == old(self).refeed_on_error
                &&& final(self).total_tasks() == old(self).total_tasks() + 1
            },
            !accepted ==> *final(self) == *old(self),
    {
        let mut dup = false;
        let n = self.source.backlog.len();
        let mut i: usize = 0;
        while i < n
            invariant
                i <= n,
                n == self.source.backlog@.len(),
                *self == *old(self),
                dup == exists|k: int| 0 <= k < i && (#[trigger] self.pending()[k]).id == t.id,
            decreases n - i,
        {
            if self.source.backlog[i].id == t.id {
                dup = true;
            }
            proof {
                assert((self.pending()[i as int]).id == self.source.backlog@[i as int].id);
            }
            i = i + 1;
        }
        let m = self.slots.len();
        let mut w: usize = 0;
        while w < m
            invariant
                w <= m,
                m == self.slots@.len(),
                *self == *old(self),
                dup == (old(self).pending_has(t.id) || exists|k: int|
                    {
                        &&& 0 <= k < w
                        &&& (#[trigger] self.slots@[k]) is Some
                        &&& self.slots@[k]->Some_0.id == t.id
                    }),
            decreases m - w,
        {
            match &self.slots[w] {
                Option::Some(e) => {
                    if e.id == t.id {
                        dup = true;
                    }
                },
                Option::None => {},
            }
            proof {
                assert(((#[trigger] self.slots@[w as int]) is Some ==> self.slots@[w as int] is Some));
            }
            w = w + 1;
        }
        let c = self.completed.len();
        let mut k: usize = 0;
        while k < c
            invariant
                k <= c,
                c == self.completed@.len(),
                *self == *old(self),
                dup == (old(self).pending_has(t.id) || old(self).slot_has(t.id) || exists|q: int|
                    0 <= q < k && (#[trigger] self.completed@[q]).id == t.id),
            decreases c - k,
        {
            if self.completed[k].id == t.id {
                dup = true;
            }
            proof {
                assert(self.completed@[k as int].id == self.completed@[k as int].id);
            }
            k = k + 1;
        }
        let e = self.errored.len();
        let mut x: usize = 0;
        while x < e
            invariant
                x <= e,
                e == self.errored@.len(),
                *self == *old(self),
                dup == (old(self).pending_has(t.id) || old(self).slot_has(t.id) || old(
                    self,
                ).completed_has(t.id) || exists|q: int|
                    0 <= q < x && (#[trigger] self.errored@[q]).id == t.id),
            decreases e - x,
        {
            if self.errored[x].id == t.id {
                dup = true;
            }
            proof {
                assert(self.errored@[x as int].id == self.errored@[x as int].id);
            }
            x = x + 1;
        }
        if dup {
            false
        } else {
            let ghost pre = *self;
            self.source.push(t);
            proof {
                assert forall|i2: int, j2: int| 0 <= i2 < j2 < self.pending().len() implies (
                #[trigger] self.pending()[i2]).id != (#[trigger] self.pending()[j2]).id by {
                    if j2 == self.pending().len() - 1 {
                        assert(self.pending()[i2] == pre.pending()[i2]);
                    } else {
                        assert(self.pending()[i2] == pre.pending()[i2]);
                        assert(self.pending()[j2] == pre.pending()[j2]);
                    }
                }
                assert forall|i2: int, w2: int|
                    0 <= i2 < self.pending().len() && 0 <= w2 < self.slots@.len() && (
                    #[trigger] self.slots@[w2]) is Some implies (#[trigger] self.pending()[i2]).id
                    != self.slots@[w2]->Some_0.id by {
                    if i2 < self.pending().len() - 1 {
                        assert(self.pending()[i2] == pre.pending()[i2]);
                    }
                }
                assert forall|i2: int, j2: int|
                    0 <= i2 < self.pending().len() && 0 <= j2 < self.completed@.len() implies (
                #[trigger] self.pending()[i2]).id != (#[trigger] self.completed@[j2]).id by {
                    assert(self.completed@[j2] == pre.completed@[j2]);
                    if i2 < self.pending().len() - 1 {
                        assert(self.pending()[i2] == pre.pending()[i2]);
                    }
                }
                assert forall|i2: int, j2: int|
                    0 <= i2 < self.pending().len() && 0 <= j2 < self.errored@.len() implies (
                #[trigger] self.pending()[i2]).id != (#[trigger] self.errored@[j2]).id by {
                    assert(self.errored@[j2] == pre.errored@[j2]);
                    if i2 < self.pending().len() - 1 {
                        assert(self.pending()[i2] == pre.pending()[i2]);
                    }
                }
            }
            true
        }
    }

    /// With worker's slot just vacated, dispatch the head of the backlog
    /// to it, or leave the worker idle; the second result reports
    /// whether the whole run is now finished.
    fn refill(&mut self, worker: usize, now_ms: u64) -> (r: (Option<Assignment>, bool))
        requires
            old(self).wf(),
            worker < old(self).slots@.len(),
            old(self).slots@[worker as int] is None,
        ensures
            final(self).wf(),
            final(self).slots@.len() == old(self).slots@.len(),
            final(self).completed@ == old(self).completed@,
            final(self).errored@ == old(self).errored@,
            final(self).quit_key == old(self).quit_key,
            final(self).refeed_on_error == old(self).refeed_on_error,
            final(self).total_tasks() == old(self).total_tasks(),
            vacated_refilled(*old(self), *final(self), r.0, r.1, worker as int, now_ms),
    {
        match self.source.take_next() {
            Option::Some(t) => {
                let a = Assignment { worker, task_id: t.id, size: t.size };
                let Task { id, name, size: _ } = t;
                self.slots[worker] = Some(
                    InProgressTask { id, name, started_at: now_ms, progress: 0 },
                );
                proof {
                    lemma_busy_count_update(
                        old(self).slots@,
                        worker as int,
                        self.slots@[worker as int],
                    );
                    lemma_wf_after_dispatch(*old(self), *self, worker as int, now_ms);
                }
                (Some(a), false)
            },
            Option::None => {
                proof {
                    assert(self.slots@ =~= old(self).slots@.update(
                        worker as int,
                        None::<InProgressTask>,
                    ));
                }
                let idle = all_idle(&self.slots);
                (None, idle)
            },
        }
    }

    /// Process one event from the shared channel.  This is the single
    /// consumption point: every state change of the run happens here,
    /// one event at a time, in receive order, so no torn update is ever
    /// observable.  Stale worker events (naming a worker/task pair that
    /// is not a live registry entry) are ignored, never applied.  The
    /// sum of pending, in-progress, completed and failed tasks is
    /// conserved by every event.
    pub fn handle_event(&mut self, ev: Event, now_ms: u64) -> (st: Step)
        requires
            old(self).wf(),
        ensures
            final(self).wf(),
            final(self).slots@.len() == old(self).slots@.len(),
            final(self).quit_key == old(self).quit_key,
            final(self).refeed_on_error == old(self).refeed_on_error,
            final(self).total_tasks() == old(self).total_tasks(),
            match ev {
                Event::Input { key } => {
                    &&& *final(self) == *old(self)
                    &&& st == Step::plain(
                        if key == old(self).quit_key {
                            Outcome::Quit
                        } else {
                            Outcome::KeepGoing
                        },
                        true,
                    )
                },
                Event::Tick => {
                    &&& *final(self) == *old(self)
                    &&& st == Step::plain(Outcome::KeepGoing, true)
                },
                Event::Resize => {
                    &&& *final(self) == *old(self)
                    &&& st == Step::plain(Outcome::KeepGoing, true)
                },
                Event::ProgressUpdate { worker, task, percent } => {
                    &&& if old(self).entry_matches(worker as int, task) && percent <= 100 {
                        let e = old(self).slots@[worker as int]->Some_0;
                        &&& final(self).slots@ == old(self).slots@.update(
                            worker as int,
                            Some(
                                InProgressTask {
                                    id: e.id,
                                    name: e.name,
                                    started_at: e.started_at,
                                    progress: percent,
                                },
                            ),
                        )
                        &&& final(self).source.backlog@ == old(self).source.backlog@
                        &&& final(self).completed@ == old(self).completed@
                        &&& final(self).errored@ == old(self).errored@
                    } else {
                        *final(self) == *old(self)
                    }
                    &&& st == Step::plain(Outcome::KeepGoing, false)
                },
                Event::TaskDone { worker, task } => {
                    if old(self).entry_matches(worker as int, task) {
                        let e = old(self).slots@[worker as int]->Some_0;
                        &&& final(self).completed@ == old(self).completed@.push(
                            FinishedTask {
                                id: e.id,
                                name: e.name,
                                elapsed_ms: elapsed_spec(now_ms, e.started_at),
                            },
                        )
                        &&& final(self).errored@ == old(self).errored@
                        &&& st.completion == Some(
                            CompletionNotice {
                                name: e.name,
                                elapsed_ms: elapsed_spec(now_ms, e.started_at),
                            },
                        )
                        &&& st.failure is None
                        &&& st.redraw
                        &&& vacated_refilled(
                            *old(self),
                            *final(self),
                            st.assignment,
                            st.all_done,
                            worker as int,
                            now_ms,
                        )
                        &&& st.outcome == if st.all_done {
                            Outcome::Finished
                        } else {
                            Outcome::KeepGoing
                        }
                    } else {
                        &&& *final(self) == *old(self)
                        &&& st == Step::plain(Outcome::KeepGoing, true)
                    }
                },
                Event::TaskError { worker, task, message } => {
                    if old(self).entry_matches(worker as int, task) {
                        let e = old(self).slots@[worker as int]->Some_0;
                        &&& final(self).errored@ == old(self).errored@.push(
                            FailedTask { id: e.id, name: e.name, message: message },
                        )
                        &&& final(self).completed@ == old(self).completed@
                        &&& st.failure == Some(FailureNotice { name: e.name, message: message })
                        &&& st.completion is None
                        &&& st.redraw
                        &&& if old(self).refeed_on_error {
                            vacated_refilled(
                                *old(self),
                                *final(self),
                                st.assignment,
                                st.all_done,
                                worker as int,
                                now_ms,
                            )
                        } else {
                            &&& final(self).source.backlog@ == old(self).source.backlog@
                            &&& final(self).slots@ == old(self).slots@.update(
                                worker as int,
                                None::<InProgressTask>,
                            )
                            &&& st.assignment is None
                            &&& st.all_done == (busy_count(final(self).slots@) == 0 && old(
                                self,
                            ).pending().len() == 0)
                        }
                        &&& st.outcome == if st.all_done {
                            Outcome::Finished
                        } else {
                            Outcome::KeepGoing
                        }
                    } else {
                        &&& *final(self) == *old(self)
                        &&& st == Step::plain(Outcome::KeepGoing, true)
                    }
                },
            },
    {
        match ev {
            Event::Input { key } => {
                let quit = key == self.quit_key;
                Step {
                    outcome: if quit {
                        Outcome::Quit
                    } else {
                        Outcome::KeepGoing
                    },
                    redraw: true,
                    assignment: None,
                    completion: None,
                    failure: None,
                    all_done: false,
                }
            },
            Event::Tick => Step {
                outcome: Outcome::KeepGoing,
                redraw: true,
                assignment: None,
                completion: None,
                failure: None,
                all_done: false,
            },
            Event::Resize => Step {
                outcome: Outcome::KeepGoing,
                redraw: true,
                assignment: None,
                completion: None,
                failure: None,
                all_done: false,
            },
            Event::ProgressUpdate { worker, task, percent } => {
                if worker < self.slots.len() && percent <= 100 {
                    let live = match &self.slots[worker] {
                        Option::Some(e) => e.id == task,
                        Option::None => false,
                    };
                    if live {
                        let slot = &mut self.slots[worker];
                        match slot {
                            Option::Some(e) => {
                                e.progress = percent;
                            },
                            Option::None => {},
                        }
                        proof {
                            lemma_busy_count_update(
                                old(self).slots@,
                                worker as int,
                                self.slots@[worker as int],
                            );
                            lemma_wf_after_progress(*old(self), *self, worker as int, percent);
                        }
                    }
                }
                Step {
                    outcome: Outcome::KeepGoing,
                    redraw: false,
                    assignment: None,
                    completion: None,
                    failure: None,
                    all_done: false,
                }
            },
            Event::TaskDone { worker, task } => {
                let live = if worker < self.slots.len() {
                    match &self.slots[worker] {
                        Option::Some(e) => e.id == task,
                        Option::None => false,
                    }
                } else {
                    false
                };
                if live {
                    let mut taken: Option<InProgressTask> = None;
                    core::mem::swap(&mut taken, &mut self.slots[worker]);
                    proof {
                        lemma_busy_count_update(
                            old(self).slots@,
                            worker as int,
                            None::<InProgressTask>,
                        );
                        lemma_wf_after_vacate(*old(self), *self, worker as int);
                        lemma_vacated_id_fresh(*old(self), *self, worker as int);
                    }
                    let entry = taken.unwrap();
                    let elapsed = if now_ms >= entry.started_at {
                        now_ms - entry.started_at
                    } else {
                        0
                    };
                    let notice_name = entry.name.clone();
                    let ghost vacated = *self;
                    self.completed.push(
                        FinishedTask { id: entry.id, name: entry.name, elapsed_ms: elapsed },
                    );
                    proof {
                        lemma_wf_after_complete(vacated, *self, self.completed@.last());
                    }
                    let completion = Some(
                        CompletionNotice { name: notice_name, elapsed_ms: elapsed },
                    );
                    let (assignment, finished) = self.refill(worker, now_ms);
                    proof {
                        if old(self).pending().len() > 0 {
                            assert(self.slots@ =~= old(self).slots@.update(
                                worker as int,
                                Some(
                                    InProgressTask {
                                        id: old(self).pending()[0].id,
                                        name: old(self).pending()[0].name,
                                        started_at: now_ms,
                                        progress: 0,
                                    },
                                ),
                            ));
                        } else {
                            assert(self.slots@ =~= old(self).slots@.update(
                                worker as int,
                                None::<InProgressTask>,
                            ));
                        }
                    }
                    let outcome = if finished {
                        Outcome::Finished
                    } else {
                        Outcome::KeepGoing
                    };
                    Step {
                        outcome,
                        redraw: true,
                        assignment,
                        completion,
                        failure: None,
                        all_done: finished,
                    }
                } else {
                    Step {
                        outcome: Outcome::KeepGoing,
                        redraw: true,
                        assignment: None,
                        completion: None,
                        failure: None,
                        all_done: false,
                    }
                }
            },
            Event::TaskError { worker, task, message } => {
                let live = if worker < self.slots.len() {
                    match &self.slots[worker] {
                        Option::Some(e) => e.id == task,
                        Option::None => false,
                    }
                } else {
                    false
                };
                if live {
                    let mut taken: Option<InProgressTask> = None;
                    core::mem::swap(&mut taken, &mut self.slots[worker]);
                    proof {
                        lemma_busy_count_update(
                            old(self).slots@,
                            worker as int,
                            None::<InProgressTask>,
                        );
                        lemma_wf_after_vacate(*old(self), *self, worker as int);
                        lemma_vacated_id_fresh(*old(self), *self, worker as int);
                    }
                    let entry = taken.unwrap();
                    let notice_name = entry.name.clone();
                    let notice_message = message.clone();
                    let ghost vacated = *self;
                    self.errored.push(FailedTask { id: entry.id, name: entry.name, message });
                    proof {
                        lemma_wf_after_fail(vacated, *self, self.errored@.last());
                    }
                    let failure = Some(
                        FailureNotice { name: notice_name, message: notice_message },
                    );
                    if self.refeed_on_error {
                        let (assignment, finished) = self.refill(worker, now_ms);
                        proof {
                            if old(self).pending().len() > 0 {
                                assert(self.slots@ =~= old(self).slots@.update(
                                    worker as int,
                                    Some(
                                        InProgressTask {
                                            id: old(self).pending()[0].id,
                                            name: old(self).pending()[0].name,
                                            started_at: now_ms,
                                            progress: 0,
                                        },
                                    ),
                                ));
                            } else {
                                assert(self.slots@ =~= old(self).slots@.update(
                                    worker as int,
                                    None::<InProgressTask>,
                                ));
                            }
                        }
                        let outcome = if finished {
                            Outcome::Finished
                        } else {
                            Outcome::KeepGoing
                        };
                        Step {
                            outcome,
                            redraw: true,
                            assignment,
                            completion: None,
                            failure,
                            all_done: finished,
                        }
                    } else {
                        let idle = all_idle(&self.slots);
                        let no_pending = self.source.len() == 0;
                        let finished = idle && no_pending;
                        let outcome = if finished {
                            Outcome::Finished
                        } else {
                            Outcome::KeepGoing
                        };
                        Step {
                            outcome,
                            redraw: true,
                            assignment: None,
                            completion: None,
                            failure,
                            all_done: finished,
                        }
                    }
                } else {
                    Step {
                        outcome: Outcome::KeepGoing,
                        redraw: true,
                        assignment: None,
                        completion: None,
                        failure: None,
                        all_done: false,
                    }
                }
            },
        }
    }

    /// Start the run: slot by slot, hand each idle worker the head of
    /// the backlog until the pool is full or the backlog is empty, and
    /// return the assignments in worker order.  With `workers` slots and
    /// `m` pending tasks, exactly `min(workers, m)` tasks leave the
    /// backlog, in order, for workers `0, 1, ...`.
    pub fn start(&mut self, now_ms: u64) -> (assignments: Vec<Assignment>)
        requires
            old(self).wf(),
            forall|w: int|
                0 <= w < old(self).slots@.len() ==> (#[trigger] old(self).slots@[w]) is None,
        ensures
            final(self).wf(),
            final(self).slots@.len() == old(self).slots@.len(),
            final(self).completed@ == old(self).completed@,
            final(self).errored@ == old(self).errored@,
            final(self).quit_key == old(self).quit_key,
            final(self).refeed_on_error == old(self).refeed_on_error,
            final(self).total_tasks() == old(self).total_tasks(),
            ({
                let k = if old(self).slots@.len() <= old(self).pending().len() {
                    old(self).slots@.len() as int
                } else {
                    old(self).pending().len() as int
                };
                &&& final(self).source.backlog@ == old(self).source.backlog@.skip(k)
                &&& assignments@.len() == k
                &&& forall|w: int|
                    0 <= w < k ==> (#[trigger] final(self).slots@[w]) == Some(
                        InProgressTask {
                            id: old(self).pending()[w].id,
                            name: old(self).pending()[w].name,
                            started_at: now_ms,
                            progress: 0,
                        },
                    )
                &&& forall|w: int|
                    k <= w < final(self).slots@.len() ==> (#[trigger] final(self).slots@[w]) is None
                &&& forall|i: int|
                    0 <= i < k ==> (#[trigger] assignments@[i]) == Assignment {
                        worker: i as usize,
                        task_id: old(self).pending()[i].id,
                        size: old(self).pending()[i].size,
                    }
            }),
    {
        let ghost p = old(self).pending().len() as int;
        let n = self.slots.len();
        let mut assignments: Vec<Assignment> = Vec::new();
        let mut w: usize = 0;
        while w < n
            invariant
                w <= n,
                n == self.slots@.len(),
                self.wf(),
                self.completed@ == old(self).completed@,
                self.errored@ == old(self).errored@,
                self.quit_key == old(self).quit_key,
                self.refeed_on_error == old(self).refeed_on_error,
                self.total_tasks() == old(self).total_tasks(),
                p == old(self).pending().len(),
                ({
                    let kw = if w as int <= p {
                        w as int
                    } else {
                        p
                    };
                    &&& self.source.backlog@ == old(self).source.backlog@.skip(kw)
                    &&& assignments@.len() == kw
                    &&& forall|j: int|
                        0 <= j < kw ==> (#[trigger] self.slots@[j]) == Some(
                            InProgressTask {
                                id: old(self).pending()[j].id,
                                name: old(self).pending()[j].name,
                                started_at: now_ms,
                                progress: 0,
                            },
                        )
                    &&& forall|j: int| kw <= j < n ==> (#[trigger] self.slots@[j]) is None
                    &&& forall|i: int|
                        0 <= i < kw ==> (#[trigger] assignments@[i]) == Assignment {
                            worker: i as usize,
                            task_id: old(self).pending()[i].id,
                            size: old(self).pending()[i].size,
                        }
                }),
            decreases n - w,
        {
            let ghost pre_iter = *self;
            let ghost kw = if w as int <= p {
                w as int
            } else {
                p
            };
            proof {
                assert(old(self).source.backlog@.skip(kw).len() == p - kw);
                if (w as int) < p {
                    assert(pre_iter.pending()[0] == old(self).source.backlog@.skip(kw)[0]);
                    assert(pre_iter.pending()[0] == old(self).pending()[w as int]);
                }
            }
            let (a, _finished) = self.refill(w, now_ms);
            match a {
                Option::Some(x) => assignments.push(x),
                Option::None => {},
            }
            proof {
                if (w as int) < p {
                    assert(self.source.backlog@ =~= old(self).source.backlog@.skip(w as int + 1));
                } else {
                    assert(self.slots@ =~= pre_iter.slots@);
                    assert(self.source.backlog@ =~= old(self).source.backlog@.skip(p));
                }
            }
            w = w + 1;
        }
        proof {
            assert(self.source.backlog@ == old(self).source.backlog@.skip(
                if n as int <= p {
                    n as int
                } else {
                    p
                },
            ));
        }
        assignments
    }

    /// A read-only snapshot of the run for the renderer: the four region
    /// counts and one row per busy worker, in worker order.
    pub fn snapshot(&self) -> (s: Snapshot)
        ensures
            s.pending_count == self.pending().len(),
            s.completed_count == self.completed@.len(),
            s.errored_count == self.errored@.len(),
            s.in_progress@ == visible_entries(self.slots@),
            s.in_progress@.len() == self.busy(),
    {
        let mut rows: Vec<SnapshotEntry> = Vec::new();
        let n = self.slots.len();
        let mut w: usize = 0;
        while w < n
            invariant
                w <= n,
                n == self.slots@.len(),
                rows@ == visible_entries(self.slots@.subrange(0, w as int)),
            decreases n - w,
        {
            proof {
                lemma_visible_entries_prefix_step(self.slots@, w as int);
            }
            match &self.slots[w] {
                Option::Some(e) => {
                    rows.push(
                        SnapshotEntry {
                            worker: w,
                            id: e.id,
                            name: e.name.clone(),
                            progress: e.progress,
                        },
                    );
                },
                Option::None => {},
            }
            w = w + 1;
        }
        proof {
            assert(self.slots@.subrange(0, n as int) =~= self.slots@);
            lemma_visible_entries_len(self.slots@);
        }
        Snapshot {
            pending_count: self.source.backlog.len(),
            in_progress: rows,
            completed_count: self.completed.len(),
            errored_count: self.errored.len(),
        }
    }
}

/// One visible row for the renderer: a busy worker and its task.
pub struct SnapshotEntry {
    pub worker: usize,
    pub id: u64,
    pub name: String,
    pub progress: u64,
}

/// A read-only view of the run, produced for the renderer after each
/// processed event; it carries no handle back into the live state.
pub struct Snapshot {
    pub pending_count: usize,
    pub in_progress: Vec<SnapshotEntry>,
    pub completed_count: usize,
    pub errored_count: usize,
}

/// The rows a snapshot shows: one per busy slot, in worker order.
pub open spec fn visible_entries(slots: Seq<Option<InProgressTask>>) -> Seq<SnapshotEntry>
    decreases slots.len(),
{
    if slots.len() == 0 {
        Seq::empty()
    } else {
        let rest = visible_entries(slots.drop_last());
        match slots.last() {
            Some(e) => rest.push(
                SnapshotEntry {
                    worker: (slots.len() - 1) as usize,
                    id: e.id,
                    name: e.name,
                    progress: e.progress,
                },
            ),
            None => rest,
        }
    }
}

/// A prefix one slot longer shows the newly included slot's row, if any.
proof fn lemma_visible_entries_prefix_step(slots: Seq<Option<InProgressTask>>, i: int)
    requires
        0 <= i < slots.len(),
    ensures
        visible_entries(slots.subrange(0, i + 1)) == (match slots[i] {
            Some(e) => visible_entries(slots.subrange(0, i)).push(
                SnapshotEntry { worker: i as usize, id: e.id, name: e.name, progress: e.progress },
            ),
            None => visible_entries(slots.subrange(0, i)),
        }),
{
    assert(slots.subrange(0, i + 1).drop_last() =~= slots.subrange(0, i));
    assert(slots.subrange(0, i + 1).last() == slots[i]);
}

/// A snapshot shows exactly one row per busy worker.
pub proof fn lemma_visible_entries_len(slots: Seq<Option<InProgressTask>>)
    ensures
        visible_entries(slots).len() == busy_count(slots),
    decreases slots.len(),
{
    if slots.len() > 0 {
        lemma_visible_entries_len(slots.drop_last());
    }
}

/// Whether no worker is busy.
fn all_idle(slots: &Vec<Option<InProgressTask>>) -> (r: bool)
    ensures
        r == (busy_count(slots@) == 0),
{
    let n = slots.len();
    let mut i: usize = 0;
    while i < n
        invariant
            i <= n,
            n == slots@.len(),
            busy_count(slots@.subrange(0, i as int)) == 0,
        decreases n - i,
    {
        proof {
            lemma_busy_count_prefix_step(slots@, i as int);
        }
        if slots[i].is_some() {
            proof {
                lemma_busy_count_prefix_le(slots@, i as int + 1);
            }
            return false;
        }
        i = i + 1;
    }
    proof {
        assert(slots@.subrange(0, n as int) =~= slots@);
    }
    true
}

/// Worker `w`'s slot was just vacated by a terminal event: the head of
/// the backlog (if any) takes its place and is assigned to `w`;
/// otherwise the slot stays empty and the run is finished exactly when
/// no worker is busy any more.
pub open spec fn vacated_refilled(
    pre: Downloads,
    post: Downloads,
    assignment: Option<Assignment>,
    finished: bool,
    w: int,
    now_ms: u64,
) -> bool {
    if pre.pending().len() > 0 {
        let t = pre.pending()[0];
        &&& post.source.backlog@ == pre.source.backlog@.drop_first()
        &&& post.slots@ == pre.slots@.update(
            w,
            Some(InProgressTask { id: t.id, name: t.name, started_at: now_ms, progress: 0 }),
        )
        &&& assignment == Some(Assignment { worker: w as usize, task_id: t.id, size: t.size })
        &&& !finished
    } else {
        &&& post.source.backlog@ == pre.source.backlog@
        &&& post.slots@ == pre.slots@.update(w, None::<InProgressTask>)
        &&& assignment is None
        &&& finished == (busy_count(post.slots@) == 0)
    }
}

/// With the logs and the backlog unchanged, and every busy slot keeping
/// its id, the log-disjointness clauses carry over.
proof fn lemma_logs_distinct_preserved(pre: Downloads, post: Downloads)
    requires
        pre.logs_distinct(),
        post.completed@ == pre.completed@,
        post.errored@ == pre.errored@,
        post.source.backlog@ == pre.source.backlog@,
        post.slots@.len() == pre.slots@.len(),
        forall|w: int|
            0 <= w < post.slots@.len() && (#[trigger] post.slots@[w]) is Some ==> pre.slots@[w] is Some
                && pre.slots@[w]->Some_0.id == post.slots@[w]->Some_0.id,
    ensures
        post.logs_distinct(),
{
    assert forall|i: int, j: int| 0 <= i < j < post.completed@.len() implies (
    #[trigger] post.completed@[i]).id != (#[trigger] post.completed@[j]).id by {
        assert(post.completed@[i] == pre.completed@[i]);
        assert(post.completed@[j] == pre.completed@[j]);
    }
    assert forall|i: int, j: int| 0 <= i < j < post.errored@.len() implies (
    #[trigger] post.errored@[i]).id != (#[trigger] post.errored@[j]).id by {
        assert(post.errored@[i] == pre.errored@[i]);
        assert(post.errored@[j] == pre.errored@[j]);
    }
    assert forall|i: int, j: int|
        0 <= i < post.completed@.len() && 0 <= j < post.errored@.len() implies (
    #[trigger] post.completed@[i]).id != (#[trigger] post.errored@[j]).id by {
        assert(post.completed@[i] == pre.completed@[i]);
        assert(post.errored@[j] == pre.errored@[j]);
    }
    assert forall|i: int, j: int|
        0 <= i < post.pending().len() && 0 <= j < post.completed@.len() implies (
    #[trigger] post.pending()[i]).id != (#[trigger] post.completed@[j]).id by {
        assert(post.pending()[i] == pre.pending()[i]);
        assert(post.completed@[j] == pre.completed@[j]);
    }
    assert forall|i: int, j: int|
        0 <= i < post.pending().len() && 0 <= j < post.errored@.len() implies (
    #[trigger] post.pending()[i]).id != (#[trigger] post.errored@[j]).id by {
        assert(post.pending()[i] == pre.pending()[i]);
        assert(post.errored@[j] == pre.errored@[j]);
    }
    assert forall|w: int, j: int|
        0 <= w < post.slots@.len() && (#[trigger] post.slots@[w]) is Some && 0 <= j
            < post.completed@.len() implies post.slots@[w]->Some_0.id != (
    #[trigger] post.completed@[j]).id by {
        assert(pre.slots@[w] is Some && pre.slots@[w]->Some_0.id == post.slots@[w]->Some_0.id);
        assert(post.completed@[j] == pre.completed@[j]);
    }
    assert forall|w: int, j: int|
        0 <= w < post.slots@.len() && (#[trigger] post.slots@[w]) is Some && 0 <= j
            < post.errored@.len() implies post.slots@[w]->Some_0.id != (
    #[trigger] post.errored@[j]).id by {
        assert(pre.slots@[w] is Some && pre.slots@[w]->Some_0.id == post.slots@[w]->Some_0.id);
        assert(post.errored@[j] == pre.errored@[j]);
    }
}

/// Emptying one slot preserves well-formedness.
proof fn lemma_wf_after_vacate(pre: Downloads, post: Downloads, w: int)
    requires
        pre.wf(),
        0 <= w < pre.slots@.len(),
        post.source.backlog@ == pre.source.backlog@,
        post.slots@ == pre.slots@.update(w, None::<InProgressTask>),
        post.completed@ == pre.completed@,
        post.errored@ == pre.errored@,
    ensures
        post.wf(),
{
    assert forall|w2: int|
        0 <= w2 < post.slots@.len() && (#[trigger] post.slots@[w2]) is Some implies pre.slots@[w2] is Some
            && pre.slots@[w2]->Some_0.id == post.slots@[w2]->Some_0.id by {
        if w2 != w {
            assert(post.slots@[w2] == pre.slots@[w2]);
        }
    }
    lemma_logs_distinct_preserved(pre, post);
    assert forall|i: int, j: int| 0 <= i < j < post.pending().len() implies (
    #[trigger] post.pending()[i]).id != (#[trigger] post.pending()[j]).id by {
        assert(post.pending()[i] == pre.pending()[i]);
        assert(post.pending()[j] == pre.pending()[j]);
    }
    assert forall|w1: int, w2: int|
        0 <= w1 < w2 < post.slots@.len() && (#[trigger] post.slots@[w1]) is Some && (
        #[trigger] post.slots@[w2]) is Some implies post.slots@[w1]->Some_0.id
        != post.slots@[w2]->Some_0.id by {
        if w1 != w && w2 != w {
            assert(pre.slots@[w1] == post.slots@[w1]);
            assert(pre.slots@[w2] == post.slots@[w2]);
        }
    }
    assert forall|i: int, w2: int|
        0 <= i < post.pending().len() && 0 <= w2 < post.slots@.len() && (
        #[trigger] post.slots@[w2]) is Some implies (#[trigger] post.pending()[i]).id
        != post.slots@[w2]->Some_0.id by {
        assert(post.pending()[i] == pre.pending()[i]);
        if w2 != w {
            assert(pre.slots@[w2] == post.slots@[w2]);
        }
    }
    assert forall|w2: int|
        0 <= w2 < post.slots@.len() && (#[trigger] post.slots@[w2]) is Some implies post.slots@[w2]->Some_0.progress
        <= 100 by {
        if w2 != w {
            assert(pre.slots@[w2] == post.slots@[w2]);
        }
    }
}

/// After a busy slot is vacated, the removed task's id is tracked
/// nowhere in the resulting state.
proof fn lemma_vacated_id_fresh(pre: Downloads, mid: Downloads, w: int)
    requires
        pre.wf(),
        0 <= w < pre.slots@.len(),
        pre.slots@[w] is Some,
        mid.source.backlog@ == pre.source.backlog@,
        mid.slots@ == pre.slots@.update(w, None::<InProgressTask>),
        mid.completed@ == pre.completed@,
        mid.errored@ == pre.errored@,
    ensures
        !mid.pending_has(pre.slots@[w]->Some_0.id),
        !mid.slot_has(pre.slots@[w]->Some_0.id),
        !mid.completed_has(pre.slots@[w]->Some_0.id),
        !mid.errored_has(pre.slots@[w]->Some_0.id),
{
    let id = pre.slots@[w]->Some_0.id;
    assert forall|i: int| 0 <= i < mid.pending().len() implies (#[trigger] mid.pending()[i]).id
        != id by {
        assert(mid.pending()[i] == pre.pending()[i]);
        assert((pre.pending()[i]).id != pre.slots@[w]->Some_0.id);
    }
    assert forall|w2: int|
        0 <= w2 < mid.slots@.len() && (#[trigger] mid.slots@[w2]) is Some implies mid.slots@[w2]->Some_0.id
        != id by {
        assert(w2 != w);
        assert(mid.slots@[w2] == pre.slots@[w2]);
    }
    assert forall|i: int| 0 <= i < mid.completed@.len() implies (#[trigger] mid.completed@[i]).id
        != id by {
        assert(mid.completed@[i] == pre.completed@[i]);
    }
    assert forall|i: int| 0 <= i < mid.errored@.len() implies (#[trigger] mid.errored@[i]).id
        != id by {
        assert(mid.errored@[i] == pre.errored@[i]);
    }
}

/// Logging a finished task whose id is tracked nowhere keeps the state
/// well-formed.
proof fn lemma_wf_after_complete(pre: Downloads, post: Downloads, f: FinishedTask)
    requires
        pre.wf(),
        !pre.pending_has(f.id),
        !pre.slot_has(f.id),
        !pre.completed_has(f.id),
        !pre.errored_has(f.id),
        post.source.backlog@ == pre.source.backlog@,
        post.slots@ == pre.slots@,
        post.completed@ == pre.completed@.push(f),
        post.errored@ == pre.errored@,
    ensures
        post.wf(),
{
    let n = pre.completed@.len() as int;
    assert forall|i: int, j: int| 0 <= i < j < post.pending().len() implies (
    #[trigger] post.pending()[i]).id != (#[trigger] post.pending()[j]).id by {
        assert(post.pending()[i] == pre.pending()[i]);
        assert(post.pending()[j] == pre.pending()[j]);
    }
    assert forall|w2: int|
        0 <= w2 < post.slots@.len() && (#[trigger] post.slots@[w2]) is Some implies pre.slots@[w2] is Some
            && pre.slots@[w2]->Some_0.id == post.slots@[w2]->Some_0.id by {
        assert(post.slots@[w2] == pre.slots@[w2]);
    }
    assert forall|i: int, j: int| 0 <= i < j < post.completed@.len() implies (
    #[trigger] post.completed@[i]).id != (#[trigger] post.completed@[j]).id by {
        assert(post.completed@[i] == pre.completed@[i]);
        if j < n {
            assert(post.completed@[j] == pre.completed@[j]);
        } else {
            assert(post.completed@[j] == f);
        }
    }
    assert forall|i: int, j: int|
        0 <= i < post.completed@.len() && 0 <= j < post.errored@.len() implies (
    #[trigger] post.completed@[i]).id != (#[trigger] post.errored@[j]).id by {
        assert(post.errored@[j] == pre.errored@[j]);
        if i < n {
            assert(post.completed@[i] == pre.completed@[i]);
        } else {
            assert(post.completed@[i] == f);
        }
    }
    assert forall|i: int, j: int|
        0 <= i < post.pending().len() && 0 <= j < post.completed@.len() implies (
    #[trigger] post.pending()[i]).id != (#[trigger] post.completed@[j]).id by {
        assert(post.pending()[i] == pre.pending()[i]);
        if j < n {
            assert(post.completed@[j] == pre.completed@[j]);
        } else {
            assert(post.completed@[j] == f);
        }
    }
    assert forall|w2: int, j: int|
        0 <= w2 < post.slots@.len() && (#[trigger] post.slots@[w2]) is Some && 0 <= j
            < post.completed@.len() implies post.slots@[w2]->Some_0.id != (
    #[trigger] post.completed@[j]).id by {
        assert(post.slots@[w2] == pre.slots@[w2]);
        if j < n {
            assert(post.completed@[j] == pre.completed@[j]);
        } else {
            assert(post.completed@[j] == f);
        }
    }
    assert forall|i: int, j: int| 0 <= i < j < post.errored@.len() implies (
    #[trigger] post.errored@[i]).id != (#[trigger] post.errored@[j]).id by {
        assert(post.errored@[i] == pre.errored@[i]);
        assert(post.errored@[j] == pre.errored@[j]);
    }
    assert forall|i: int, j: int|
        0 <= i < post.pending().len() && 0 <= j < post.errored@.len() implies (
    #[trigger] post.pending()[i]).id != (#[trigger] post.errored@[j]).id by {
        assert(post.pending()[i] == pre.pending()[i]);
        assert(post.errored@[j] == pre.errored@[j]);
    }
    assert forall|w2: int, j: int|
        0 <= w2 < post.slots@.len() && (#[trigger] post.slots@[w2]) is Some && 0 <= j
            < post.errored@.len() implies post.slots@[w2]->Some_0.id != (
    #[trigger] post.errored@[j]).id by {
        assert(post.slots@[w2] == pre.slots@[w2]);
        assert(post.errored@[j] == pre.errored@[j]);
    }
}

/// Logging a failed task whose id is tracked nowhere keeps the state
/// well-formed.
proof fn lemma_wf_after_fail(pre: Downloads, post: Downloads, f: FailedTask)
    requires
        pre.wf(),
        !pre.pending_has(f.id),
        !pre.slot_has(f.id),
        !pre.completed_has(f.id),
        !pre.errored_has(f.id),
        post.source.backlog@ == pre.source.backlog@,
        post.slots@ == pre.slots@,
        post.completed@ == pre.completed@,
        post.errored@ == pre.errored@.push(f),
    ensures
        post.wf(),
{
    let n = pre.errored@.len() as int;
    assert forall|i: int, j: int| 0 <= i < j < post.pending().len() implies (
    #[trigger] post.pending()[i]).id != (#[trigger] post.pending()[j]).id by {
        assert(post.pending()[i] == pre.pending()[i]);
        assert(post.pending()[j] == pre.pending()[j]);
    }
    assert forall|w2: int|
        0 <= w2 < post.slots@.len() && (#[trigger] post.slots@[w2]) is Some implies pre.slots@[w2] is Some
            && pre.slots@[w2]->Some_0.id == post.slots@[w2]->Some_0.id by {
        assert(post.slots@[w2] == pre.slots@[w2]);
    }
    assert forall|i: int, j: int| 0 <= i < j < post.errored@.len() implies (
    #[trigger] post.errored@[i]).id != (#[trigger] post.errored@[j]).id by {
        assert(post.errored@[i] == pre.errored@[i]);
        if j < n {
            assert(post.errored@[j] == pre.errored@[j]);
        } else {
            assert(post.errored@[j] == f);
        }
    }
    assert forall|i: int, j: int|
        0 <= i < post.completed@.len() && 0 <= j < post.errored@.len() implies (
    #[trigger] post.completed@[i]).id != (#[trigger] post.errored@[j]).id by {
        assert(post.completed@[i] == pre.completed@[i]);
        if j < n {
            assert(post.errored@[j] == pre.errored@[j]);
        } else {
            assert(post.errored@[j] == f);
        }
    }
    assert forall|i: int, j: int|
        0 <= i < post.pending().len() && 0 <= j < post.errored@.len() implies (
    #[trigger] post.pending()[i]).id != (#[trigger] post.errored@[j]).id by {
        assert(post.pending()[i] == pre.pending()[i]);
        if j < n {
            assert(post.errored@[j] == pre.errored@[j]);
        } else {
            assert(post.errored@[j] == f);
        }
    }
    assert forall|w2: int, j: int|
        0 <= w2 < post.slots@.len() && (#[trigger] post.slots@[w2]) is Some && 0 <= j
            < post.errored@.len() implies post.slots@[w2]->Some_0.id != (
    #[trigger] post.errored@[j]).id by {
        assert(post.slots@[w2] == pre.slots@[w2]);
        if j < n {
            assert(post.errored@[j] == pre.errored@[j]);
        } else {
            assert(post.errored@[j] == f);
        }
    }
    assert forall|i: int, j: int| 0 <= i < j < post.completed@.len() implies (
    #[trigger] post.completed@[i]).id != (#[trigger] post.completed@[j]).id by {
        assert(post.completed@[i] == pre.completed@[i]);
        assert(post.completed@[j] == pre.completed@[j]);
    }
    assert forall|i: int, j: int|
        0 <= i < post.pending().len() && 0 <= j < post.completed@.len() implies (
    #[trigger] post.pending()[i]).id != (#[trigger] post.completed@[j]).id by {
        assert(post.pending()[i] == pre.pending()[i]);
        assert(post.completed@[j] == pre.completed@[j]);
    }
    assert forall|w2: int, j: int|
        0 <= w2 < post.slots@.len() && (#[trigger] post.slots@[w2]) is Some && 0 <= j
            < post.completed@.len() implies post.slots@[w2]->Some_0.id != (
    #[trigger] post.completed@[j]).id by {
        assert(post.slots@[w2] == pre.slots@[w2]);
        assert(post.completed@[j] == pre.completed@[j]);
    }
}

/// Rewriting one entry's percentage (id unchanged, at most 100)
/// preserves well-formedness.
proof fn lemma_wf_after_progress(pre: Downloads, post: Downloads, w: int, percent: u64)
    requires
        pre.wf(),
        0 <= w < pre.slots@.len(),
        pre.slots@[w] is Some,
        percent <= 100,
        post.source.backlog@ == pre.source.backlog@,
        post.slots@ == pre.slots@.update(
            w,
            Some(
                InProgressTask {
                    id: pre.slots@[w]->Some_0.id,
                    name: pre.slots@[w]->Some_0.name,
                    started_at: pre.slots@[w]->Some_0.started_at,
                    progress: percent,
                },
            ),
        ),
        post.completed@ == pre.completed@,
        post.errored@ == pre.errored@,
    ensures
        post.wf(),
{
    assert forall|w2: int|
        0 <= w2 < post.slots@.len() && (#[trigger] post.slots@[w2]) is Some implies pre.slots@[w2] is Some
            && pre.slots@[w2]->Some_0.id == post.slots@[w2]->Some_0.id by {
        if w2 != w {
            assert(post.slots@[w2] == pre.slots@[w2]);
        }
    }
    lemma_logs_distinct_preserved(pre, post);
    assert forall|i: int, j: int| 0 <= i < j < post.pending().len() implies (
    #[trigger] post.pending()[i]).id != (#[trigger] post.pending()[j]).id by {
        assert(post.pending()[i] == pre.pending()[i]);
        assert(post.pending()[j] == pre.pending()[j]);
    }
    assert forall|w1: int, w2: int|
        0 <= w1 < w2 < post.slots@.len() && (#[trigger] post.slots@[w1]) is Some && (
        #[trigger] post.slots@[w2]) is Some implies post.slots@[w1]->Some_0.id
        != post.slots@[w2]->Some_0.id by {
        assert(pre.slots@[w1] is Some && pre.slots@[w1]->Some_0.id == post.slots@[w1]->Some_0.id);
        assert(pre.slots@[w2] is Some && pre.slots@[w2]->Some_0.id == post.slots@[w2]->Some_0.id);
    }
    assert forall|i: int, w2: int|
        0 <= i < post.pending().len() && 0 <= w2 < post.slots@.len() && (
        #[trigger] post.slots@[w2]) is Some implies (#[trigger] post.pending()[i]).id
        != post.slots@[w2]->Some_0.id by {
        assert(post.pending()[i] == pre.pending()[i]);
        assert(pre.slots@[w2] is Some && pre.slots@[w2]->Some_0.id == post.slots@[w2]->Some_0.id);
    }
    assert forall|w2: int|
        0 <= w2 < post.slots@.len() && (#[trigger] post.slots@[w2]) is Some implies post.slots@[w2]->Some_0.progress
        <= 100 by {
        if w2 != w {
            assert(pre.slots@[w2] == post.slots@[w2]);
        }
    }
}

/// Dispatching the backlog head into one empty slot preserves
/// well-formedness: its id is distinct from every other live id.
proof fn lemma_wf_after_dispatch(pre: Downloads, post: Downloads, w: int, now_ms: u64)
    requires
        pre.wf(),
        0 <= w < pre.slots@.len(),
        pre.pending().len() > 0,
        post.source.backlog@ == pre.source.backlog@.drop_first(),
        post.slots@ == pre.slots@.update(
            w,
            Some(
                InProgressTask {
                    id: pre.pending()[0].id,
                    name: pre.pending()[0].name,
                    started_at: now_ms,
                    progress: 0,
                },
            ),
        ),
        post.completed@ == pre.completed@,
        post.errored@ == pre.errored@,
    ensures
        post.wf(),
{
    assert forall|i: int, j: int| 0 <= i < j < post.pending().len() implies (
    #[trigger] post.pending()[i]).id != (#[trigger] post.pending()[j]).id by {
        assert(post.pending()[i] == pre.pending()[i + 1]);
        assert(post.pending()[j] == pre.pending()[j + 1]);
    }
    assert forall|w1: int, w2: int|
        0 <= w1 < w2 < post.slots@.len() && (#[trigger] post.slots@[w1]) is Some && (
        #[trigger] post.slots@[w2]) is Some implies post.slots@[w1]->Some_0.id
        != post.slots@[w2]->Some_0.id by {
        if w1 == w {
            assert(pre.slots@[w2] == post.slots@[w2]);
            assert((#[trigger] pre.pending()[0]).id != pre.slots@[w2]->Some_0.id);
        } else if w2 == w {
            assert(pre.slots@[w1] == post.slots@[w1]);
            assert((#[trigger] pre.pending()[0]).id != pre.slots@[w1]->Some_0.id);
        } else {
            assert(pre.slots@[w1] == post.slots@[w1]);
            assert(pre.slots@[w2] == post.slots@[w2]);
        }
    }
    assert forall|i: int, w2: int|
        0 <= i < post.pending().len() && 0 <= w2 < post.slots@.len() && (
        #[trigger] post.slots@[w2]) is Some implies (#[trigger] post.pending()[i]).id
        != post.slots@[w2]->Some_0.id by {
        assert(post.pending()[i] == pre.pending()[i + 1]);
        if w2 == w {
            assert((#[trigger] pre.pending()[0]).id != pre.pending()[i + 1].id);
        } else {
            assert(pre.slots@[w2] == post.slots@[w2]);
        }
    }
    assert forall|w2: int|
        0 <= w2 < post.slots@.len() && (#[trigger] post.slots@[w2]) is Some implies post.slots@[w2]->Some_0.progress
        <= 100 by {
        if w2 != w {
            assert(pre.slots@[w2] == post.slots@[w2]);
        }
    }
    assert forall|i: int, j: int| 0 <= i < j < post.completed@.len() implies (
    #[trigger] post.completed@[i]).id != (#[trigger] post.completed@[j]).id by {
        assert(post.completed@[i] == pre.completed@[i]);
        assert(post.completed@[j] == pre.completed@[j]);
    }
    assert forall|i: int, j: int| 0 <= i < j < post.errored@.len() implies (
    #[trigger] post.errored@[i]).id != (#[trigger] post.errored@[j]).id by {
        assert(post.errored@[i] == pre.errored@[i]);
        assert(post.errored@[j] == pre.errored@[j]);
    }
    assert forall|i: int, j: int|
        0 <= i < post.completed@.len() && 0 <= j < post.errored@.len() implies (
    #[trigger] post.completed@[i]).id != (#[trigger] post.errored@[j]).id by {
        assert(post.completed@[i] == pre.completed@[i]);
        assert(post.errored@[j] == pre.errored@[j]);
    }
    assert forall|i: int, j: int|
        0 <= i < post.pending().len() && 0 <= j < post.completed@.len() implies (
    #[trigger] post.pending()[i]).id != (#[trigger] post.completed@[j]).id by {
        assert(post.pending()[i] == pre.pending()[i + 1]);
        assert(post.completed@[j] == pre.completed@[j]);
    }
    assert forall|i: int, j: int|
        0 <= i < post.pending().len() && 0 <= j < post.errored@.len() implies (
    #[trigger] post.pending()[i]).id != (#[trigger] post.errored@[j]).id by {
        assert(post.pending()[i] == pre.pending()[i + 1]);
        assert(post.errored@[j] == pre.errored@[j]);
    }
    assert forall|w2: int, j: int|
        0 <= w2 < post.slots@.len() && (#[trigger] post.slots@[w2]) is Some && 0 <= j
            < post.completed@.len() implies post.slots@[w2]->Some_0.id != (
    #[trigger] post.completed@[j]).id by {
        assert(post.completed@[j] == pre.completed@[j]);
        if w2 == w {
            assert((#[trigger] pre.pending()[0]).id != pre.completed@[j].id);
        } else {
            assert(pre.slots@[w2] == post.slots@[w2]);
        }
    }
    assert forall|w2: int, j: int|
        0 <= w2 < post.slots@.len() && (#[trigger] post.slots@[w2]) is Some && 0 <= j
            < post.errored@.len() implies post.slots@[w2]->Some_0.id != (
    #[trigger] post.errored@[j]).id by {
        assert(post.errored@[j] == pre.errored@[j]);
        if w2 == w {
            assert((#[trigger] pre.pending()[0]).id != pre.errored@[j].id);
        } else {
            assert(pre.slots@[w2] == post.slots@[w2]);
        }
    }
}

/// A dispatched task is consumed exactly once: whenever a vacated slot
/// is refilled with an assignment, the assigned task is the old backlog
/// head, it is now in progress in the assigned worker's slot, and it is
/// no longer pending anywhere — so no later step can dispatch it again.
pub proof fn lemma_dispatch_consumes_head(
    pre: Downloads,
    post: Downloads,
    assignment: Option<Assignment>,
    finished: bool,
    w: int,
    now_ms: u64,
)
    requires
        pre.wf(),
        0 <= w < pre.slots@.len(),
        vacated_refilled(pre, post, assignment, finished, w, now_ms),
        assignment is Some,
    ensures
        pre.pending().len() > 0,
        assignment->Some_0.task_id == pre.pending()[0].id,
        assignment->Some_0.worker as int == w,
        post.entry_matches(w, assignment->Some_0.task_id),
        !post.pending_has(assignment->Some_0.task_id),
        post.pending().len() == pre.pending().len() - 1,
{
    vstd::std_specs::vec::axiom_spec_len(&pre.slots);
    let head = pre.pending()[0];
    if post.pending_has(head.id) {
        let i = choose|i: int|
            0 <= i < post.pending().len() && (#[trigger] post.pending()[i]).id == head.id;
        assert(post.pending()[i] == pre.pending()[i + 1]);
        assert((pre.pending()[0]).id != (pre.pending()[i + 1]).id);
        assert(false);
    }
}

/// Dispatch is exclusive: in a well-formed state a pending task is
/// never also in progress, so handing out the backlog head can never
/// give one task to two workers.
pub proof fn lemma_live_ids_exclusive(d: Downloads, id: u64)
    requires
        d.wf(),
        d.pending_has(id),
    ensures
        !d.slot_has(id),
{
    let i = choose|i: int| 0 <= i < d.pending().len() && (#[trigger] d.pending()[i]).id == id;
    if d.slot_has(id) {
        let w = choose|w: int|
            {
                &&& 0 <= w < d.slots@.len()
                &&& (#[trigger] d.slots@[w]) is Some
                &&& d.slots@[w]->Some_0.id == id
            };
        assert((d.pending()[i]).id != d.slots@[w]->Some_0.id);
        assert(false);
    }
}

} // verus!

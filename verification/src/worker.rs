use vstd::arithmetic::div_mod::{lemma_div_is_ordered, lemma_div_multiples_vanish, lemma_div_pos_is_pos};
use vstd::prelude::*;

verus! {

/// Percent-complete as the workers report it: zero while the total is
/// still unknown (recorded as zero), otherwise the integer part of
/// `done * 100 / total`.
pub open spec fn percent_spec(done: u64, total: u64) -> int {
    if total == 0 {
        0
    } else {
        (done as int) * 100 / (total as int)
    }
}

pub proof fn lemma_percent_bounds(done: u64, total: u64)
    requires
        done <= total,
    ensures
        0 <= percent_spec(done, total) <= 100,
        total > 0 && done == total ==> percent_spec(done, total) == 100,
{
    if total > 0 {
        lemma_div_pos_is_pos(done as int * 100, total as int);
        lemma_div_is_ordered(done as int * 100, total as int * 100, total as int);
        lemma_div_multiples_vanish(100, total as int);
    }
}

/// Successive reports for one task never decrease: more finished units
/// can only raise the percentage.
pub proof fn lemma_percent_monotone(done_before: u64, done_after: u64, total: u64)
    requires
        done_before <= done_after,
    ensures
        percent_spec(done_before, total) <= percent_spec(done_after, total),
{
    if total > 0 {
        lemma_div_is_ordered(done_before as int * 100, done_after as int * 100, total as int);
    }
}

/// The percentage a worker attaches to a progress event.
pub fn percent_complete(done: u64, total: u64) -> (r: u64)
    requires
        done <= total || total == 0,
    ensures
        r == percent_spec(done, total),
        r <= 100,
        total > 0 && done == total ==> r == 100,
{
    if total == 0 {
        0
    } else {
        proof {
            lemma_percent_bounds(done, total);
        }
        (((done as u128) * 100) / (total as u128)) as u64
    }
}

/// A worker's view of the one task it is executing: the task's size and
/// the units finished so far.  The worker advances in bounded chunks and
/// reports the resulting percentage after each chunk; its progress
/// events therefore form a non-decreasing sequence ending at 100.
pub struct WorkerRun {
    pub size: u64,
    pub done: u64,
}

impl WorkerRun {
    pub open spec fn wf(self) -> bool {
        self.done <= self.size
    }

    pub open spec fn percent(self) -> int {
        percent_spec(self.done, self.size)
    }

    /// Start on a fresh task of the given size.
    pub fn begin(size: u64) -> (w: WorkerRun)
        ensures
            w.wf(),
            w.size == size,
            w.done == 0,
    {
        WorkerRun { size, done: 0 }
    }

    /// Finish up to `chunk` more units, never beyond the task's size,
    /// and return the new percent-complete.
    pub fn advance(&mut self, chunk: u64) -> (pct: u64)
        requires
            old(self).wf(),
        ensures
            final(self).wf(),
            final(self).size == old(self).size,
            final(self).done == if old(self).done + chunk <= old(self).size {
                old(self).done + chunk
            } else {
                old(self).size as int
            },
            pct == final(self).percent(),
            old(self).percent() <= pct <= 100,
            final(self).done == final(self).size && final(self).size > 0 ==> pct == 100,
    {
        let remaining = self.size - self.done;
        let step = if chunk <= remaining {
            chunk
        } else {
            remaining
        };
        self.done = self.done + step;
        proof {
            lemma_percent_monotone(old(self).done, self.done, self.size);
        }
        percent_complete(self.done, self.size)
    }

    /// True once every unit of the task is finished.
    pub fn is_finished(&self) -> (r: bool)
        ensures
            r == (self.done == self.size),
    {
        self.done == self.size
    }
}

} // verus!

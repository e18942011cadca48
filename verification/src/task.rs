use vstd::prelude::*;

verus! {

/// One independently completable unit of work: a stable identifier, a
/// display name, and a size in abstract work units (bytes, for a
/// download) from which progress percentages are derived.
pub struct Task {
    pub id: u64,
    pub name: String,
    pub size: u64,
}

/// The ordered backlog of tasks that no worker has claimed yet.
///
/// Only the aggregator ever touches the backlog, so a plain vector with a
/// first-in-first-out discipline is the whole data structure.
pub struct TaskSource {
    pub backlog: Vec<Task>,
}

impl TaskSource {
    pub fn new() -> (s: Self)
        ensures
            s.backlog@ == Seq::<Task>::empty(),
    {
        TaskSource { backlog: Vec::new() }
    }

    /// Append a task at the tail of the backlog.
    pub fn push(&mut self, t: Task)
        ensures
            final(self).backlog@ == old(self).backlog@.push(t),
    {
        self.backlog.push(t);
    }

    pub fn len(&self) -> (n: usize)
        ensures
            n == self.backlog@.len(),
    {
        self.backlog.len()
    }

    /// Remove and return the head of the backlog in arrival order
    /// (first in, first out); `None` once the backlog is empty.
    pub fn take_next(&mut self) -> (r: Option<Task>)
        ensures
            old(self).backlog@.len() == 0 ==> r is None && *final(self) == *old(self),
            old(self).backlog@.len() > 0 ==> {
                &&& r == Some(old(self).backlog@[0])
                &&& final(self).backlog@ == old(self).backlog@.drop_first()
            },
    {
        if self.backlog.len() == 0 {
            None
        } else {
            let head = self.backlog.remove(0);
            proof {
                assert(self.backlog@ =~= old(self).backlog@.drop_first());
            }
            Some(head)
        }
    }
}

} // verus!

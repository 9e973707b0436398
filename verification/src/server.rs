//! The dispatcher's books: how many connections are live, which tasks serve
//! them, and whether one more may be admitted.
//!
//! `H` is whatever the caller uses to watch a task; the list only stores it.

use vstd::prelude::*;

verus! {

/// Live connections of one listener.
pub struct ConnectionList<H> {
    count: usize,
    tasks: Vec<H>,
}

/// The list as plain values: the number of admitted connections that have not
/// been reaped, and the handles of their tasks in the order of admission.
pub struct ConnectionListView<H> {
    pub count: nat,
    pub tasks: Seq<H>,
}

impl<H> View for ConnectionList<H> {
    type V = ConnectionListView<H>;

    closed spec fn view(&self) -> ConnectionListView<H> {
        ConnectionListView { count: self.count as nat, tasks: self.tasks@ }
    }
}

/// Whether task `i` is reported as finished. A task without a report is not.
pub open spec fn reported(finished: Seq<bool>, i: int) -> bool {
    0 <= i < finished.len() && finished[i]
}

/// The tasks from index `i` on that are not reported as finished, in order.
pub open spec fn unfinished_from<H>(tasks: Seq<H>, finished: Seq<bool>, i: int) -> Seq<H>
    decreases tasks.len() - i,
{
    if i < 0 || i >= tasks.len() {
        Seq::empty()
    } else if reported(finished, i) {
        unfinished_from(tasks, finished, i + 1)
    } else {
        seq![tasks[i]] + unfinished_from(tasks, finished, i + 1)
    }
}

/// The tasks that are not reported as finished, in order.
pub open spec fn unfinished<H>(tasks: Seq<H>, finished: Seq<bool>) -> Seq<H> {
    unfinished_from(tasks, finished, 0)
}

/// The list after the admission check for one more connection under the cap
/// `maximum`, and whether the connection is admitted.
pub open spec fn admission<H>(s: ConnectionListView<H>, maximum: usize) -> (
    ConnectionListView<H>,
    bool,
) {
    if s.count >= maximum {
        (s, false)
    } else {
        (ConnectionListView { count: s.count + 1, tasks: s.tasks }, true)
    }
}

/// The list after a reaping: the tasks reported as finished are gone, and the
/// count is lower by their number.
pub open spec fn reaped<H>(s: ConnectionListView<H>, finished: Seq<bool>) -> ConnectionListView<H> {
    let kept = unfinished(s.tasks, finished);
    ConnectionListView { count: (s.count - (s.tasks.len() - kept.len())) as nat, tasks: kept }
}

impl<H> ConnectionList<H> {
    /// Every stored task belongs to a counted connection.
    pub open spec fn wf(&self) -> bool {
        self@.tasks.len() <= self@.count
    }

    /// The list of a listener that has admitted nothing yet.
    pub fn new() -> (r: Self)
        ensures
            r.wf(),
            r@ == (ConnectionListView::<H> { count: 0, tasks: Seq::empty() }),
    {
        ConnectionList { count: 0, tasks: Vec::new() }
    }

    /// Number of live connections.
    pub fn live(&self) -> (n: usize)
        ensures
            n == self@.count,
    {
        self.count
    }

    /// The stored task handles.
    pub fn tasks(&self) -> (t: &Vec<H>)
        ensures
            t@ == self@.tasks,
    {
        &self.tasks
    }

    /// Number of admitted connections whose task has not been attached yet.
    pub fn pending(&self) -> (n: usize)
        requires
            self.wf(),
        ensures
            n == self@.count - self@.tasks.len(),
    {
        self.count - self.tasks.len()
    }

    /// Decides on a new connection: refused when `maximum` connections are
    /// live, else counted.
    pub fn on_accept(&mut self, maximum: usize) -> (admitted: bool)
        requires
            old(self).wf(),
        ensures
            final(self).wf(),
            (final(self)@, admitted) == admission(old(self)@, maximum),
    {
        if self.count >= maximum {
            false
        } else {
            self.count = self.count + 1;
            true
        }
    }

    /// Stores the handle of the task that serves an admitted connection.
    pub fn attach(&mut self, handle: H)
        requires
            old(self).wf(),
            old(self)@.tasks.len() < old(self)@.count,
        ensures
            final(self).wf(),
            final(self)@ == (ConnectionListView {
                count: old(self)@.count,
                tasks: old(self)@.tasks.push(handle),
            }),
    {
        self.tasks.push(handle);
    }

    /// Removes the tasks that are reported as finished, `finished[i]` being
    /// the report on task `i`, and counts their connections off. Returns
    /// their number.
    pub fn reap(&mut self, finished: &Vec<bool>) -> (removed: usize)
        requires
            old(self).wf(),
        ensures
            final(self).wf(),
            final(self)@ == reaped(old(self)@, finished@),
            removed == old(self)@.tasks.len() - final(self)@.tasks.len(),
    {
        let ghost before = self.tasks@;
        let mut removed: usize = 0;
        let mut i: usize = self.tasks.len();
        while i > 0
            invariant
                i <= before.len(),
                self.tasks@ == before.subrange(0, i as int) + unfinished_from(
                    before,
                    finished@,
                    i as int,
                ),
                removed == before.len() - self.tasks@.len(),
                self.count == old(self).count - removed,
                before.len() <= old(self).count,
            decreases i,
        {
            i -= 1;
            if i < finished.len() && finished[i] {
                self.tasks.remove(i);
                self.count = self.count - 1;
                removed = removed + 1;
            }
        }
        removed
    }
}

} // verus!

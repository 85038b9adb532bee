//! The task registry: each connection record, with the socket it belongs to,
//! kept index-aligned with its entry in the readiness table. Entry 0 of the
//! table is the listener, so task `i` owns entry `i + 1`.
use vstd::prelude::*;
use crate::connection::{Connection, ConnectionState};
use crate::pollq::{lists_actives, PollError, PollQueue, PqFd};

verus! {

/// One accepted peer: its socket and its protocol state.
pub struct Task<S> {
    pub stream: S,
    pub conn: Connection,
}

pub struct TaskPollQueue<S> {
    tasks: Vec<Task<S>>,
    pollq: PollQueue,
}

impl<S> TaskPollQueue<S> {
    pub closed spec fn tasks_spec(&self) -> Seq<Task<S>> {
        self.tasks@
    }

    pub closed spec fn entries(&self) -> Seq<PqFd> {
        self.pollq.entries()
    }

    /// The readiness table holds the listener and one entry per task.
    pub open spec fn wf(&self) -> bool {
        self.entries().len() == self.tasks_spec().len() + 1
    }

    pub fn new(listener_fd: i32) -> (r: TaskPollQueue<S>)
        ensures
            r.wf(),
            r.tasks_spec() == Seq::<Task<S>>::empty(),
            r.entries() == seq![PqFd { fd: listener_fd, events: 1, revents: 0 }],
    {
        TaskPollQueue { tasks: Vec::new(), pollq: PollQueue::new(listener_fd) }
    }

    /// Number of registered connections.
    pub fn len(&self) -> (r: usize)
        ensures
            r == self.tasks_spec().len(),
    {
        self.tasks.len()
    }

    /// Registers a newly accepted peer, whose descriptor is `fd`, as a fresh
    /// connection at the end of both tables.
    pub fn add_new_conn(&mut self, fd: i32, stream: S)
        requires
            old(self).wf(),
        ensures
            final(self).wf(),
            final(self).entries() == old(self).entries().push(PqFd { fd, events: 9, revents: 0 }),
            final(self).tasks_spec().len() == old(self).tasks_spec().len() + 1,
            final(self).tasks_spec().drop_last() == old(self).tasks_spec(),
            final(self).tasks_spec().last().stream == stream,
            final(self).tasks_spec().last().conn.wf(),
            final(self).tasks_spec().last().conn.state_spec() == ConnectionState::Reading,
            final(self).tasks_spec().last().conn.input() == Seq::<u8>::empty(),
            final(self).tasks_spec().last().conn.output() == Seq::<u8>::empty(),
    {
        self.pollq.insert(fd);
        let task = Task { stream, conn: Connection::new() };
        self.tasks.push(task);
        assert(self.tasks@.drop_last() =~= old(self).tasks@);
    }

    /// Removes task `i` together with its readiness entry, and hands it back.
    pub fn remove_conn(&mut self, i: usize) -> (r: Task<S>)
        requires
            old(self).wf(),
            i < old(self).tasks_spec().len(),
        ensures
            final(self).wf(),
            r == old(self).tasks_spec()[i as int],
            final(self).tasks_spec() == old(self).tasks_spec().remove(i as int),
            final(self).entries() == old(self).entries().remove(i + 1),
    {
        let n = self.pollq.fds().len();
        assert(i + 1 < n);
        self.pollq.remove(i + 1);
        self.tasks.remove(i)
    }

    /// Task `i`, to be driven in place.
    pub fn task_mut(&mut self, i: usize) -> (r: &mut Task<S>)
        requires
            i < old(self).tasks_spec().len(),
        ensures
            *r == old(self).tasks_spec()[i as int],
            final(self).tasks_spec() == old(self).tasks_spec().update(i as int, *final(r)),
            final(self).entries() == old(self).entries(),
    {
        &mut self.tasks[i]
    }

    /// The readiness entries, in order, to hand to the poll call.
    pub fn fds(&self) -> (r: &Vec<PqFd>)
        ensures
            r@ == self.entries(),
    {
        self.pollq.fds()
    }

    /// Records what a poll reported for each entry.
    pub fn set_revents(&mut self, revents: &Vec<i16>)
        requires
            old(self).wf(),
            revents@.len() == old(self).entries().len(),
        ensures
            final(self).wf(),
            final(self).tasks_spec() == old(self).tasks_spec(),
            forall|i: int|
                0 <= i < revents@.len() ==> #[trigger] final(self).entries()[i] == (PqFd {
                    fd: old(self).entries()[i].fd,
                    events: old(self).entries()[i].events,
                    revents: revents@[i],
                }),
    {
        self.pollq.set_revents(revents);
    }

    /// After a poll that returned `res`, the indices of the ready entries,
    /// the listener's being 0.
    pub fn poll_actives(&self, res: i32) -> (r: Result<Vec<usize>, PollError>)
        ensures
            res <= 0 ==> r == Err::<Vec<usize>, PollError>(PollError(res)),
            res > 0 ==> r is Ok && lists_actives(self.entries(), r->Ok_0@),
    {
        self.pollq.get_active_connections(res)
    }
}

} // verus!

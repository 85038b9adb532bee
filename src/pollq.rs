//! The readiness table: one entry per descriptor, the listener first. The
//! poll call itself is made by the caller, which hands back what the kernel
//! reported for each entry.
use vstd::prelude::*;

verus! {

/// Relies on `libc::POLLIN`: the "readable" event bit, 0x1.
#[verifier::external_body]
fn poll_in() -> (r: i16)
    ensures
        r == 1,
{
    libc::POLLIN
}

/// Relies on `libc::POLLOUT`: the "writable" event bit, 0x4.
#[verifier::external_body]
fn poll_out() -> (r: i16)
    ensures
        r == 4,
{
    libc::POLLOUT
}

/// Relies on `libc::POLLERR`: the "error condition" event bit, 0x8.
#[verifier::external_body]
fn poll_err() -> (r: i16)
    ensures
        r == 8,
{
    libc::POLLERR
}

/// One polled descriptor: its number, the events asked for, and the events
/// the last poll reported.
#[derive(Debug, Clone, Copy, PartialEq, Eq, Structural)]
pub struct PqFd {
    pub fd: i32,
    pub events: i16,
    pub revents: i16,
}

impl PqFd {
    /// The listener's entry: interested in readability.
    pub fn new_listener_fd(fd: i32) -> (r: PqFd)
        ensures
            r == (PqFd { fd, events: 1, revents: 0 }),
    {
        PqFd { fd, events: poll_in(), revents: 0 }
    }

    /// A connection's entry: interested in readability and errors.
    pub fn new_connection_fd(fd: i32) -> (r: PqFd)
        ensures
            r == (PqFd { fd, events: 9, revents: 0 }),
    {
        let events = poll_in() | poll_err();
        assert(1i16 | 8i16 == 9i16) by (bit_vector);
        PqFd { fd, events, revents: 0 }
    }

    /// Switches the interest between reading and writing, keeping the other
    /// event bits.
    pub fn change_events(&mut self, reading: bool)
        ensures
            final(self).fd == old(self).fd,
            final(self).revents == old(self).revents,
            final(self).events == (old(self).events & !5i16) | (if reading {
                1i16
            } else {
                4i16
            }),
    {
        let mut new_events = self.events;
        new_events = new_events & !(poll_in() | poll_out());
        new_events = new_events | if reading {
            poll_in()
        } else {
            poll_out()
        };
        assert(1i16 | 4i16 == 5i16) by (bit_vector);
        self.events = new_events;
    }

    /// Whether the last poll reported any event.
    pub fn is_active(&self) -> (r: bool)
        ensures
            r == (self.revents != 0),
    {
        self.revents != 0
    }
}

/// A failed poll, with the status the call returned.
#[derive(Debug, Clone, Copy, PartialEq, Eq, Structural)]
pub struct PollError(pub i32);

/// `r` lists, in increasing order, exactly the indices of the entries of
/// `fds` that the last poll reported active.
pub open spec fn lists_actives(fds: Seq<PqFd>, r: Seq<usize>) -> bool {
    &&& forall|j: int|
        #![trigger r[j]]
        0 <= j < r.len() ==> r[j] < fds.len() && fds[r[j] as int].revents != 0
    &&& forall|j: int, k: int| 0 <= j < k < r.len() ==> r[j] < r[k]
    &&& forall|i: int| 0 <= i < fds.len() && #[trigger] fds[i].revents != 0 ==> exists|j: int|
        0 <= j < r.len() && r[j] == i
}

/// The descriptors to poll: entry 0 is the listener.
pub struct PollQueue {
    fds: Vec<PqFd>,
}

impl PollQueue {
    pub closed spec fn entries(&self) -> Seq<PqFd> {
        self.fds@
    }

    pub fn new(listener_fd: i32) -> (r: PollQueue)
        ensures
            r.entries() == seq![PqFd { fd: listener_fd, events: 1, revents: 0 }],
    {
        let mut fds: Vec<PqFd> = Vec::new();
        fds.push(PqFd::new_listener_fd(listener_fd));
        assert(fds@ =~= seq![PqFd { fd: listener_fd, events: 1, revents: 0 }]);
        PollQueue { fds }
    }

    /// Registers a connection's descriptor at the end.
    pub fn insert(&mut self, fd: i32)
        ensures
            final(self).entries() == old(self).entries().push(
                PqFd { fd, events: 9, revents: 0 },
            ),
    {
        let pqfd = PqFd::new_connection_fd(fd);
        self.fds.push(pqfd);
    }

    /// Drops entry `i`.
    pub fn remove(&mut self, i: usize)
        requires
            i < old(self).entries().len(),
        ensures
            final(self).entries() == old(self).entries().remove(i as int),
    {
        self.fds.remove(i);
    }

    /// The entries, in order, to hand to the poll call.
    pub fn fds(&self) -> (r: &Vec<PqFd>)
        ensures
            r@ == self.entries(),
    {
        &self.fds
    }

    /// Records what a poll reported: `revents[i]` for entry `i`.
    pub fn set_revents(&mut self, revents: &Vec<i16>)
        requires
            revents@.len() == old(self).entries().len(),
        ensures
            final(self).entries().len() == old(self).entries().len(),
            forall|i: int|
                0 <= i < revents@.len() ==> #[trigger] final(self).entries()[i] == (PqFd {
                    fd: old(self).entries()[i].fd,
                    events: old(self).entries()[i].events,
                    revents: revents@[i],
                }),
    {
        let mut i: usize = 0;
        while i < revents.len()
            invariant
                i <= revents@.len(),
                self.fds@.len() == revents@.len(),
                forall|j: int|
                    0 <= j < i ==> #[trigger] self.fds@[j] == (PqFd {
                        fd: old(self).fds@[j].fd,
                        events: old(self).fds@[j].events,
                        revents: revents@[j],
                    }),
                forall|j: int| i <= j < revents@.len() ==> #[trigger] self.fds@[j] == old(self).fds@[j],
            decreases revents@.len() - i,
        {
            let e = self.fds[i];
            self.fds[i] = PqFd { fd: e.fd, events: e.events, revents: revents[i] };
            i = i + 1;
        }
    }

    /// What a poll call's return value `res` means: a positive count of
    /// ready descriptors, or a failure carrying the status.
    pub fn poll_result(res: i32) -> (r: Result<(), PollError>)
        ensures
            res > 0 ==> r is Ok,
            res <= 0 ==> r == Err::<(), PollError>(PollError(res)),
    {
        if res > 0 {
            Ok(())
        } else {
            Err(PollError(res))
        }
    }

    /// After a poll that returned `res`, the indices of the entries it
    /// reported active, in registration order.
    pub fn get_active_connections(&self, res: i32) -> (r: Result<Vec<usize>, PollError>)
        ensures
            res <= 0 ==> r == Err::<Vec<usize>, PollError>(PollError(res)),
            res > 0 ==> r is Ok && lists_actives(self.entries(), r->Ok_0@),
    {
        match PollQueue::poll_result(res) {
            Ok(()) => {},
            Err(e) => return Err(e),
        }
        let mut actives: Vec<usize> = Vec::new();
        let mut i: usize = 0;
        while i < self.fds.len()
            invariant
                i <= self.fds@.len(),
                forall|j: int|
                    #![trigger actives@[j]]
                    0 <= j < actives@.len() ==> actives@[j] < i && self.fds@[actives@[j] as int].revents
                        != 0,
                forall|j: int, k: int| 0 <= j < k < actives@.len() ==> actives@[j] < actives@[k],
                forall|m: int|
                    0 <= m < i && #[trigger] self.fds@[m].revents != 0 ==> exists|j: int|
                        0 <= j < actives@.len() && actives@[j] == m,
            decreases self.fds@.len() - i,
        {
            if self.fds[i].is_active() {
                let ghost prev = actives@;
                actives.push(i);
                assert(actives@ == prev.push(i));
                assert(self.fds@[i as int].revents != 0);
                assert(actives@[prev.len() as int] == i);
                assert forall|j: int| 0 <= j < actives@.len() implies #[trigger] actives@[j] < i + 1
                    && self.fds@[actives@[j] as int].revents != 0 by {
                    if j < prev.len() {
                        assert(actives@[j] == prev[j]);
                    }
                }
                assert forall|j: int, k: int| 0 <= j < k < actives@.len() implies actives@[j]
                    < actives@[k] by {
                    if k < prev.len() {
                        assert(actives@[j] == prev[j] && actives@[k] == prev[k]);
                    } else {
                        assert(actives@[j] == prev[j]);
                    }
                }
                assert forall|m: int| 0 <= m < i + 1 && #[trigger] self.fds@[m].revents != 0 implies exists|j: int|
                    0 <= j < actives@.len() && actives@[j] == m by {
                    if m < i {
                        let j = choose|j: int| 0 <= j < prev.len() && prev[j] == m;
                        assert(actives@[j] == m);
                    } else {
                        assert(actives@[prev.len() as int] == m);
                    }
                }
            }
            i = i + 1;
        }
        Ok(actives)
    }
}

} // verus!

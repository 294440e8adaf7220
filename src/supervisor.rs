use vstd::prelude::*;
use crate::error::Error;
use crate::poller::PollType;

verus! {

/// The abstract value of a [`PollCommands`].
pub ghost struct CommandsView {
    pub queue: Seq<PollType>,
    pub capacity: nat,
    pub running: bool,
}

/// What a poll request does: refused when no supervisor runs, refused with
/// backpressure when the queue is full, queued otherwise.
pub open spec fn request_spec(v: CommandsView, poll_type: PollType) -> (CommandsView, Result<(), Error>) {
    if !v.running {
        (v, Err(Error::PollingNotSetup))
    } else if v.queue.len() >= v.capacity {
        (v, Err(Error::PollingBufferFull))
    } else {
        (CommandsView { queue: v.queue.push(poll_type), ..v }, Ok(()))
    }
}

/// Several poll requests in a row, with nothing drained between them.
pub open spec fn requests_spec(v: CommandsView, poll_types: Seq<PollType>) -> (CommandsView, Seq<Result<(), Error>>)
    decreases poll_types.len(),
{
    if poll_types.len() == 0 {
        (v, Seq::empty())
    } else {
        let p = requests_spec(v, poll_types.drop_last());
        let q = request_spec(p.0, poll_types.last());
        (q.0, p.1.push(q.1))
    }
}

/// The bounded queue of poll commands between callers and the background
/// poll supervisor. Requests never wait: a full queue answers at once.
pub struct PollCommands {
    queue: Vec<PollType>,
    capacity: usize,
    running: bool,
}

impl View for PollCommands {
    type V = CommandsView;

    closed spec fn view(&self) -> CommandsView {
        CommandsView { queue: self.queue@, capacity: self.capacity as nat, running: self.running }
    }
}

impl PollCommands {
    /// A queue holding at most `capacity` commands, with no supervisor yet.
    pub fn new(capacity: usize) -> (r: PollCommands)
        ensures
            r@ == (CommandsView { queue: Seq::empty(), capacity: capacity as nat, running: false }),
    {
        PollCommands { queue: Vec::new(), capacity, running: false }
    }

    /// A new supervisor takes over; commands meant for an earlier one are dropped.
    pub fn start(&mut self)
        ensures
            final(self)@ == (CommandsView { queue: Seq::empty(), running: true, ..old(self)@ }),
    {
        self.queue = Vec::new();
        self.running = true;
    }

    /// The supervisor is gone; pending commands are dropped.
    pub fn stop(&mut self)
        ensures
            final(self)@ == (CommandsView { queue: Seq::empty(), running: false, ..old(self)@ }),
    {
        self.queue = Vec::new();
        self.running = false;
    }

    pub fn is_running(&self) -> (r: bool)
        ensures
            r == self@.running,
    {
        self.running
    }

    /// Asks the supervisor for a poll of `poll_type`.
    pub fn request_poll(&mut self, poll_type: PollType) -> (r: Result<(), Error>)
        ensures
            (final(self)@, r) == request_spec(old(self)@, poll_type),
    {
        if !self.running {
            Err(Error::PollingNotSetup)
        } else if self.queue.len() >= self.capacity {
            Err(Error::PollingBufferFull)
        } else {
            self.queue.push(poll_type);
            Ok(())
        }
    }

    /// The oldest pending command, taken off the queue.
    pub fn next_command(&mut self) -> (r: Option<PollType>)
        ensures
            old(self)@.queue.len() == 0 ==> r is None && final(self)@ == old(self)@,
            old(self)@.queue.len() > 0 ==> r == Some(old(self)@.queue[0]) && final(self)@ == (CommandsView {
                queue: old(self)@.queue.drop_first(),
                ..old(self)@
            }),
    {
        if self.queue.len() == 0 {
            None
        } else {
            let c = self.queue.remove(0);
            assert(self.queue@ =~= old(self)@.queue.drop_first());
            Some(c)
        }
    }
}

/// Requests issued faster than the supervisor drains them are queued while
/// there is room; every request beyond the queue's capacity is answered at
/// once with `PollingBufferFull`, and the supervisor stays running.
pub proof fn excess_requests_get_backpressure(v: CommandsView, poll_types: Seq<PollType>)
    requires
        v.running,
        v.queue.len() <= v.capacity,
    ensures
        ({
            let (after, results) = requests_spec(v, poll_types);
            let room = (v.capacity - v.queue.len()) as int;
            &&& after.running
            &&& after.capacity == v.capacity
            &&& results.len() == poll_types.len()
            &&& forall|i: int|
                0 <= i < results.len() ==> (#[trigger] results[i] == if i < room {
                    Ok::<(), Error>(())
                } else {
                    Err::<(), Error>(Error::PollingBufferFull)
                })
            &&& after.queue == v.queue + poll_types.take(if poll_types.len() < room {
                poll_types.len() as int
            } else {
                room
            })
        }),
    decreases poll_types.len(),
{
    if poll_types.len() > 0 {
        let t = poll_types.drop_last();
        excess_requests_get_backpressure(v, t);
        let room = (v.capacity - v.queue.len()) as int;
        let (after, results) = requests_spec(v, poll_types);
        let p = requests_spec(v, t);
        if t.len() < room {
            assert(p.0.queue.len() == v.queue.len() + t.len());
            assert(poll_types.take(t.len() as int + 1) =~= t.take(t.len() as int).push(poll_types.last()));
            assert(v.queue + poll_types.take(t.len() as int + 1) =~= (v.queue + t.take(t.len() as int)).push(poll_types.last()));
        } else {
            assert(p.0.queue.len() == v.queue.len() + room);
            assert(poll_types.take(room) =~= t.take(room));
        }
        assert forall|i: int| 0 <= i < results.len() implies (#[trigger] results[i] == if i < room {
            Ok::<(), Error>(())
        } else {
            Err::<(), Error>(Error::PollingBufferFull)
        }) by {
            if i < t.len() {
                assert(results[i] == p.1[i]);
            }
        }
    }
}

} // verus!

//! The mailbox of a worker: a bounded first-in first-out queue of messages.

use crate::worker_engine::{Message, WorkerMessage};
use std::collections::VecDeque;
use vstd::prelude::*;

verus! {

/// The views of a sequence of messages.
pub open spec fn messages(v: Seq<WorkerMessage>) -> Seq<Message> {
    Seq::new(v.len(), |i: int| v[i]@)
}

/// The state of a mailbox.
pub ghost struct MailboxState {
    /// The most messages that the mailbox holds at a time.
    pub capacity: nat,
    /// The messages that wait to be consumed, oldest first.
    pub queue: Seq<Message>,
    /// Whether the consuming side is gone.
    pub closed: bool,
}

impl MailboxState {
    /// A mailbox never holds more than its capacity.
    pub open spec fn inv(self) -> bool {
        self.queue.len() <= self.capacity
    }

    /// Whether there is no room for another message.
    pub open spec fn full(self) -> bool {
        self.queue.len() >= self.capacity
    }

    /// The mailbox with `msg` behind what it holds.
    pub open spec fn with(self, msg: Message) -> MailboxState {
        MailboxState { queue: self.queue.push(msg), ..self }
    }
}

/// Why a message was not put into a mailbox. The message comes back.
#[derive(Debug, Clone)]
pub enum Undelivered {
    /// The mailbox is at capacity: wait for room, then send again.
    Full(WorkerMessage),
    /// Nobody will consume the message any more.
    Closed(WorkerMessage),
}

/// A bounded queue of messages for one worker.
pub struct Mailbox {
    capacity: usize,
    queue: VecDeque<WorkerMessage>,
    closed: bool,
}

impl View for Mailbox {
    type V = MailboxState;

    closed spec fn view(&self) -> MailboxState {
        MailboxState {
            capacity: self.capacity as nat,
            queue: messages(self.queue@),
            closed: self.closed,
        }
    }
}

impl Mailbox {
    /// Whether the mailbox is in a state that a mailbox can reach.
    pub open spec fn wf(&self) -> bool {
        self@.inv()
    }

    /// An empty, open mailbox with room for `capacity` messages.
    pub fn new(capacity: usize) -> (m: Mailbox)
        ensures
            m@ == (MailboxState { capacity: capacity as nat, queue: Seq::empty(), closed: false }),
            m.wf(),
    {
        let m = Mailbox { capacity: capacity, queue: VecDeque::new(), closed: false };
        proof {
            assert(m@.queue =~= Seq::empty());
        }
        m
    }

    /// The most messages that the mailbox holds at a time.
    pub fn capacity(&self) -> (n: usize)
        ensures
            n == self@.capacity,
    {
        self.capacity
    }

    /// How many messages wait.
    pub fn len(&self) -> (n: usize)
        ensures
            n == self@.queue.len(),
    {
        self.queue.len()
    }

    /// Whether there is no room for another message.
    pub fn is_full(&self) -> (b: bool)
        ensures
            b == self@.full(),
    {
        self.queue.len() >= self.capacity
    }

    /// Whether the consuming side is gone.
    pub fn is_closed(&self) -> (b: bool)
        ensures
            b == self@.closed,
    {
        self.closed
    }

    /// Puts `msg` behind the messages that wait, where the mailbox is open
    /// and has room.
    pub fn send(&mut self, msg: WorkerMessage) -> (r: Result<(), Undelivered>)
        requires
            old(self).wf(),
        ensures
            final(self).wf(),
            match r {
                Ok(_) => !old(self)@.closed && !old(self)@.full() && final(self)@ == old(self)@.with(
                    msg@,
                ),
                Err(Undelivered::Closed(m)) => old(self)@.closed && m == msg && final(self)@ == old(self)@,
                Err(Undelivered::Full(m)) => !old(self)@.closed && old(self)@.full() && m == msg
                    && final(self)@ == old(self)@,
            },
    {
        if self.closed {
            return Err(Undelivered::Closed(msg));
        }
        if self.queue.len() >= self.capacity {
            return Err(Undelivered::Full(msg));
        }
        let ghost view = msg@;
        self.queue.push_back(msg);
        proof {
            assert(self@.queue =~= old(self)@.queue.push(view));
        }
        Ok(())
    }

    /// Takes the oldest message, if there is one.
    pub fn take(&mut self) -> (r: Option<WorkerMessage>)
        requires
            old(self).wf(),
        ensures
            final(self).wf(),
            final(self)@.capacity == old(self)@.capacity,
            final(self)@.closed == old(self)@.closed,
            match r {
                Some(m) => {
                    &&& old(self)@.queue.len() > 0
                    &&& m@ == old(self)@.queue[0]
                    &&& final(self)@.queue == old(self)@.queue.drop_first()
                },
                None => old(self)@.queue.len() == 0 && final(self)@ == old(self)@,
            },
    {
        let r = self.queue.pop_front();
        proof {
            if r is Some {
                assert(self@.queue =~= old(self)@.queue.drop_first());
            } else {
                assert(self@.queue =~= old(self)@.queue);
            }
        }
        r
    }

    /// Marks the consuming side as gone: from now on nothing can be sent.
    pub fn close(&mut self)
        requires
            old(self).wf(),
        ensures
            final(self).wf(),
            final(self)@ == (MailboxState { closed: true, ..old(self)@ }),
    {
        self.closed = true;
    }
}

} // verus!

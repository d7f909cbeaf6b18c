//! The supervisor: one worker with its mailbox, and the calls by which a
//! distributor submits targets, asks the worker to stop and waits for it.

use crate::mailbox::{Mailbox, MailboxState, Undelivered};
use crate::worker_engine::{
    committed, committed_ends_at_stop, position_is_first, stopped, targets_of, Action, Event,
    Invocation, Message, TaskHandler, WorkerAction, WorkerEngine, WorkerMessage, WorkerState,
};
use vstd::prelude::*;

verus! {

broadcast use {vstd::multiset::group_multiset_axioms, vstd::seq_lib::group_to_multiset_ensures};

/// The room of a mailbox, unless another is asked for.
pub const DEFAULT_MAILBOX_CAPACITY: usize = 10_000;

/// A breach of the protocol between distributor and supervisors.
#[derive(Debug, Clone, Copy, PartialEq, Eq, Structural)]
pub enum EngineError {
    /// The worker has finished and takes no more messages.
    WorkerTerminated,
}

/// What became of a message that a supervisor was asked to deliver.
#[derive(Debug, Clone)]
pub enum Delivery {
    /// The message is in the mailbox.
    Delivered,
    /// The mailbox is at capacity. The message comes back: the caller waits
    /// until the worker has consumed something, then delivers it again.
    Full(WorkerMessage),
}

/// A [`Delivery`] as plain text.
pub ghost enum DeliveryView {
    Delivered,
    Full(Message),
}

impl View for Delivery {
    type V = DeliveryView;

    open spec fn view(&self) -> DeliveryView {
        match self {
            Delivery::Delivered => DeliveryView::Delivered,
            Delivery::Full(m) => DeliveryView::Full(m@),
        }
    }
}

/// The view of the outcome of a delivery.
pub open spec fn outcome_view(r: Result<Delivery, EngineError>) -> Result<
    DeliveryView,
    EngineError,
> {
    match r {
        Ok(d) => Ok(d@),
        Err(e) => Err(e),
    }
}

/// The state of a supervisor.
pub ghost struct SupervisorState {
    pub mailbox: MailboxState,
    pub worker: WorkerState,
    /// Every message that was put into the mailbox, in order.
    pub sent: Seq<Message>,
}

impl SupervisorState {
    /// A supervisor whose worker has consumed nothing yet.
    pub open spec fn initial(concurrency: nat, capacity: nat) -> SupervisorState {
        SupervisorState {
            mailbox: MailboxState { capacity: capacity, queue: Seq::empty(), closed: false },
            worker: WorkerState::initial(concurrency),
            sent: Seq::empty(),
        }
    }

    /// How many messages the worker has taken from the mailbox.
    pub open spec fn consumed(self) -> int {
        self.sent.len() - self.mailbox.queue.len()
    }

    /// What holds of every state that a supervisor can reach. The mailbox
    /// holds the messages that were sent and not yet consumed; the worker
    /// has accepted what the consumed messages commit it to, and consumes as
    /// long as none of them was `Stop`; the mailbox is closed once the
    /// worker has finished, and not before.
    pub open spec fn inv(self) -> bool {
        &&& self.mailbox.inv()
        &&& self.worker.inv()
        &&& self.mailbox.closed == (self.worker.phase is Finished)
        &&& 0 <= self.consumed()
        &&& self.mailbox.queue == self.sent.skip(self.consumed())
        &&& self.worker.accepted == committed(self.sent.take(self.consumed()))
        &&& self.worker.accepting() == !stopped(self.sent.take(self.consumed()))
    }

    /// Whether the worker has finished: what a caller of `wait` waits for.
    pub open spec fn finished(self) -> bool {
        self.worker.phase is Finished
    }

    /// The state after an attempt to deliver `msg`: the message is queued
    /// where the mailbox is open and has room, and nothing changes
    /// otherwise.
    pub open spec fn submit(self, msg: Message) -> SupervisorState {
        if self.mailbox.closed || self.mailbox.full() {
            self
        } else {
            SupervisorState {
                mailbox: self.mailbox.with(msg),
                sent: self.sent.push(msg),
                ..self
            }
        }
    }

    /// What the caller learns of an attempt to deliver `msg`.
    pub open spec fn submit_outcome(self, msg: Message) -> Result<DeliveryView, EngineError> {
        if self.mailbox.closed {
            Err(EngineError::WorkerTerminated)
        } else if self.mailbox.full() {
            Ok(DeliveryView::Full(msg))
        } else {
            Ok(DeliveryView::Delivered)
        }
    }

    /// Whether the worker can consume a message now.
    pub open spec fn can_poll(self) -> bool {
        self.worker.accepting() && self.mailbox.queue.len() > 0
    }

    /// The state after the worker was given the chance to consume the oldest
    /// message.
    pub open spec fn poll(self) -> SupervisorState {
        if self.can_poll() {
            let worker = self.worker.receive(Some(self.mailbox.queue[0]));
            SupervisorState {
                mailbox: MailboxState {
                    queue: self.mailbox.queue.drop_first(),
                    closed: worker.phase is Finished,
                    ..self.mailbox
                },
                worker: worker,
                ..self
            }
        } else {
            self
        }
    }

    /// What to do after the worker was given that chance.
    pub open spec fn poll_action(self) -> Action {
        if self.can_poll() {
            self.worker.receive_action(Some(self.mailbox.queue[0]))
        } else {
            self.worker.idle_action()
        }
    }

    /// The state after the invocation on `target` ended.
    pub open spec fn complete(self, target: Seq<char>) -> SupervisorState {
        let worker = self.worker.complete(target);
        SupervisorState {
            mailbox: MailboxState { closed: worker.phase is Finished, ..self.mailbox },
            worker: worker,
            ..self
        }
    }

    /// The supervisor with its worker replaced; the mailbox is closed where
    /// that worker has finished.
    pub open spec fn with_worker(self, worker: WorkerState) -> SupervisorState {
        SupervisorState {
            mailbox: MailboxState { closed: worker.phase is Finished, ..self.mailbox },
            worker: worker,
            ..self
        }
    }

    /// The state after the worker has run alone, one invocation at a time,
    /// for as long as it had something to do.
    pub open spec fn run(self) -> SupervisorState {
        let ran = self.worker.run(self.mailbox.queue);
        SupervisorState {
            mailbox: MailboxState {
                queue: ran.1,
                closed: ran.0.phase is Finished,
                ..self.mailbox
            },
            worker: ran.0,
            ..self
        }
    }

    /// The targets whose invocations end in `run`, in order.
    pub open spec fn run_completes(self) -> Seq<Seq<char>> {
        self.worker.run_completes(self.mailbox.queue)
    }

    /// How `run` goes on from the first message: the worker consumes it,
    /// completes what this starts, and runs on.
    pub proof fn run_unfolds(self)
        requires
            self.inv(),
            self.can_poll(),
        ensures
            self.poll().inv(),
            self.poll_action() matches Action::Start(t) ==> {
                &&& self.poll().worker.running.contains(t)
                &&& self.poll().with_worker(self.poll().worker.complete_in_turn(t)).inv()
                &&& self.run() == self.poll().with_worker(
                    self.poll().worker.complete_in_turn(t),
                ).run()
            },
            !(self.poll_action() is Start) ==> self.run() == self.poll().run(),
    {
        self.poll_keeps_inv();
        let polled = self.poll();
        match self.poll_action() {
            Action::Start(t) => {
                assert(polled.worker.running == self.worker.running.push(t));
                assert(polled.worker.running.last() == t);
                assert(polled.worker.running.contains(t));
                polled.complete_in_turn_keeps_inv(t);
            },
            _ => {},
        }
    }

    /// Ends of invocations, one after the other, keep the invariant.
    pub proof fn complete_in_turn_keeps_inv(self, target: Seq<char>)
        requires
            self.inv(),
        ensures
            self.with_worker(self.worker.complete_in_turn(target)).inv(),
        decreases self.worker.waiting.len(),
    {
        self.complete_keeps_inv(target);
        let next = self.complete(target);
        assert(next == self.with_worker(self.worker.complete(target)));
        if self.worker.running.contains(target) && self.worker.waiting.len() > 0 {
            next.complete_in_turn_keeps_inv(self.worker.waiting[0]);
            assert(next.with_worker(next.worker.complete_in_turn(self.worker.waiting[0]))
                == self.with_worker(self.worker.complete_in_turn(target)));
        }
    }

    /// Running the worker keeps the invariant.
    pub proof fn run_keeps_inv(self)
        requires
            self.inv(),
        ensures
            self.run().inv(),
        decreases self.mailbox.queue.len(),
    {
        if self.can_poll() {
            self.run_unfolds();
            let polled = self.poll();
            match self.poll_action() {
                Action::Start(t) => {
                    polled.with_worker(polled.worker.complete_in_turn(t)).run_keeps_inv();
                },
                _ => {
                    polled.run_keeps_inv();
                },
            }
        } else {
            assert(self.run() == self);
        }
    }

    /// A fresh supervisor is in a state that a supervisor can reach.
    pub proof fn initial_inv(concurrency: nat, capacity: nat)
        ensures
            SupervisorState::initial(concurrency, capacity).inv(),
    {
        let s = SupervisorState::initial(concurrency, capacity);
        WorkerState::never_over_capacity(concurrency, Seq::empty());
        assert(s.sent.skip(0) =~= s.mailbox.queue);
        assert(s.sent.take(0) =~= Seq::empty());
    }

    /// An attempt to deliver a message keeps the invariant.
    pub proof fn submit_keeps_inv(self, msg: Message)
        requires
            self.inv(),
        ensures
            self.submit(msg).inv(),
    {
        let next = self.submit(msg);
        if !(self.mailbox.closed || self.mailbox.full()) {
            assert(next.consumed() == self.consumed());
            assert(next.sent.skip(next.consumed()) =~= next.mailbox.queue);
            assert(next.sent.take(next.consumed()) =~= self.sent.take(self.consumed()));
        }
    }

    /// Consuming a message keeps the invariant.
    pub proof fn poll_keeps_inv(self)
        requires
            self.inv(),
        ensures
            self.poll().inv(),
    {
        let next = self.poll();
        if self.can_poll() {
            let c = self.consumed();
            let msg = self.mailbox.queue[0];
            assert(msg == self.sent[c]);
            self.worker.receive_keeps_inv(Some(msg));
            let before = self.sent.take(c);
            let after = self.sent.take(c + 1);
            assert(after.drop_last() =~= before);
            assert(after.last() == msg);
            assert(next.mailbox.queue =~= self.sent.skip(c + 1));
        }
    }

    /// The end of an invocation keeps the invariant.
    pub proof fn complete_keeps_inv(self, target: Seq<char>)
        requires
            self.inv(),
        ensures
            self.complete(target).inv(),
    {
        self.worker.complete_keeps_inv(target);
        if self.worker.accepting() {
        } else {
            self.worker.no_way_back(Event::Completed(target));
        }
    }

    /// A worker that runs alone, with nothing in flight when it starts and
    /// room for at least one invocation, comes to rest with nothing in
    /// flight and nothing waiting. Where a `Stop` was sent it has finished;
    /// where none was sent it has emptied the mailbox and completed every
    /// target that was sent.
    pub proof fn run_comes_to_rest(self)
        requires
            self.inv(),
            self.worker.concurrency >= 1,
            self.worker.running.len() == 0,
        ensures
            self.run().inv(),
            self.run().worker.concurrency == self.worker.concurrency,
            self.run().worker.running.len() == 0,
            self.run().worker.waiting.len() == 0,
            stopped(self.sent) ==> self.run().finished(),
            !stopped(self.sent) ==> self.run().mailbox.queue.len() == 0
                && self.run().worker.finished.to_multiset() == committed(self.sent).to_multiset(),
        decreases self.mailbox.queue.len(),
    {
        let c = self.consumed();
        if stopped(self.sent.take(c)) {
            committed_ends_at_stop(self.sent, c);
        }
        if !self.can_poll() {
            assert(self.run() == self);
            if self.mailbox.queue.len() == 0 {
                assert(self.sent.take(c) =~= self.sent);
            }
            assert(self.worker.running =~= Seq::empty());
            assert(self.worker.waiting =~= Seq::empty());
            assert(self.worker.accepted.to_multiset() =~= self.worker.finished.to_multiset());
        } else {
            self.run_unfolds();
            let polled = self.poll();
            match self.poll_action() {
                Action::Start(t) => {
                    assert(polled.worker.waiting.len() == 0);
                    let settled = polled.with_worker(polled.worker.complete_in_turn(t));
                    position_is_first(polled.worker.running, t);
                    assert(settled.worker.running.len() == 0);
                    settled.run_comes_to_rest();
                },
                _ => {
                    polled.run_comes_to_rest();
                },
            }
        }
    }

    /// A supervisor whose worker has consumed nothing yet and has room for
    /// at least one invocation: when the worker runs alone, it reports and
    /// completes exactly the targets that were sent before the first `Stop`,
    /// in the order in which they were sent.
    pub proof fn run_reports_what_was_sent(self)
        requires
            self.inv(),
            self.worker.concurrency >= 1,
            self.consumed() == 0,
        ensures
            self.run_completes() == committed(self.sent),
            self.run().worker.finished == committed(self.sent),
            stopped(self.sent) ==> self.run().finished(),
    {
        assert(self.sent.take(0) =~= Seq::empty());
        assert(self.sent.skip(0) =~= self.sent);
        assert(self.worker.accepted =~= Seq::empty());
        assert(self.worker.accepting());
        let done = self.worker.finished.to_multiset();
        let busy = self.worker.running.to_multiset();
        let held = self.worker.waiting.to_multiset();
        assert(self.worker.accepted.to_multiset().len() == 0);
        assert(done.add(busy).len() == done.len() + busy.len());
        assert(done.add(busy).add(held).len() == done.add(busy).len() + held.len());
        assert(busy.len() == self.worker.running.len());
        assert(done.len() == self.worker.finished.len());
        assert(self.worker.running.len() == 0);
        assert(self.worker.finished =~= Seq::empty());
        self.worker.run_completes_what_was_committed(self.mailbox.queue);
        assert(self.worker.finished + committed(self.sent) =~= committed(self.sent));
    }

    /// Once the worker has finished, every target that was sent before the
    /// first `Stop` has had its invocation started and completed.
    pub proof fn finished_means_all_completed(self)
        requires
            self.inv(),
            self.finished(),
        ensures
            stopped(self.sent),
            self.worker.finished.to_multiset() == committed(self.sent).to_multiset(),
            self.worker.running.len() == 0,
            self.worker.waiting.len() == 0,
    {
        self.worker.finished_worker_dropped_nothing();
        committed_ends_at_stop(self.sent, self.consumed());
    }

    /// A supervisor whose worker has finished refuses every message with
    /// `WorkerTerminated`, and is left as it was.
    pub proof fn finished_supervisor_refuses(self, msg: Message)
        requires
            self.inv(),
            self.finished(),
        ensures
            self.submit_outcome(msg) == Err::<DeliveryView, EngineError>(
                EngineError::WorkerTerminated,
            ),
            self.submit(msg) == self,
    {
    }
}

/// One worker and its mailbox.
pub struct WorkerSupervisor {
    mailbox: Mailbox,
    worker: WorkerEngine,
    sent: Ghost<Seq<Message>>,
}

impl View for WorkerSupervisor {
    type V = SupervisorState;

    closed spec fn view(&self) -> SupervisorState {
        SupervisorState { mailbox: self.mailbox@, worker: self.worker@, sent: self.sent@ }
    }
}

impl WorkerSupervisor {
    /// Whether the supervisor is in a state that a supervisor can reach.
    pub open spec fn wf(&self) -> bool {
        self@.inv()
    }

    /// The number of the worker.
    pub closed spec fn id(&self) -> usize {
        self.worker.id()
    }

    /// A supervisor with a fresh worker of the given concurrency and a
    /// mailbox of the default capacity.
    pub fn new(worker_id: usize, concurrency: usize) -> (s: WorkerSupervisor)
        ensures
            s@ == SupervisorState::initial(concurrency as nat, DEFAULT_MAILBOX_CAPACITY as nat),
            s.wf(),
            s.id() == worker_id,
    {
        WorkerSupervisor::with_capacity(worker_id, concurrency, DEFAULT_MAILBOX_CAPACITY)
    }

    /// A supervisor whose mailbox has room for `capacity` messages.
    pub fn with_capacity(worker_id: usize, concurrency: usize, capacity: usize) -> (s:
        WorkerSupervisor)
        ensures
            s@ == SupervisorState::initial(concurrency as nat, capacity as nat),
            s.wf(),
            s.id() == worker_id,
    {
        proof {
            SupervisorState::initial_inv(concurrency as nat, capacity as nat);
        }
        WorkerSupervisor {
            mailbox: Mailbox::new(capacity),
            worker: WorkerEngine::new(worker_id, concurrency),
            sent: Ghost(Seq::empty()),
        }
    }

    /// The number of the worker.
    pub fn worker_id(&self) -> (id: usize)
        ensures
            id == self.id(),
    {
        self.worker.worker_id()
    }

    /// Whether the worker has finished.
    pub fn is_finished(&self) -> (b: bool)
        ensures
            b == self@.finished(),
    {
        self.worker.is_finished()
    }

    /// How many invocations are in flight.
    pub fn in_flight(&self) -> (n: usize)
        ensures
            n == self@.worker.running.len(),
    {
        self.worker.in_flight()
    }

    /// How many messages wait in the mailbox.
    pub fn pending(&self) -> (n: usize)
        ensures
            n == self@.mailbox.queue.len(),
    {
        self.mailbox.len()
    }

    fn deliver(&mut self, msg: WorkerMessage) -> (r: Result<Delivery, EngineError>)
        requires
            old(self).wf(),
        ensures
            final(self)@ == old(self)@.submit(msg@),
            outcome_view(r) == old(self)@.submit_outcome(msg@),
            r matches Ok(Delivery::Full(m)) ==> m == msg,
            final(self).wf(),
            final(self).id() == old(self).id(),
    {
        proof {
            old(self)@.submit_keeps_inv(msg@);
        }
        let ghost view = msg@;
        match self.mailbox.send(msg) {
            Ok(_) => {
                self.sent = Ghost(self.sent@.push(view));
                Ok(Delivery::Delivered)
            },
            Err(Undelivered::Full(m)) => Ok(Delivery::Full(m)),
            Err(Undelivered::Closed(_)) => Err(EngineError::WorkerTerminated),
        }
    }

    /// Submits a target to the worker. Fails only where the worker has
    /// finished.
    pub fn send_task(&mut self, ip: String) -> (r: Result<Delivery, EngineError>)
        requires
            old(self).wf(),
        ensures
            final(self)@ == old(self)@.submit(Message::Task(ip@)),
            outcome_view(r) == old(self)@.submit_outcome(Message::Task(ip@)),
            final(self).wf(),
            final(self).id() == old(self).id(),
    {
        self.deliver(WorkerMessage::Task(ip))
    }

    /// Asks the worker to stop once it has consumed what was sent before.
    pub fn stop(&mut self) -> (r: Result<Delivery, EngineError>)
        requires
            old(self).wf(),
        ensures
            final(self)@ == old(self)@.submit(Message::Stop),
            outcome_view(r) == old(self)@.submit_outcome(Message::Stop),
            final(self).wf(),
            final(self).id() == old(self).id(),
    {
        self.deliver(WorkerMessage::Stop)
    }

    /// Whether the worker can consume a message now: it still consumes, and
    /// the mailbox holds one.
    pub fn has_work(&self) -> (b: bool)
        ensures
            b == self@.can_poll(),
    {
        self.worker.is_accepting() && self.mailbox.len() > 0
    }

    /// Lets the worker consume the oldest message of its mailbox, where it
    /// still consumes and there is one.
    pub fn poll(&mut self) -> (action: WorkerAction)
        requires
            old(self).wf(),
        ensures
            final(self)@ == old(self)@.poll(),
            action@ == old(self)@.poll_action(),
            final(self).wf(),
            final(self).id() == old(self).id(),
    {
        proof {
            old(self)@.poll_keeps_inv();
        }
        if !self.worker.is_accepting() {
            return self.worker.idle_action();
        }
        match self.mailbox.take() {
            None => self.worker.idle_action(),
            Some(msg) => {
                let action = self.worker.receive(Some(msg));
                if self.worker.is_finished() {
                    self.mailbox.close();
                }
                action
            },
        }
    }

    /// Records that the invocation on `target` has ended.
    pub fn complete(&mut self, target: &str) -> (action: WorkerAction)
        requires
            old(self).wf(),
        ensures
            final(self)@ == old(self)@.complete(target@),
            action@ == old(self)@.worker.complete_action(target@),
            final(self).wf(),
            final(self).id() == old(self).id(),
    {
        proof {
            old(self)@.complete_keeps_inv(target@);
        }
        let action = self.worker.complete(target);
        if self.worker.is_finished() {
            self.mailbox.close();
        }
        action
    }

    /// Runs the worker on the caller's thread for as long as it has
    /// something to do, with `handler` called on each target that the worker
    /// starts; see [`WorkerEngine::run`].
    pub fn run<H: TaskHandler>(&mut self, handler: &H) -> (report: Vec<Invocation>)
        requires
            old(self).wf(),
        ensures
            final(self)@ == old(self)@.run(),
            targets_of(report@) == old(self)@.run_completes(),
            final(self).wf(),
            final(self).id() == old(self).id(),
    {
        proof {
            old(self)@.run_keeps_inv();
            old(self)@.worker.run_keeps_inv(old(self)@.mailbox.queue);
        }
        self.worker.run(&mut self.mailbox, handler)
    }

    /// Joins the worker: succeeds, and gives up the supervisor, once the
    /// worker has finished. Until then the supervisor comes back, for the
    /// caller to wait and try again.
    pub fn wait(self) -> (r: Result<(), WorkerSupervisor>)
        requires
            self.wf(),
        ensures
            r is Ok <==> self@.finished(),
            r matches Err(s) ==> s == self,
    {
        if self.worker.is_finished() {
            Ok(())
        } else {
            Err(self)
        }
    }
}

} // verus!

//! The worker: a state machine that takes messages from a mailbox, starts at
//! most a fixed number of task-handler invocations at a time, and finishes
//! only when everything it accepted has completed.

use crate::mailbox::{Mailbox, MailboxState};
use crate::text::texts;
use std::collections::VecDeque;
use vstd::prelude::*;

verus! {

broadcast use {vstd::multiset::group_multiset_axioms, vstd::seq_lib::group_to_multiset_ensures};

/// What a mailbox carries to a worker.
#[derive(Debug, Clone)]
pub enum WorkerMessage {
    /// A target to hand to the task handler.
    Task(String),
    /// No more tasks follow: finish what is in flight, then end.
    Stop,
}

/// A [`WorkerMessage`] as plain text.
pub ghost enum Message {
    Task(Seq<char>),
    Stop,
}

impl View for WorkerMessage {
    type V = Message;

    open spec fn view(&self) -> Message {
        match self {
            WorkerMessage::Task(ip) => Message::Task(ip@),
            WorkerMessage::Stop => Message::Stop,
        }
    }
}

/// The view of a message that may be missing.
pub open spec fn message_view(msg: Option<WorkerMessage>) -> Option<Message> {
    match msg {
        Some(m) => Some(m@),
        None => None,
    }
}

/// Where a worker stands in its life.
#[derive(Debug, Clone, Copy, PartialEq, Eq, Structural)]
pub enum WorkerPhase {
    /// No message was consumed yet.
    Idle,
    /// Messages are consumed and tasks are started.
    Running,
    /// The mailbox is left alone; accepted tasks are still completing.
    Draining,
    /// Every accepted task has completed.
    Finished,
}

/// How far along its life a worker in this phase is.
pub open spec fn phase_rank(phase: WorkerPhase) -> int {
    match phase {
        WorkerPhase::Idle => 0,
        WorkerPhase::Running => 1,
        WorkerPhase::Draining => 2,
        WorkerPhase::Finished => 3,
    }
}

/// What the one who drives a worker does next.
#[derive(Debug, Clone)]
pub enum WorkerAction {
    /// Start a task-handler invocation on this target.
    Start(String),
    /// Nothing to start: wait for the next message or completion.
    Wait,
    /// The worker has finished: stop driving it.
    Finish,
}

/// A [`WorkerAction`] as plain text.
pub ghost enum Action {
    Start(Seq<char>),
    Wait,
    Finish,
}

impl View for WorkerAction {
    type V = Action;

    open spec fn view(&self) -> Action {
        match self {
            WorkerAction::Start(ip) => Action::Start(ip@),
            WorkerAction::Wait => Action::Wait,
            WorkerAction::Finish => Action::Finish,
        }
    }
}

/// What a task handler reports when it could not do its work. Either way
/// the worker goes on: the report is for the log.
#[derive(Debug, Clone)]
pub enum HandlerError {
    /// A probe could not be run.
    ProbeError(String),
    /// A result could not be written down.
    SinkWriteError(String),
}

/// What is done with a target. A handler that finds its target unreachable
/// has done its work and returns `Ok`; `Err` is for a handler that could not
/// probe or could not write down what it found.
pub trait TaskHandler {
    fn handle(&self, ip: String) -> Result<(), HandlerError>;
}

/// One invocation of the task handler: the target and what the handler
/// returned.
#[derive(Debug)]
pub struct Invocation {
    pub target: String,
    pub result: Result<(), HandlerError>,
}

/// The targets of a sequence of invocations.
pub open spec fn targets_of(v: Seq<Invocation>) -> Seq<Seq<char>> {
    Seq::new(v.len(), |i: int| v[i].target@)
}

/// The position of the first `x` in `s`, or the length of `s` where there is
/// none.
pub open spec fn position(s: Seq<Seq<char>>, x: Seq<char>) -> nat
    decreases s.len(),
{
    if s.len() == 0 || s[0] == x {
        0
    } else {
        1 + position(s.drop_first(), x)
    }
}

/// `position` is the least place that holds `x`.
pub proof fn position_is_first(s: Seq<Seq<char>>, x: Seq<char>)
    ensures
        position(s, x) <= s.len(),
        forall|j: int| 0 <= j < position(s, x) ==> s[j] != x,
        position(s, x) < s.len() ==> s[position(s, x) as int] == x,
        position(s, x) < s.len() <==> s.contains(x),
    decreases s.len(),
{
    if s.len() == 0 || s[0] == x {
        if s.len() > 0 {
            assert(s.contains(x));
        }
    } else {
        let rest = s.drop_first();
        position_is_first(rest, x);
        assert forall|j: int| 0 <= j < position(s, x) implies s[j] != x by {
            if j > 0 {
                assert(s[j] == rest[j - 1]);
            }
        }
        if position(rest, x) < rest.len() {
            assert(s[position(s, x) as int] == rest[position(rest, x) as int]);
            assert(s.contains(x));
        }
        if s.contains(x) {
            let j = choose|j: int| 0 <= j < s.len() && s[j] == x;
            assert(rest[j - 1] == x);
            assert(rest.contains(x));
        }
    }
}

/// Whether some message of `msgs` is `Stop`.
pub open spec fn stopped(msgs: Seq<Message>) -> bool
    decreases msgs.len(),
{
    if msgs.len() == 0 {
        false
    } else {
        stopped(msgs.drop_last()) || msgs.last() is Stop
    }
}

/// The targets of the tasks of `msgs` that stand before its first `Stop`:
/// the work that a worker fed with `msgs` is committed to.
pub open spec fn committed(msgs: Seq<Message>) -> Seq<Seq<char>>
    decreases msgs.len(),
{
    if msgs.len() == 0 {
        Seq::empty()
    } else {
        let before = committed(msgs.drop_last());
        if stopped(msgs.drop_last()) {
            before
        } else {
            match msgs.last() {
                Message::Task(t) => before.push(t),
                Message::Stop => before,
            }
        }
    }
}

/// What follows a `Stop` commits to nothing.
pub proof fn committed_ends_at_stop(msgs: Seq<Message>, n: int)
    requires
        0 <= n <= msgs.len(),
        stopped(msgs.take(n)),
    ensures
        stopped(msgs),
        committed(msgs) == committed(msgs.take(n)),
    decreases msgs.len() - n,
{
    if n == msgs.len() {
        assert(msgs.take(n) =~= msgs);
    } else {
        assert(msgs.drop_last().take(n) =~= msgs.take(n));
        committed_ends_at_stop(msgs.drop_last(), n);
    }
}

/// How the commitment of a sequence of messages follows from its first
/// message and the rest.
pub proof fn committed_from_front(first: Message, rest: Seq<Message>)
    ensures
        stopped(seq![first] + rest) == (first is Stop || stopped(rest)),
        committed(seq![first] + rest) == match first {
            Message::Task(t) => seq![t] + committed(rest),
            Message::Stop => Seq::empty(),
        },
    decreases rest.len(),
{
    let whole = seq![first] + rest;
    if rest.len() == 0 {
        let none = whole.drop_last();
        assert(none.len() == 0);
        assert(whole.last() == first);
        assert(!stopped(none));
        assert(committed(none) =~= Seq::empty());
        assert(!stopped(rest));
        assert(committed(rest) =~= Seq::empty());
        match first {
            Message::Task(t) => {
                assert(committed(whole) =~= seq![t] + committed(rest));
            },
            Message::Stop => {
                assert(committed(whole) =~= Seq::empty());
            },
        }
    } else {
        let shorter = rest.drop_last();
        committed_from_front(first, shorter);
        assert(whole.drop_last() =~= seq![first] + shorter);
        assert(whole.last() == rest.last());
        match first {
            Message::Task(t) => {
                assert(committed(whole) =~= seq![t] + committed(rest));
            },
            Message::Stop => {},
        }
    }
}

/// One `Task` message for each target.
pub open spec fn as_tasks(targets: Seq<Seq<char>>) -> Seq<Message> {
    Seq::new(targets.len(), |k: int| Message::Task(targets[k]))
}

/// Tasks alone commit a worker to all of them, and so do tasks with a `Stop`
/// behind them.
pub proof fn tasks_commit(targets: Seq<Seq<char>>)
    ensures
        !stopped(as_tasks(targets)),
        committed(as_tasks(targets)) == targets,
        stopped(as_tasks(targets).push(Message::Stop)),
        committed(as_tasks(targets).push(Message::Stop)) == targets,
    decreases targets.len(),
{
    let msgs = as_tasks(targets);
    if targets.len() > 0 {
        tasks_commit(targets.drop_last());
        assert(msgs.drop_last() =~= as_tasks(targets.drop_last()));
        assert(msgs.last() == Message::Task(targets.last()));
        assert(targets.drop_last().push(targets.last()) =~= targets);
    } else {
        assert(targets =~= Seq::empty());
    }
    assert(committed(msgs) == targets);
    let closed = msgs.push(Message::Stop);
    assert(closed.drop_last() =~= msgs);
    assert(closed.last() == Message::Stop);
    assert(committed(closed) == committed(msgs));
}

/// The state of a worker.
pub ghost struct WorkerState {
    /// How many invocations may be in flight at once.
    pub concurrency: nat,
    pub phase: WorkerPhase,
    /// Accepted targets that wait for a permit, oldest first.
    pub waiting: Seq<Seq<char>>,
    /// Targets whose invocation is in flight: each holds a permit.
    pub running: Seq<Seq<char>>,
    /// Every target taken from the mailbox, in the order of arrival.
    pub accepted: Seq<Seq<char>>,
    /// Every target whose invocation has ended, in the order of ending.
    pub finished: Seq<Seq<char>>,
}

/// What can happen to a worker.
pub ghost enum Event {
    /// A message left the mailbox; `None` where the mailbox was closed.
    Received(Option<Message>),
    /// The invocation on this target ended, well or badly.
    Completed(Seq<char>),
}

impl WorkerState {
    /// A worker that has consumed nothing yet.
    pub open spec fn initial(concurrency: nat) -> WorkerState {
        WorkerState {
            concurrency: concurrency,
            phase: WorkerPhase::Idle,
            waiting: Seq::empty(),
            running: Seq::empty(),
            accepted: Seq::empty(),
            finished: Seq::empty(),
        }
    }

    /// Whether the worker still consumes messages.
    pub open spec fn accepting(self) -> bool {
        self.phase is Idle || self.phase is Running
    }

    /// What holds of every state that a worker can reach.
    pub open spec fn inv(self) -> bool {
        &&& self.running.len() <= self.concurrency
        &&& (self.waiting.len() > 0 ==> self.running.len() == self.concurrency)
        &&& (self.phase is Idle ==> self.accepted.len() == 0)
        &&& (self.phase is Finished ==> self.waiting.len() == 0 && self.running.len() == 0)
        &&& (self.phase is Draining ==> self.waiting.len() + self.running.len() > 0)
        &&& self.waiting.len() <= self.accepted.len()
        &&& self.waiting == self.accepted.skip(self.accepted.len() - self.waiting.len())
        &&& self.accepted.to_multiset() == self.finished.to_multiset().add(
            self.running.to_multiset(),
        ).add(self.waiting.to_multiset())
    }

    /// The action of a worker to which nothing new can be handed.
    pub open spec fn idle_action(self) -> Action {
        if self.phase is Finished {
            Action::Finish
        } else {
            Action::Wait
        }
    }

    /// The state after a message was consumed. A worker that no longer
    /// accepts messages is left as it is. A task is started at once where a
    /// permit is free, and queued otherwise. `Stop`, or a closed mailbox,
    /// ends the consuming: the worker drains, or has finished where nothing
    /// is outstanding.
    pub open spec fn receive(self, msg: Option<Message>) -> WorkerState {
        if !self.accepting() {
            self
        } else {
            match msg {
                Some(Message::Task(t)) => {
                    if self.running.len() < self.concurrency {
                        WorkerState {
                            phase: WorkerPhase::Running,
                            running: self.running.push(t),
                            accepted: self.accepted.push(t),
                            ..self
                        }
                    } else {
                        WorkerState {
                            phase: WorkerPhase::Running,
                            waiting: self.waiting.push(t),
                            accepted: self.accepted.push(t),
                            ..self
                        }
                    }
                },
                _ => {
                    if self.running.len() + self.waiting.len() == 0 {
                        WorkerState { phase: WorkerPhase::Finished, ..self }
                    } else {
                        WorkerState { phase: WorkerPhase::Draining, ..self }
                    }
                },
            }
        }
    }

    /// What to do after a message was consumed.
    pub open spec fn receive_action(self, msg: Option<Message>) -> Action {
        if !self.accepting() {
            self.idle_action()
        } else {
            match msg {
                Some(Message::Task(t)) => {
                    if self.running.len() < self.concurrency {
                        Action::Start(t)
                    } else {
                        Action::Wait
                    }
                },
                _ => self.receive(msg).idle_action(),
            }
        }
    }

    /// The state after the invocation on `target` ended. Its permit goes to
    /// the oldest waiting target, if there is one. A worker that drains has
    /// finished when nothing is in flight any more. A target that is not in
    /// flight changes nothing.
    pub open spec fn complete(self, target: Seq<char>) -> WorkerState {
        if !self.running.contains(target) {
            self
        } else {
            let rest = self.running.remove(position(self.running, target) as int);
            if self.waiting.len() > 0 {
                WorkerState {
                    running: rest.push(self.waiting[0]),
                    waiting: self.waiting.drop_first(),
                    finished: self.finished.push(target),
                    ..self
                }
            } else {
                WorkerState {
                    running: rest,
                    finished: self.finished.push(target),
                    phase: if self.phase is Draining && rest.len() == 0 {
                        WorkerPhase::Finished
                    } else {
                        self.phase
                    },
                    ..self
                }
            }
        }
    }

    /// What to do after the invocation on `target` ended.
    pub open spec fn complete_action(self, target: Seq<char>) -> Action {
        if self.running.contains(target) && self.waiting.len() > 0 {
            Action::Start(self.waiting[0])
        } else {
            self.complete(target).idle_action()
        }
    }

    /// The state after the invocation on `target` ended and then, one after
    /// the other, each invocation that was started in the room this made.
    pub open spec fn complete_in_turn(self, target: Seq<char>) -> WorkerState
        decreases self.waiting.len(),
    {
        if self.running.contains(target) && self.waiting.len() > 0 {
            self.complete(target).complete_in_turn(self.waiting[0])
        } else {
            self.complete(target)
        }
    }

    /// The targets whose invocations end in `complete_in_turn`, in order.
    pub open spec fn completed_in_turn(self, target: Seq<char>) -> Seq<Seq<char>>
        decreases self.waiting.len(),
    {
        if self.running.contains(target) && self.waiting.len() > 0 {
            seq![target] + self.complete(target).completed_in_turn(self.waiting[0])
        } else if self.running.contains(target) {
            seq![target]
        } else {
            Seq::empty()
        }
    }

    /// Whether the worker can consume a message of `queue` now.
    pub open spec fn can_take(self, queue: Seq<Message>) -> bool {
        self.accepting() && queue.len() > 0
    }

    /// The state after the worker has run alone on the messages of `queue`,
    /// one invocation at a time, for as long as it had something to do, and
    /// what it left of the queue. It consumes the messages in order, and
    /// every invocation it starts ends before the next message is consumed.
    pub open spec fn run(self, queue: Seq<Message>) -> (WorkerState, Seq<Message>)
        decreases queue.len(),
    {
        if !self.can_take(queue) {
            (self, queue)
        } else {
            let taken = self.receive(Some(queue[0]));
            match self.receive_action(Some(queue[0])) {
                Action::Start(t) => taken.complete_in_turn(t).run(queue.drop_first()),
                _ => taken.run(queue.drop_first()),
            }
        }
    }

    /// The targets whose invocations end in `run`, in order.
    pub open spec fn run_completes(self, queue: Seq<Message>) -> Seq<Seq<char>>
        decreases queue.len(),
    {
        if !self.can_take(queue) {
            Seq::empty()
        } else {
            let taken = self.receive(Some(queue[0]));
            match self.receive_action(Some(queue[0])) {
                Action::Start(t) => taken.completed_in_turn(t) + taken.complete_in_turn(
                    t,
                ).run_completes(queue.drop_first()),
                _ => taken.run_completes(queue.drop_first()),
            }
        }
    }

    /// The state after one event.
    pub open spec fn step(self, event: Event) -> WorkerState {
        match event {
            Event::Received(msg) => self.receive(msg),
            Event::Completed(target) => self.complete(target),
        }
    }

    /// The state after a run of events.
    pub open spec fn after(self, events: Seq<Event>) -> WorkerState
        decreases events.len(),
    {
        if events.len() == 0 {
            self
        } else {
            self.after(events.drop_last()).step(events.last())
        }
    }

    /// Consuming a message keeps the invariant.
    pub proof fn receive_keeps_inv(self, msg: Option<Message>)
        requires
            self.inv(),
        ensures
            self.receive(msg).inv(),
    {
        let next = self.receive(msg);
        if self.accepting() {
            match msg {
                Some(Message::Task(t)) => {
                    if self.running.len() < self.concurrency {
                        assert(self.waiting.len() == 0);
                        assert(next.waiting =~= next.accepted.skip(
                            next.accepted.len() - next.waiting.len(),
                        ));
                    } else {
                        assert(next.waiting =~= next.accepted.skip(
                            next.accepted.len() - next.waiting.len(),
                        ));
                    }
                    assert(next.accepted.to_multiset() =~= next.finished.to_multiset().add(
                        next.running.to_multiset(),
                    ).add(next.waiting.to_multiset()));
                },
                _ => {},
            }
        }
    }

    /// The end of an invocation keeps the invariant.
    pub proof fn complete_keeps_inv(self, target: Seq<char>)
        requires
            self.inv(),
        ensures
            self.complete(target).inv(),
    {
        let next = self.complete(target);
        if self.running.contains(target) {
            position_is_first(self.running, target);
            let i = position(self.running, target) as int;
            let rest = self.running.remove(i);
            assert(rest.to_multiset() == self.running.to_multiset().remove(target));
            assert(self.running.to_multiset().count(target) > 0);
            if self.waiting.len() > 0 {
                assert(self.waiting.drop_first() =~= self.waiting.remove(0));
                assert(next.waiting.to_multiset() == self.waiting.to_multiset().remove(
                    self.waiting[0],
                ));
                assert(self.waiting.to_multiset().count(self.waiting[0]) > 0);
                assert(next.waiting =~= next.accepted.skip(
                    next.accepted.len() - next.waiting.len(),
                ));
            }
            assert(next.accepted.to_multiset() =~= next.finished.to_multiset().add(
                next.running.to_multiset(),
            ).add(next.waiting.to_multiset()));
        }
    }

    /// Ends of invocations, one after the other, keep the invariant.
    pub proof fn complete_in_turn_keeps_inv(self, target: Seq<char>)
        requires
            self.inv(),
        ensures
            self.complete_in_turn(target).inv(),
        decreases self.waiting.len(),
    {
        self.complete_keeps_inv(target);
        if self.running.contains(target) && self.waiting.len() > 0 {
            self.complete(target).complete_in_turn_keeps_inv(self.waiting[0]);
        }
    }

    /// Running alone keeps the invariant, and takes the messages from the
    /// front of the queue.
    pub proof fn run_keeps_inv(self, queue: Seq<Message>)
        requires
            self.inv(),
        ensures
            self.run(queue).0.inv(),
            self.run(queue).1.len() <= queue.len(),
            self.run(queue).1 == queue.skip(queue.len() - self.run(queue).1.len()),
            !self.run(queue).0.can_take(self.run(queue).1),
        decreases queue.len(),
    {
        if self.can_take(queue) {
            let taken = self.receive(Some(queue[0]));
            self.receive_keeps_inv(Some(queue[0]));
            let rest = queue.drop_first();
            match self.receive_action(Some(queue[0])) {
                Action::Start(t) => {
                    taken.complete_in_turn_keeps_inv(t);
                    taken.complete_in_turn(t).run_keeps_inv(rest);
                },
                _ => {
                    taken.run_keeps_inv(rest);
                },
            }
            let left = self.run(queue).1;
            assert(left =~= queue.skip(queue.len() - left.len()));
        } else {
            assert(queue.skip(0) =~= queue);
        }
    }

    /// A worker that runs alone, with room for at least one invocation and
    /// nothing in flight when it starts, completes exactly the targets that
    /// the queue commits it to, in the order of the queue, and reports
    /// them in that order. Where the queue holds a `Stop` it has finished;
    /// where it holds none the worker has emptied it and waits for more.
    pub proof fn run_completes_what_was_committed(self, queue: Seq<Message>)
        requires
            self.inv(),
            self.concurrency >= 1,
            self.running.len() == 0,
            self.accepting(),
        ensures
            self.run_completes(queue) == committed(queue),
            self.run(queue).0.finished == self.finished + committed(queue),
            self.run(queue).0.accepted == self.accepted + committed(queue),
            self.run(queue).0.running.len() == 0,
            self.run(queue).0.waiting.len() == 0,
            stopped(queue) ==> self.run(queue).0.phase is Finished,
            !stopped(queue) ==> self.run(queue).0.accepting() && self.run(queue).1.len() == 0,
        decreases queue.len(),
    {
        assert(self.waiting.len() == 0);
        if queue.len() == 0 {
            assert(committed(queue) =~= Seq::empty());
            assert(self.run_completes(queue) =~= Seq::empty());
            assert(self.finished + committed(queue) =~= self.finished);
            assert(self.accepted + committed(queue) =~= self.accepted);
        } else {
            let first = queue[0];
            let rest = queue.drop_first();
            assert(queue =~= seq![first] + rest);
            committed_from_front(first, rest);
            let taken = self.receive(Some(first));
            self.receive_keeps_inv(Some(first));
            match first {
                Message::Task(t) => {
                    assert(self.receive_action(Some(first)) == Action::Start(t));
                    assert(taken.running =~= seq![t]);
                    assert(taken.running.contains(t));
                    position_is_first(taken.running, t);
                    let next = taken.complete_in_turn(t);
                    assert(next == taken.complete(t));
                    taken.complete_keeps_inv(t);
                    assert(taken.completed_in_turn(t) =~= seq![t]);
                    assert(next.running.len() == 0);
                    next.run_completes_what_was_committed(rest);
                    assert(self.run(queue) == next.run(rest));
                    assert(self.run_completes(queue) == seq![t] + next.run_completes(rest));
                    assert(next.finished + committed(rest) =~= self.finished + committed(queue));
                    assert(next.accepted + committed(rest) =~= self.accepted + committed(queue));
                },
                Message::Stop => {
                    assert(taken.phase is Finished);
                    assert(!(self.receive_action(Some(first)) is Start));
                    assert(self.run(queue) == taken.run(rest));
                    assert(taken.run(rest) == (taken, rest));
                    assert(self.run_completes(queue) == taken.run_completes(rest));
                    assert(taken.run_completes(rest) =~= Seq::empty());
                    assert(committed(queue) =~= Seq::empty());
                    assert(self.finished + committed(queue) =~= self.finished);
                    assert(self.accepted + committed(queue) =~= self.accepted);
                },
            }
        }
    }

    /// A fresh worker with room for at least one invocation, run alone on a
    /// mailbox that holds one task for each of `targets` and then `Stop`,
    /// reports exactly these targets, in order, completes them all and has
    /// finished.
    pub proof fn fresh_worker_completes_its_tasks(concurrency: nat, targets: Seq<Seq<char>>)
        requires
            concurrency >= 1,
        ensures
            ({
                let queue = as_tasks(targets).push(Message::Stop);
                let fresh = WorkerState::initial(concurrency);
                &&& fresh.run_completes(queue) == targets
                &&& fresh.run(queue).0.finished == targets
                &&& fresh.run(queue).0.phase is Finished
                &&& fresh.run(queue).0.running.len() == 0
            }),
    {
        let queue = as_tasks(targets).push(Message::Stop);
        let fresh = WorkerState::initial(concurrency);
        WorkerState::never_over_capacity(concurrency, Seq::empty());
        tasks_commit(targets);
        fresh.run_completes_what_was_committed(queue);
        assert(fresh.finished + targets =~= targets);
    }

    /// Whatever happens to a worker, in whatever order, it never has more
    /// invocations in flight than its concurrency allows.
    pub proof fn never_over_capacity(concurrency: nat, events: Seq<Event>)
        ensures
            WorkerState::initial(concurrency).after(events).inv(),
            WorkerState::initial(concurrency).after(events).running.len() <= concurrency,
            WorkerState::initial(concurrency).after(events).concurrency == concurrency,
        decreases events.len(),
    {
        let start = WorkerState::initial(concurrency);
        if events.len() == 0 {
            assert(start.waiting =~= start.accepted.skip(0));
            assert(start.accepted.to_multiset() =~= start.finished.to_multiset().add(
                start.running.to_multiset(),
            ).add(start.waiting.to_multiset()));
        } else {
            WorkerState::never_over_capacity(concurrency, events.drop_last());
            let before = start.after(events.drop_last());
            match events.last() {
                Event::Received(msg) => before.receive_keeps_inv(msg),
                Event::Completed(target) => before.complete_keeps_inv(target),
            }
        }
    }

    /// A worker that has finished has completed every target it accepted,
    /// each as often as it was accepted.
    pub proof fn finished_worker_dropped_nothing(self)
        requires
            self.inv(),
            self.phase is Finished,
        ensures
            self.finished.to_multiset() == self.accepted.to_multiset(),
            self.finished.len() == self.accepted.len(),
    {
        assert(self.running =~= Seq::empty());
        assert(self.waiting =~= Seq::empty());
        assert(self.accepted.to_multiset() =~= self.finished.to_multiset());
        assert(self.accepted.to_multiset().len() == self.accepted.len());
        assert(self.finished.to_multiset().len() == self.finished.len());
    }

    /// Targets are started in the order in which they were accepted: those
    /// that still wait are the last ones accepted.
    pub proof fn waiting_is_tail_of_accepted(self)
        requires
            self.inv(),
        ensures
            self.waiting.len() <= self.accepted.len(),
            forall|k: int|
                0 <= k < self.waiting.len() ==> self.waiting[k] == self.accepted[self.accepted.len()
                    - self.waiting.len() + k],
    {
    }

    /// A worker only moves forward through its phases: from idle to
    /// running, from there to draining, from there to finished.
    pub proof fn phase_only_advances(self, event: Event)
        requires
            self.inv(),
        ensures
            phase_rank(self.step(event).phase) >= phase_rank(self.phase),
    {
    }

    /// A worker that has stopped consuming never consumes again, and one
    /// that has finished stays as it is.
    pub proof fn no_way_back(self, event: Event)
        requires
            self.inv(),
            !self.accepting(),
        ensures
            !self.step(event).accepting(),
            self.step(event).accepted == self.accepted,
            self.phase is Finished ==> self.step(event) == self,
    {
        if self.phase is Finished {
            assert(self.running =~= Seq::empty());
            match event {
                Event::Received(msg) => {},
                Event::Completed(target) => {
                    assert(!self.running.contains(target));
                },
            }
        }
    }
}


/// A worker, driven from outside: whoever owns it hands it the messages of
/// its mailbox and tells it when an invocation has ended, and starts what it
/// says to start.
pub struct WorkerEngine {
    worker_id: usize,
    concurrency: usize,
    phase: WorkerPhase,
    waiting: VecDeque<String>,
    running: Vec<String>,
    accepted: Ghost<Seq<Seq<char>>>,
    finished: Ghost<Seq<Seq<char>>>,
}

impl View for WorkerEngine {
    type V = WorkerState;

    closed spec fn view(&self) -> WorkerState {
        WorkerState {
            concurrency: self.concurrency as nat,
            phase: self.phase,
            waiting: texts(self.waiting@),
            running: texts(self.running@),
            accepted: self.accepted@,
            finished: self.finished@,
        }
    }
}

impl WorkerEngine {
    /// Whether the worker is in a state that a worker can reach.
    pub open spec fn wf(&self) -> bool {
        self@.inv()
    }

    /// The number the worker was made with.
    pub closed spec fn id(&self) -> usize {
        self.worker_id
    }

    /// A worker that may have `concurrency` invocations in flight at once.
    pub fn new(worker_id: usize, concurrency: usize) -> (w: WorkerEngine)
        ensures
            w@ == WorkerState::initial(concurrency as nat),
            w.wf(),
            w.id() == worker_id,
    {
        let w = WorkerEngine {
            worker_id: worker_id,
            concurrency: concurrency,
            phase: WorkerPhase::Idle,
            waiting: VecDeque::new(),
            running: Vec::new(),
            accepted: Ghost(Seq::empty()),
            finished: Ghost(Seq::empty()),
        };
        proof {
            assert(w@.waiting =~= Seq::empty());
            assert(w@.running =~= Seq::empty());
            assert(w@ == WorkerState::initial(concurrency as nat));
            WorkerState::never_over_capacity(concurrency as nat, Seq::empty());
        }
        w
    }

    /// The number of the worker.
    pub fn worker_id(&self) -> (id: usize)
        ensures
            id == self.id(),
    {
        self.worker_id
    }

    /// How many invocations may be in flight at once.
    pub fn concurrency(&self) -> (m: usize)
        ensures
            m == self@.concurrency,
    {
        self.concurrency
    }

    /// Where the worker stands in its life.
    pub fn phase(&self) -> (phase: WorkerPhase)
        ensures
            phase == self@.phase,
    {
        self.phase
    }

    /// How many invocations are in flight.
    pub fn in_flight(&self) -> (n: usize)
        ensures
            n == self@.running.len(),
    {
        self.running.len()
    }

    /// How many accepted targets wait for a permit.
    pub fn queued(&self) -> (n: usize)
        ensures
            n == self@.waiting.len(),
    {
        self.waiting.len()
    }

    /// Whether the worker still consumes messages.
    pub fn is_accepting(&self) -> (b: bool)
        ensures
            b == self@.accepting(),
    {
        match self.phase {
            WorkerPhase::Idle => true,
            WorkerPhase::Running => true,
            _ => false,
        }
    }

    /// Whether every accepted task has completed and none will follow.
    pub fn is_finished(&self) -> (b: bool)
        ensures
            b == (self@.phase is Finished),
    {
        match self.phase {
            WorkerPhase::Finished => true,
            _ => false,
        }
    }

    /// What to do while nothing new can be handed to the worker.
    pub fn idle_action(&self) -> (action: WorkerAction)
        ensures
            action@ == self@.idle_action(),
    {
        match self.phase {
            WorkerPhase::Finished => WorkerAction::Finish,
            _ => WorkerAction::Wait,
        }
    }

    /// Consumes a message of the mailbox; `None` says that the mailbox was
    /// closed and is empty.
    pub fn receive(&mut self, msg: Option<WorkerMessage>) -> (action: WorkerAction)
        requires
            old(self).wf(),
        ensures
            final(self)@ == old(self)@.receive(message_view(msg)),
            action@ == old(self)@.receive_action(message_view(msg)),
            final(self).wf(),
            final(self).id() == old(self).id(),
    {
        proof {
            old(self)@.receive_keeps_inv(message_view(msg));
        }
        if !self.is_accepting() {
            return self.idle_action();
        }
        match msg {
            Some(WorkerMessage::Task(ip)) => {
                self.phase = WorkerPhase::Running;
                self.accepted = Ghost(self.accepted@.push(ip@));
                if self.running.len() < self.concurrency {
                    self.running.push(ip.clone());
                    proof {
                        assert(self@.running =~= old(self)@.running.push(ip@));
                        assert(self@.waiting =~= old(self)@.waiting);
                    }
                    WorkerAction::Start(ip)
                } else {
                    self.waiting.push_back(ip);
                    proof {
                        assert(self@.waiting =~= old(self)@.waiting.push(ip@));
                        assert(self@.running =~= old(self)@.running);
                    }
                    WorkerAction::Wait
                }
            },
            _ => {
                if self.running.len() == 0 && self.waiting.len() == 0 {
                    self.phase = WorkerPhase::Finished;
                } else {
                    self.phase = WorkerPhase::Draining;
                }
                self.idle_action()
            },
        }
    }

    /// Runs the worker on the caller's thread for as long as it has
    /// something to do: consumes `mailbox` in order and calls `handler` on
    /// each target that the worker starts, one at a time. What the handler
    /// returns changes nothing for the worker; it is handed back, target by
    /// target, in the order of the calls. A worker that has finished closes
    /// the mailbox.
    pub fn run<H: TaskHandler>(&mut self, mailbox: &mut Mailbox, handler: &H) -> (report: Vec<
        Invocation,
    >)
        requires
            old(self).wf(),
            old(mailbox).wf(),
        ensures
            final(self)@ == old(self)@.run(old(mailbox)@.queue).0,
            final(mailbox)@ == (MailboxState {
                queue: old(self)@.run(old(mailbox)@.queue).1,
                closed: old(mailbox)@.closed || final(self)@.phase is Finished,
                ..old(mailbox)@
            }),
            targets_of(report@) == old(self)@.run_completes(old(mailbox)@.queue),
            final(self).wf(),
            final(mailbox).wf(),
            final(self).id() == old(self).id(),
    {
        let mut report: Vec<Invocation> = Vec::new();
        let ghost goal = old(self)@.run(old(mailbox)@.queue);
        let ghost all = old(self)@.run_completes(old(mailbox)@.queue);
        proof {
            assert(targets_of(report@) + all =~= all);
        }
        while self.is_accepting() && mailbox.len() > 0
            invariant
                self.wf(),
                mailbox.wf(),
                self.id() == old(self).id(),
                mailbox@.capacity == old(mailbox)@.capacity,
                mailbox@.closed == old(mailbox)@.closed,
                self@.run(mailbox@.queue) == goal,
                targets_of(report@) + self@.run_completes(mailbox@.queue) == all,
            decreases mailbox@.queue.len(),
        {
            let ghost before = self@;
            let ghost queue = mailbox@.queue;
            let ghost done = targets_of(report@);
            let ghost rest = before.run_completes(queue);
            let msg = mailbox.take();
            let mut action = self.receive(msg);
            let ghost taken = self@;
            let ghost left = mailbox@.queue;
            proof {
                assert(message_view(msg) == Some(queue[0]));
                match action@ {
                    Action::Start(t) => {
                        assert(taken.running == before.running.push(t));
                        assert(taken.running.last() == t);
                        assert(taken.running.contains(t));
                        assert((done + taken.completed_in_turn(t)) + taken.complete_in_turn(
                            t,
                        ).run_completes(left) =~= done + rest);
                    },
                    _ => {},
                }
            }
            loop
                invariant_except_break
                    self.wf(),
                    self.id() == old(self).id(),
                    action@ matches Action::Start(t) ==> {
                        &&& self@.running.contains(t)
                        &&& self@.complete_in_turn(t).run(left) == goal
                        &&& (targets_of(report@) + self@.completed_in_turn(t))
                            + self@.complete_in_turn(t).run_completes(left) == done + rest
                    },
                    !(action@ is Start) ==> {
                        &&& self@.run(left) == goal
                        &&& targets_of(report@) + self@.run_completes(left) == done + rest
                    },
                ensures
                    self.wf(),
                    self.id() == old(self).id(),
                    self@.run(left) == goal,
                    targets_of(report@) + self@.run_completes(left) == done + rest,
                decreases self@.waiting.len() + (if action@ is Start { 1int } else { 0int }),
            {
                match action {
                    WorkerAction::Start(ip) => {
                        let ghost s = self@;
                        let ghost so_far = targets_of(report@);
                        let result = handler.handle(ip.clone());
                        action = self.complete(ip.as_str());
                        report.push(Invocation { target: ip, result: result });
                        proof {
                            assert(targets_of(report@) =~= so_far.push(ip@));
                            if s.waiting.len() > 0 {
                                let next = s.waiting[0];
                                assert(action@ == Action::Start(next));
                                assert(self@.running.last() == next);
                                assert(self@.running.contains(next));
                                assert((targets_of(report@) + self@.completed_in_turn(next))
                                    =~= so_far + s.completed_in_turn(ip@));
                            } else {
                                assert(targets_of(report@) =~= so_far + s.completed_in_turn(ip@));
                            }
                        }
                    },
                    _ => {
                        break ;
                    },
                }
            }
        }
        proof {
            assert(targets_of(report@) + Seq::<Seq<char>>::empty() =~= targets_of(report@));
        }
        if self.is_finished() {
            mailbox.close();
        }
        report
    }

    /// Records that the invocation on `target` has ended, whether it
    /// succeeded or failed.
    pub fn complete(&mut self, target: &str) -> (action: WorkerAction)
        requires
            old(self).wf(),
        ensures
            final(self)@ == old(self)@.complete(target@),
            action@ == old(self)@.complete_action(target@),
            final(self).wf(),
            final(self).id() == old(self).id(),
    {
        proof {
            old(self)@.complete_keeps_inv(target@);
            position_is_first(old(self)@.running, target@);
        }
        let wanted: String = target.to_owned();
        let ghost all = texts(self.running@);
        let mut i: usize = 0;
        proof {
            assert(all.skip(0) =~= all);
        }
        while i < self.running.len() && self.running[i] != wanted
            invariant
                i <= self.running@.len(),
                wanted@ == target@,
                all == texts(self.running@),
                position(all, target@) == i + position(all.skip(i as int), target@),
            decreases self.running@.len() - i,
        {
            proof {
                let cur = all.skip(i as int);
                assert(cur[0] == all[i as int]);
                assert(cur.drop_first() =~= all.skip(i + 1));
            }
            i += 1;
        }
        proof {
            let cur = all.skip(i as int);
            if i < self.running@.len() {
                assert(cur[0] == all[i as int]);
            }
            assert(position(cur, target@) == 0);
        }
        if i == self.running.len() {
            return self.idle_action();
        }
        let _ = self.running.remove(i);
        self.finished = Ghost(self.finished@.push(target@));
        proof {
            assert(texts(self.running@) =~= all.remove(i as int));
        }
        match self.waiting.pop_front() {
            Some(next) => {
                self.running.push(next.clone());
                proof {
                    assert(self@.running =~= all.remove(i as int).push(next@));
                    assert(self@.waiting =~= old(self)@.waiting.drop_first());
                }
                WorkerAction::Start(next)
            },
            None => {
                proof {
                    assert(self@.waiting =~= old(self)@.waiting);
                }
                match self.phase {
                    WorkerPhase::Draining => {
                        if self.running.len() == 0 {
                            self.phase = WorkerPhase::Finished;
                        }
                    },
                    _ => {},
                }
                self.idle_action()
            },
        }
    }
}

} // verus!

//! The distributor: a fixed pool of supervisors, targets handed to them by
//! round robin, and the shutdown in two phases: every supervisor is asked to
//! stop before any of them is joined.

use crate::supervisor::{
    Delivery, EngineError, SupervisorState, WorkerSupervisor, DEFAULT_MAILBOX_CAPACITY,
};
use crate::text::texts;
use crate::worker_engine::{
    as_tasks, committed, committed_ends_at_stop, stopped, targets_of, tasks_commit, Invocation,
    Message, TaskHandler, WorkerAction,
};
use vstd::arithmetic::div_mod::{
    lemma_fundamental_div_mod, lemma_fundamental_div_mod_converse, lemma_mod_multiples_vanish,
};
use vstd::multiset::Multiset;
use vstd::prelude::*;

verus! {

broadcast use {vstd::multiset::group_multiset_axioms, vstd::seq_lib::group_to_multiset_ensures};

/// The targets that round robin over `n` supervisors assigns to supervisor
/// `i`: those at the places `i`, `i + n`, `i + 2n`, ... of `history`, in the
/// order of `history`.
pub open spec fn share(history: Seq<Seq<char>>, n: nat, i: nat) -> Seq<Seq<char>>
    decreases history.len(),
{
    if history.len() == 0 {
        Seq::empty()
    } else {
        let before = share(history.drop_last(), n, i);
        if (history.len() - 1) % (n as int) == i {
            before.push(history.last())
        } else {
            before
        }
    }
}

/// The place in the history of the `k`-th target of supervisor `i` of `n`.
pub open spec fn place(i: nat, k: int, n: nat) -> int {
    i + k * n
}

/// Round robin gives supervisor `i` exactly the targets at the places `i`,
/// `i + n`, `i + 2n`, ... of the history, and in that order.
pub proof fn share_is_every_nth(history: Seq<Seq<char>>, n: nat, i: nat)
    requires
        n >= 1,
        i < n,
    ensures
        forall|k: int|
            0 <= k ==> ((#[trigger] place(i, k, n) < history.len()) <==> k < share(
                history,
                n,
                i,
            ).len()),
        forall|k: int|
            0 <= k < share(history, n, i).len() ==> #[trigger] share(history, n, i)[k]
                == history[place(i, k, n)],
    decreases history.len(),
{
    let mine = share(history, n, i);
    if history.len() == 0 {
        assert forall|k: int| 0 <= k implies ((#[trigger] place(i, k, n) < history.len()) <==> k
            < mine.len()) by {
            assert(k * n >= 0) by (nonlinear_arith)
                requires
                    k >= 0,
                    n >= 1,
            ;
        }
    } else {
        let shorter = history.drop_last();
        let before = share(shorter, n, i);
        let last = shorter.len() as int;
        share_is_every_nth(shorter, n, i);
        let c = before.len() as int;
        assert(place(i, c, n) >= last);
        assert(c > 0 ==> place(i, c - 1, n) < last);
        assert(place(i, c, n) == place(i, c - 1, n) + n) by (nonlinear_arith)
            requires
                place(i, c, n) == i + c * n,
                place(i, c - 1, n) == i + (c - 1) * n,
        ;
        assert((n * c + i) % (n as int) == i) by {
            lemma_mod_multiples_vanish(c, i as int, n as int);
            vstd::arithmetic::div_mod::lemma_small_mod(i, n);
        }
        assert(n * c + i == place(i, c, n)) by (nonlinear_arith)
            requires
                place(i, c, n) == i + c * n,
        ;
        if last % (n as int) == i {
            // `last` is a place of supervisor `i`, and so the next one
            assert(place(i, c, n) == last) by {
                if place(i, c, n) > last {
                    // then last lies strictly between two consecutive places
                    lemma_fundamental_div_mod(last, n as int);
                    let q = last / (n as int);
                    assert(last == place(i, q, n)) by (nonlinear_arith)
                        requires
                            last == n * q + i,
                            place(i, q, n) == i + q * n,
                    ;
                    assert(q >= 0) by (nonlinear_arith)
                        requires
                            last == n * q + i,
                            last >= 0,
                            i < n,
                            n >= 1,
                    ;
                    assert(q < c) by (nonlinear_arith)
                        requires
                            place(i, c, n) > place(i, q, n),
                            place(i, c, n) == i + c * n,
                            place(i, q, n) == i + q * n,
                            n >= 1,
                    ;
                    assert(place(i, q, n) < shorter.len());
                    assert(false);
                }
            }
            assert(mine =~= before.push(history.last()));
        } else {
            assert(place(i, c, n) != last);
            assert(mine =~= before);
        }
        assert forall|k: int| 0 <= k implies ((#[trigger] place(i, k, n) < history.len()) <==> k
            < mine.len()) by {
            if k > c {
                assert(place(i, k, n) >= place(i, c, n) + n) by (nonlinear_arith)
                    requires
                        k > c,
                        n >= 1,
                        place(i, k, n) == i + k * n,
                        place(i, c, n) == i + c * n,
                ;
            }
        }
        assert forall|k: int| 0 <= k < mine.len() implies #[trigger] mine[k] == history[place(
            i,
            k,
            n,
        )] by {
            if k < c {
                assert(mine[k] == before[k]);
                assert(place(i, k, n) < last);
                assert(history[place(i, k, n)] == shorter[place(i, k, n)]);
            }
        }
    }
}

/// The targets assigned to the first `k` of `n` supervisors, as a multiset.
pub open spec fn shares(history: Seq<Seq<char>>, n: nat, k: nat) -> Multiset<Seq<char>>
    decreases k,
{
    if k == 0 {
        Multiset::empty()
    } else {
        shares(history, n, (k - 1) as nat).add(share(history, n, (k - 1) as nat).to_multiset())
    }
}

proof fn shares_push(history: Seq<Seq<char>>, x: Seq<char>, n: nat, k: nat)
    requires
        n >= 1,
    ensures
        shares(history.push(x), n, k) == if (history.len() as int) % (n as int) < k {
            shares(history, n, k).insert(x)
        } else {
            shares(history, n, k)
        },
    decreases k,
{
    if k > 0 {
        let k1 = (k - 1) as nat;
        shares_push(history, x, n, k1);
        let longer = history.push(x);
        assert(longer.drop_last() =~= history);
        assert(longer.last() == x);
        assert(shares(history.push(x), n, k) =~= if (history.len() as int) % (n as int) < k {
            shares(history, n, k).insert(x)
        } else {
            shares(history, n, k)
        });
    }
}

/// Round robin assigns every target to exactly one supervisor: the shares
/// of all supervisors together are the history.
pub proof fn shares_partition_history(history: Seq<Seq<char>>, n: nat)
    requires
        n >= 1,
    ensures
        shares(history, n, n) == history.to_multiset(),
    decreases history.len(),
{
    if history.len() == 0 {
        shares_of_nothing(n, n);
        assert(history =~= Seq::empty());
        assert(history.to_multiset() =~= Multiset::empty());
    } else {
        let shorter = history.drop_last();
        let x = history.last();
        shares_partition_history(shorter, n);
        shares_push(shorter, x, n, n);
        assert(shorter.push(x) =~= history);
        assert(0 <= (shorter.len() as int) % (n as int) < n) by (nonlinear_arith)
            requires
                n >= 1,
                shorter.len() >= 0,
        ;
        assert(shorter.push(x).to_multiset() == shorter.to_multiset().insert(x));
    }
}

proof fn shares_of_nothing(n: nat, k: nat)
    ensures
        shares(Seq::empty(), n, k) == Multiset::<Seq<char>>::empty(),
    decreases k,
{
    if k > 0 {
        shares_of_nothing(n, (k - 1) as nat);
        assert(share(Seq::empty(), n, (k - 1) as nat).to_multiset() =~= Multiset::empty());
        assert(shares(Seq::empty(), n, k) =~= Multiset::<Seq<char>>::empty());
    }
}

/// The state of a distributor.
pub ghost struct DistributorState {
    pub supervisors: Seq<SupervisorState>,
    /// Every target that was dispatched, in order.
    pub history: Seq<Seq<char>>,
    /// How many supervisors, from the first on, were asked to stop.
    pub stops: nat,
}

impl DistributorState {
    /// The number of supervisors.
    pub open spec fn n(self) -> nat {
        self.supervisors.len()
    }

    /// The supervisor that the next target goes to.
    pub open spec fn turn(self) -> int {
        (self.history.len() as int) % (self.n() as int)
    }

    /// What supervisor `i` was sent: its share of the history, and `Stop`
    /// behind it where it was asked to stop.
    pub open spec fn expected_sent(self, i: int) -> Seq<Message> {
        let tasks = as_tasks(share(self.history, self.n(), i as nat));
        if i < self.stops {
            tasks.push(Message::Stop)
        } else {
            tasks
        }
    }

    /// What holds of every state that a distributor can reach.
    pub open spec fn inv(self) -> bool {
        &&& self.n() >= 1
        &&& self.stops <= self.n()
        &&& forall|i: int| 0 <= i < self.n() ==> (#[trigger] self.supervisors[i]).inv()
        &&& forall|i: int|
            0 <= i < self.n() ==> (#[trigger] self.supervisors[i]).sent == self.expected_sent(i)
    }

    /// Whether the workers of `self` are those of `before`, untouched: no
    /// message was consumed and no invocation has ended in between.
    pub open spec fn same_workers(self, before: DistributorState) -> bool {
        &&& self.n() == before.n()
        &&& forall|i: int|
            0 <= i < self.n() ==> {
                &&& (#[trigger] self.supervisors[i]).worker == before.supervisors[i].worker
                &&& self.supervisors[i].consumed() == before.supervisors[i].consumed()
                &&& self.supervisors[i].mailbox.capacity == before.supervisors[i].mailbox.capacity
                &&& self.supervisors[i].mailbox.closed == before.supervisors[i].mailbox.closed
            }
    }

    /// Whether every worker has finished.
    pub open spec fn all_finished(self) -> bool {
        forall|i: int| 0 <= i < self.n() ==> (#[trigger] self.supervisors[i]).finished()
    }

    /// The targets whose invocation has ended on one of the first `k`
    /// workers, each as often as that happened.
    pub open spec fn completed(self, k: nat) -> Multiset<Seq<char>>
        decreases k,
    {
        if k == 0 {
            Multiset::empty()
        } else {
            self.completed((k - 1) as nat).add(
                self.supervisors[k - 1].worker.finished.to_multiset(),
            )
        }
    }

    /// The state with supervisor `i` replaced by `s`.
    pub open spec fn with_supervisor(self, i: int, s: SupervisorState) -> DistributorState {
        DistributorState { supervisors: self.supervisors.update(i, s), ..self }
    }

    /// The state after `target` was delivered to the supervisor in turn.
    pub open spec fn dispatched(self, target: Seq<char>) -> DistributorState {
        DistributorState {
            supervisors: self.supervisors.update(
                self.turn(),
                self.supervisors[self.turn()].submit(Message::Task(target)),
            ),
            history: self.history.push(target),
            ..self
        }
    }

    /// The state after `Stop` was delivered to the next supervisor that had
    /// not been asked to stop.
    pub open spec fn stopped_next(self) -> DistributorState {
        DistributorState {
            supervisors: self.supervisors.update(
                self.stops as int,
                self.supervisors[self.stops as int].submit(Message::Stop),
            ),
            stops: self.stops + 1,
            ..self
        }
    }

    /// Workers that were left untouched twice were left untouched.
    pub proof fn same_workers_twice(self, between: DistributorState, before: DistributorState)
        requires
            self.same_workers(between),
            between.same_workers(before),
        ensures
            self.same_workers(before),
    {
        assert forall|i: int| 0 <= i < self.n() implies {
            &&& (#[trigger] self.supervisors[i]).worker == before.supervisors[i].worker
            &&& self.supervisors[i].consumed() == before.supervisors[i].consumed()
            &&& self.supervisors[i].mailbox.capacity == before.supervisors[i].mailbox.capacity
            &&& self.supervisors[i].mailbox.closed == before.supervisors[i].mailbox.closed
        } by {
            assert(between.supervisors[i].worker == before.supervisors[i].worker);
        }
    }

    /// A supervisor may be replaced by any reachable state of it to which
    /// the same messages were sent.
    pub proof fn with_supervisor_keeps_inv(self, i: int, s: SupervisorState)
        requires
            self.inv(),
            0 <= i < self.n(),
            s.inv(),
            s.sent == self.supervisors[i].sent,
        ensures
            self.with_supervisor(i, s).inv(),
            self.with_supervisor(i, s).turn() == self.turn(),
    {
        let after = self.with_supervisor(i, s);
        assert forall|j: int| 0 <= j < after.n() implies (#[trigger] after.supervisors[j]).sent
            == after.expected_sent(j) by {
            assert(self.supervisors[j].sent == self.expected_sent(j));
        }
        assert forall|j: int| 0 <= j < after.n() implies (#[trigger] after.supervisors[j]).inv() by {
            if j != i {
                assert(self.supervisors[j].inv());
            }
        }
    }

    /// A delivery to the supervisor in turn keeps the invariant, touches no
    /// worker, and passes the turn on.
    pub proof fn dispatched_keeps_inv(self, target: Seq<char>)
        requires
            self.inv(),
            self.stops == 0,
            !self.supervisors[self.turn()].mailbox.full(),
        ensures
            0 <= self.turn() < self.n(),
            self.dispatched(target).inv(),
            self.dispatched(target).same_workers(self),
            self.dispatched(target).turn() == if self.turn() + 1 == self.n() {
                0
            } else {
                self.turn() + 1
            },
    {
        let after = self.dispatched(target);
        let turn = self.turn();
        next_turn(self.history.len() as int, self.n() as int);
        self.unstopped_is_open(turn);
        assert(self.supervisors[turn].inv());
        self.supervisors[turn].submit_keeps_inv(Message::Task(target));
        assert(after.history.drop_last() =~= self.history);
        assert forall|i: int| 0 <= i < after.n() implies (#[trigger] after.supervisors[i]).sent
            == after.expected_sent(i) by {
            assert(self.supervisors[i].sent == self.expected_sent(i));
            if i == turn {
                assert(after.expected_sent(i) =~= self.expected_sent(i).push(
                    Message::Task(target),
                ));
            }
        }
        assert forall|i: int| 0 <= i < after.n() implies (#[trigger] after.supervisors[i]).inv() by {
            if i != turn {
                assert(self.supervisors[i].inv());
            }
        }
    }

    /// A delivery of `Stop` to the next supervisor keeps the invariant and
    /// touches no worker.
    pub proof fn stopped_next_keeps_inv(self)
        requires
            self.inv(),
            self.stops < self.n(),
            !self.supervisors[self.stops as int].mailbox.full(),
        ensures
            self.stopped_next().inv(),
            self.stopped_next().same_workers(self),
            self.stopped_next().turn() == self.turn(),
    {
        let after = self.stopped_next();
        let i = self.stops as int;
        self.unstopped_is_open(i);
        assert(self.supervisors[i].inv());
        self.supervisors[i].submit_keeps_inv(Message::Stop);
        assert forall|j: int| 0 <= j < after.n() implies (#[trigger] after.supervisors[j]).sent
            == after.expected_sent(j) by {
            assert(self.supervisors[j].sent == self.expected_sent(j));
        }
        assert forall|j: int| 0 <= j < after.n() implies (#[trigger] after.supervisors[j]).inv() by {
            if j != i {
                assert(self.supervisors[j].inv());
            }
        }
    }

    /// No worker of the pool has more invocations in flight than its
    /// concurrency allows.
    pub proof fn no_worker_over_capacity(self)
        requires
            self.inv(),
        ensures
            forall|i: int|
                0 <= i < self.n() ==> (#[trigger] self.supervisors[i]).worker.running.len()
                    <= self.supervisors[i].worker.concurrency,
    {
        assert forall|i: int| 0 <= i < self.n() implies (
        #[trigger] self.supervisors[i]).worker.running.len()
            <= self.supervisors[i].worker.concurrency by {
            assert(self.supervisors[i].inv());
        }
    }

    /// A supervisor that was not asked to stop is open: its worker has not
    /// finished.
    pub proof fn unstopped_is_open(self, i: int)
        requires
            self.inv(),
            self.stops <= i < self.n(),
        ensures
            !self.supervisors[i].mailbox.closed,
            !self.supervisors[i].finished(),
    {
        let s = self.supervisors[i];
        tasks_commit(share(self.history, self.n(), i as nat));
        if stopped(s.sent.take(s.consumed())) {
            committed_ends_at_stop(s.sent, s.consumed());
        }
    }

    /// Every supervisor received exactly its share of the dispatched
    /// targets, in the order of dispatch, and is committed to all of it.
    pub proof fn received_is_share(self, i: int)
        requires
            self.inv(),
            0 <= i < self.n(),
        ensures
            committed(self.supervisors[i].sent) == share(self.history, self.n(), i as nat),
            stopped(self.supervisors[i].sent) == (i < self.stops),
    {
        tasks_commit(share(self.history, self.n(), i as nat));
    }

    /// Once every worker has finished, every dispatched target has had its
    /// invocation started and completed, on the worker that round robin
    /// gave it to: nothing was dropped.
    pub proof fn shutdown_dropped_nothing(self)
        requires
            self.inv(),
            self.all_finished(),
        ensures
            self.stops == self.n(),
            forall|i: int|
                0 <= i < self.n() ==> (#[trigger] self.supervisors[i]).worker.finished.to_multiset()
                    == share(self.history, self.n(), i as nat).to_multiset(),
            self.completed(self.n()) == self.history.to_multiset(),
    {
        if self.stops < self.n() {
            self.unstopped_is_open(self.stops as int);
            assert(self.supervisors[self.stops as int].finished());
        }
        assert forall|i: int| 0 <= i < self.n() implies (
        #[trigger] self.supervisors[i]).worker.finished.to_multiset() == share(
            self.history,
            self.n(),
            i as nat,
        ).to_multiset() by {
            self.received_is_share(i);
            self.supervisors[i].finished_means_all_completed();
        }
        self.completed_is_shares(self.n());
        shares_partition_history(self.history, self.n());
    }

    proof fn completed_is_shares(self, k: nat)
        requires
            k <= self.n(),
            forall|i: int|
                0 <= i < self.n() ==> (#[trigger] self.supervisors[i]).worker.finished.to_multiset()
                    == share(self.history, self.n(), i as nat).to_multiset(),
        ensures
            self.completed(k) == shares(self.history, self.n(), k),
        decreases k,
    {
        if k > 0 {
            self.completed_is_shares((k - 1) as nat);
            assert(self.supervisors[k - 1].worker.finished.to_multiset() == share(
                self.history,
                self.n(),
                (k - 1) as nat,
            ).to_multiset());
        }
    }
}

/// The place after `turn` in a round of `n`.
proof fn next_turn(len: int, n: int)
    requires
        n >= 1,
        len >= 0,
    ensures
        (len + 1) % n == if len % n + 1 == n {
            0
        } else {
            len % n + 1
        },
        0 <= len % n < n,
{
    lemma_fundamental_div_mod(len, n);
    let q = len / n;
    let r = len % n;
    assert(n * q == q * n) by (nonlinear_arith);
    if r + 1 == n {
        assert(len + 1 == (q + 1) * n + 0) by (nonlinear_arith)
            requires
                len == q * n + r,
                r + 1 == n,
        ;
        lemma_fundamental_div_mod_converse(len + 1, n, q + 1, 0);
    } else {
        lemma_fundamental_div_mod_converse(len + 1, n, q, r + 1);
    }
}

/// How far a shutdown has come.
#[derive(Debug, Clone, Copy, PartialEq, Eq, Structural)]
pub enum ShutdownStatus {
    /// The mailbox of this supervisor is at capacity, so that `Stop` could
    /// not be delivered to it yet. Nobody was joined.
    Stopping(usize),
    /// Every supervisor was asked to stop; the worker of this one has not
    /// finished yet.
    Joining(usize),
    /// Every worker has finished.
    Done,
}

/// A pool of supervisors that receive targets by round robin.
pub struct Distributor {
    supervisors: Vec<WorkerSupervisor>,
    next: usize,
    stops: usize,
    history: Ghost<Seq<Seq<char>>>,
}

impl View for Distributor {
    type V = DistributorState;

    closed spec fn view(&self) -> DistributorState {
        DistributorState {
            supervisors: Seq::new(self.supervisors@.len(), |i: int| self.supervisors@[i]@),
            history: self.history@,
            stops: self.stops as nat,
        }
    }
}

/// Supervisors that are numbered from 1 stay so when one of them is replaced
/// by a supervisor of the same number.
proof fn numbering_kept(before: Seq<WorkerSupervisor>, after: Seq<WorkerSupervisor>, i: int)
    requires
        forall|j: int| 0 <= j < before.len() ==> (#[trigger] before[j]).id() == j + 1,
        after.len() == before.len(),
        0 <= i < before.len(),
        after[i].id() == before[i].id(),
        forall|j: int| 0 <= j < before.len() && j != i ==> after[j] == before[j],
    ensures
        forall|j: int| 0 <= j < after.len() ==> (#[trigger] after[j]).id() == j + 1,
{
    assert forall|j: int| 0 <= j < after.len() implies (#[trigger] after[j]).id() == j + 1 by {
        assert(before[j].id() == j + 1);
    }
}

impl Distributor {
    /// The place of the supervisor in turn, as the distributor keeps it.
    pub closed spec fn cursor(&self) -> int {
        self.next as int
    }

    /// Whether the supervisors are numbered from 1, in order.
    pub closed spec fn numbered(&self) -> bool {
        forall|j: int|
            0 <= j < self.supervisors@.len() ==> (#[trigger] self.supervisors@[j]).id() == j + 1
    }

    /// Whether the distributor is in a state that it can reach.
    pub open spec fn wf(&self) -> bool {
        &&& self@.inv()
        &&& self.cursor() == self@.turn()
        &&& self.numbered()
    }

    /// A distributor over `n` fresh supervisors, numbered from 1, each with
    /// a worker of the given concurrency.
    pub fn new(n: usize, concurrency: usize) -> (d: Distributor)
        requires
            n >= 1,
        ensures
            d.wf(),
            d@.n() == n,
            d@.history == Seq::<Seq<char>>::empty(),
            d@.stops == 0,
            forall|i: int|
                0 <= i < n ==> (#[trigger] d@.supervisors[i]) == SupervisorState::initial(
                    concurrency as nat,
                    DEFAULT_MAILBOX_CAPACITY as nat,
                ),
    {
        let mut supervisors: Vec<WorkerSupervisor> = Vec::new();
        let mut i: usize = 0;
        while i < n
            invariant
                i <= n,
                supervisors@.len() == i,
                forall|j: int|
                    0 <= j < i ==> {
                        &&& (#[trigger] supervisors@[j])@ == SupervisorState::initial(
                            concurrency as nat,
                            DEFAULT_MAILBOX_CAPACITY as nat,
                        )
                        &&& supervisors@[j].wf()
                        &&& supervisors@[j].id() == j + 1
                    },
            decreases n - i,
        {
            supervisors.push(WorkerSupervisor::new(i + 1, concurrency));
            i += 1;
        }
        let d = Distributor {
            supervisors: supervisors,
            next: 0,
            stops: 0,
            history: Ghost(Seq::empty()),
        };
        proof {
            assert forall|i: int| 0 <= i < d@.n() implies (#[trigger] d@.supervisors[i]).sent
                == d@.expected_sent(i) by {
                assert(d@.supervisors[i] == d.supervisors@[i]@);
                assert(d@.expected_sent(i) =~= Seq::empty());
            }
            assert forall|i: int| 0 <= i < d@.n() implies (#[trigger] d@.supervisors[i]).inv() by {
                assert(d@.supervisors[i] == d.supervisors@[i]@);
            }
            assert(0int % (n as int) == 0);
        }
        d
    }

    /// The number of supervisors.
    pub fn workers(&self) -> (n: usize)
        ensures
            n == self@.n(),
    {
        self.supervisors.len()
    }

    /// The number of the worker of supervisor `worker`.
    pub fn worker_id(&self, worker: usize) -> (id: usize)
        requires
            self.wf(),
            worker < self@.n(),
        ensures
            id == worker + 1,
    {
        self.supervisors[worker].worker_id()
    }

    /// Dispatches `targets[from..]` in order, each to the supervisor in turn,
    /// until all are delivered or the mailbox of the supervisor in turn is at
    /// capacity. The result is the place of the first target that was not
    /// delivered: where it is not the end of `targets`, the caller waits
    /// until that worker has consumed something and goes on from there.
    ///
    /// A distributor that has begun to shut down dispatches nothing: its
    /// workers are terminating.
    pub fn dispatch(&mut self, targets: &Vec<String>, from: usize) -> (r: Result<
        usize,
        EngineError,
    >)
        requires
            old(self).wf(),
            from <= targets@.len(),
        ensures
            final(self).wf(),
            final(self)@.same_workers(old(self)@),
            final(self)@.stops == old(self)@.stops,
            match r {
                Ok(next) => {
                    &&& from <= next <= targets@.len()
                    &&& old(self)@.stops == 0 || from == targets@.len()
                    &&& final(self)@.history == old(self)@.history + texts(targets@).subrange(
                        from as int,
                        next as int,
                    )
                    &&& next < targets@.len() ==> final(self)@.supervisors[final(self)@.turn()].mailbox.full()
                },
                Err(e) => {
                    &&& e == EngineError::WorkerTerminated
                    &&& old(self)@.stops > 0
                    &&& from < targets@.len()
                    &&& final(self)@ == old(self)@
                },
            },
    {
        proof {
            assert(self@.history =~= old(self)@.history + texts(targets@).subrange(
                from as int,
                from as int,
            ));
        }
        if from == targets.len() {
            return Ok(from);
        }
        if self.stops > 0 {
            return Err(EngineError::WorkerTerminated);
        }
        let n = self.supervisors.len();
        let mut k: usize = from;
        while k < targets.len()
            invariant
                self.wf(),
                self@.stops == 0,
                old(self)@.stops == 0,
                n == self.supervisors@.len(),
                from <= k <= targets@.len(),
                self@.same_workers(old(self)@),
                self@.history == old(self)@.history + texts(targets@).subrange(
                    from as int,
                    k as int,
                ),
            decreases targets@.len() - k,
        {
            let turn = self.next;
            let ghost before = self@;
            let ghost sups = self.supervisors@;
            let ip = targets[k].clone();
            proof {
                next_turn(before.history.len() as int, n as int);
                before.unstopped_is_open(turn as int);
                assert(before.supervisors[turn as int] == sups[turn as int]@);
            }
            match self.supervisors[turn].send_task(ip) {
                Ok(Delivery::Delivered) => {
                    self.history = Ghost(self.history@.push(ip@));
                    self.next = if turn + 1 == n {
                        0
                    } else {
                        turn + 1
                    };
                    proof {
                        numbering_kept(sups, self.supervisors@, turn as int);
                        assert(self@.supervisors =~= before.dispatched(ip@).supervisors);
                        before.dispatched_keeps_inv(ip@);
                        self@.same_workers_twice(before, old(self)@);
                        assert(self@.history =~= old(self)@.history + texts(targets@).subrange(
                            from as int,
                            k + 1,
                        ));
                    }
                    k += 1;
                },
                Ok(Delivery::Full(_)) => {
                    proof {
                        numbering_kept(sups, self.supervisors@, turn as int);
                        assert(self@.supervisors =~= before.supervisors);
                    }
                    return Ok(k);
                },
                Err(_) => {
                    proof {
                        assert(false);
                    }
                    return Ok(k);
                },
            }
        }
        Ok(k)
    }

    /// Carries the shutdown as far as it goes without waiting. First every
    /// supervisor is asked to stop, in order; only when all of them were
    /// asked are the workers joined. The caller calls again, after waiting
    /// for the worker that the status names, until the status is `Done`.
    pub fn shutdown(&mut self) -> (status: ShutdownStatus)
        requires
            old(self).wf(),
        ensures
            final(self).wf(),
            final(self)@.same_workers(old(self)@),
            final(self)@.history == old(self)@.history,
            old(self)@.stops <= final(self)@.stops,
            match status {
                ShutdownStatus::Stopping(i) => {
                    &&& i == final(self)@.stops
                    &&& i < final(self)@.n()
                    &&& final(self)@.supervisors[i as int].mailbox.full()
                },
                ShutdownStatus::Joining(i) => {
                    &&& final(self)@.stops == final(self)@.n()
                    &&& i < final(self)@.n()
                    &&& !final(self)@.supervisors[i as int].finished()
                    &&& forall|j: int|
                        0 <= j < i ==> (#[trigger] final(self)@.supervisors[j]).finished()
                },
                ShutdownStatus::Done => {
                    &&& final(self)@.stops == final(self)@.n()
                    &&& final(self)@.all_finished()
                    &&& final(self)@.completed(final(self)@.n()) == final(self)@.history.to_multiset()
                },
            },
    {
        let n = self.supervisors.len();
        while self.stops < n
            invariant
                self.wf(),
                n == self.supervisors@.len(),
                self@.same_workers(old(self)@),
                self@.history == old(self)@.history,
                old(self)@.stops <= self@.stops <= n,
            decreases n - self.stops,
        {
            let i = self.stops;
            let ghost before = self@;
            let ghost sups = self.supervisors@;
            proof {
                before.unstopped_is_open(i as int);
                assert(before.supervisors[i as int] == sups[i as int]@);
            }
            match self.supervisors[i].stop() {
                Ok(Delivery::Delivered) => {
                    self.stops = i + 1;
                    proof {
                        numbering_kept(sups, self.supervisors@, i as int);
                        assert(self@.supervisors =~= before.stopped_next().supervisors);
                        before.stopped_next_keeps_inv();
                        self@.same_workers_twice(before, old(self)@);
                    }
                },
                Ok(Delivery::Full(_)) => {
                    proof {
                        numbering_kept(sups, self.supervisors@, i as int);
                        assert(self@.supervisors =~= before.supervisors);
                    }
                    return ShutdownStatus::Stopping(i);
                },
                Err(_) => {
                    proof {
                        assert(false);
                    }
                    return ShutdownStatus::Stopping(i);
                },
            }
        }
        let mut j: usize = 0;
        while j < n
            invariant
                self.wf(),
                n == self.supervisors@.len(),
                j <= n,
                self@.same_workers(old(self)@),
                self@.history == old(self)@.history,
                old(self)@.stops <= self@.stops,
                self@.stops == n,
                forall|i: int| 0 <= i < j ==> (#[trigger] self@.supervisors[i]).finished(),
            decreases n - j,
        {
            proof {
                assert(self@.supervisors[j as int] == self.supervisors@[j as int]@);
            }
            if !self.supervisors[j].is_finished() {
                return ShutdownStatus::Joining(j);
            }
            j += 1;
        }
        proof {
            self@.shutdown_dropped_nothing();
        }
        ShutdownStatus::Done
    }

    /// Lets the worker of supervisor `worker` consume the oldest message of
    /// its mailbox.
    pub fn poll(&mut self, worker: usize) -> (action: WorkerAction)
        requires
            old(self).wf(),
            worker < old(self)@.n(),
        ensures
            final(self).wf(),
            final(self)@ == old(self)@.with_supervisor(
                worker as int,
                old(self)@.supervisors[worker as int].poll(),
            ),
            action@ == old(self)@.supervisors[worker as int].poll_action(),
    {
        let ghost before = self@;
        let ghost sups = self.supervisors@;
        proof {
            assert(before.supervisors[worker as int] == sups[worker as int]@);
            assert(before.supervisors[worker as int].inv());
            before.supervisors[worker as int].poll_keeps_inv();
        }
        let action = self.supervisors[worker].poll();
        proof {
            let polled = before.supervisors[worker as int].poll();
            numbering_kept(sups, self.supervisors@, worker as int);
            assert(self@.supervisors =~= before.supervisors.update(worker as int, polled));
            before.with_supervisor_keeps_inv(worker as int, polled);
        }
        action
    }

    /// Records that an invocation on `target` has ended on the worker of
    /// supervisor `worker`.
    pub fn complete(&mut self, worker: usize, target: &str) -> (action: WorkerAction)
        requires
            old(self).wf(),
            worker < old(self)@.n(),
        ensures
            final(self).wf(),
            final(self)@ == old(self)@.with_supervisor(
                worker as int,
                old(self)@.supervisors[worker as int].complete(target@),
            ),
            action@ == old(self)@.supervisors[worker as int].worker.complete_action(target@),
    {
        let ghost before = self@;
        let ghost sups = self.supervisors@;
        proof {
            assert(before.supervisors[worker as int] == sups[worker as int]@);
            assert(before.supervisors[worker as int].inv());
            before.supervisors[worker as int].complete_keeps_inv(target@);
        }
        let action = self.supervisors[worker].complete(target);
        proof {
            let done = before.supervisors[worker as int].complete(target@);
            numbering_kept(sups, self.supervisors@, worker as int);
            assert(self@.supervisors =~= before.supervisors.update(worker as int, done));
            before.with_supervisor_keeps_inv(worker as int, done);
        }
        action
    }

    /// Runs the worker of supervisor `worker` on the caller's thread for as
    /// long as it has something to do, with `handler` called on each target
    /// that the worker starts.
    pub fn run<H: TaskHandler>(&mut self, worker: usize, handler: &H) -> (report: Vec<Invocation>)
        requires
            old(self).wf(),
            worker < old(self)@.n(),
        ensures
            final(self).wf(),
            final(self)@ == old(self)@.with_supervisor(
                worker as int,
                old(self)@.supervisors[worker as int].run(),
            ),
            targets_of(report@) == old(self)@.supervisors[worker as int].run_completes(),
    {
        let ghost before = self@;
        let ghost sups = self.supervisors@;
        proof {
            assert(before.supervisors[worker as int] == sups[worker as int]@);
            assert(before.supervisors[worker as int].inv());
            before.supervisors[worker as int].run_keeps_inv();
        }
        let report = self.supervisors[worker].run(handler);
        proof {
            let ran = before.supervisors[worker as int].run();
            numbering_kept(sups, self.supervisors@, worker as int);
            assert(self@.supervisors =~= before.supervisors.update(worker as int, ran));
            before.with_supervisor_keeps_inv(worker as int, ran);
        }
        report
    }

    /// Whether the worker of supervisor `worker` can consume a message now.
    pub fn has_work(&self, worker: usize) -> (b: bool)
        requires
            self.wf(),
            worker < self@.n(),
        ensures
            b == self@.supervisors[worker as int].can_poll(),
    {
        proof {
            assert(self@.supervisors[worker as int] == self.supervisors@[worker as int]@);
        }
        self.supervisors[worker].has_work()
    }

    /// Whether the worker of supervisor `worker` has finished.
    pub fn is_finished(&self, worker: usize) -> (b: bool)
        requires
            self.wf(),
            worker < self@.n(),
        ensures
            b == self@.supervisors[worker as int].finished(),
    {
        proof {
            assert(self@.supervisors[worker as int] == self.supervisors@[worker as int]@);
        }
        self.supervisors[worker].is_finished()
    }

    /// How many invocations are in flight on the worker of supervisor
    /// `worker`: never more than its concurrency.
    pub fn in_flight(&self, worker: usize) -> (k: usize)
        requires
            self.wf(),
            worker < self@.n(),
        ensures
            k == self@.supervisors[worker as int].worker.running.len(),
            k <= self@.supervisors[worker as int].worker.concurrency,
    {
        proof {
            assert(self@.supervisors[worker as int] == self.supervisors@[worker as int]@);
            assert(self@.supervisors[worker as int].inv());
        }
        self.supervisors[worker].in_flight()
    }

    /// Whether the shutdown has begun: from then on nothing is dispatched.
    pub fn is_stopping(&self) -> (b: bool)
        ensures
            b == (self@.stops > 0),
    {
        self.stops > 0
    }
}

} // verus!

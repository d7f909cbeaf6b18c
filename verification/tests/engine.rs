use ip_scanner::distributor::{Distributor, ShutdownStatus};
use ip_scanner::mailbox::{Mailbox, Undelivered};
use ip_scanner::supervisor::{Delivery, EngineError, WorkerSupervisor, DEFAULT_MAILBOX_CAPACITY};
use ip_scanner::worker_engine::{
    HandlerError, TaskHandler, WorkerAction, WorkerEngine, WorkerMessage, WorkerPhase,
};
use std::cell::RefCell;

fn task(ip: &str) -> Option<WorkerMessage> {
    Some(WorkerMessage::Task(ip.to_string()))
}

fn started(action: &WorkerAction) -> Option<&str> {
    match action {
        WorkerAction::Start(ip) => Some(ip.as_str()),
        _ => None,
    }
}

fn is_wait(action: &WorkerAction) -> bool {
    matches!(action, WorkerAction::Wait)
}

fn is_finish(action: &WorkerAction) -> bool {
    matches!(action, WorkerAction::Finish)
}

/// Records every target it is called on, and fails on the targets it was told to fail on.
struct Recorder {
    seen: RefCell<Vec<String>>,
    failing: Vec<String>,
}

impl Recorder {
    fn new(failing: &[&str]) -> Recorder {
        Recorder { seen: RefCell::new(Vec::new()), failing: failing.iter().map(|s| s.to_string()).collect() }
    }
}

impl TaskHandler for Recorder {
    fn handle(&self, ip: String) -> Result<(), HandlerError> {
        self.seen.borrow_mut().push(ip.clone());
        if self.failing.contains(&ip) {
            Err(HandlerError::ProbeError(format!("cannot probe {}", ip)))
        } else {
            Ok(())
        }
    }
}

#[test]
fn worker_starts_no_more_than_its_concurrency() {
    let mut w = WorkerEngine::new(7, 2);
    assert_eq!(w.worker_id(), 7);
    assert_eq!(w.concurrency(), 2);
    assert_eq!(w.phase(), WorkerPhase::Idle);
    assert_eq!(started(&w.receive(task("a"))), Some("a"));
    assert_eq!(w.phase(), WorkerPhase::Running);
    assert_eq!(started(&w.receive(task("b"))), Some("b"));
    assert!(is_wait(&w.receive(task("c"))));
    assert!(is_wait(&w.receive(task("d"))));
    assert_eq!(w.in_flight(), 2);
    assert_eq!(w.queued(), 2);
    // the permit of b goes to the oldest waiting target
    assert_eq!(started(&w.complete("b")), Some("c"));
    assert_eq!(w.in_flight(), 2);
    assert_eq!(w.queued(), 1);
    assert_eq!(started(&w.complete("a")), Some("d"));
    assert!(is_wait(&w.complete("d")));
    assert_eq!(w.in_flight(), 1);
    assert!(is_wait(&w.complete("c")));
    assert_eq!(w.in_flight(), 0);
    assert_eq!(w.phase(), WorkerPhase::Running);
}

#[test]
fn worker_drains_before_it_finishes() {
    let mut w = WorkerEngine::new(1, 1);
    assert_eq!(started(&w.receive(task("a"))), Some("a"));
    assert!(is_wait(&w.receive(task("b"))));
    assert!(is_wait(&w.receive(Some(WorkerMessage::Stop))));
    assert_eq!(w.phase(), WorkerPhase::Draining);
    assert!(!w.is_accepting());
    // a task that arrives after Stop is not taken up
    assert!(is_wait(&w.receive(task("late"))));
    assert_eq!(w.queued(), 1);
    assert_eq!(started(&w.complete("a")), Some("b"));
    assert_eq!(w.phase(), WorkerPhase::Draining);
    assert!(is_finish(&w.complete("b")));
    assert_eq!(w.phase(), WorkerPhase::Finished);
    assert!(w.is_finished());
    assert!(is_finish(&w.receive(task("later"))));
    assert!(is_finish(&w.complete("b")));
    assert_eq!(w.in_flight(), 0);
}

#[test]
fn worker_with_nothing_to_do_finishes_on_stop() {
    let mut w = WorkerEngine::new(1, 3);
    assert!(is_finish(&w.receive(Some(WorkerMessage::Stop))));
    assert_eq!(w.phase(), WorkerPhase::Finished);
    let mut v = WorkerEngine::new(2, 3);
    assert!(is_finish(&v.receive(None)));
    assert!(v.is_finished());
}

#[test]
fn worker_ignores_the_end_of_an_invocation_it_did_not_start() {
    let mut w = WorkerEngine::new(1, 2);
    assert_eq!(started(&w.receive(task("a"))), Some("a"));
    assert!(is_wait(&w.complete("b")));
    assert_eq!(w.in_flight(), 1);
    assert!(is_wait(&w.idle_action()));
}

#[test]
fn worker_handles_the_same_target_twice() {
    let mut w = WorkerEngine::new(1, 2);
    assert_eq!(started(&w.receive(task("a"))), Some("a"));
    assert_eq!(started(&w.receive(task("a"))), Some("a"));
    assert_eq!(w.in_flight(), 2);
    assert!(is_wait(&w.complete("a")));
    assert_eq!(w.in_flight(), 1);
    assert!(is_wait(&w.complete("a")));
    assert_eq!(w.in_flight(), 0);
}

#[test]
fn worker_without_permits_never_starts_anything() {
    let mut w = WorkerEngine::new(1, 0);
    assert!(is_wait(&w.receive(task("a"))));
    assert!(is_wait(&w.receive(Some(WorkerMessage::Stop))));
    assert_eq!(w.phase(), WorkerPhase::Draining);
    assert_eq!(w.in_flight(), 0);
    assert_eq!(w.queued(), 1);
}

#[test]
fn mailbox_is_bounded_and_first_in_first_out() {
    let mut m = Mailbox::new(2);
    assert_eq!(m.capacity(), 2);
    assert!(m.send(WorkerMessage::Task("a".to_string())).is_ok());
    assert!(!m.is_full());
    assert!(m.send(WorkerMessage::Stop).is_ok());
    assert!(m.is_full());
    assert_eq!(m.len(), 2);
    match m.send(WorkerMessage::Task("c".to_string())) {
        Err(Undelivered::Full(WorkerMessage::Task(ip))) => assert_eq!(ip, "c"),
        other => panic!("unexpected: {:?}", other),
    }
    assert!(matches!(m.take(), Some(WorkerMessage::Task(ip)) if ip == "a"));
    assert!(matches!(m.take(), Some(WorkerMessage::Stop)));
    assert!(m.take().is_none());
    m.close();
    assert!(m.is_closed());
    assert!(matches!(m.send(WorkerMessage::Stop), Err(Undelivered::Closed(WorkerMessage::Stop))));
    assert_eq!(m.len(), 0);
}

#[test]
fn mailbox_without_room_takes_nothing() {
    let mut m = Mailbox::new(0);
    assert!(m.is_full());
    assert!(matches!(m.send(WorkerMessage::Stop), Err(Undelivered::Full(WorkerMessage::Stop))));
}

#[test]
fn submitting_after_stop_and_join_fails_with_worker_terminated() {
    let mut s = WorkerSupervisor::new(1, 2);
    assert_eq!(s.worker_id(), 1);
    assert!(matches!(s.send_task("10.0.0.1".to_string()), Ok(Delivery::Delivered)));
    assert!(matches!(s.stop(), Ok(Delivery::Delivered)));
    let handler = Recorder::new(&[]);
    let report = s.run(&handler);
    assert_eq!(report.len(), 1);
    assert_eq!(report[0].target, "10.0.0.1");
    assert!(report[0].result.is_ok());
    assert!(s.is_finished());
    assert!(matches!(s.send_task("10.0.0.2".to_string()), Err(EngineError::WorkerTerminated)));
    assert!(matches!(s.stop(), Err(EngineError::WorkerTerminated)));
    assert_eq!(s.pending(), 0);
    assert!(s.wait().is_ok());
    assert_eq!(*handler.seen.borrow(), vec!["10.0.0.1".to_string()]);
}

#[test]
fn supervisor_is_not_joined_before_its_worker_has_finished() {
    let mut s = WorkerSupervisor::new(3, 1);
    assert!(matches!(s.send_task("a".to_string()), Ok(Delivery::Delivered)));
    assert!(matches!(s.stop(), Ok(Delivery::Delivered)));
    assert!(s.has_work());
    assert_eq!(started(&s.poll()), Some("a"));
    assert!(s.has_work());
    assert!(is_wait(&s.poll()));
    assert!(!s.has_work());
    assert_eq!(s.in_flight(), 1);
    let mut s = match s.wait() {
        Err(s) => s,
        Ok(()) => panic!("joined a worker with an invocation in flight"),
    };
    assert!(!s.is_finished());
    // a submission made while the worker drains is delivered, but never consumed
    assert!(matches!(s.send_task("late".to_string()), Ok(Delivery::Delivered)));
    assert!(is_finish(&s.complete("a")));
    assert!(s.is_finished());
    assert_eq!(s.pending(), 1);
    assert!(is_finish(&s.poll()));
    assert!(s.wait().is_ok());
}

#[test]
fn supervisor_hands_back_what_a_full_mailbox_cannot_take() {
    let mut s = WorkerSupervisor::with_capacity(1, 1, 2);
    assert!(matches!(s.send_task("a".to_string()), Ok(Delivery::Delivered)));
    assert!(matches!(s.send_task("b".to_string()), Ok(Delivery::Delivered)));
    match s.send_task("c".to_string()) {
        Ok(Delivery::Full(WorkerMessage::Task(ip))) => assert_eq!(ip, "c"),
        other => panic!("unexpected: {:?}", other),
    }
    assert!(matches!(s.stop(), Ok(Delivery::Full(WorkerMessage::Stop))));
    assert_eq!(started(&s.poll()), Some("a"));
    assert!(matches!(s.send_task("c".to_string()), Ok(Delivery::Delivered)));
    assert_eq!(s.pending(), 2);
}

#[test]
fn supervisor_has_the_default_mailbox_capacity() {
    assert_eq!(DEFAULT_MAILBOX_CAPACITY, 10000);
    let mut s = WorkerSupervisor::new(1, 1);
    for i in 0..10000 {
        assert!(matches!(s.send_task(format!("t{}", i)), Ok(Delivery::Delivered)));
    }
    assert!(matches!(s.send_task("one too many".to_string()), Ok(Delivery::Full(_))));
}

#[test]
fn a_failing_handler_does_not_stop_the_worker() {
    let mut s = WorkerSupervisor::new(1, 1);
    for ip in ["a", "b", "c"] {
        assert!(matches!(s.send_task(ip.to_string()), Ok(Delivery::Delivered)));
    }
    assert!(matches!(s.stop(), Ok(Delivery::Delivered)));
    let handler = Recorder::new(&["b"]);
    let report = s.run(&handler);
    assert_eq!(report.len(), 3);
    assert!(report[0].result.is_ok());
    assert_eq!(report[1].target, "b");
    assert!(matches!(&report[1].result, Err(HandlerError::ProbeError(m)) if m == "cannot probe b"));
    assert!(report[2].result.is_ok());
    assert!(s.is_finished());
    assert_eq!(*handler.seen.borrow(), vec!["a".to_string(), "b".to_string(), "c".to_string()]);
}

#[test]
fn run_picks_up_what_was_left_waiting() {
    let mut s = WorkerSupervisor::new(1, 1);
    for ip in ["a", "b", "c"] {
        assert!(matches!(s.send_task(ip.to_string()), Ok(Delivery::Delivered)));
    }
    // a is started by hand and still in flight while b is consumed and queued
    assert_eq!(started(&s.poll()), Some("a"));
    assert!(is_wait(&s.poll()));
    assert_eq!(started(&s.complete("a")), Some("b"));
    let handler = Recorder::new(&[]);
    let report = s.run(&handler);
    // b was started outside of run and is not completed by it; c waits behind it
    assert_eq!(report.len(), 0);
    assert_eq!(s.in_flight(), 1);
    assert_eq!(started(&s.complete("b")), Some("c"));
    assert!(is_wait(&s.complete("c")));
}

#[test]
fn round_robin_gives_each_supervisor_every_nth_target() {
    let mut d = Distributor::new(3, 2);
    assert_eq!(d.workers(), 3);
    let targets: Vec<String> = (0..10).map(|i| format!("10.0.0.{}", i)).collect();
    assert_eq!(d.dispatch(&targets, 0), Ok(10));
    let handler = Recorder::new(&[]);
    let mut received: Vec<Vec<String>> = Vec::new();
    for w in 0..3 {
        let report = d.run(w, &handler);
        received.push(report.into_iter().map(|i| i.target).collect());
    }
    assert_eq!(received[0], vec!["10.0.0.0", "10.0.0.3", "10.0.0.6", "10.0.0.9"]);
    assert_eq!(received[1], vec!["10.0.0.1", "10.0.0.4", "10.0.0.7"]);
    assert_eq!(received[2], vec!["10.0.0.2", "10.0.0.5", "10.0.0.8"]);
    // the round goes on where it stood
    let more: Vec<String> = vec!["x".to_string(), "y".to_string()];
    assert_eq!(d.dispatch(&more, 0), Ok(2));
    assert_eq!(d.run(0, &handler).len(), 0);
    assert_eq!(d.run(1, &handler)[0].target, "x");
    assert_eq!(d.run(2, &handler)[0].target, "y");
}

#[test]
fn shutdown_completes_every_dispatched_target() {
    let mut d = Distributor::new(4, 3);
    let targets: Vec<String> = (0..50).map(|i| format!("192.168.0.{}", i)).collect();
    assert_eq!(d.dispatch(&targets, 0), Ok(50));
    assert!(!d.is_stopping());
    let handler = Recorder::new(&["192.168.0.7"]);
    let mut status = d.shutdown();
    assert!(d.is_stopping());
    let mut rounds = 0;
    while let ShutdownStatus::Joining(w) = status {
        assert!(!d.is_finished(w));
        d.run(w, &handler);
        assert!(d.is_finished(w));
        assert_eq!(d.in_flight(w), 0);
        status = d.shutdown();
        rounds += 1;
    }
    assert_eq!(rounds, 4);
    assert_eq!(status, ShutdownStatus::Done);
    let mut seen = handler.seen.borrow().clone();
    seen.sort();
    let mut expected = targets.clone();
    expected.sort();
    assert_eq!(seen, expected);
    // nothing is dispatched once the shutdown has begun
    assert_eq!(d.dispatch(&targets, 0), Err(EngineError::WorkerTerminated));
    assert_eq!(d.dispatch(&targets, 50), Ok(50));
    assert_eq!(d.shutdown(), ShutdownStatus::Done);
}

#[test]
fn every_supervisor_is_asked_to_stop_before_any_is_joined() {
    let mut d = Distributor::new(2, 1);
    let targets: Vec<String> = (0..3).map(|i| format!("t{}", i)).collect();
    assert_eq!(d.dispatch(&targets, 0), Ok(3));
    assert_eq!(d.shutdown(), ShutdownStatus::Joining(0));
    // both workers find their Stop behind their tasks, whichever runs first
    assert!(d.has_work(1));
    assert_eq!(started(&d.poll(1)), Some("t1"));
    assert!(is_wait(&d.poll(1)));
    assert_eq!(d.in_flight(1), 1);
    assert!(is_finish(&d.complete(1, "t1")));
    assert!(d.is_finished(1));
    assert_eq!(d.shutdown(), ShutdownStatus::Joining(0));
    assert_eq!(started(&d.poll(0)), Some("t0"));
    assert!(is_wait(&d.poll(0)));
    assert_eq!(started(&d.complete(0, "t0")), Some("t2"));
    assert!(is_wait(&d.poll(0)));
    assert!(is_finish(&d.complete(0, "t2")));
    assert_eq!(d.shutdown(), ShutdownStatus::Done);
}

#[test]
fn dispatch_stops_at_a_full_mailbox_and_goes_on_later() {
    let mut d = Distributor::new(2, 1);
    let targets: Vec<String> = (0..20005).map(|i| format!("t{}", i)).collect();
    // two mailboxes of 10000 take the first 20000 targets
    assert_eq!(d.dispatch(&targets, 0), Ok(20000));
    assert_eq!(d.dispatch(&targets, 20000), Ok(20000));
    // the shutdown cannot deliver Stop to the first supervisor either
    assert_eq!(d.shutdown(), ShutdownStatus::Stopping(0));
    assert!(!d.is_stopping());
    let handler = Recorder::new(&[]);
    assert_eq!(d.run(0, &handler).len(), 10000);
    assert_eq!(d.dispatch(&targets, 20000), Ok(20001));
    assert_eq!(d.run(1, &handler).len(), 10000);
    assert_eq!(d.dispatch(&targets, 20001), Ok(20005));
    assert_eq!(d.shutdown(), ShutdownStatus::Joining(0));
    assert_eq!(d.run(0, &handler).len(), 3);
    assert_eq!(d.run(1, &handler).len(), 2);
    assert_eq!(d.shutdown(), ShutdownStatus::Done);
    assert_eq!(handler.seen.borrow().len(), 20005);
}

#[test]
fn worker_runs_through_its_mailbox_until_stop() {
    let mut m = Mailbox::new(10);
    for ip in ["a", "b"] {
        assert!(m.send(WorkerMessage::Task(ip.to_string())).is_ok());
    }
    assert!(m.send(WorkerMessage::Stop).is_ok());
    assert!(m.send(WorkerMessage::Task("behind the stop".to_string())).is_ok());
    let mut w = WorkerEngine::new(1, 4);
    let handler = Recorder::new(&["a"]);
    let report = w.run(&mut m, &handler);
    assert_eq!(report.len(), 2);
    assert_eq!(report[0].target, "a");
    assert!(report[0].result.is_err());
    assert_eq!(report[1].target, "b");
    assert!(report[1].result.is_ok());
    assert!(w.is_finished());
    assert!(m.is_closed());
    assert_eq!(m.len(), 1);
    assert_eq!(*handler.seen.borrow(), vec!["a".to_string(), "b".to_string()]);
}

#[test]
fn worker_that_ran_out_of_messages_waits_for_more() {
    let mut m = Mailbox::new(10);
    assert!(m.send(WorkerMessage::Task("a".to_string())).is_ok());
    let mut w = WorkerEngine::new(1, 1);
    let handler = Recorder::new(&[]);
    assert_eq!(w.run(&mut m, &handler).len(), 1);
    assert_eq!(w.phase(), WorkerPhase::Running);
    assert!(!m.is_closed());
    assert!(m.send(WorkerMessage::Task("b".to_string())).is_ok());
    assert_eq!(w.run(&mut m, &handler).len(), 1);
    assert_eq!(w.run(&mut m, &handler).len(), 0);
}

/// Fails on every target, for want of a place to write to.
struct NoSink;

impl TaskHandler for NoSink {
    fn handle(&self, ip: String) -> Result<(), HandlerError> {
        Err(HandlerError::SinkWriteError(format!("cannot write {}", ip)))
    }
}

#[test]
fn a_handler_that_cannot_write_is_reported_and_the_worker_finishes() {
    let mut s = WorkerSupervisor::new(1, 2);
    assert!(matches!(s.send_task("a".to_string()), Ok(Delivery::Delivered)));
    assert!(matches!(s.stop(), Ok(Delivery::Delivered)));
    let report = s.run(&NoSink);
    assert_eq!(report.len(), 1);
    assert!(matches!(&report[0].result, Err(HandlerError::SinkWriteError(m)) if m == "cannot write a"));
    assert!(s.is_finished());
}

#[test]
fn a_second_stop_is_tolerated() {
    let mut s = WorkerSupervisor::new(1, 1);
    assert!(matches!(s.send_task("a".to_string()), Ok(Delivery::Delivered)));
    assert!(matches!(s.stop(), Ok(Delivery::Delivered)));
    assert!(matches!(s.stop(), Ok(Delivery::Delivered)));
    let handler = Recorder::new(&[]);
    assert_eq!(s.run(&handler).len(), 1);
    assert!(s.is_finished());
    // the second Stop is never consumed
    assert_eq!(s.pending(), 1);
    assert!(matches!(s.stop(), Err(EngineError::WorkerTerminated)));
}

#[test]
fn supervisors_are_numbered_from_one() {
    let d = Distributor::new(3, 1);
    assert_eq!(d.worker_id(0), 1);
    assert_eq!(d.worker_id(2), 3);
}

/// A small generator of numbers that look random, the same on every run.
struct Dice(u64);

impl Dice {
    fn roll(&mut self, sides: usize) -> usize {
        self.0 = self.0.wrapping_mul(6364136223846793005).wrapping_add(1442695040888963407);
        ((self.0 >> 33) as usize) % sides
    }
}

#[test]
fn worker_keeps_to_its_concurrency_however_events_interleave() {
    for concurrency in 1..6usize {
        let mut dice = Dice(concurrency as u64);
        let mut w = WorkerEngine::new(1, concurrency);
        let mut in_flight: Vec<String> = Vec::new();
        let mut ended: Vec<String> = Vec::new();
        let mut sent = 0;
        let mut stopped = false;
        while !w.is_finished() {
            let action = if !in_flight.is_empty() && (stopped || dice.roll(3) == 0) {
                let which = dice.roll(in_flight.len());
                let ip = in_flight.remove(which);
                let action = w.complete(&ip);
                ended.push(ip);
                action
            } else if sent < 200 {
                sent += 1;
                w.receive(task(&format!("t{}", sent)))
            } else {
                stopped = true;
                w.receive(Some(WorkerMessage::Stop))
            };
            if let WorkerAction::Start(ip) = action {
                in_flight.push(ip);
            }
            assert_eq!(w.in_flight(), in_flight.len());
            assert!(w.in_flight() <= concurrency);
            assert!(w.queued() == 0 || w.in_flight() == concurrency);
        }
        assert!(in_flight.is_empty());
        ended.sort();
        let mut expected: Vec<String> = (1..=200).map(|i| format!("t{}", i)).collect();
        expected.sort();
        assert_eq!(ended, expected);
    }
}

#[test]
fn pool_completes_everything_however_workers_interleave() {
    let n = 5;
    let concurrency = 3;
    let mut dice = Dice(42);
    let mut d = Distributor::new(n, concurrency);
    let targets: Vec<String> = (0..1000).map(|i| format!("10.1.{}.{}", i / 250, i % 250)).collect();
    let mut in_flight: Vec<Vec<String>> = vec![Vec::new(); n];
    let mut started: Vec<Vec<String>> = vec![Vec::new(); n];
    let mut ended = 0;
    let mut from = 0;
    let mut done = false;
    while !done {
        match dice.roll(4) {
            0 if from < targets.len() => {
                let upto = (from + 1 + dice.roll(50)).min(targets.len());
                let batch: Vec<String> = targets[from..upto].to_vec();
                assert_eq!(d.dispatch(&batch, 0), Ok(batch.len()));
                from = upto;
            }
            0 => {
                done = d.shutdown() == ShutdownStatus::Done;
            }
            1 => {
                let w = dice.roll(n);
                if let WorkerAction::Start(ip) = d.poll(w) {
                    started[w].push(ip.clone());
                    in_flight[w].push(ip);
                }
            }
            _ => {
                let w = dice.roll(n);
                if !in_flight[w].is_empty() {
                    let which = dice.roll(in_flight[w].len());
                    let ip = in_flight[w].remove(which);
                    ended += 1;
                    if let WorkerAction::Start(next) = d.complete(w, &ip) {
                        started[w].push(next.clone());
                        in_flight[w].push(next);
                    }
                }
            }
        }
        for w in 0..n {
            assert_eq!(d.in_flight(w), in_flight[w].len());
            assert!(d.in_flight(w) <= concurrency);
        }
    }
    assert_eq!(ended, 1000);
    for w in 0..n {
        assert!(d.is_finished(w));
        let share: Vec<String> = targets.iter().skip(w).step_by(n).cloned().collect();
        assert_eq!(started[w], share);
    }
}

#[test]
fn fresh_worker_reports_its_tasks_in_the_order_they_were_sent() {
    for concurrency in 1..4 {
        let mut m = Mailbox::new(100);
        let targets: Vec<String> = (0..20).map(|i| format!("10.0.0.{}", i)).collect();
        for ip in &targets {
            assert!(m.send(WorkerMessage::Task(ip.clone())).is_ok());
        }
        assert!(m.send(WorkerMessage::Stop).is_ok());
        let mut w = WorkerEngine::new(1, concurrency);
        let handler = Recorder::new(&[]);
        let report = w.run(&mut m, &handler);
        let reported: Vec<String> = report.into_iter().map(|i| i.target).collect();
        assert_eq!(reported, targets);
        assert_eq!(*handler.seen.borrow(), targets);
        assert!(w.is_finished());
        assert_eq!(m.len(), 0);
    }
}

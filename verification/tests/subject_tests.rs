//! End-to-end tests of the broadcast primitive, driving the actor
//! explicitly: commands are enqueued through `Subject` handles and the
//! actor processes them one `step` at a time, which makes every
//! interleaving in these scenarios deterministic.

use subject::actor::Subject;
use subject::model::Command;

#[test]
fn scenario_full_lifecycle() {
    let (handle, mut actor) = Subject::new();

    let r1 = handle.subscribe().unwrap();
    assert!(handle.send(5).is_ok());
    assert!(actor.step()); // register r1
    assert!(actor.step()); // broadcast 5
    assert_eq!(r1.recv().unwrap(), 5);

    let r2 = handle.subscribe().unwrap();
    assert!(handle.send(6).is_ok());
    assert!(actor.step()); // register r2
    assert!(actor.step()); // broadcast 6
    assert_eq!(r1.recv().unwrap(), 6);
    assert_eq!(r2.recv().unwrap(), 6);

    drop(r1);
    assert!(handle.send(7).is_ok()); // no error despite r1 being gone
    assert!(actor.step()); // broadcast 7; r1's sink is pruned
    assert_eq!(actor.subscriber_count(), 1);
    assert_eq!(r2.recv().unwrap(), 7);

    assert!(handle.close().is_ok());
    assert!(!actor.step()); // disconnect processed: actor terminated
    drop(actor);
    match handle.send(8) {
        Err(e) => assert_eq!(e.value, 8),
        Ok(()) => panic!("send succeeded after close"),
    }
}

#[test]
fn values_arrive_in_send_order() {
    let (handle, mut actor) = Subject::new();
    let r = handle.subscribe().unwrap();
    assert!(handle.send(10).is_ok());
    assert!(handle.send(11).is_ok());
    assert!(handle.send(12).is_ok());
    assert!(actor.step());
    assert!(actor.step());
    assert!(actor.step());
    assert!(actor.step());
    assert_eq!(r.recv().unwrap(), 10);
    assert_eq!(r.recv().unwrap(), 11);
    assert_eq!(r.recv().unwrap(), 12);
}

#[test]
fn no_replay_for_late_subscriber() {
    let (handle, mut actor) = Subject::new();
    let early = handle.subscribe().unwrap();
    assert!(handle.send(1).is_ok());
    let late = handle.subscribe().unwrap();
    assert!(handle.send(2).is_ok());
    assert!(handle.close().is_ok());
    assert!(actor.step()); // register early
    assert!(actor.step()); // broadcast 1: early only
    assert!(actor.step()); // register late
    assert!(actor.step()); // broadcast 2: both
    assert!(!actor.step()); // disconnect
    drop(actor);
    assert_eq!(early.recv().unwrap(), 1);
    assert_eq!(early.recv().unwrap(), 2);
    assert!(early.recv().is_err()); // end of stream
    assert_eq!(late.recv().unwrap(), 2);
    assert!(late.recv().is_err()); // 1 was never replayed to the late joiner
}

#[test]
fn operations_fail_after_close() {
    let (handle, mut actor) = Subject::new();
    let clone = handle.clone();
    assert!(handle.close().is_ok());
    assert!(!actor.step());
    drop(actor);
    assert!(clone.send(8).is_err());
    assert!(clone.subscribe().is_err());
    assert!(clone.close().is_err());
    match handle.send(9) {
        Err(e) => assert_eq!(e.value, 9),
        Ok(()) => panic!("send succeeded after close"),
    }
}

#[test]
fn dropped_receiver_is_pruned_on_next_send() {
    let (handle, mut actor) = Subject::new();
    let r1 = handle.subscribe().unwrap();
    let r2 = handle.subscribe().unwrap();
    assert!(actor.step());
    assert!(actor.step());
    assert_eq!(actor.subscriber_count(), 2);

    drop(r1);
    assert!(handle.send(3).is_ok()); // the send still reports success
    assert!(actor.step());
    assert_eq!(actor.subscriber_count(), 1); // registry shrank by one
    assert_eq!(r2.recv().unwrap(), 3);

    assert!(handle.send(4).is_ok());
    assert!(actor.step());
    assert_eq!(actor.subscriber_count(), 1); // no further shrink
    assert_eq!(r2.recv().unwrap(), 4);
}

#[test]
fn one_send_reaches_every_earlier_subscriber() {
    let (handle, mut actor) = Subject::new();
    let mut receivers = Vec::new();
    for _ in 0..8 {
        receivers.push(handle.subscribe().unwrap());
    }
    assert!(handle.send(42).is_ok());
    for _ in 0..9 {
        assert!(actor.step());
    }
    assert_eq!(actor.subscriber_count(), 8);
    for r in &receivers {
        assert_eq!(r.recv().unwrap(), 42);
    }
}

#[test]
fn actor_terminates_when_all_handles_dropped() {
    let (handle, mut actor) = Subject::new();
    let clone = handle.clone();
    drop(handle);
    drop(clone);
    assert!(!actor.step()); // the queue reports sender exhaustion
    assert_eq!(actor.subscriber_count(), 0);
    assert!(!actor.step()); // a terminated actor stays terminated
}

#[test]
fn pending_commands_processed_before_exhaustion() {
    let (handle, mut actor) = Subject::new();
    let r = handle.subscribe().unwrap();
    assert!(handle.send(1).is_ok());
    drop(handle);
    while actor.step() {} // drains both commands, then exits: no hang
    drop(actor);
    assert_eq!(r.recv().unwrap(), 1);
    assert!(r.recv().is_err());
}

#[test]
fn fresh_actor_has_empty_registry() {
    let (_handle, actor) = Subject::new();
    assert_eq!(actor.subscriber_count(), 0);
}

#[test]
fn send_command_delivers_to_registered_sink() {
    let (handle, mut actor) = Subject::new();
    let r = handle.subscribe().unwrap();
    assert!(actor.step()); // register
    assert!(actor.process(Command::Send(7)));
    assert_eq!(actor.subscriber_count(), 1);
    assert_eq!(r.recv().unwrap(), 7);
}

#[test]
fn disconnect_command_terminates_at_once() {
    let (handle, mut actor) = Subject::new();
    let r = handle.subscribe().unwrap();
    assert!(handle.send(9).is_ok()); // still queued when the disconnect hits
    assert!(actor.step()); // register
    assert_eq!(actor.subscriber_count(), 1);
    assert!(!actor.process(Command::Disconnect));
    assert_eq!(actor.subscriber_count(), 0); // registry discarded, queue not drained
    drop(actor);
    assert!(r.recv().is_err()); // sink dropped: end of stream, 9 never delivered
}

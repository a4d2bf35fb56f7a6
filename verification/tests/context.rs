use std::io;
use std::time::Duration;

use mio::{Events, Poll, Token, Waker};
use mio_worker::{ContextState, WAKER_TOKEN};

#[test]
fn new_context_is_idle() {
    let mut context: ContextState<u8, u8> = ContextState::new(64);
    assert!(!context.should_run());
    assert!(!context.is_running());
    assert!(!context.worker_created());
    assert_eq!(64, context.events_capacity());
    assert!(context.messages().is_empty());
    assert_eq!(None, context.next_timeout(0));
    assert!(context.wake().is_ok());
}

#[test]
fn messages_and_timeouts_without_waker() {
    let mut context: ContextState<&'static str, &'static str> = ContextState::new(8);
    assert!(context.send_message("a").is_ok());
    assert!(context.send_message("b").is_ok());
    assert_eq!(2, context.messages().len());
    assert!(context.set_timeout(100, 50, "t").is_ok());
    assert_eq!(Some(20), context.next_timeout(130));
    assert_eq!(Some("a"), context.pop_message());
    assert_eq!(Some("b"), context.pop_message());
    assert_eq!(None, context.pop_message());
    assert!(context.pop_timeouts(150).is_none());
    assert_eq!(
        vec![(150, "t")],
        context.pop_timeouts(151).unwrap().into_iter().collect::<Vec<_>>()
    );
}

#[test]
fn running_flags() {
    let mut context: ContextState<u8, u8> = ContextState::new(8);
    context.set_running(true);
    assert!(context.should_run());
    assert!(context.is_running());
    assert!(context.shutdown().is_ok());
    assert!(!context.should_run());
    assert!(!context.is_running());
}

#[test]
fn worker_is_created_once() {
    let poll = Poll::new().unwrap();
    let mut context: ContextState<u8, u8> = ContextState::new(8);
    let waker = Waker::new(poll.registry(), Token(WAKER_TOKEN));
    assert!(context.create_worker(waker).unwrap().is_ok());
    assert!(context.worker_created());

    let other_poll = Poll::new().unwrap();
    let other = Waker::new(other_poll.registry(), Token(WAKER_TOKEN));
    assert!(context.create_worker(other).is_none());
    assert!(context.worker_created());

    // With a waker installed, waking goes through it.
    context.set_running(true);
    assert!(context.is_running());
    assert!(context.wake().is_ok());
}

#[test]
fn failed_waker_leaves_worker_uncreated() {
    let mut context: ContextState<u8, u8> = ContextState::new(8);
    let failed: io::Result<Waker> = Err(io::Error::new(io::ErrorKind::Other, "no waker"));
    let outcome = context.create_worker(failed).expect("not yet created");
    assert!(outcome.is_err());
    assert!(!context.worker_created());
}

#[test]
fn wakes_reach_the_poll() {
    let mut poll = Poll::new().unwrap();
    let mut context: ContextState<u8, u8> = ContextState::new(8);
    let waker = Waker::new(poll.registry(), Token(WAKER_TOKEN));
    context.create_worker(waker).unwrap().unwrap();
    let mut events = Events::with_capacity(8);

    // Creating the worker woke it once.
    poll.poll(&mut events, Some(Duration::from_millis(500))).unwrap();
    assert!(events.iter().any(|e| e.token() == Token(WAKER_TOKEN)));

    // Sending a message wakes it again.
    assert!(context.send_message(1).is_ok());
    poll.poll(&mut events, Some(Duration::from_millis(500))).unwrap();
    assert!(events.iter().any(|e| e.token() == Token(WAKER_TOKEN)));

    // So does shutting down.
    assert!(context.shutdown().is_ok());
    poll.poll(&mut events, Some(Duration::from_millis(500))).unwrap();
    assert!(events.iter().any(|e| e.token() == Token(WAKER_TOKEN)));
}

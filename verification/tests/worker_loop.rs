use std::time::{Duration, Instant};

use mio::{Events, Poll, Token, Waker};
use mio_worker::{
    classify, Action, ContextState, EventInfo, EventKind, Input, WorkerLoop, WAKER_TOKEN,
};

fn waker_event() -> EventInfo {
    EventInfo { token: WAKER_TOKEN, readable: true, writable: false, error: false }
}

fn io_event(token: usize) -> EventInfo {
    EventInfo { token, readable: false, writable: true, error: false }
}

fn quiet_event(token: usize) -> EventInfo {
    EventInfo { token, readable: false, writable: false, error: false }
}

fn is_continue<M, T>(a: &Action<M, T>) -> bool {
    matches!(a, Action::Continue)
}

#[test]
fn classify_events() {
    assert!(matches!(classify(&waker_event()), EventKind::Wake));
    assert!(matches!(classify(&quiet_event(WAKER_TOKEN)), EventKind::Wake));
    assert!(matches!(classify(&io_event(3)), EventKind::Io));
    let readable = EventInfo { token: 1, readable: true, writable: false, error: false };
    assert!(matches!(classify(&readable), EventKind::Io));
    let failed = EventInfo { token: 1, readable: false, writable: false, error: true };
    assert!(matches!(classify(&failed), EventKind::Io));
    assert!(matches!(classify(&quiet_event(1)), EventKind::Ignored));
}

#[test]
fn loop_exits_when_not_running() {
    let mut context: ContextState<u8, u8> = ContextState::new(8);
    let mut decisions: WorkerLoop<u8> = WorkerLoop::new();
    assert!(matches!(decisions.step(&mut context, 0, Input::Proceed), Action::Exit));
    assert!(matches!(decisions.step(&mut context, 0, Input::Proceed), Action::Exit));
}

#[test]
fn loop_hands_out_due_timeouts_earliest_first() {
    let mut context: ContextState<u8, &'static str> = ContextState::new(8);
    context.set_timeout(0, 300, "b").unwrap();
    context.set_timeout(0, 100, "a").unwrap();
    context.set_timeout(0, 900, "c").unwrap();
    context.set_running(true);
    let mut decisions = WorkerLoop::new();

    assert!(is_continue(&decisions.step(&mut context, 500, Input::Proceed)));
    assert!(matches!(decisions.step(&mut context, 500, Input::Proceed), Action::Timeout("a")));
    assert!(matches!(decisions.step(&mut context, 500, Input::Proceed), Action::Timeout("b")));
    // The first poll waits without limit.
    assert!(matches!(decisions.step(&mut context, 500, Input::Proceed), Action::Poll(None)));
    assert!(is_continue(&decisions.step(&mut context, 500, Input::Polled(vec![]))));
    // Done with the events: the next poll waits until "c" is due.
    assert!(is_continue(&decisions.step(&mut context, 600, Input::Proceed)));
    assert!(is_continue(&decisions.step(&mut context, 600, Input::Proceed)));
    assert!(matches!(decisions.step(&mut context, 600, Input::Proceed), Action::Poll(Some(300))));
}

#[test]
fn loop_notifies_messages_and_wakes_for_the_rest() {
    let mut context: ContextState<&'static str, u8> = ContextState::new(8);
    context.send_message("m1").unwrap();
    context.send_message("m2").unwrap();
    context.set_running(true);
    let mut decisions = WorkerLoop::new();

    assert!(is_continue(&decisions.step(&mut context, 0, Input::Proceed)));
    assert!(matches!(decisions.step(&mut context, 0, Input::Proceed), Action::Poll(None)));
    assert!(is_continue(&decisions.step(&mut context, 0, Input::Polled(vec![waker_event()]))));
    assert!(matches!(decisions.step(&mut context, 0, Input::Proceed), Action::Notify("m1")));
    // One message is left, so the worker wakes itself again.
    assert!(matches!(decisions.step(&mut context, 0, Input::Proceed), Action::Wake));
    assert!(is_continue(&decisions.step(&mut context, 0, Input::Proceed)));
    assert!(is_continue(&decisions.step(&mut context, 0, Input::Proceed)));
    assert!(matches!(decisions.step(&mut context, 0, Input::Proceed), Action::Poll(None)));
    assert!(is_continue(&decisions.step(&mut context, 0, Input::Polled(vec![waker_event()]))));
    assert!(matches!(decisions.step(&mut context, 0, Input::Proceed), Action::Notify("m2")));
    assert!(is_continue(&decisions.step(&mut context, 0, Input::Proceed)));
    assert!(context.messages().is_empty());
}

#[test]
fn loop_reports_io_events_by_position() {
    let mut context: ContextState<u8, u8> = ContextState::new(8);
    context.set_running(true);
    let mut decisions = WorkerLoop::new();
    assert!(is_continue(&decisions.step(&mut context, 0, Input::Proceed)));
    assert!(matches!(decisions.step(&mut context, 0, Input::Proceed), Action::Poll(None)));
    // A poll that is not answered is asked for again.
    assert!(matches!(decisions.step(&mut context, 0, Input::Proceed), Action::Poll(None)));
    let events = vec![quiet_event(4), io_event(5), waker_event(), io_event(6)];
    assert!(is_continue(&decisions.step(&mut context, 0, Input::Polled(events))));
    assert!(is_continue(&decisions.step(&mut context, 0, Input::Proceed)));
    assert!(matches!(decisions.step(&mut context, 0, Input::Proceed), Action::Ready(1)));
    // The waker fired but no message is queued.
    assert!(is_continue(&decisions.step(&mut context, 0, Input::Proceed)));
    assert!(matches!(decisions.step(&mut context, 0, Input::Proceed), Action::Ready(3)));
    assert!(is_continue(&decisions.step(&mut context, 0, Input::Proceed)));
    context.shutdown().unwrap();
    assert!(matches!(decisions.step(&mut context, 0, Input::Proceed), Action::Exit));
}

fn event_infos(events: &Events) -> Vec<EventInfo> {
    events
        .iter()
        .map(|e| EventInfo {
            token: e.token().0,
            readable: e.is_readable(),
            writable: e.is_writable(),
            error: e.is_error(),
        })
        .collect()
}

fn wait_for(nanos: Option<u128>) -> Option<Duration> {
    let cap = Duration::from_millis(200);
    match nanos {
        Some(n) if n < cap.as_nanos() => Some(Duration::from_nanos(n as u64)),
        _ => Some(cap),
    }
}

#[test]
fn test_messages_with_context() {
    let mut context: ContextState<String, ()> = ContextState::new(64);

    // Should not be running yet
    assert!(!context.is_running());

    // Send a couple of messages
    for i in 0..10_000 {
        context.send_message(format!("Message {}", i)).unwrap();
    }

    // Create a mio poll instance and bind a worker to the context
    let mut poll = Poll::new().unwrap();
    let waker = Waker::new(poll.registry(), Token(WAKER_TOKEN));
    context.create_worker(waker).unwrap().unwrap();

    // Run the worker loop
    context.set_running(true);
    let started = Instant::now();
    let mut events = Events::with_capacity(context.events_capacity());
    let mut decisions = WorkerLoop::new();
    let mut input = Input::Proceed;
    let mut messages: Vec<String> = Vec::new();
    loop {
        assert!(started.elapsed() < Duration::from_secs(10));
        let now = started.elapsed().as_nanos();
        let action = decisions.step(&mut context, now, input);
        input = Input::Proceed;
        match action {
            Action::Exit => break,
            Action::Poll(wait) => {
                poll.poll(&mut events, wait_for(wait)).unwrap();
                input = Input::Polled(event_infos(&events));
            }
            Action::Notify(message) => {
                messages.push(message);
                if messages.len() == 10_000 {
                    assert!(context.is_running());
                    // Shutdown the worker
                    context.shutdown().expect("Could not shutdown");
                }
            }
            Action::Wake => context.wake().unwrap(),
            Action::Timeout(()) | Action::Ready(_) | Action::Continue => {}
        }
    }

    // Worker should not be running now
    assert!(!context.is_running());

    // See if we received the messages
    assert_eq!(10_000, messages.len());
    assert_eq!("Message 0", messages[0]);
    assert_eq!("Message 4", messages[4]);
}

#[test]
fn test_timeout() {
    let mut context: ContextState<(), String> = ContextState::new(64);
    let mut poll = Poll::new().unwrap();
    let waker = Waker::new(poll.registry(), Token(WAKER_TOKEN));
    context.create_worker(waker).unwrap().unwrap();
    context.set_running(true);

    let started = Instant::now();
    // Set a couple of timeouts
    for i in 0..5u128 {
        let now = started.elapsed().as_nanos();
        context
            .set_timeout(now, i * 100 * 1_000_000, format!("Timeout {}", i))
            .unwrap();
    }

    let mut events = Events::with_capacity(context.events_capacity());
    let mut decisions = WorkerLoop::new();
    let mut input = Input::Proceed;
    let mut timeouts: Vec<String> = Vec::new();
    while started.elapsed() < Duration::from_secs(2) {
        let now = started.elapsed().as_nanos();
        let action = decisions.step(&mut context, now, input);
        input = Input::Proceed;
        match action {
            Action::Exit => break,
            Action::Poll(wait) => {
                poll.poll(&mut events, wait_for(wait)).unwrap();
                input = Input::Polled(event_infos(&events));
            }
            Action::Timeout(timeout) => timeouts.push(timeout),
            Action::Wake => context.wake().unwrap(),
            Action::Notify(()) | Action::Ready(_) | Action::Continue => {}
        }
    }

    // See if the timeouts triggered
    assert_eq!(5, timeouts.len());
    assert_eq!("Timeout 0", timeouts[0]);
    assert_eq!("Timeout 4", timeouts[4]);
}

use mio_worker::Timeouts;

const MILLI: u128 = 1_000_000;

#[test]
fn timeout_test_timeout() {
    let mut timeouts: Timeouts<&'static str> = Timeouts::new();

    timeouts.set(0, 750 * MILLI, "Timeout 2");
    timeouts.set(0, 250 * MILLI, "Timeout 1");

    let next = timeouts.next_timeout(0).expect("No next timeout");
    assert!(next / MILLI < 260);
    assert!(next / MILLI > 240);

    // Empty at first
    assert!(timeouts.pop(0).is_none());

    // 300 ms later
    let now = 300 * MILLI;

    // First timeout
    let popped = timeouts.pop(now).expect("No timeout");
    assert_eq!(1, popped.len());
    assert_eq!(&"Timeout 1", popped.values().next().unwrap());

    let next = timeouts.next_timeout(now).expect("No next timeout");
    assert!(next / MILLI < 550);
    assert!(next / MILLI > 250);

    // 600 ms later
    let now = now + 600 * MILLI;

    // Second timeout
    let popped = timeouts.pop(now).expect("No timeout");
    assert_eq!(1, popped.len());
    assert_eq!(&"Timeout 2", popped.values().next().unwrap());

    // No timeouts scheduled now
    assert!(timeouts.next_timeout(now).is_none());
    assert!(timeouts.pop(now).is_none());
}

#[test]
fn next_timeout_is_exact_distance_to_earliest() {
    let mut timeouts: Timeouts<u8> = Timeouts::new();
    assert_eq!(None, timeouts.next_timeout(0));
    timeouts.set(10, 90, 1);
    timeouts.set(10, 40, 2);
    assert_eq!(Some(50), timeouts.next_timeout(0));
    assert_eq!(Some(0), timeouts.next_timeout(50));
    // An overdue timeout gives no time to wait.
    assert_eq!(None, timeouts.next_timeout(51));
}

#[test]
fn pop_takes_only_timeouts_due_strictly_before_now() {
    let mut timeouts: Timeouts<u8> = Timeouts::new();
    timeouts.set(0, 30, 3);
    timeouts.set(0, 10, 1);
    timeouts.set(0, 20, 2);
    // Due exactly now is not yet taken.
    let due = timeouts.pop(20).expect("one is due");
    assert_eq!(vec![(10, 1)], due.into_iter().collect::<Vec<_>>());
    let due = timeouts.pop(31).expect("two are due");
    assert_eq!(vec![(20, 2), (30, 3)], due.into_iter().collect::<Vec<_>>());
    assert!(timeouts.pop(u128::MAX).is_none());
}

#[test]
fn set_at_the_same_instant_replaces() {
    let mut timeouts: Timeouts<&'static str> = Timeouts::new();
    timeouts.set(5, 5, "first");
    timeouts.set(0, 10, "second");
    let due = timeouts.pop(11).expect("due");
    assert_eq!(vec![(10, "second")], due.into_iter().collect::<Vec<_>>());
}

#[test]
fn set_beyond_the_clock_range_is_dropped() {
    let mut timeouts: Timeouts<u8> = Timeouts::new();
    timeouts.set(u128::MAX, 1, 9);
    assert_eq!(None, timeouts.next_timeout(0));
    timeouts.set(u128::MAX - 1, 1, 8);
    assert_eq!(Some(u128::MAX), timeouts.next_timeout(0));
}

use mio_worker::Messages;

#[test]
fn test_messages() {
    let mut messages: Messages<&'static str> = Messages::new();

    assert!(messages.is_empty());
    assert_eq!(0, messages.len());

    messages.push("Message 1");
    messages.push("Message 2");
    messages.push("Message 3");

    assert!(!messages.is_empty());
    assert_eq!(3, messages.len());

    assert_eq!(Some("Message 1"), messages.pop());
    assert!(!messages.is_empty());
    assert_eq!(2, messages.len());

    assert_eq!(Some("Message 2"), messages.pop());
    assert!(!messages.is_empty());
    assert_eq!(1, messages.len());

    assert_eq!(Some("Message 3"), messages.pop());
    assert!(messages.is_empty());
    assert_eq!(0, messages.len());
}

#[test]
fn pop_on_empty_queue_returns_nothing() {
    let mut messages: Messages<u32> = Messages::new();
    assert_eq!(None, messages.pop());
    assert_eq!(0, messages.len());
    messages.push(7);
    assert_eq!(Some(7), messages.pop());
    assert_eq!(None, messages.pop());
    assert!(messages.is_empty());
}

#[test]
fn messages_leave_in_the_order_they_entered() {
    // Interleaved pushes and pops keep first-in first-out order.
    let mut messages: Messages<u32> = Messages::new();
    messages.push(1);
    messages.push(2);
    assert_eq!(Some(1), messages.pop());
    messages.push(3);
    messages.push(4);
    assert_eq!(3, messages.len());
    assert_eq!(Some(2), messages.pop());
    assert_eq!(Some(3), messages.pop());
    assert_eq!(Some(4), messages.pop());
    assert_eq!(None, messages.pop());
}

use othismo::mailbox::{GuestRuntime, MailBox, MessageHandle};

#[test]
fn two_messages_are_echoed_back() {
    let message = b"Hello";
    let mut rt = GuestRuntime::new();
    rt.inject_message(message.to_vec());
    rt.run();

    assert_eq!(rt.outbox.take(MessageHandle(0)), Some(b"Hello".to_vec()));
    assert_eq!(rt.outbox.take(MessageHandle(1)), Some(b"Hello".to_vec()));
    assert_eq!(rt.outbox.take(MessageHandle(2)), None);
}

#[test]
fn mailbox_handles_are_dense_and_buffers_survive() {
    let mut mb = MailBox::new();
    let a = mb.allocate(3);
    let b = mb.assign(vec![1, 2, 3]);
    assert_eq!(a, MessageHandle(0));
    assert_eq!(b, MessageHandle(1));
    assert_eq!(mb.as_slice(a).map(|s| s.to_vec()), Some(vec![0, 0, 0]));
    assert!(mb.fill(a, vec![9]));
    assert_eq!(mb.take(a), Some(vec![9]));
    assert_eq!(mb.take(a), None);
    assert_eq!(mb.take(b), Some(vec![1, 2, 3]));
}

use tcp_server_core::client::FeedOutcome;
use tcp_server_core::control::ControlQueue;
use tcp_server_core::custom_types::ChannelDataType;
use tcp_server_core::registry::Registry;
use tcp_server_core::sendbuf::prepare_send;

#[test]
fn identities_are_monotonic_and_never_reused() {
    let mut reg = Registry::new();
    assert_eq!(reg.add_client(), 0);
    assert_eq!(reg.add_client(), 1);
    assert_eq!(reg.add_client(), 2);
    reg.remove_client(1);
    assert_eq!(reg.len(), 2);
    // the freed identity is not handed out again
    assert_eq!(reg.add_client(), 3);
}

#[test]
fn find_index_matches_membership() {
    let mut reg = Registry::new();
    let a = reg.add_client();
    let b = reg.add_client();
    assert!(reg.find_index(a).is_some());
    assert!(reg.find_index(b).is_some());
    assert!(reg.find_index(99).is_none());
    reg.remove_client(a);
    assert!(reg.find_index(a).is_none());
    assert!(reg.find_index(b).is_some());
}

#[test]
fn interleaved_connections_do_not_cross_contaminate() {
    let mut reg = Registry::new();
    let _a = reg.add_client();
    let _b = reg.add_client();
    // interleave the two connections' frames byte-group by byte-group
    assert_eq!(reg.feed_client(0, &[2, 0, 0, 0]), FeedOutcome::Pending);
    assert_eq!(reg.feed_client(1, &[3, 0, 0, 0, 0, 0]), FeedOutcome::Pending);
    assert_eq!(reg.feed_client(0, &[0, 0, 0, 0]), FeedOutcome::Pending);
    assert_eq!(reg.feed_client(1, &[0, 0]), FeedOutcome::Pending);
    assert_eq!(reg.feed_client(1, &[7, 7]), FeedOutcome::Pending);
    assert_eq!(
        reg.feed_client(0, &[1, 2]),
        FeedOutcome::MessageComplete(vec![1, 2])
    );
    assert_eq!(
        reg.feed_client(1, &[7]),
        FeedOutcome::MessageComplete(vec![7, 7, 7])
    );
}

#[test]
fn drain_applies_every_pending_removal() {
    let mut reg = Registry::new();
    let a = reg.add_client();
    let b = reg.add_client();
    let c = reg.add_client();
    let mut queue = ControlQueue::new();
    queue.request_removal(a);
    queue.request_removal(c);
    queue.drain(&mut reg);
    assert_eq!(reg.len(), 1);
    assert!(reg.find_index(a).is_none());
    assert!(reg.find_index(b).is_some());
    assert!(reg.find_index(c).is_none());
}

#[test]
fn drain_ignores_messages_without_registry_effect() {
    let mut reg = Registry::new();
    let a = reg.add_client();
    let mut queue = ControlQueue::new();
    queue.push(ChannelDataType::Other);
    queue.drain(&mut reg);
    assert_eq!(reg.len(), 1);
    assert!(reg.find_index(a).is_some());
}

#[test]
fn send_after_removal_fails_with_unknown_client() {
    // a peer that sent only a partial header and closed: disconnect
    // is signaled, the drain removes it, and send then fails
    let mut reg = Registry::new();
    let x = reg.add_client();
    assert_eq!(reg.feed_client(0, &[9, 9]), FeedOutcome::Pending);
    let mut queue = ControlQueue::new();
    queue.request_removal(x);
    queue.drain(&mut reg);
    assert!(prepare_send(&reg, x, b"hello").is_none());
}

#[test]
fn lookups_leave_identities_untouched() {
    let mut reg = Registry::new();
    let a = reg.add_client();
    let b = reg.add_client();
    for probe in 0..50u64 {
        let _ = reg.find_index(probe);
        let _ = prepare_send(&reg, probe, &[1]);
    }
    assert_eq!(reg.len(), 2);
    assert!(reg.find_index(a).is_some());
    assert!(reg.find_index(b).is_some());
}

use tcp_server_core::client::Client;
use tcp_server_core::client::FeedOutcome;
use tcp_server_core::custom_types::Message;
use tcp_server_core::custom_types::MessageType;
use tcp_server_core::registry::Registry;
use tcp_server_core::sendbuf::SendBuffer;
use tcp_server_core::sendbuf::prepare_send;

/// Simulate a transport that accepts at most `cap` bytes per write,
/// collecting everything it accepted, in order.
fn pump(mut s: SendBuffer, cap: usize) -> Vec<u8> {
    let mut wire: Vec<u8> = Vec::new();
    while !s.done() {
        let chunk = s.next_chunk();
        let n = cap.min(chunk.len());
        wire.extend_from_slice(&chunk[..n]);
        s.advance(n);
    }
    wire
}

#[test]
fn send_writes_header_then_body() {
    let s = SendBuffer::new(b"hello");
    let wire = pump(s, usize::MAX);
    assert_eq!(wire, vec![5, 0, 0, 0, 0, 0, 0, 0, b'h', b'e', b'l', b'l', b'o']);
}

#[test]
fn partial_writes_still_deliver_every_byte_in_order() {
    // a transport that takes three bytes per call: the total is
    // still 8 + payload.len(), with the header fully first
    let s = SendBuffer::new(b"abcdefg");
    let wire = pump(s, 3);
    assert_eq!(wire.len(), 8 + 7);
    assert_eq!(&wire[..8], &[7, 0, 0, 0, 0, 0, 0, 0]);
    assert_eq!(&wire[8..], b"abcdefg");
}

#[test]
fn send_empty_payload_is_a_bare_header() {
    let s = SendBuffer::new(b"");
    let wire = pump(s, 2);
    assert_eq!(wire, vec![0, 0, 0, 0, 0, 0, 0, 0]);
}

#[test]
fn sent_frame_round_trips_through_the_framer() {
    // whatever write splits the transport imposed, the bytes on the
    // wire decode to exactly the payload that was sent
    let payload: Vec<u8> = (0u8..100).collect();
    let s = SendBuffer::new(&payload);
    let wire = pump(s, 5);
    let mut c = Client::new(0);
    let mut received: Vec<Vec<u8>> = Vec::new();
    let mut at = 0usize;
    while at < wire.len() {
        let n = c.wants().min(wire.len() - at);
        match c.feed(&wire[at..at + n]) {
            FeedOutcome::MessageComplete(m) => received.push(m),
            FeedOutcome::Pending => {}
            FeedOutcome::PayloadTooLarge => panic!("unexpected rejection"),
        }
        at += n;
    }
    assert_eq!(received, vec![payload]);
}

#[test]
fn prepare_send_finds_known_identity() {
    let mut reg = Registry::new();
    let a = reg.add_client();
    let s = prepare_send(&reg, a, b"hi").expect("identity is present");
    let wire = pump(s, 1);
    assert_eq!(wire, vec![2, 0, 0, 0, 0, 0, 0, 0, b'h', b'i']);
}

#[test]
fn prepare_send_unknown_identity_fails() {
    let reg = Registry::new();
    assert!(prepare_send(&reg, 0, b"hi").is_none());
}

#[test]
fn message_new_keeps_its_fields() {
    let m = Message::new(MessageType::ClientMessage(7), Some(vec![1, 2, 3]));
    assert!(matches!(m.message_type, MessageType::ClientMessage(7)));
    assert_eq!(m.body, Some(vec![1, 2, 3]));
    let m2 = Message::new(MessageType::Kicked, None);
    assert!(matches!(m2.message_type, MessageType::Kicked));
    assert_eq!(m2.body, None);
}

use tcp_server_core::client::Client;
use tcp_server_core::client::FeedOutcome;
use tcp_server_core::codec::HEADER_SIZE;
use tcp_server_core::codec::MAX_PAYLOAD_LEN;

#[test]
fn full_frame_two_feeds() {
    let mut c = Client::new(1);
    // a fresh entry asks for exactly one length header
    assert_eq!(c.wants(), HEADER_SIZE);
    let header: Vec<u8> = vec![3, 0, 0, 0, 0, 0, 0, 0];
    assert_eq!(c.feed(&header), FeedOutcome::Pending);
    assert_eq!(c.wants(), 3);
    let r = c.feed(&[9, 8, 7]);
    assert_eq!(r, FeedOutcome::MessageComplete(vec![9, 8, 7]));
    // back to the initial state, ready for the next frame
    assert_eq!(c.wants(), 8);
}

#[test]
fn frame_byte_by_byte() {
    // the same frame, split into one-byte reads: exactly one
    // message fires, and only on the very last byte
    let mut c = Client::new(2);
    let wire: Vec<u8> = vec![4, 0, 0, 0, 0, 0, 0, 0, 10, 20, 30, 40];
    for (i, b) in wire.iter().enumerate() {
        let r = c.feed(&[*b]);
        if i + 1 < wire.len() {
            assert_eq!(r, FeedOutcome::Pending);
        } else {
            assert_eq!(r, FeedOutcome::MessageComplete(vec![10, 20, 30, 40]));
        }
    }
}

#[test]
fn zero_length_frame() {
    // header = 0, no payload: exactly one message, empty payload
    let mut c = Client::new(3);
    let r = c.feed(&[0, 0, 0, 0, 0, 0, 0, 0]);
    assert_eq!(r, FeedOutcome::MessageComplete(Vec::new()));
    assert_eq!(c.wants(), 8);
    // nothing more fires without new bytes completing a new frame
    assert_eq!(c.feed(&[0, 0, 0]), FeedOutcome::Pending);
}

#[test]
fn partial_header_yields_no_message() {
    let mut c = Client::new(4);
    assert_eq!(c.feed(&[5, 0, 0]), FeedOutcome::Pending);
    assert_eq!(c.wants(), 5);
    assert!(!c.is_dead());
}

#[test]
fn two_frames_in_sequence() {
    let mut c = Client::new(5);
    assert_eq!(c.feed(&[1, 0, 0, 0, 0, 0, 0, 0]), FeedOutcome::Pending);
    assert_eq!(c.feed(&[42]), FeedOutcome::MessageComplete(vec![42]));
    assert_eq!(c.feed(&[2, 0, 0, 0, 0, 0, 0, 0]), FeedOutcome::Pending);
    assert_eq!(c.feed(&[7]), FeedOutcome::Pending);
    assert_eq!(c.feed(&[8]), FeedOutcome::MessageComplete(vec![7, 8]));
}

#[test]
fn oversize_declared_length_kills_entry() {
    let mut c = Client::new(6);
    // little-endian for MAX_PAYLOAD_LEN + 1 = 0x0100_0001
    let header: Vec<u8> = vec![1, 0, 0, 1, 0, 0, 0, 0];
    assert_eq!(c.feed(&header), FeedOutcome::PayloadTooLarge);
    assert!(c.is_dead());
    // a dead entry accepts nothing further
    assert_eq!(c.feed(&[0]), FeedOutcome::PayloadTooLarge);
}

#[test]
fn max_declared_length_is_accepted() {
    let mut c = Client::new(7);
    // little-endian for exactly MAX_PAYLOAD_LEN = 0x0100_0000
    let header: Vec<u8> = vec![0, 0, 0, 1, 0, 0, 0, 0];
    assert_eq!(c.feed(&header), FeedOutcome::Pending);
    assert!(!c.is_dead());
    assert_eq!(c.wants() as u64, MAX_PAYLOAD_LEN);
}

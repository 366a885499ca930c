use handshake_server::packets::{
    FrameOutcome, PacketHandler, RECV, STATE_LOGIN, STATE_NONE, STATE_STATUS, STATUS_JSON,
};
use handshake_server::state_store::{_disconnect_client, StateStore};

const UUID: [u8; 16] = [
    0x06, 0x9a, 0x79, 0xf4, 0x44, 0xe9, 0x4b, 0x4c, 0x93, 0xf0, 0x7a, 0x01, 0x6f, 0x4b, 0xd0, 0x0b,
];

/// Handshake frame: protocol 772, address "x", port 25565, the given intent.
fn handshake_frame(intent: u8) -> Vec<u8> {
    vec![0x08, 0x00, 0x84, 0x06, 0x01, b'x', 0x63, 0xdd, intent]
}

fn login_start_frame() -> Vec<u8> {
    let mut f = vec![23, 0x00, 5];
    f.extend_from_slice(b"Steve");
    f.extend_from_slice(&UUID);
    f
}

fn ping_frame() -> Vec<u8> {
    vec![0x09, 0x01, 0, 0, 0, 0, 0, 0, 0, 1]
}

fn dispatched(id: i32, status: RECV, consumed: usize, remaining: usize) -> FrameOutcome {
    FrameOutcome::Dispatched { packet_id: id, status, consumed, remaining }
}

#[test]
fn handshake_then_ping_echoes_payload() {
    let mut h = PacketHandler::new();
    let mut input = handshake_frame(1);
    input.extend(ping_frame());
    let outcomes = h.handle_client(&input);
    assert_eq!(outcomes, vec![dispatched(0, RECV::SUCCESS, 7, 7), dispatched(1, RECV::SUCCESS, 8, 8)]);
    assert_eq!(h.client_state, STATE_STATUS);
    assert_eq!(h.bytes.take_output(), vec![9, 1, 0, 0, 0, 0, 0, 0, 0, 1]);
}

#[test]
fn ping_keeps_all_sixty_four_bits() {
    let mut h = PacketHandler::new();
    h.handle_client(&handshake_frame(1));
    let frame = vec![0x09, 0x01, 0xfe, 0xdc, 0xba, 0x98, 0x76, 0x54, 0x32, 0x10];
    h.handle_client(&frame);
    assert_eq!(h.bytes.take_output(), vec![9, 1, 0xfe, 0xdc, 0xba, 0x98, 0x76, 0x54, 0x32, 0x10]);
}

#[test]
fn status_request_gets_status_document() {
    let mut h = PacketHandler::new();
    h.handle_client(&handshake_frame(1));
    let outcomes = h.handle_client(&[0x01, 0x00]);
    assert_eq!(outcomes, vec![dispatched(0, RECV::SUCCESS, 0, 0)]);
    let doc = STATUS_JSON.as_bytes();
    assert!(doc.len() < 127);
    let mut expected = vec![(doc.len() + 2) as u8, 0x00, doc.len() as u8];
    expected.extend_from_slice(doc);
    assert_eq!(h.bytes.take_output(), expected);
    assert!(STATUS_JSON.starts_with("{\"version\":{\"name\":\"1.21.8\",\"protocol\":772}"));
    assert!(STATUS_JSON.contains("\"description\":{\"text\":"));
}

#[test]
fn login_start_gets_login_success() {
    let mut h = PacketHandler::new();
    let mut input = handshake_frame(2);
    input.extend(login_start_frame());
    let outcomes = h.handle_client(&input);
    assert_eq!(outcomes, vec![dispatched(0, RECV::SUCCESS, 7, 7), dispatched(0, RECV::SUCCESS, 22, 22)]);
    assert_eq!(h.client_state, STATE_LOGIN);
    let mut expected = vec![24, 0x02];
    expected.extend_from_slice(&UUID);
    expected.push(5);
    expected.extend_from_slice(b"Steve");
    expected.push(0);
    assert_eq!(h.bytes.take_output(), expected);
}

#[test]
fn login_start_in_state_none_keeps_state() {
    let mut h = PacketHandler::new();
    let outcomes = h.handle_client(&login_start_frame());
    assert_eq!(outcomes, vec![dispatched(0, RECV::ERROR, 0, 22)]);
    assert_eq!(h.client_state, STATE_NONE);
    assert_eq!(h.bytes.take_output(), Vec::<u8>::new());
    // The connection still works afterwards.
    h.handle_client(&handshake_frame(1));
    assert_eq!(h.client_state, STATE_STATUS);
}

#[test]
fn ping_in_state_none_is_ignored() {
    let mut h = PacketHandler::new();
    let outcomes = h.handle_client(&ping_frame());
    assert_eq!(outcomes, vec![dispatched(1, RECV::ERROR, 0, 8)]);
    assert_eq!(h.client_state, STATE_NONE);
    assert_eq!(h.bytes.take_output(), Vec::<u8>::new());
}

#[test]
fn unknown_packet_id_is_ignored() {
    let mut h = PacketHandler::new();
    h.handle_client(&handshake_frame(1));
    let outcomes = h.handle_client(&[0x02, 0x05, 0xaa]);
    assert_eq!(outcomes, vec![dispatched(5, RECV::ERROR, 0, 1)]);
    assert_eq!(h.client_state, STATE_STATUS);
    assert_eq!(h.bytes.take_output(), Vec::<u8>::new());
}

#[test]
fn short_declared_length_is_detected_and_stream_stays_aligned() {
    let mut h = PacketHandler::new();
    h.handle_client(&handshake_frame(1));
    // A ping frame that declares only four payload bytes.
    let mut input = vec![0x05, 0x01, 0, 0, 0, 1];
    input.extend(ping_frame());
    let outcomes = h.handle_client(&input);
    assert_eq!(outcomes, vec![dispatched(1, RECV::ERROR, 0, 4), dispatched(1, RECV::SUCCESS, 8, 8)]);
    assert_eq!(h.bytes.take_output(), vec![9, 1, 0, 0, 0, 0, 0, 0, 0, 1]);
}

#[test]
fn unconsumed_payload_is_skipped() {
    let mut h = PacketHandler::new();
    // A handshake frame with two extra bytes after the intent.
    let mut input = vec![0x0a, 0x00, 0x84, 0x06, 0x01, b'x', 0x63, 0xdd, 0x01, 0xee, 0xee];
    input.extend(ping_frame());
    let outcomes = h.handle_client(&input);
    assert_eq!(outcomes, vec![dispatched(0, RECV::SUCCESS, 7, 9), dispatched(1, RECV::SUCCESS, 8, 8)]);
    assert_eq!(h.bytes.take_output(), vec![9, 1, 0, 0, 0, 0, 0, 0, 0, 1]);
}

#[test]
fn partial_frames_wait_for_more_bytes() {
    let mut h = PacketHandler::new();
    let frame = handshake_frame(1);
    assert_eq!(h.handle_client(&frame[..1]), Vec::<FrameOutcome>::new());
    assert_eq!(h.handle_client(&frame[1..5]), Vec::<FrameOutcome>::new());
    assert_eq!(h.client_state, STATE_NONE);
    assert_eq!(h.bytes.available(), 5);
    assert_eq!(h.handle_client(&frame[5..]), vec![dispatched(0, RECV::SUCCESS, 7, 7)]);
    assert_eq!(h.client_state, STATE_STATUS);
    assert_eq!(h.bytes.available(), 0);
}

#[test]
fn malformed_and_discarded_frames() {
    let mut h = PacketHandler::new();
    assert_eq!(h.process_frame(), FrameOutcome::Incomplete);
    let outcomes = h.handle_client(&[0xff, 0xff, 0xff, 0xff, 0x0f, 0x00]);
    assert_eq!(outcomes, vec![FrameOutcome::Malformed, FrameOutcome::Discarded]);
    let outcomes = h.handle_client(&[0x02, 0x80, 0x80]);
    assert_eq!(outcomes, vec![FrameOutcome::Discarded]);
    assert_eq!(h.client_state, STATE_NONE);
    assert_eq!(h.bytes.available(), 0);
}

#[test]
fn handshake_with_sentinel_intent_fails() {
    let mut h = PacketHandler::new();
    let input = vec![0x0b, 0x00, 0x84, 0x06, 0x01, b'x', 0x63, 0xdd, 0xff, 0xff, 0xff, 0x07];
    let outcomes = h.handle_client(&input);
    assert_eq!(outcomes, vec![dispatched(0, RECV::ERROR, 0, 10)]);
    assert_eq!(h.client_state, STATE_NONE);
}

#[test]
fn handshake_with_empty_address_fails() {
    let mut h = PacketHandler::new();
    let input = vec![0x07, 0x00, 0x84, 0x06, 0x00, 0x63, 0xdd, 0x01];
    let outcomes = h.handle_client(&input);
    assert_eq!(outcomes, vec![dispatched(0, RECV::ERROR, 0, 6)]);
    assert_eq!(h.client_state, STATE_NONE);
}

#[test]
fn login_success_direct() {
    let mut h = PacketHandler::new();
    assert_eq!(h.sc_login_success(&UUID, b"Al"), RECV::SUCCESS);
    let mut expected = vec![21, 0x02];
    expected.extend_from_slice(&UUID);
    expected.extend_from_slice(&[2, b'A', b'l', 0]);
    assert_eq!(h.bytes.take_output(), expected);
}

#[test]
fn pong_direct() {
    let mut h = PacketHandler::new();
    h.pong(0x0102030405060708);
    assert_eq!(h.bytes.take_output(), vec![9, 1, 1, 2, 3, 4, 5, 6, 7, 8]);
}

#[test]
fn state_store_isolation() {
    let mut store = StateStore::new();
    let mut a = PacketHandler::new();
    let mut b = PacketHandler::new();
    a.handle_client(&handshake_frame(1));
    store.record(10, &a);
    b.handle_client(&handshake_frame(2));
    store.record(11, &b);
    assert_eq!(store.get_state(10), Some(STATE_STATUS));
    assert_eq!(store.get_state(11), Some(STATE_LOGIN));
    let fresh = PacketHandler::new();
    store.record(12, &fresh);
    assert_eq!(store.get_state(12), None);
    _disconnect_client(&mut store, 10);
    assert_eq!(store.get_state(10), None);
    assert_eq!(store.get_state(11), Some(STATE_LOGIN));
}

#[test]
fn handshake_with_unknown_intent_fails() {
    for intent in [0u8, 4, 5, 0x7f] {
        let mut h = PacketHandler::new();
        let outcomes = h.handle_client(&handshake_frame(intent));
        assert_eq!(outcomes, vec![dispatched(0, RECV::ERROR, 0, 7)]);
        assert_eq!(h.client_state, STATE_NONE);
    }
    let mut h = PacketHandler::new();
    let input = vec![0x0c, 0x00, 0x84, 0x06, 0x01, b'x', 0x63, 0xdd, 0xf9, 0xff, 0xff, 0xff, 0x0f];
    assert_eq!(h.handle_client(&input), vec![dispatched(0, RECV::ERROR, 0, 11)]);
    assert_eq!(h.client_state, STATE_NONE);
}

#[test]
fn handshake_with_transfer_intent_leads_to_login() {
    let mut h = PacketHandler::new();
    let outcomes = h.handle_client(&handshake_frame(3));
    assert_eq!(outcomes, vec![dispatched(0, RECV::SUCCESS, 7, 7)]);
    assert_eq!(h.client_state, STATE_LOGIN);
}

#[test]
fn packet_handle_drops_unread_payload() {
    let mut h = PacketHandler::new();
    h.bytes.receive(&[0x84, 0x06, 0x01, b'x', 0x63, 0xdd, 0x01, 0xee, 0xee, 0x42]);
    h.length = 9;
    assert_eq!(h.packet_handle(0), RECV::SUCCESS);
    assert_eq!(h.processed_bytes, 7);
    assert_eq!(h.client_state, STATE_STATUS);
    assert_eq!(h.bytes.available(), 1);
    assert_eq!(h.bytes.read_byte(), Ok(0x42));
}

#[test]
fn packet_handle_short_payload_fails_and_stays_in_budget() {
    let mut h = PacketHandler::new();
    h.handle_client(&handshake_frame(1));
    h.bytes.receive(&[0, 0, 0, 0, 0, 0, 0, 1, 0x42]);
    h.length = 4;
    assert_eq!(h.packet_handle(1), RECV::ERROR);
    assert_eq!(h.processed_bytes, 0);
    assert_eq!(h.bytes.available(), 5);
    assert_eq!(h.bytes.take_output(), Vec::<u8>::new());
}

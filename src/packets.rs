use vstd::prelude::*;
use vstd::slice::slice_to_vec;
use vstd::string::StringSliceAdditionalSpecFns;
use crate::byte_handlers::{
    ByteHandler, RECV_TYPE, be_value, be_bytes_u64, lemma_be_value_injective,
    read_varint_spec, read_string_spec, read_fixed_spec,
};
use crate::varnums::{VARNUM_ERROR, lemma_varint_round_trip, varint_len, varint_value, varint_consumed, varint_encode};

verus! {

/// Protocol state of a connection that has not completed a handshake.
pub const STATE_NONE: i32 = 0;

/// Protocol state after a handshake with the status intent.
pub const STATE_STATUS: i32 = 1;

/// Protocol state after a handshake with the login intent.
pub const STATE_LOGIN: i32 = 2;

/// Length of a player UUID on the wire.
pub const UUID_LEN: usize = 16;

/// The status document that a status request is answered with.
pub const STATUS_JSON: &'static str = "{\"version\":{\"name\":\"1.21.8\",\"protocol\":772},\"description\":{\"text\":\"blahaj's adventure\"}}";

/// Whether a packet handler did its work.
#[allow(non_camel_case_types)]
#[derive(Clone, Copy, Debug, PartialEq, Eq, Structural)]
pub enum RECV {
    ERROR,
    SUCCESS,
}

/// What became of the frame at the head of the input.
#[derive(Clone, Copy, Debug, PartialEq, Eq, Structural)]
pub enum FrameOutcome {
    /// The frame is not fully buffered yet; nothing was taken.
    Incomplete,
    /// The length prefix is overlong, the sentinel or negative; it was dropped.
    Malformed,
    /// The packet ID does not fit in the declared length or is malformed; the frame was dropped.
    Discarded,
    /// The frame was handed to its handler and then dropped as a whole. The stream
    /// stayed aligned only if `consumed == remaining` and `status` is `SUCCESS`.
    Dispatched { packet_id: i32, status: RECV, consumed: usize, remaining: usize },
}

/// Intent of the handshake used for a server-list query.
pub const INTENT_STATUS: i32 = 1;

/// Intent of the handshake used to log in.
pub const INTENT_LOGIN: i32 = 2;

/// Intent of the handshake used by a client transferred from another server; it logs in.
pub const INTENT_TRANSFER: i32 = 3;

/// A protocol state of this core.
pub open spec fn valid_state(st: i32) -> bool {
    st == STATE_NONE || st == STATE_STATUS || st == STATE_LOGIN
}

/// The state that a handshake with intent `intent` leads to, if it names one.
pub open spec fn intent_state(intent: i32) -> Option<i32> {
    if intent == INTENT_STATUS {
        Some(STATE_STATUS)
    } else if intent == INTENT_LOGIN || intent == INTENT_TRANSFER {
        Some(STATE_LOGIN)
    } else {
        None
    }
}

/// The state that a handshake with intent `intent` leads to, if it names one.
pub fn intent_to_state(intent: i32) -> (r: Option<i32>)
    ensures
        r == intent_state(intent),
{
    if intent == INTENT_STATUS {
        Some(STATE_STATUS)
    } else if intent == INTENT_LOGIN || intent == INTENT_TRANSFER {
        Some(STATE_LOGIN)
    } else {
        None
    }
}

/// Handshake payload at the start of `s`: protocol VarInt, non-empty address string,
/// port, intent VarInt naming status, login or transfer. Gives the state that the
/// intent leads to and the bytes taken.
pub open spec fn handshake_spec(s: Seq<u8>) -> Option<(i32, int)> {
    match read_varint_spec(s) {
        Err(_) => None,
        Ok((protocol, k1)) => if protocol == VARNUM_ERROR {
            None
        } else {
            let s1 = s.skip(k1);
            match read_string_spec(s1) {
                Err(_) => None,
                Ok((address, k2)) => if address.len() == 0 {
                    None
                } else {
                    let s2 = s1.skip(k2);
                    match read_fixed_spec(s2, 2) {
                        Err(_) => None,
                        Ok((_port, k3)) => {
                            let s3 = s2.skip(k3);
                            match read_varint_spec(s3) {
                                Err(_) => None,
                                Ok((intent, k4)) => match intent_state(intent) {
                                    None => None,
                                    Some(next) => Some((next, k1 + k2 + k3 + k4)),
                                },
                            }
                        },
                    }
                },
            }
        },
    }
}

/// Login-start payload at the start of `s`: non-empty username string, then 16 raw
/// UUID bytes. Gives the username, the UUID and the bytes taken.
pub open spec fn login_start_spec(s: Seq<u8>) -> Option<(Seq<u8>, Seq<u8>, int)> {
    match read_string_spec(s) {
        Err(_) => None,
        Ok((name, k)) => if name.len() == 0 || s.len() < k + UUID_LEN {
            None
        } else {
            Some((name, s.subrange(k, k + UUID_LEN), k + UUID_LEN))
        },
    }
}

/// Declared length of a login-success frame for a username of `n` bytes.
pub open spec fn login_reply_len(n: int) -> int {
    1 + UUID_LEN + varint_encode(n as i32).len() + n + 1
}

/// Login-success frame: length, ID 0x02, UUID, username string, empty property list.
pub open spec fn login_success_frame(uuid: Seq<u8>, name: Seq<u8>) -> Seq<u8> {
    varint_encode(login_reply_len(name.len() as int) as i32) + seq![2u8] + uuid + varint_encode(
        name.len() as i32,
    ) + name + seq![0u8]
}

/// Declared length of a status-response frame for a document of `n` bytes.
pub open spec fn status_reply_len(n: int) -> int {
    1 + varint_encode(n as i32).len() + n
}

/// Status-response frame: length, ID 0x00, the document as a string.
pub open spec fn status_frame(doc: Seq<u8>) -> Seq<u8> {
    let n = doc.len() as int;
    varint_encode(status_reply_len(n) as i32) + seq![0u8] + varint_encode(
        n as i32,
    ) + doc
}

/// Pong frame: length 9, ID 0x01, the eight payload bytes.
pub open spec fn pong_frame(payload: Seq<u8>) -> Seq<u8> {
    seq![9u8, 1u8] + payload
}

/// Effect of a packet with ID 0x00 on payload `s` in state `st`: handler status,
/// next state, bytes sent, bytes taken.
pub open spec fn handshake_packet_spec(doc: Seq<u8>, st: i32, s: Seq<u8>) -> (RECV, i32, Seq<u8>, int) {
    if st == STATE_NONE {
        match handshake_spec(s) {
            None => (RECV::ERROR, st, Seq::empty(), 0),
            Some((next, n)) => (RECV::SUCCESS, next, Seq::empty(), n),
        }
    } else if st == STATE_STATUS {
        if status_reply_len(doc.len() as int) > i32::MAX {
            (RECV::ERROR, st, Seq::empty(), 0)
        } else {
            (RECV::SUCCESS, st, status_frame(doc), 0)
        }
    } else if st == STATE_LOGIN {
        match login_start_spec(s) {
            None => (RECV::ERROR, st, Seq::empty(), 0),
            Some((name, uuid, n)) => if login_reply_len(name.len() as int) > i32::MAX {
                (RECV::ERROR, st, Seq::empty(), 0)
            } else {
                (RECV::SUCCESS, st, login_success_frame(uuid, name), n)
            },
        }
    } else {
        (RECV::ERROR, st, Seq::empty(), 0)
    }
}

/// Effect of a packet with ID 0x01 on payload `s` in state `st`.
pub open spec fn ping_packet_spec(st: i32, s: Seq<u8>) -> (RECV, i32, Seq<u8>, int) {
    if st == STATE_STATUS && s.len() >= 8 {
        (RECV::SUCCESS, st, pong_frame(s.take(8)), 8)
    } else {
        (RECV::ERROR, st, Seq::empty(), 0)
    }
}

/// Effect of a packet with ID `id` on payload `s` in state `st`.
pub open spec fn dispatch_spec(doc: Seq<u8>, st: i32, id: i32, s: Seq<u8>) -> (RECV, i32, Seq<u8>, int) {
    if id == 0 {
        handshake_packet_spec(doc, st, s)
    } else if id == 1 {
        ping_packet_spec(st, s)
    } else {
        (RECV::ERROR, st, Seq::empty(), 0)
    }
}

/// Effect of handling the frame at the start of `s` in state `st`: outcome, next
/// state, bytes sent, bytes taken from the input.
#[verifier::opaque]
pub open spec fn frame_spec(doc: Seq<u8>, st: i32, s: Seq<u8>) -> (FrameOutcome, i32, Seq<u8>, int) {
    let k = varint_len(s);
    let length = varint_value(s) as int;
    if k == 0 {
        (FrameOutcome::Incomplete, st, Seq::empty(), 0)
    } else if k == -1 || length == VARNUM_ERROR || length < 0 {
        (FrameOutcome::Malformed, st, Seq::empty(), varint_consumed(s))
    } else if s.len() < k + length {
        (FrameOutcome::Incomplete, st, Seq::empty(), 0)
    } else {
        let body = s.subrange(k, k + length);
        let j = varint_len(body);
        let id = varint_value(body);
        if j <= 0 || id == VARNUM_ERROR {
            (FrameOutcome::Discarded, st, Seq::empty(), k + length)
        } else {
            let d = dispatch_spec(doc, st, id, body.skip(j));
            (
                FrameOutcome::Dispatched {
                    packet_id: id,
                    status: d.0,
                    consumed: d.3 as usize,
                    remaining: (length - j) as usize,
                },
                d.1,
                d.2,
                k + length,
            )
        }
    }
}

/// Effect of handling every complete frame at the start of `s` in state `st`:
/// outcomes, final state, bytes sent, bytes taken.
#[verifier::opaque]
pub open spec fn frames_spec(doc: Seq<u8>, st: i32, s: Seq<u8>) -> (Seq<FrameOutcome>, i32, Seq<u8>, int)
    decreases s.len(),
{
    let f = frame_spec(doc, st, s);
    if f.0 == FrameOutcome::Incomplete || f.3 <= 0 || f.3 > s.len() {
        (Seq::empty(), st, Seq::empty(), 0)
    } else {
        let rest = frames_spec(doc, f.1, s.skip(f.3));
        (seq![f.0] + rest.0, rest.1, f.2 + rest.2, f.3 + rest.3)
    }
}

/// The protocol engine of one connection: its buffers, its state and the status
/// document it serves.
pub struct PacketHandler {
    pub bytes: ByteHandler,
    pub client_state: i32,
    pub status_json: Vec<u8>,
    /// Length of the payload that the next dispatched handler may read.
    pub length: usize,
    /// Payload bytes that the last dispatched handler took.
    pub processed_bytes: usize,
}

impl PacketHandler {
    /// Buffers at rest, a state of this core, and the status document installed.
    pub open spec fn wf(&self) -> bool {
        &&& self.bytes.idle()
        &&& valid_state(self.client_state)
        &&& self.status_json@ == STATUS_JSON.spec_bytes()
    }

    /// A handler in state NONE with empty buffers that serves `STATUS_JSON`.
    pub fn new() -> (r: PacketHandler)
        ensures
            r.wf(),
            r.client_state == STATE_NONE,
            r.bytes.input() == Seq::<u8>::empty(),
            r.bytes.sent() == Seq::<u8>::empty(),
            r.status_json@ == STATUS_JSON.spec_bytes(),
    {
        let doc = slice_to_vec(STATUS_JSON.as_bytes());
        PacketHandler {
            bytes: ByteHandler::new(),
            client_state: STATE_NONE,
            status_json: doc,
            length: 0,
            processed_bytes: 0,
        }
    }
    /// Reads a handshake payload and, when it is whole, moves to the state that its
    /// intent names. Otherwise fails, taking nothing and keeping the state.
    pub fn cs_handshake(&mut self) -> (r: RECV)
        requires
            old(self).bytes.wf(),
        ensures
            final(self).bytes.wf(),
            final(self).status_json@ == old(self).status_json@,
            match handshake_spec(old(self).bytes.input()) {
                None => r == RECV::ERROR && final(self).client_state == old(self).client_state
                    && final(self).bytes.advanced(&old(self).bytes, 0),
                Some((next, n)) => r == RECV::SUCCESS && final(self).client_state == next
                    && final(self).bytes.advanced(&old(self).bytes, n),
            },
    {
        let ghost s = self.bytes.input();
        let start = self.bytes.position;
        let protocol = match self.bytes.read_varint() {
            Ok(v) => v,
            Err(_) => {
                return RECV::ERROR;
            },
        };
        if protocol == VARNUM_ERROR {
            self.bytes.position = start;
            return RECV::ERROR;
        }
        let ghost s1 = self.bytes.input();
        assert(s1 =~= s.skip(varint_consumed(s)));
        let address = match self.bytes.read_string_bytes() {
            Ok(a) => a,
            Err(_) => {
                self.bytes.position = start;
                return RECV::ERROR;
            },
        };
        if address.len() == 0 {
            self.bytes.position = start;
            return RECV::ERROR;
        }
        let ghost s2 = self.bytes.input();
        assert(s2 =~= s1.skip(read_string_spec(s1)->Ok_0.1));
        let _port = match self.bytes.read_uint16() {
            Ok(p) => p,
            Err(_) => {
                self.bytes.position = start;
                return RECV::ERROR;
            },
        };
        let ghost s3 = self.bytes.input();
        assert(s3 =~= s2.skip(2));
        let intent = match self.bytes.read_varint() {
            Ok(v) => v,
            Err(_) => {
                self.bytes.position = start;
                return RECV::ERROR;
            },
        };
        match intent_to_state(intent) {
            Some(next) => {
                self.client_state = next;
                RECV::SUCCESS
            },
            None => {
                self.bytes.position = start;
                RECV::ERROR
            },
        }
    }

    /// Reads a login-start payload: the username and the UUID bytes as they are.
    /// Fails, taking nothing, on an empty or missing username or a short UUID.
    pub fn cs_login_start(&mut self) -> (r: Option<(Vec<u8>, Vec<u8>)>)
        requires
            old(self).bytes.wf(),
        ensures
            final(self).bytes.wf(),
            final(self).client_state == old(self).client_state,
            final(self).status_json@ == old(self).status_json@,
            match login_start_spec(old(self).bytes.input()) {
                None => r is None && final(self).bytes.advanced(&old(self).bytes, 0),
                Some((name, uuid, n)) => r is Some && r->Some_0.0@ == name && r->Some_0.1@ == uuid
                    && final(self).bytes.advanced(&old(self).bytes, n),
            },
    {
        let ghost s = self.bytes.input();
        let start = self.bytes.position;
        let name = match self.bytes.read_string_bytes() {
            Ok(n) => n,
            Err(_) => {
                return None;
            },
        };
        if name.len() == 0 {
            self.bytes.position = start;
            return None;
        }
        let ghost k = read_string_spec(s)->Ok_0.1;
        assert(self.bytes.input() =~= s.skip(k));
        let uuid = match self.bytes.recv_n_bytes(UUID_LEN, RECV_TYPE::READ) {
            Ok(u) => u,
            Err(_) => {
                self.bytes.position = start;
                return None;
            },
        };
        assert(uuid@ =~= s.subrange(k, k + UUID_LEN));
        Some((name, uuid))
    }

    /// Sends a login-success frame for `uuid` and `name`. Fails, sending nothing,
    /// when its length does not fit an `i32`.
    pub fn sc_login_success(&mut self, uuid: &[u8], name: &[u8]) -> (r: RECV)
        requires
            uuid@.len() == UUID_LEN,
        ensures
            final(self).client_state == old(self).client_state,
            final(self).status_json@ == old(self).status_json@,
            login_reply_len(name@.len() as int) > i32::MAX ==> r == RECV::ERROR
                && final(self).bytes.wrote(&old(self).bytes, Seq::empty()),
            login_reply_len(name@.len() as int) <= i32::MAX ==> r == RECV::SUCCESS
                && final(self).bytes.wrote(&old(self).bytes, login_success_frame(uuid@, name@)),
    {
        if name.len() > 0x7FFF_FFFF {
            assert(self.bytes.send_buffer@ =~= old(self).bytes.send_buffer@ + Seq::<u8>::empty());
            return RECV::ERROR;
        }
        let n = name.len() as i32;
        let size = self.bytes.size_varint(n);
        let total: i64 = 18 + size as i64 + n as i64;
        if total > 0x7FFF_FFFF {
            assert(self.bytes.send_buffer@ =~= old(self).bytes.send_buffer@ + Seq::<u8>::empty());
            return RECV::ERROR;
        }
        self.bytes.write_varint(total as i32);
        self.bytes.write_byte(2);
        self.bytes.write_n_bytes(uuid, UUID_LEN);
        self.bytes.write_varint(n);
        self.bytes.write_all(name);
        self.bytes.write_byte(0);
        assert(uuid@.take(UUID_LEN as int) =~= uuid@);
        assert(self.bytes.send_buffer@ =~= old(self).bytes.send_buffer@ + login_success_frame(
            uuid@,
            name@,
        ));
        RECV::SUCCESS
    }

    /// Sends the status document as a status-response frame. Fails, sending nothing,
    /// when its length does not fit an `i32`.
    pub fn sc_status_response(&mut self) -> (r: RECV)
        ensures
            final(self).client_state == old(self).client_state,
            final(self).status_json@ == old(self).status_json@,
            status_reply_len(old(self).status_json@.len() as int) > i32::MAX ==> r == RECV::ERROR
                && final(self).bytes.wrote(&old(self).bytes, Seq::empty()),
            status_reply_len(old(self).status_json@.len() as int) <= i32::MAX ==> r == RECV::SUCCESS
                && final(self).bytes.wrote(&old(self).bytes, status_frame(old(self).status_json@)),
    {
        if self.status_json.len() > 0x7FFF_FFFF {
            assert(self.bytes.send_buffer@ =~= old(self).bytes.send_buffer@ + Seq::<u8>::empty());
            return RECV::ERROR;
        }
        let n = self.status_json.len() as i32;
        let size = self.bytes.size_varint(n);
        let total: i64 = 1 + size as i64 + n as i64;
        if total > 0x7FFF_FFFF {
            assert(self.bytes.send_buffer@ =~= old(self).bytes.send_buffer@ + Seq::<u8>::empty());
            return RECV::ERROR;
        }
        self.bytes.write_varint(total as i32);
        self.bytes.write_byte(0);
        self.bytes.write_varint(n);
        self.bytes.write_all(self.status_json.as_slice());
        assert(self.bytes.send_buffer@ =~= old(self).bytes.send_buffer@ + status_frame(
            old(self).status_json@,
        ));
        RECV::SUCCESS
    }

    /// Sends a pong frame that carries `value` as eight big-endian bytes.
    pub fn pong(&mut self, value: u64)
        ensures
            final(self).client_state == old(self).client_state,
            final(self).status_json@ == old(self).status_json@,
            exists|p: Seq<u8>|
                p.len() == 8 && be_value(p) == value as nat && final(self).bytes.wrote(
                    &old(self).bytes,
                    #[trigger] pong_frame(p),
                ),
    {
        self.bytes.write_byte(9);
        self.bytes.write_byte(1);
        let payload = be_bytes_u64(value);
        self.bytes.write_all(payload.as_slice());
        assert(self.bytes.send_buffer@ =~= old(self).bytes.send_buffer@ + pong_frame(payload@));
    }

    /// Packet 0x01: in state STATUS, reads the eight-byte ping payload and echoes it in
    /// a pong frame. Fails otherwise, taking and sending nothing.
    pub fn ping(&mut self) -> (r: RECV)
        requires
            old(self).bytes.wf(),
        ensures
            final(self).bytes.wf(),
            final(self).status_json@ == old(self).status_json@,
            ({
                let d = ping_packet_spec(old(self).client_state, old(self).bytes.input());
                &&& r == d.0
                &&& final(self).client_state == d.1
                &&& final(self).bytes.stepped(&old(self).bytes, d.3, d.2)
            }),
    {
        if self.client_state != STATE_STATUS {
            assert(self.bytes.send_buffer@ =~= old(self).bytes.send_buffer@ + Seq::<u8>::empty());
            return RECV::ERROR;
        }
        let ghost s = self.bytes.input();
        let value = match self.bytes.read_uint64() {
            Ok(v) => v,
            Err(_) => {
                assert(self.bytes.send_buffer@ =~= old(self).bytes.send_buffer@ + Seq::<u8>::empty());
                return RECV::ERROR;
            },
        };
        let ghost mid = self.bytes;
        self.pong(value);
        proof {
            let p = choose|p: Seq<u8>|
                p.len() == 8 && be_value(p) == value as nat && self.bytes.wrote(
                    &mid,
                    #[trigger] pong_frame(p),
                );
            lemma_be_value_injective(p, s.take(8));
        }
        RECV::SUCCESS
    }

    /// Packet 0x00: the handshake in state NONE, the status request in STATUS, login
    /// start and login success in LOGIN.
    pub fn handshake(&mut self) -> (r: RECV)
        requires
            old(self).bytes.wf(),
        ensures
            final(self).bytes.wf(),
            final(self).status_json@ == old(self).status_json@,
            ({
                let d = handshake_packet_spec(
                    old(self).status_json@,
                    old(self).client_state,
                    old(self).bytes.input(),
                );
                &&& r == d.0
                &&& final(self).client_state == d.1
                &&& final(self).bytes.stepped(&old(self).bytes, d.3, d.2)
            }),
    {
        let state = self.client_state;
        if state == STATE_NONE {
            let r = self.cs_handshake();
            assert(self.bytes.send_buffer@ =~= old(self).bytes.send_buffer@ + Seq::<u8>::empty());
            r
        } else if state == STATE_STATUS {
            self.sc_status_response()
        } else if state == STATE_LOGIN {
            let start = self.bytes.position;
            match self.cs_login_start() {
                None => {
                    assert(self.bytes.send_buffer@ =~= old(self).bytes.send_buffer@ + Seq::<u8>::empty());
                    RECV::ERROR
                },
                Some((name, uuid)) => {
                    let r = self.sc_login_success(uuid.as_slice(), name.as_slice());
                    if r == RECV::ERROR {
                        self.bytes.position = start;
                    }
                    r
                },
            }
        } else {
            assert(self.bytes.send_buffer@ =~= old(self).bytes.send_buffer@ + Seq::<u8>::empty());
            RECV::ERROR
        }
    }

    /// Runs the handler that `packet_id` names in the current state on the payload,
    /// the next `length` input bytes, and then drops what the handler left of it, so
    /// that the next read starts after the payload. Records in `processed_bytes` how
    /// many payload bytes the handler took. An ID with no handler in the current state
    /// fails, taking none of them and sending nothing.
    pub fn packet_handle(&mut self, packet_id: i32) -> (r: RECV)
        requires
            old(self).bytes.wf(),
            old(self).length <= old(self).bytes.input().len(),
        ensures
            final(self).bytes.wf(),
            final(self).status_json@ == old(self).status_json@,
            final(self).length == old(self).length,
            ({
                let payload = old(self).bytes.input().take(old(self).length as int);
                let d = dispatch_spec(
                    old(self).status_json@,
                    old(self).client_state,
                    packet_id,
                    payload,
                );
                &&& r == d.0
                &&& final(self).client_state == d.1
                &&& final(self).processed_bytes == d.3
                &&& final(self).bytes.stepped(&old(self).bytes, old(self).length as int, d.2)
            }),
    {
        let start = self.bytes.position;
        let saved_limit = self.bytes.limit;
        let budget = self.length;
        let end = start + budget;
        self.bytes.limit = end;
        assert(self.bytes.input() =~= old(self).bytes.input().take(old(self).length as int));
        let r = if packet_id == 0 {
            self.handshake()
        } else if packet_id == 1 {
            self.ping()
        } else {
            assert(self.bytes.send_buffer@ =~= old(self).bytes.send_buffer@ + Seq::<u8>::empty());
            RECV::ERROR
        };
        self.processed_bytes = self.bytes.position - start;
        self.length = budget;
        self.bytes.limit = saved_limit;
        self.bytes.position = end;
        r
    }

    /// Handles the frame at the head of the input: waits for all of it, hands its
    /// payload to the handler of its packet ID, then drops the frame as a whole, so
    /// that a handler that takes too little or would take too much cannot shift the
    /// frames that follow.
    pub fn process_frame(&mut self) -> (r: FrameOutcome)
        requires
            old(self).wf(),
        ensures
            final(self).wf(),
            final(self).status_json@ == old(self).status_json@,
            ({
                let f = frame_spec(old(self).status_json@, old(self).client_state, old(self).bytes.input());
                &&& r == f.0
                &&& final(self).client_state == f.1
                &&& final(self).bytes.stepped(&old(self).bytes, f.3, f.2)
            }),
    {
        proof {
            reveal(frame_spec);
        }
        let ghost s = self.bytes.input();
        let start = self.bytes.position;
        let length = match self.bytes.read_varint() {
            Ok(l) => l,
            Err(_) => {
                assert(self.bytes.send_buffer@ =~= old(self).bytes.send_buffer@ + Seq::<u8>::empty());
                return FrameOutcome::Incomplete;
            },
        };
        if length == VARNUM_ERROR || length < 0 {
            assert(self.bytes.send_buffer@ =~= old(self).bytes.send_buffer@ + Seq::<u8>::empty());
            return FrameOutcome::Malformed;
        }
        let header_end = self.bytes.position;
        if self.bytes.limit - header_end < length as usize {
            self.bytes.position = start;
            assert(self.bytes.send_buffer@ =~= old(self).bytes.send_buffer@ + Seq::<u8>::empty());
            return FrameOutcome::Incomplete;
        }
        let frame_end = header_end + length as usize;
        let saved_limit = self.bytes.limit;
        self.bytes.limit = frame_end;
        let ghost k = varint_len(s);
        let ghost body = self.bytes.input();
        assert(body =~= s.subrange(k, k + length));
        let packet_id = match self.bytes.read_varint() {
            Ok(i) => i,
            Err(_) => {
                self.bytes.limit = saved_limit;
                self.bytes.position = frame_end;
                assert(self.bytes.send_buffer@ =~= old(self).bytes.send_buffer@ + Seq::<u8>::empty());
                return FrameOutcome::Discarded;
            },
        };
        if packet_id == VARNUM_ERROR {
            self.bytes.limit = saved_limit;
            self.bytes.position = frame_end;
            assert(self.bytes.send_buffer@ =~= old(self).bytes.send_buffer@ + Seq::<u8>::empty());
            return FrameOutcome::Discarded;
        }
        let payload_start = self.bytes.position;
        let remaining = frame_end - payload_start;
        self.bytes.limit = saved_limit;
        self.length = remaining;
        assert(self.bytes.input().take(remaining as int) =~= body.skip(varint_len(body)));
        let status = self.packet_handle(packet_id);
        let consumed = self.processed_bytes;
        FrameOutcome::Dispatched { packet_id, status, consumed, remaining }
    }

    /// Adds bytes that arrived from the peer and handles every frame that is now
    /// complete, in order. Gives what became of each; the replies wait in the send
    /// buffer, and an incomplete last frame waits for more bytes.
    pub fn handle_client(&mut self, incoming: &[u8]) -> (r: Vec<FrameOutcome>)
        requires
            old(self).wf(),
        ensures
            final(self).wf(),
            final(self).status_json@ == old(self).status_json@,
            ({
                let s = old(self).bytes.input() + incoming@;
                let f = frames_spec(old(self).status_json@, old(self).client_state, s);
                &&& r@ == f.0
                &&& final(self).client_state == f.1
                &&& final(self).bytes.sent() == old(self).bytes.sent() + f.2
                &&& final(self).bytes.input() == s.skip(f.3)
            }),
    {
        self.bytes.receive(incoming);
        let ghost s = self.bytes.input();
        let ghost doc = self.status_json@;
        let ghost whole = frames_spec(doc, old(self).client_state, s);
        assert(self.bytes.recv_buffer@ =~= s);
        assert(s.skip(0) =~= s);
        let mut outcomes: Vec<FrameOutcome> = Vec::new();
        assert(old(self).bytes.sent() + whole.2 =~= self.bytes.sent() + whole.2);
        loop
            invariant
                self.wf(),
                self.status_json@ == doc,
                doc == old(self).status_json@,
                s == old(self).bytes.input() + incoming@,
                whole == frames_spec(doc, old(self).client_state, s),
                self.bytes.recv_buffer@ == s,
                self.bytes.input() == s.skip(self.bytes.position as int),
                ({
                    let g = frames_spec(doc, self.client_state, s.skip(self.bytes.position as int));
                    &&& whole.0 == outcomes@ + g.0
                    &&& whole.1 == g.1
                    &&& old(self).bytes.sent() + whole.2 == self.bytes.sent() + g.2
                    &&& whole.3 == self.bytes.position + g.3
                }),
            ensures
                whole.0 == outcomes@,
                whole.1 == self.client_state,
                old(self).bytes.sent() + whole.2 == self.bytes.sent(),
                whole.3 == self.bytes.position,
            decreases s.len() - self.bytes.position,
        {
            let ghost before = *self;
            let ghost t = self.bytes.input();
            let o = self.process_frame();
            let ghost f = frame_spec(doc, before.client_state, t);
            proof {
                lemma_frame_progress(doc, before.client_state, t);
                lemma_frames_step(doc, before.client_state, t);
            }
            if o == FrameOutcome::Incomplete {
                let ghost g = frames_spec(doc, self.client_state, t);
                assert(g.0 == Seq::<FrameOutcome>::empty() && g.1 == self.client_state && g.2
                    == Seq::<u8>::empty() && g.3 == 0);
                assert(outcomes@ + Seq::<FrameOutcome>::empty() =~= outcomes@);
                assert(self.bytes.sent() + Seq::<u8>::empty() =~= self.bytes.sent());
                break;
            }
            proof {
                assert(s.skip(self.bytes.position as int) =~= t.skip(f.3));
                assert(self.bytes.input() =~= s.skip(self.bytes.position as int));
                let g = frames_spec(doc, self.client_state, t.skip(f.3));
                assert(outcomes@ + (seq![o] + g.0) =~= outcomes@.push(o) + g.0);
                assert(before.bytes.sent() + (f.2 + g.2) =~= self.bytes.sent() + g.2);
            }
            outcomes.push(o);
        }
        outcomes
    }
}

/// The state of a connection changes only through a handshake packet that succeeds
/// in state NONE, and then to STATUS or LOGIN; any other packet, or a frame that is
/// not dispatched, keeps it. A connection never leaves the states of this core.
pub proof fn lemma_state_changes_only_by_handshake(doc: Seq<u8>, st: i32, s: Seq<u8>)
    ensures
        ({
            let f = frame_spec(doc, st, s);
            &&& valid_state(st) ==> valid_state(f.1)
            &&& f.1 != st ==> st == STATE_NONE && f.0 is Dispatched && f.0->packet_id == 0
                && f.0->status == RECV::SUCCESS && (f.1 == STATE_STATUS || f.1 == STATE_LOGIN)
        }),
{
    reveal(frame_spec);
}

/// A packet whose ID has no handler in the current state keeps the state and sends nothing.
pub proof fn lemma_unexpected_packet(doc: Seq<u8>, st: i32, id: i32, s: Seq<u8>)
    requires
        !(id == 0 && (st == STATE_NONE || st == STATE_STATUS || st == STATE_LOGIN)),
        !(id == 1 && st == STATE_STATUS),
    ensures
        dispatch_spec(doc, st, id, s) == (RECV::ERROR, st, Seq::<u8>::empty(), 0int),
{
}

/// A handler never takes more than the payload that the frame declares.
pub proof fn lemma_dispatch_within_payload(doc: Seq<u8>, st: i32, id: i32, s: Seq<u8>)
    ensures
        0 <= dispatch_spec(doc, st, id, s).3 <= s.len(),
{
}

/// A frame that is fully buffered is taken as a whole, however its handler fares:
/// whatever follows it is read as the next frame, and a handler that finds the
/// declared payload short reports it.
pub proof fn lemma_frame_boundary_kept(doc: Seq<u8>, st: i32, length: i32, body: Seq<u8>, rest: Seq<u8>)
    requires
        0 <= length,
        length != VARNUM_ERROR,
        body.len() == length,
    ensures
        ({
            let s = varint_encode(length) + body + rest;
            let f = frame_spec(doc, st, s);
            &&& f.0 != FrameOutcome::Incomplete
            &&& f.3 == varint_encode(length).len() + length
            &&& s.skip(f.3) == rest
            &&& f.0 is Dispatched ==> f.0->consumed <= f.0->remaining
        }),
{
    reveal(frame_spec);
    let s = varint_encode(length) + body + rest;
    lemma_varint_round_trip(length, body + rest);
    assert(s =~= varint_encode(length) + (body + rest));
    let k = varint_encode(length).len() as int;
    assert(s.skip(k + length) =~= rest);
    let b = s.subrange(k, k + length);
    let j = varint_len(b);
    if j > 0 {
        lemma_dispatch_within_payload(doc, st, varint_value(b), b.skip(j));
    }
}

/// `t` is a prefix of `s`.
pub open spec fn is_prefix(t: Seq<u8>, s: Seq<u8>) -> bool {
    t.len() <= s.len() && t == s.take(t.len() as int)
}

proof fn lemma_skip_prefix(t: Seq<u8>, s: Seq<u8>, k: int)
    requires
        is_prefix(t, s),
        0 <= k <= t.len(),
    ensures
        is_prefix(t.skip(k), s.skip(k)),
{
    assert(t.skip(k) =~= s.skip(k).take(t.skip(k).len() as int));
}

proof fn lemma_varint_prefix(t: Seq<u8>, s: Seq<u8>)
    requires
        is_prefix(t, s),
        read_varint_spec(t) is Ok,
    ensures
        read_varint_spec(s) == read_varint_spec(t),
{
    assert(forall|i: int| 0 <= i < t.len() ==> t[i] == s[i]);
    assert(varint_len(s) == varint_len(t));
    if varint_len(t) > 0 {
        assert(s.take(varint_len(t)) =~= t.take(varint_len(t)));
    }
}

proof fn lemma_string_prefix(t: Seq<u8>, s: Seq<u8>)
    requires
        is_prefix(t, s),
        read_string_spec(t) is Ok,
    ensures
        read_string_spec(s) == read_string_spec(t),
{
    lemma_varint_prefix(t, s);
    let (n, k) = read_varint_spec(t)->Ok_0;
    assert(s.subrange(k, k + n) =~= t.subrange(k, k + n));
}

proof fn lemma_fixed_prefix(t: Seq<u8>, s: Seq<u8>, w: int)
    requires
        is_prefix(t, s),
        read_fixed_spec(t, w) is Ok,
        w >= 0,
    ensures
        read_fixed_spec(s, w) == read_fixed_spec(t, w),
{
    assert(s.take(w) =~= t.take(w));
}

proof fn lemma_handshake_prefix(t: Seq<u8>, s: Seq<u8>)
    requires
        is_prefix(t, s),
        handshake_spec(t) is Some,
    ensures
        handshake_spec(s) == handshake_spec(t),
{
    lemma_varint_prefix(t, s);
    let k1 = read_varint_spec(t)->Ok_0.1;
    lemma_skip_prefix(t, s, k1);
    let (t1, s1) = (t.skip(k1), s.skip(k1));
    lemma_string_prefix(t1, s1);
    let k2 = read_string_spec(t1)->Ok_0.1;
    lemma_skip_prefix(t1, s1, k2);
    let (t2, s2) = (t1.skip(k2), s1.skip(k2));
    lemma_fixed_prefix(t2, s2, 2);
    lemma_skip_prefix(t2, s2, 2);
    lemma_varint_prefix(t2.skip(2), s2.skip(2));
}

proof fn lemma_login_start_prefix(t: Seq<u8>, s: Seq<u8>)
    requires
        is_prefix(t, s),
        login_start_spec(t) is Some,
    ensures
        login_start_spec(s) == login_start_spec(t),
{
    lemma_string_prefix(t, s);
    let k = read_string_spec(t)->Ok_0.1;
    assert(s.subrange(k, k + UUID_LEN) =~= t.subrange(k, k + UUID_LEN));
}

/// A handler that succeeds on a prefix of a payload fares the same on the whole of it:
/// it reads the same fields and takes the same bytes.
pub proof fn lemma_dispatch_prefix(doc: Seq<u8>, st: i32, id: i32, t: Seq<u8>, s: Seq<u8>)
    requires
        is_prefix(t, s),
        dispatch_spec(doc, st, id, t).0 == RECV::SUCCESS,
    ensures
        dispatch_spec(doc, st, id, s) == dispatch_spec(doc, st, id, t),
{
    if id == 0 && st == STATE_NONE {
        lemma_handshake_prefix(t, s);
    } else if id == 0 && st == STATE_LOGIN {
        lemma_login_start_prefix(t, s);
    } else if id == 1 {
        assert(s.take(8) =~= t.take(8));
    }
}

/// When the declared payload is shorter than what the handler would read from the
/// bytes that follow, the handler reports failure instead of reading past the payload,
/// and `packet_handle` still takes exactly the declared payload.
pub proof fn lemma_short_payload_detected(doc: Seq<u8>, st: i32, id: i32, s: Seq<u8>, length: int)
    requires
        0 <= length <= s.len(),
        dispatch_spec(doc, st, id, s).3 > length,
    ensures
        dispatch_spec(doc, st, id, s.take(length)).0 == RECV::ERROR,
{
    let t = s.take(length);
    if dispatch_spec(doc, st, id, t).0 == RECV::SUCCESS {
        lemma_dispatch_prefix(doc, st, id, t, s);
        lemma_dispatch_within_payload(doc, st, id, t);
    }
}

/// A frame that is not incomplete takes at least one byte and no more than there are.
pub proof fn lemma_frame_progress(doc: Seq<u8>, st: i32, s: Seq<u8>)
    ensures
        frame_spec(doc, st, s).0 != FrameOutcome::Incomplete ==> 0 < frame_spec(doc, st, s).3 <= s.len(),
        frame_spec(doc, st, s).0 == FrameOutcome::Incomplete ==> frame_spec(doc, st, s) == (
            FrameOutcome::Incomplete,
            st,
            Seq::<u8>::empty(),
            0int,
        ),
{
    reveal(frame_spec);
}

/// One step of `frames_spec`: the first frame, then the frames after it.
pub proof fn lemma_frames_step(doc: Seq<u8>, st: i32, s: Seq<u8>)
    ensures
        ({
            let f = frame_spec(doc, st, s);
            let all = frames_spec(doc, st, s);
            if f.0 == FrameOutcome::Incomplete {
                all == (Seq::<FrameOutcome>::empty(), st, Seq::<u8>::empty(), 0int)
            } else {
                let rest = frames_spec(doc, f.1, s.skip(f.3));
                all == (seq![f.0] + rest.0, rest.1, f.2 + rest.2, f.3 + rest.3)
            }
        }),
{
    lemma_frame_progress(doc, st, s);
    reveal(frames_spec);
}

} // verus!

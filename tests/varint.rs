use handshake_server::byte_handlers::{ByteHandler, ReadError, RECV_TYPE};
use handshake_server::varnums::VARNUM_ERROR;

fn reader(bytes: &[u8]) -> ByteHandler {
    let mut h = ByteHandler::new();
    h.receive(bytes);
    h
}

fn encode(v: i32) -> Vec<u8> {
    let mut h = ByteHandler::new();
    h.write_varint(v);
    h.take_output()
}

#[test]
fn varint_round_trip() {
    let values = [0, 1, 2, 127, 128, 255, 300, 25565, 2097151, 2097152, i32::MAX, -1, -2, i32::MIN];
    let sizer = ByteHandler::new();
    for &v in values.iter() {
        let bytes = encode(v);
        assert_eq!(sizer.size_varint(v) as usize, bytes.len());
        let mut h = reader(&bytes);
        assert_eq!(h.read_varint(), Ok(v));
        assert_eq!(h.available(), 0);
    }
}

#[test]
fn varint_known_encodings() {
    assert_eq!(encode(0), vec![0x00]);
    assert_eq!(encode(127), vec![0x7f]);
    assert_eq!(encode(128), vec![0x80, 0x01]);
    assert_eq!(encode(772), vec![0x84, 0x06]);
    assert_eq!(encode(25565), vec![0xdd, 0xc7, 0x01]);
    assert_eq!(encode(2147483647), vec![0xff, 0xff, 0xff, 0xff, 0x07]);
    assert_eq!(encode(-1), vec![0xff, 0xff, 0xff, 0xff, 0x0f]);
    assert_eq!(encode(i32::MIN), vec![0x80, 0x80, 0x80, 0x80, 0x08]);
}

#[test]
fn varint_negative_takes_five_bytes() {
    let sizer = ByteHandler::new();
    assert_eq!(sizer.size_varint(-1), 5);
    assert_eq!(sizer.size_varint(-12345), 5);
    assert_eq!(sizer.size_varint(0), 1);
    assert_eq!(sizer.size_varint(128), 2);
}

#[test]
fn varint_six_continuation_bytes_give_sentinel() {
    let mut h = reader(&[0x80, 0x80, 0x80, 0x80, 0x80, 0x80]);
    assert_eq!(h.read_varint(), Ok(VARNUM_ERROR));
    assert_eq!(h.available(), 1);
}

#[test]
fn varint_truncated_is_end_of_data() {
    let mut h = reader(&[0x80, 0x80]);
    assert_eq!(h.read_varint(), Err(ReadError::EndOfData));
    assert_eq!(h.available(), 2);
    let mut e = reader(&[]);
    assert_eq!(e.read_varint(), Err(ReadError::EndOfData));
}

#[test]
fn read_fixed_width_big_endian() {
    let mut h = reader(&[0x63, 0xdd, 0x01, 0x02, 0x03, 0x04, 0x05, 0x06, 0x07, 0x08]);
    assert_eq!(h.read_uint16(), Ok(25565));
    assert_eq!(h.read_uint64(), Ok(0x0102030405060708));
    assert_eq!(h.read_uint16(), Err(ReadError::EndOfData));
    let mut short = reader(&[1, 2, 3]);
    assert_eq!(short.read_uint64(), Err(ReadError::EndOfData));
    assert_eq!(short.available(), 3);
}

#[test]
fn read_string_lossy() {
    let mut h = reader(&[3, b'a', 0xff, b'b', 2, b'o', b'k']);
    assert_eq!(h.read_string(), Ok(String::from("a\u{fffd}b")));
    assert_eq!(h.read_string(), Ok(String::from("ok")));
    let mut bad = reader(&[0xff, 0xff, 0xff, 0xff, 0x0f]);
    assert_eq!(bad.read_string(), Err(ReadError::BadLength));
    let mut short = reader(&[5, b'a']);
    assert_eq!(short.read_string_bytes(), Err(ReadError::EndOfData));
    assert_eq!(short.available(), 2);
}

#[test]
fn recv_n_bytes_read_and_peek() {
    let mut h = reader(&[1, 2, 3]);
    assert_eq!(h.recv_n_bytes(2, RECV_TYPE::PEEK), Ok(vec![1, 2]));
    assert_eq!(h.available(), 3);
    assert_eq!(h.recv_n_bytes(2, RECV_TYPE::READ), Ok(vec![1, 2]));
    assert_eq!(h.available(), 1);
    assert_eq!(h.recv_n_bytes(2, RECV_TYPE::READ), Err(ReadError::EndOfData));
    assert_eq!(h.recv_n_bytes(5, RECV_TYPE::PEEK), Ok(vec![3]));
    assert_eq!(h.available(), 1);
    assert_eq!(h.read_byte(), Ok(3));
    assert_eq!(h.read_byte(), Err(ReadError::EndOfData));
    assert_eq!(h.recv_n_bytes(2, RECV_TYPE::PEEK), Ok(Vec::new()));
}

#[test]
fn writes_append_in_order() {
    let mut h = ByteHandler::new();
    h.write_byte(7);
    h.write_all(&[1, 2]);
    h.write_n_bytes(&[9, 8, 7], 2);
    h.write_varint(300);
    assert_eq!(h.take_output(), vec![7, 1, 2, 9, 8, 0xac, 0x02]);
    assert_eq!(h.take_output(), Vec::<u8>::new());
}

use vstd::prelude::*;
use vstd::slice::slice_subrange;
use byteorder::ByteOrder;
use crate::varnums::{
    VARNUM_ERROR, pow128, varint_digits, varint_len, varint_consumed,
    varint_value, varint_bytes, varint_encode, lemma_digits_step, lemma_varint_round_trip,
    lemma_overlong_is_sentinel,
};

verus! {

/// How `recv_n_bytes` takes bytes: `READ` consumes them, `PEEK` leaves them in place.
#[allow(non_camel_case_types)]
#[derive(Clone, Copy, Debug, PartialEq, Eq, Structural)]
pub enum RECV_TYPE {
    READ,
    PEEK,
}

/// Why a read from the receive buffer failed.
#[derive(Clone, Copy, Debug, PartialEq, Eq, Structural)]
pub enum ReadError {
    /// The buffered input ended before the field did.
    EndOfData,
    /// A string's length prefix was the sentinel or negative.
    BadLength,
}

/// Unsigned big-endian value of `s`.
pub open spec fn be_value(s: Seq<u8>) -> nat
    decreases s.len(),
{
    if s.len() == 0 {
        0
    } else {
        be_value(s.drop_last()) * 256 + s.last() as nat
    }
}

/// Result of reading one VarInt from the start of `s`, with the bytes it takes.
pub open spec fn read_varint_spec(s: Seq<u8>) -> Result<(i32, int), ReadError> {
    if varint_len(s) == 0 {
        Err(ReadError::EndOfData)
    } else {
        Ok((varint_value(s), varint_consumed(s)))
    }
}

/// Result of reading a VarInt-length-prefixed byte string from the start of `s`,
/// with the bytes it takes.
pub open spec fn read_string_spec(s: Seq<u8>) -> Result<(Seq<u8>, int), ReadError> {
    match read_varint_spec(s) {
        Err(e) => Err(e),
        Ok((n, k)) => if n == VARNUM_ERROR || n < 0 {
            Err(ReadError::BadLength)
        } else if s.len() < k + n {
            Err(ReadError::EndOfData)
        } else {
            Ok((s.subrange(k, k + n), k + n))
        },
    }
}

/// Result of reading a fixed-width big-endian integer of `w` bytes from the start of `s`.
pub open spec fn read_fixed_spec(s: Seq<u8>, w: int) -> Result<(nat, int), ReadError> {
    if s.len() < w {
        Err(ReadError::EndOfData)
    } else {
        Ok((be_value(s.take(w)), w))
    }
}

/// Text that the lossy UTF-8 decoding of `b` gives.
pub uninterp spec fn utf8_lossy(b: Seq<u8>) -> Seq<char>;

/// Relies on `String::from_utf8_lossy`: the text depends on the bytes alone, and no
/// bytes give no text.
#[verifier::external_body]
fn decode_utf8_lossy(b: &[u8]) -> (r: String)
    ensures
        r@ == utf8_lossy(b@),
        b@.len() == 0 ==> r@.len() == 0,
{
    String::from_utf8_lossy(b).into_owned()
}

/// Relies on byteorder's `BigEndian::read_u16`: the first two bytes, most significant first.
#[verifier::external_body]
fn be_read_u16(b: &[u8]) -> (r: u16)
    requires
        b@.len() >= 2,
    ensures
        r as nat == be_value(b@.take(2)),
{
    byteorder::BigEndian::read_u16(b)
}

/// Relies on byteorder's `BigEndian::read_u64`: the first eight bytes, most significant first.
#[verifier::external_body]
fn be_read_u64(b: &[u8]) -> (r: u64)
    requires
        b@.len() >= 8,
    ensures
        r as nat == be_value(b@.take(8)),
{
    byteorder::BigEndian::read_u64(b)
}

/// Relies on byteorder's `BigEndian::write_u64`: `n` as eight bytes, most significant first.
#[verifier::external_body]
pub(crate) fn be_bytes_u64(n: u64) -> (r: Vec<u8>)
    ensures
        r@.len() == 8,
        be_value(r@) == n as nat,
{
    let mut buf = vec![0u8; 8];
    byteorder::BigEndian::write_u64(&mut buf, n);
    buf
}

/// Two byte strings of one length with one big-endian value are equal.
pub proof fn lemma_be_value_injective(a: Seq<u8>, b: Seq<u8>)
    requires
        a.len() == b.len(),
        be_value(a) == be_value(b),
    ensures
        a == b,
    decreases a.len(),
{
    if a.len() > 0 {
        let x = be_value(a.drop_last());
        let y = be_value(b.drop_last());
        let p = a.last() as int;
        let q = b.last() as int;
        assert(x == y && p == q) by (nonlinear_arith)
            requires
                x * 256 + p == y * 256 + q,
                0 <= p < 256,
                0 <= q < 256,
                x >= 0,
                y >= 0,
        ;
        lemma_be_value_injective(a.drop_last(), b.drop_last());
        assert(a =~= a.drop_last().push(a.last()));
        assert(b =~= b.drop_last().push(b.last()));
    } else {
        assert(a =~= b);
    }
}

/// Reading a VarInt from bytes that start with the encoding of `v` gives `v` and
/// takes exactly the encoding, which is `size_varint(v)` bytes long.
pub proof fn lemma_read_after_write(v: i32, rest: Seq<u8>)
    ensures
        read_varint_spec(varint_encode(v) + rest) == Ok::<(i32, int), ReadError>(
            (v, varint_encode(v).len() as int),
        ),
{
    lemma_varint_round_trip(v, rest);
}

/// Reading a VarInt from bytes whose first five all carry the continuation bit gives
/// the sentinel, after five bytes.
pub proof fn lemma_read_overlong(s: Seq<u8>)
    requires
        s.len() >= 5,
        forall|j: int| 0 <= j < 5 ==> s[j] >= 128,
    ensures
        read_varint_spec(s) == Ok::<(i32, int), ReadError>((VARNUM_ERROR, 5)),
{
    lemma_overlong_is_sentinel(s);
}

/// Appends every byte of `src` to `dst`.
fn append_bytes(dst: &mut Vec<u8>, src: &[u8])
    ensures
        final(dst)@ == old(dst)@ + src@,
{
    let mut i: usize = 0;
    while i < src.len()
        invariant
            i <= src@.len(),
            dst@ == old(dst)@ + src@.take(i as int),
        decreases src@.len() - i,
    {
        dst.push(src[i]);
        i += 1;
        assert(src@.take(i as int) =~= src@.take(i - 1).push(src@[i - 1]));
    }
    assert(src@.take(src@.len() as int) =~= src@);
}

/// The receive and send buffers of one connection. Bytes from `position` up to `limit`
/// are the input that reads may take; `send_buffer` holds what waits to be sent.
pub struct ByteHandler {
    pub recv_buffer: Vec<u8>,
    pub position: usize,
    pub limit: usize,
    pub send_buffer: Vec<u8>,
}

impl ByteHandler {
    pub open spec fn wf(&self) -> bool {
        self.position <= self.limit <= self.recv_buffer@.len()
    }

    /// Well formed, with every received byte visible to reads.
    pub open spec fn idle(&self) -> bool {
        self.wf() && self.limit == self.recv_buffer@.len()
    }

    /// The bytes that reads may take next.
    pub open spec fn input(&self) -> Seq<u8> {
        self.recv_buffer@.subrange(self.position as int, self.limit as int)
    }

    /// The bytes that wait to be sent.
    pub open spec fn sent(&self) -> Seq<u8> {
        self.send_buffer@
    }

    /// `self` is `before` with `n` more input bytes taken and the send buffer untouched.
    pub open spec fn advanced(&self, before: &ByteHandler, n: int) -> bool {
        &&& self.recv_buffer@ == before.recv_buffer@
        &&& self.limit == before.limit
        &&& self.position == before.position + n
        &&& self.send_buffer@ == before.send_buffer@
    }

    /// `self` is `before` with the input untouched and `out` appended to the send buffer.
    pub open spec fn wrote(&self, before: &ByteHandler, out: Seq<u8>) -> bool {
        &&& self.recv_buffer@ == before.recv_buffer@
        &&& self.limit == before.limit
        &&& self.position == before.position
        &&& self.send_buffer@ == before.send_buffer@ + out
    }

    /// `self` is `before` with `n` more input bytes taken and `out` appended to the
    /// send buffer.
    pub open spec fn stepped(&self, before: &ByteHandler, n: int, out: Seq<u8>) -> bool {
        &&& self.recv_buffer@ == before.recv_buffer@
        &&& self.limit == before.limit
        &&& self.position == before.position + n
        &&& self.send_buffer@ == before.send_buffer@ + out
    }

    pub fn new() -> (r: ByteHandler)
        ensures
            r.idle(),
            r.input() == Seq::<u8>::empty(),
            r.sent() == Seq::<u8>::empty(),
    {
        ByteHandler { recv_buffer: Vec::new(), position: 0, limit: 0, send_buffer: Vec::new() }
    }

    /// Adds bytes that arrived from the peer after the unread input, dropping what
    /// was already read.
    pub fn receive(&mut self, bytes: &[u8])
        requires
            old(self).idle(),
        ensures
            final(self).idle(),
            final(self).position == 0,
            final(self).input() == old(self).input() + bytes@,
            final(self).sent() == old(self).sent(),
    {
        let mut kept: Vec<u8> = Vec::new();
        let mut i: usize = self.position;
        while i < self.recv_buffer.len()
            invariant
                self.idle(),
                self.position <= i <= self.recv_buffer@.len(),
                kept@ == self.recv_buffer@.subrange(self.position as int, i as int),
            decreases self.recv_buffer@.len() - i,
        {
            kept.push(self.recv_buffer[i]);
            i += 1;
            assert(self.recv_buffer@.subrange(self.position as int, i as int) =~= self.recv_buffer@.subrange(
                self.position as int,
                i - 1,
            ).push(self.recv_buffer@[i - 1]));
        }
        append_bytes(&mut kept, bytes);
        self.limit = kept.len();
        self.recv_buffer = kept;
        self.position = 0;
        assert(self.input() =~= self.recv_buffer@);
    }

    /// Hands out the bytes that wait to be sent and empties the send buffer.
    pub fn take_output(&mut self) -> (r: Vec<u8>)
        ensures
            r@ == old(self).sent(),
            final(self).sent() == Seq::<u8>::empty(),
            final(self).recv_buffer@ == old(self).recv_buffer@,
            final(self).position == old(self).position,
            final(self).limit == old(self).limit,
    {
        let mut out: Vec<u8> = Vec::new();
        std::mem::swap(&mut out, &mut self.send_buffer);
        out
    }

    /// Number of input bytes that reads may take.
    pub fn available(&self) -> (r: usize)
        requires
            self.wf(),
        ensures
            r == self.input().len(),
    {
        self.limit - self.position
    }

    /// Takes one byte of input; fails at the end of the input.
    pub fn read_byte(&mut self) -> (r: Result<u8, ReadError>)
        requires
            old(self).wf(),
        ensures
            final(self).wf(),
            old(self).input().len() == 0 ==> r == Err::<u8, ReadError>(ReadError::EndOfData)
                && final(self).advanced(old(self), 0),
            old(self).input().len() > 0 ==> r == Ok::<u8, ReadError>(old(self).input()[0])
                && final(self).advanced(old(self), 1),
    {
        if self.position >= self.limit {
            return Err(ReadError::EndOfData);
        }
        let b = self.recv_buffer[self.position];
        self.position = self.position + 1;
        Ok(b)
    }

    /// Reads one VarInt. An overlong one (five bytes that all carry the continuation
    /// bit) gives the sentinel after five bytes; input that ends first gives an error
    /// and takes nothing.
    pub fn read_varint(&mut self) -> (r: Result<i32, ReadError>)
        requires
            old(self).wf(),
        ensures
            final(self).wf(),
            match read_varint_spec(old(self).input()) {
                Ok((v, n)) => r == Ok::<i32, ReadError>(v) && final(self).advanced(old(self), n),
                Err(e) => r == Err::<i32, ReadError>(e) && final(self).advanced(old(self), 0),
            },
    {
        let ghost s = self.input();
        let start = self.position;
        let mut acc: u64 = 0;
        let mut mult: u64 = 1;
        let mut i: usize = 0;
        loop
            invariant
                self.wf(),
                s == old(self).input(),
                i < 5,
                start == old(self).position,
                self.advanced(old(self), i as int),
                forall|j: int| 0 <= j < i ==> s[j] >= 128,
                acc as nat == varint_digits(s.take(i as int)),
                mult as nat == pow128(i as nat),
                acc < mult,
                (i == 0 && mult == 1) || (i == 1 && mult == 0x80) || (i == 2 && mult == 0x4000) || (i
                    == 3 && mult == 0x20_0000) || (i == 4 && mult == 0x1000_0000),
            decreases 5 - i,
        {
            if self.position >= self.limit {
                self.position = start;
                return Err(ReadError::EndOfData);
            }
            let b = self.recv_buffer[self.position];
            assert(b == s[i as int]);
            self.position = self.position + 1;
            proof {
                lemma_digits_step(s, i as nat);
            }
            assert((b % 128) as u64 * mult + acc < 128 * mult) by (nonlinear_arith)
                requires
                    acc < mult,
                    b < 256,
            ;
            acc = acc + (b % 128) as u64 * mult;
            if b < 128 {
                let m = acc % 0x1_0000_0000;
                assert(s.take(i as int + 1) == s.take(varint_len(s)));
                if m < 0x8000_0000 {
                    return Ok(m as i32);
                } else {
                    return Ok((m as i64 - 0x1_0000_0000) as i32);
                }
            }
            i = i + 1;
            if i == 5 {
                return Ok(VARNUM_ERROR);
            }
            assert(pow128(i as nat) == 128 * pow128((i - 1) as nat));
            mult = mult * 128;
        }
    }

    /// Number of bytes that `value` takes on the wire.
    pub fn size_varint(&self, value: i32) -> (r: i32)
        ensures
            r == varint_encode(value).len(),
    {
        let mut u: u32 = if value >= 0 {
            value as u32
        } else {
            (value as i64 + 0x1_0000_0000) as u32
        };
        let mut size: i32 = 1;
        proof {
            lemma_varint_round_trip(value, Seq::<u8>::empty());
        }
        while u >= 128
            invariant
                size + varint_bytes(u as nat).len() - 1 == varint_encode(value).len(),
                varint_encode(value).len() <= 5,
                size >= 1,
            decreases u,
        {
            u = u / 128;
            size = size + 1;
        }
        size
    }

    /// Appends the encoding of `value` to the send buffer.
    pub fn write_varint(&mut self, value: i32)
        ensures
            final(self).wrote(old(self), varint_encode(value)),
    {
        let mut u: u32 = if value >= 0 {
            value as u32
        } else {
            (value as i64 + 0x1_0000_0000) as u32
        };
        let ghost target = old(self).send_buffer@ + varint_encode(value);
        loop
            invariant
                self.send_buffer@ + varint_bytes(u as nat) == target,
                target == old(self).send_buffer@ + varint_encode(value),
                self.recv_buffer@ == old(self).recv_buffer@,
                self.position == old(self).position,
                self.limit == old(self).limit,
            decreases u,
        {
            if u < 128 {
                assert(varint_bytes(u as nat) == seq![u as u8]);
                self.send_buffer.push(u as u8);
                assert(self.send_buffer@ =~= target);
                return;
            }
            assert(varint_bytes(u as nat) == seq![(u % 128 + 128) as u8] + varint_bytes((u / 128) as nat));
            self.send_buffer.push((u % 128 + 128) as u8);
            u = u / 128;
            assert(self.send_buffer@ + varint_bytes(u as nat) =~= target);
        }
    }
    /// Takes (`READ`) or looks at (`PEEK`) the next `n` input bytes. A `READ` fails,
    /// taking nothing, when fewer than `n` are there; a `PEEK` gives the at most `n`
    /// bytes that are there, and fewer than `n` means no data yet.
    pub fn recv_n_bytes(&mut self, n: usize, recv_type: RECV_TYPE) -> (r: Result<Vec<u8>, ReadError>)
        requires
            old(self).wf(),
        ensures
            final(self).wf(),
            recv_type == RECV_TYPE::READ && old(self).input().len() < n ==> r == Err::<
                Vec<u8>,
                ReadError,
            >(ReadError::EndOfData) && final(self).advanced(old(self), 0),
            recv_type == RECV_TYPE::READ && old(self).input().len() >= n ==> r is Ok && r->Ok_0@
                == old(self).input().take(n as int) && final(self).advanced(old(self), n as int),
            recv_type == RECV_TYPE::PEEK ==> r is Ok && r->Ok_0@ == old(self).input().take(
                if n <= old(self).input().len() {
                    n as int
                } else {
                    old(self).input().len() as int
                },
            ) && final(self).advanced(old(self), 0),
    {
        let avail = self.limit - self.position;
        if recv_type == RECV_TYPE::READ && avail < n {
            return Err(ReadError::EndOfData);
        }
        let count = if n <= avail {
            n
        } else {
            avail
        };
        let mut out: Vec<u8> = Vec::new();
        let mut i: usize = 0;
        while i < count
            invariant
                self.wf(),
                self.position + count <= self.limit,
                i <= count,
                out@ == self.input().take(i as int),
            decreases count - i,
        {
            out.push(self.recv_buffer[self.position + i]);
            i += 1;
            assert(self.input().take(i as int) =~= self.input().take(i - 1).push(self.input()[i - 1]));
        }
        if recv_type == RECV_TYPE::READ {
            self.position = self.position + n;
        }
        Ok(out)
    }

    /// Reads a big-endian `u16`.
    pub fn read_uint16(&mut self) -> (r: Result<u16, ReadError>)
        requires
            old(self).wf(),
        ensures
            final(self).wf(),
            match read_fixed_spec(old(self).input(), 2) {
                Ok((v, n)) => r is Ok && r->Ok_0 as nat == v && final(self).advanced(old(self), n),
                Err(e) => r == Err::<u16, ReadError>(e) && final(self).advanced(old(self), 0),
            },
    {
        if self.limit - self.position < 2 {
            return Err(ReadError::EndOfData);
        }
        let field = slice_subrange(self.recv_buffer.as_slice(), self.position, self.position + 2);
        assert(field@.take(2) =~= self.input().take(2));
        let v = be_read_u16(field);
        self.position = self.position + 2;
        Ok(v)
    }

    /// Reads a big-endian `u64`, all 64 bits of it.
    pub fn read_uint64(&mut self) -> (r: Result<u64, ReadError>)
        requires
            old(self).wf(),
        ensures
            final(self).wf(),
            match read_fixed_spec(old(self).input(), 8) {
                Ok((v, n)) => r is Ok && r->Ok_0 as nat == v && final(self).advanced(old(self), n),
                Err(e) => r == Err::<u64, ReadError>(e) && final(self).advanced(old(self), 0),
            },
    {
        if self.limit - self.position < 8 {
            return Err(ReadError::EndOfData);
        }
        let field = slice_subrange(self.recv_buffer.as_slice(), self.position, self.position + 8);
        assert(field@.take(8) =~= self.input().take(8));
        let v = be_read_u64(field);
        self.position = self.position + 8;
        Ok(v)
    }

    /// Reads a VarInt length and then that many bytes. Fails, taking nothing, on a
    /// negative or sentinel length or when the input ends first.
    pub fn read_string_bytes(&mut self) -> (r: Result<Vec<u8>, ReadError>)
        requires
            old(self).wf(),
        ensures
            final(self).wf(),
            match read_string_spec(old(self).input()) {
                Ok((v, n)) => r is Ok && r->Ok_0@ == v && final(self).advanced(old(self), n),
                Err(e) => r == Err::<Vec<u8>, ReadError>(e) && final(self).advanced(old(self), 0),
            },
    {
        let ghost s = self.input();
        let start = self.position;
        let length = match self.read_varint() {
            Ok(l) => l,
            Err(e) => {
                return Err(e);
            },
        };
        if length == VARNUM_ERROR || length < 0 {
            self.position = start;
            return Err(ReadError::BadLength);
        }
        let ghost k = varint_consumed(s);
        assert(self.input() =~= s.skip(k));
        match self.recv_n_bytes(length as usize, RECV_TYPE::READ) {
            Ok(bytes) => {
                assert(bytes@ =~= s.subrange(k, k + length));
                Ok(bytes)
            },
            Err(e) => {
                self.position = start;
                Err(e)
            },
        }
    }

    /// Reads a VarInt-length-prefixed string, replacing invalid UTF-8 rather than failing.
    pub fn read_string(&mut self) -> (r: Result<String, ReadError>)
        requires
            old(self).wf(),
        ensures
            final(self).wf(),
            match read_string_spec(old(self).input()) {
                Ok((v, n)) => r is Ok && r->Ok_0@ == utf8_lossy(v) && final(self).advanced(
                    old(self),
                    n,
                ),
                Err(e) => r == Err::<String, ReadError>(e) && final(self).advanced(old(self), 0),
            },
    {
        match self.read_string_bytes() {
            Ok(bytes) => Ok(decode_utf8_lossy(bytes.as_slice())),
            Err(e) => Err(e),
        }
    }

    /// Appends one byte to the send buffer.
    pub fn write_byte(&mut self, value: u8)
        ensures
            final(self).wrote(old(self), seq![value]),
    {
        self.send_buffer.push(value);
        assert(self.send_buffer@ =~= old(self).send_buffer@ + seq![value]);
    }

    /// Appends all of `value` to the send buffer.
    pub fn write_all(&mut self, value: &[u8])
        ensures
            final(self).wrote(old(self), value@),
    {
        append_bytes(&mut self.send_buffer, value);
    }

    /// Appends the first `size` bytes of `value` to the send buffer.
    pub fn write_n_bytes(&mut self, value: &[u8], size: usize)
        requires
            size <= value@.len(),
        ensures
            final(self).wrote(old(self), value@.take(size as int)),
    {
        let part = slice_subrange(value, 0, size);
        append_bytes(&mut self.send_buffer, part);
    }
}

} // verus!

use vstd::prelude::*;

verus! {

/// Value that a VarInt read returns when five bytes all carry the continuation bit.
pub const VARNUM_ERROR: i32 = 0xFFFFFF;

/// 128 raised to `i`: the weight of the `i`-th seven-bit group.
pub open spec fn pow128(i: nat) -> nat
    decreases i,
{
    if i == 0 {
        1
    } else {
        128 * pow128((i - 1) as nat)
    }
}

/// Sum of the seven-bit groups of `s`, least significant group first.
pub open spec fn varint_digits(s: Seq<u8>) -> nat
    decreases s.len(),
{
    if s.len() == 0 {
        0
    } else {
        (s[0] % 128) as nat + 128 * varint_digits(s.drop_first())
    }
}

/// Length of the VarInt at the start of `s`: 1 to 5 when a byte without the
/// continuation bit ends it, 0 when `s` ends first, -1 when the first five
/// bytes all carry the continuation bit.
pub open spec fn varint_len(s: Seq<u8>) -> int {
    if s.len() < 1 {
        0
    } else if s[0] < 128 {
        1
    } else if s.len() < 2 {
        0
    } else if s[1] < 128 {
        2
    } else if s.len() < 3 {
        0
    } else if s[2] < 128 {
        3
    } else if s.len() < 4 {
        0
    } else if s[3] < 128 {
        4
    } else if s.len() < 5 {
        0
    } else if s[4] < 128 {
        5
    } else {
        -1
    }
}

/// Number of bytes that reading one VarInt takes from `s` (five on an overlong one).
pub open spec fn varint_consumed(s: Seq<u8>) -> int {
    if varint_len(s) == -1 {
        5
    } else {
        varint_len(s)
    }
}

/// The `i32` whose two's complement bits are the low 32 bits of `u`.
pub open spec fn wrap_i32(u: nat) -> i32 {
    let m = u % 0x1_0000_0000;
    if m < 0x8000_0000 {
        m as i32
    } else {
        (m - 0x1_0000_0000) as i32
    }
}

/// The bits of `v` read as an unsigned number.
pub open spec fn as_unsigned(v: i32) -> nat {
    if v >= 0 {
        v as nat
    } else {
        (v + 0x1_0000_0000) as nat
    }
}

/// Value read from the VarInt at the start of `s`; the sentinel when it is overlong.
pub open spec fn varint_value(s: Seq<u8>) -> i32 {
    if varint_len(s) == -1 {
        VARNUM_ERROR
    } else {
        wrap_i32(varint_digits(s.take(varint_len(s))))
    }
}

/// `s` starts with a complete VarInt whose value is not the sentinel.
pub open spec fn varint_ok(s: Seq<u8>) -> bool {
    varint_len(s) > 0 && varint_value(s) != VARNUM_ERROR
}

/// Encoding of the unsigned number `u`, seven bits per byte, lowest group first.
pub open spec fn varint_bytes(u: nat) -> Seq<u8>
    decreases u,
{
    if u < 128 {
        seq![u as u8]
    } else {
        seq![(u % 128 + 128) as u8] + varint_bytes(u / 128)
    }
}

/// Wire encoding of `v`.
pub open spec fn varint_encode(v: i32) -> Seq<u8> {
    varint_bytes(as_unsigned(v))
}

/// The digits of one more byte add that byte's group at its weight.
pub proof fn lemma_digits_step(s: Seq<u8>, i: nat)
    requires
        i < s.len(),
    ensures
        varint_digits(s.take(i as int + 1)) == varint_digits(s.take(i as int)) + (s[i as int] % 128) as nat
            * pow128(i),
    decreases i,
{
    if i == 0 {
        assert(s.take(1).drop_first() =~= Seq::<u8>::empty());
        assert(s.take(0) =~= Seq::<u8>::empty());
        assert(varint_digits(Seq::<u8>::empty()) == 0);
        assert(pow128(0) == 1);
    } else {
        let t = s.drop_first();
        lemma_digits_step(t, (i - 1) as nat);
        assert(s.take(i as int + 1).drop_first() =~= t.take(i as int));
        assert(s.take(i as int).drop_first() =~= t.take(i - 1));
        assert(t[i - 1] == s[i as int]);
        assert(s.take(i as int + 1)[0] == s[0]);
        assert(s.take(i as int)[0] == s[0]);
        let a = varint_digits(t.take(i - 1));
        let d = (s[i as int] % 128) as nat;
        assert(128 * (a + d * pow128((i - 1) as nat)) == 128 * a + d * pow128(i)) by (nonlinear_arith)
            requires
                pow128(i) == 128 * pow128((i - 1) as nat),
        ;
    }
}

/// Every byte of an encoding but the last carries the continuation bit.
proof fn lemma_bytes_shape(u: nat)
    ensures
        varint_bytes(u).len() >= 1,
        varint_bytes(u).last() < 128,
        forall|j: int| 0 <= j < varint_bytes(u).len() - 1 ==> varint_bytes(u)[j] >= 128,
        varint_digits(varint_bytes(u)) == u,
        u < pow128((varint_bytes(u).len() - 1) as nat) * 128,
        varint_bytes(u).len() >= 2 ==> u >= pow128((varint_bytes(u).len() - 1) as nat),
    decreases u,
{
    if u >= 128 {
        let r = varint_bytes(u / 128);
        lemma_bytes_shape(u / 128);
        let b = varint_bytes(u);
        assert(b =~= seq![(u % 128 + 128) as u8] + r);
        assert(b.drop_first() =~= r);
        assert(b[0] == (u % 128 + 128) as u8);
        assert(b[0] % 128 == u % 128);
        assert(varint_digits(b) == b[0] % 128 + 128 * varint_digits(r));
        assert(u % 128 + 128 * (u / 128) == u) by (nonlinear_arith);
        assert forall|j: int| 0 <= j < b.len() - 1 implies b[j] >= 128 by {
            if j > 0 {
                assert(b[j] == r[j - 1]);
            }
        }
        let n = (r.len() - 1) as nat;
        assert(pow128(n + 1) == 128 * pow128(n));
        assert(u < pow128(n + 1) * 128) by (nonlinear_arith)
            requires
                u / 128 < pow128(n) * 128,
                pow128(n + 1) == 128 * pow128(n),
        ;
        if r.len() >= 2 {
            assert(u >= pow128(n + 1)) by (nonlinear_arith)
                requires
                    u / 128 >= pow128(n),
                    pow128(n + 1) == 128 * pow128(n),
            ;
        } else {
            assert(pow128(1) == 128 * pow128(0));
        }
    } else {
        assert(seq![u as u8].drop_first() =~= Seq::<u8>::empty());
        assert(varint_digits(Seq::<u8>::empty()) == 0);
    }
}

/// The encoding of any `i32` is one to five bytes long.
proof fn lemma_encode_len(v: i32)
    ensures
        1 <= varint_encode(v).len() <= 5,
{
    let u = as_unsigned(v);
    lemma_bytes_shape(u);
    let b = varint_bytes(u);
    if b.len() > 5 {
        let n = (b.len() - 1) as nat;
        lemma_pow128_grows(5, n);
        assert(pow128(0) == 1);
        assert(pow128(1) == 128);
        assert(pow128(2) == 0x4000);
        assert(pow128(3) == 0x20_0000);
        assert(pow128(4) == 0x1000_0000);
        assert(pow128(5) == 0x8_0000_0000);
    }
}

proof fn lemma_pow128_grows(i: nat, j: nat)
    requires
        i <= j,
    ensures
        pow128(i) <= pow128(j),
    decreases j - i,
{
    if i < j {
        lemma_pow128_grows(i, (j - 1) as nat);
    }
}

/// Decoding what `varint_encode` produced gives the value back, whatever bytes follow it,
/// and the encoding is as long as the reader consumes.
pub proof fn lemma_varint_round_trip(v: i32, rest: Seq<u8>)
    ensures
        varint_len(varint_encode(v) + rest) == varint_encode(v).len(),
        varint_consumed(varint_encode(v) + rest) == varint_encode(v).len(),
        varint_value(varint_encode(v) + rest) == v,
{
    let u = as_unsigned(v);
    let b = varint_encode(v);
    lemma_bytes_shape(u);
    lemma_encode_len(v);
    let s = b + rest;
    assert(forall|j: int| 0 <= j < b.len() ==> s[j] == b[j]);
    assert(s.take(b.len() as int) =~= b);
}

/// Five bytes that all carry the continuation bit make the reader return the sentinel.
pub proof fn lemma_overlong_is_sentinel(s: Seq<u8>)
    requires
        s.len() >= 5,
        forall|j: int| 0 <= j < 5 ==> s[j] >= 128,
    ensures
        varint_len(s) == -1,
        varint_value(s) == VARNUM_ERROR,
        !varint_ok(s),
{
}

} // verus!

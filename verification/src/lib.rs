use vstd::prelude::*;

verus! {

/// Which end of a payload holds the least-significant byte. The byte order
/// applies to payload bytes only, never to the prefix byte.
#[derive(Clone, Copy, PartialEq, Eq, Debug)]
pub enum ByteOrder {
    LittleEndian,
    BigEndian,
}

/// Why a buffer could not be decoded. `Empty` reports a zero-length input;
/// `Truncated` reports an input that announces a size class but holds fewer
/// bytes than that class requires in total.
#[derive(Clone, Copy, PartialEq, Eq, Debug)]
pub enum DecodeError {
    Empty,
    Truncated { needed: usize, available: usize },
}

/// Total length in bytes of the encoding of `v`: 1, 3, 5 or 9, by size class.
/// The two-byte class tops out at 4095; values 4096 to 4294967295 take the
/// four-byte class. That threshold is part of the wire format.
pub open spec fn encoded_len(v: u64) -> nat {
    if v <= 252 {
        1
    } else if v <= 4095 {
        3
    } else if v <= 0xFFFF_FFFF {
        5
    } else {
        9
    }
}

/// The first byte of the encoding of `v`: the value itself for the smallest
/// class, else the sentinel that selects the class.
pub open spec fn prefix_byte(v: u64) -> u8 {
    if v <= 252 {
        v as u8
    } else if v <= 4095 {
        253
    } else if v <= 0xFFFF_FFFF {
        254
    } else {
        255
    }
}

/// Total length in bytes that a buffer starting with `prefix` must have.
pub open spec fn needed_len(prefix: u8) -> nat {
    if prefix <= 252 {
        1
    } else if prefix == 253 {
        3
    } else if prefix == 254 {
        5
    } else {
        9
    }
}

/// Byte `i` of `v`, counted from the least-significant end.
pub open spec fn byte_of(v: u64, i: nat) -> u8 {
    (v >> ((8 * i) as u64)) as u8
}

/// The `w` least-significant bytes of `v`, least-significant first.
pub open spec fn le_payload(v: u64, w: nat) -> Seq<u8> {
    Seq::new(w, |i: int| byte_of(v, i as nat))
}

/// The payload bytes of `v` for width `w`, in the requested order.
pub open spec fn payload(v: u64, w: nat, order: ByteOrder) -> Seq<u8> {
    match order {
        ByteOrder::LittleEndian => le_payload(v, w),
        ByteOrder::BigEndian => le_payload(v, w).reverse(),
    }
}

/// The full encoded form of `v`: prefix byte, then the payload of the
/// selected class in the requested order.
pub open spec fn encoding(v: u64, order: ByteOrder) -> Seq<u8> {
    seq![prefix_byte(v)] + payload(v, (encoded_len(v) - 1) as nat, order)
}

/// The value held by a little-endian payload: byte 0 is least significant.
pub open spec fn le_value(s: Seq<u8>) -> u64
    decreases s.len(),
{
    if s.len() == 0 {
        0u64
    } else {
        (s[0] as u64) | (le_value(s.skip(1)) << 8u64)
    }
}

/// The value held by a payload in the requested order.
pub open spec fn payload_value(s: Seq<u8>, order: ByteOrder) -> u64 {
    match order {
        ByteOrder::LittleEndian => le_value(s),
        ByteOrder::BigEndian => le_value(s.reverse()),
    }
}

/// The value that a buffer long enough for its announced class decodes to.
pub open spec fn decoded_value(data: Seq<u8>, order: ByteOrder) -> u64
    recommends
        0 < data.len(),
        needed_len(data[0]) <= data.len(),
{
    if data[0] <= 252 {
        data[0] as u64
    } else {
        payload_value(data.subrange(1, needed_len(data[0]) as int), order)
    }
}

/// What `decode` returns for any buffer: the error conditions and the
/// decoded value, stated if and only if.
pub open spec fn decode_result(data: Seq<u8>, order: ByteOrder) -> Result<(u64, usize), DecodeError> {
    if data.len() == 0 {
        Err(DecodeError::Empty)
    } else if data.len() < needed_len(data[0]) {
        Err((DecodeError::Truncated {
            needed: needed_len(data[0]) as usize,
            available: data.len() as usize,
        }))
    } else {
        Ok((decoded_value(data, order), needed_len(data[0]) as usize))
    }
}

/// `decode_result` with the consumed count dropped.
pub open spec fn value_result(data: Seq<u8>, order: ByteOrder) -> Result<u64, DecodeError> {
    match decode_result(data, order) {
        Ok(p) => Ok(p.0),
        Err(e) => Err(e),
    }
}

/// Reads the `w`-byte payload at `data[1..1 + w]`, least-significant byte
/// first.
fn read_le_payload(data: &[u8], w: usize) -> (v: u64)
    requires
        w <= 8,
        w + 1 <= data@.len(),
    ensures
        v == le_value(data@.subrange(1, w as int + 1)),
{
    let mut acc: u64 = 0;
    let mut i: usize = w;
    proof {
        assert(data@.subrange(w as int + 1, w as int + 1) =~= Seq::<u8>::empty());
    }
    while 0 < i
        invariant
            i <= w,
            w <= 8,
            w + 1 <= data@.len(),
            acc == le_value(data@.subrange(i as int + 1, w as int + 1)),
        decreases i,
    {
        i = i - 1;
        let b: u8 = data[i + 1];
        acc = (b as u64) | (acc << 8u64);
        proof {
            let s = data@.subrange(i as int + 1, w as int + 1);
            assert(s[0] == data@[i as int + 1]);
            assert(s.skip(1) =~= data@.subrange(i as int + 2, w as int + 1));
            assert(le_value(s) == (s[0] as u64) | (le_value(s.skip(1)) << 8u64));
        }
    }
    acc
}

/// Reads the `w`-byte payload at `data[1..1 + w]`, most-significant byte
/// first.
fn read_be_payload(data: &[u8], w: usize) -> (v: u64)
    requires
        w <= 8,
        w + 1 <= data@.len(),
    ensures
        v == le_value(data@.subrange(1, w as int + 1).reverse()),
{
    let mut acc: u64 = 0;
    let mut i: usize = 0;
    proof {
        assert(data@.subrange(1, 1) =~= Seq::<u8>::empty());
        assert(data@.subrange(1, 1).reverse() =~= Seq::<u8>::empty());
    }
    while i < w
        invariant
            i <= w,
            w <= 8,
            w + 1 <= data@.len(),
            acc == le_value(data@.subrange(1, i as int + 1).reverse()),
        decreases w - i,
    {
        let b: u8 = data[i + 1];
        acc = (b as u64) | (acc << 8u64);
        i = i + 1;
        proof {
            let s = data@.subrange(1, i as int + 1).reverse();
            assert(s.len() == i);
            assert(s[0] == data@[i as int]);
            assert(s.skip(1) =~= data@.subrange(1, i as int).reverse());
            assert(le_value(s) == (s[0] as u64) | (le_value(s.skip(1)) << 8u64));
        }
    }
    acc
}

/// Decodes one compact-size value from the start of `data`, with the payload
/// read in `order`. Returns the value and the number of bytes consumed, or
/// reports exactly why the buffer cannot be decoded: `Empty` for a
/// zero-length buffer, `Truncated` when the announced class needs more bytes
/// than the buffer holds.
pub fn decode(data: &[u8], order: ByteOrder) -> (r: Result<(u64, usize), DecodeError>)
    ensures
        r == decode_result(data@, order),
{
    if data.len() == 0 {
        return Err(DecodeError::Empty);
    }
    let prefix: u8 = data[0];
    if prefix <= 252 {
        return Ok((prefix as u64, 1));
    }
    let needed: usize = if prefix == 253 {
        3
    } else if prefix == 254 {
        5
    } else {
        9
    };
    if data.len() < needed {
        return Err(DecodeError::Truncated { needed, available: data.len() });
    }
    let value: u64 = match order {
        ByteOrder::LittleEndian => read_le_payload(data, needed - 1),
        ByteOrder::BigEndian => read_be_payload(data, needed - 1),
    };
    Ok((value, needed))
}

/// Appends the `w` least-significant bytes of `v`, least-significant first.
fn push_le_payload(out: &mut Vec<u8>, v: u64, w: usize)
    requires
        w <= 8,
    ensures
        final(out)@ == old(out)@ + le_payload(v, w as nat),
{
    let mut i: usize = 0;
    proof {
        assert(out@ + le_payload(v, 0) =~= out@);
    }
    while i < w
        invariant
            i <= w,
            w <= 8,
            out@ == old(out)@ + le_payload(v, i as nat),
        decreases w - i,
    {
        let sh: u64 = 8 * (i as u64);
        out.push((v >> sh) as u8);
        i = i + 1;
        proof {
            assert(old(out)@ + le_payload(v, i as nat) =~= (old(out)@ + le_payload(
                v,
                (i - 1) as nat,
            )).push(byte_of(v, (i - 1) as nat)));
        }
    }
}

/// Appends the `w` least-significant bytes of `v`, most-significant first.
fn push_be_payload(out: &mut Vec<u8>, v: u64, w: usize)
    requires
        w <= 8,
    ensures
        final(out)@ == old(out)@ + le_payload(v, w as nat).reverse(),
{
    let mut i: usize = 0;
    proof {
        assert(out@ + le_payload(v, w as nat).reverse().take(0) =~= out@);
    }
    while i < w
        invariant
            i <= w,
            w <= 8,
            out@ == old(out)@ + le_payload(v, w as nat).reverse().take(i as int),
        decreases w - i,
    {
        let sh: u64 = 8 * (((w - 1) - i) as u64);
        out.push((v >> sh) as u8);
        i = i + 1;
        proof {
            let rev = le_payload(v, w as nat).reverse();
            assert(rev[i - 1] == byte_of(v, (w - i) as nat));
            assert(old(out)@ + rev.take(i as int) =~= (old(out)@ + rev.take(i - 1)).push(
                rev[i - 1],
            ));
        }
    }
    proof {
        assert(le_payload(v, w as nat).reverse().take(w as int) =~= le_payload(
            v,
            w as nat,
        ).reverse());
    }
}

/// Appends the payload of `v` for width `w` in the requested order.
fn push_payload(out: &mut Vec<u8>, v: u64, w: usize, order: ByteOrder)
    requires
        w <= 8,
    ensures
        final(out)@ == old(out)@ + payload(v, w as nat, order),
{
    match order {
        ByteOrder::LittleEndian => push_le_payload(out, v, w),
        ByteOrder::BigEndian => push_be_payload(out, v, w),
    }
}

/// Encodes `value` as one compact-size item: the prefix byte of the smallest
/// class whose range holds the value, then that class's payload in `order`.
/// Every 64-bit value is encodable; the result is 1, 3, 5 or 9 bytes long.
pub fn encode(value: u64, order: ByteOrder) -> (r: Vec<u8>)
    ensures
        r@ == encoding(value, order),
{
    let mut r: Vec<u8> = Vec::new();
    if value <= 252 {
        r.push(value as u8);
        proof {
            assert(payload(value, 0, order) =~= Seq::<u8>::empty());
        }
    } else if value <= 4095 {
        r.push(253);
        push_payload(&mut r, value, 2, order);
    } else if value <= 0xFFFF_FFFF {
        r.push(254);
        push_payload(&mut r, value, 4, order);
    } else {
        r.push(255);
        push_payload(&mut r, value, 8, order);
    }
    proof {
        assert(r@ =~= encoding(value, order));
    }
    r
}

/// Decodes `data` with a little-endian payload and returns the value alone.
pub fn value_for_little_endian(data: &[u8]) -> (r: Result<u64, DecodeError>)
    ensures
        r == value_result(data@, ByteOrder::LittleEndian),
{
    match decode(data, ByteOrder::LittleEndian) {
        Ok(p) => Ok(p.0),
        Err(e) => Err(e),
    }
}

/// Decodes `data` with a big-endian payload and returns the value alone.
pub fn value_for_big_endian(data: &[u8]) -> (r: Result<u64, DecodeError>)
    ensures
        r == value_result(data@, ByteOrder::BigEndian),
{
    match decode(data, ByteOrder::BigEndian) {
        Ok(p) => Ok(p.0),
        Err(e) => Err(e),
    }
}

/// Encodes `value` with a little-endian payload.
pub fn little_endian_bytes_for_value(value: u64) -> (r: Vec<u8>)
    ensures
        r@ == encoding(value, ByteOrder::LittleEndian),
{
    encode(value, ByteOrder::LittleEndian)
}

proof fn lemma_byte_of_shift(v: u64, i: nat)
    requires
        i + 1 <= 7,
    ensures
        byte_of(v, i + 1) == byte_of(v >> 8u64, i),
{
    let k: u64 = (8 * i) as u64;
    let k8: u64 = (8 * (i + 1)) as u64;
    assert((v >> k8) as u8 == ((v >> 8u64) >> k) as u8) by (bit_vector)
        requires
            k <= 48 && k8 == k + 8,
    ;
}

proof fn lemma_le_payload_skip(v: u64, w: nat)
    requires
        1 <= w <= 8,
    ensures
        le_payload(v, w).skip(1) =~= le_payload(v >> 8u64, (w - 1) as nat),
{
    assert forall|j: int| 0 <= j < w - 1 implies le_payload(v, w).skip(1)[j] == le_payload(
        v >> 8u64,
        (w - 1) as nat,
    )[j] by {
        lemma_byte_of_shift(v, j as nat);
    }
}

proof fn lemma_le_value_of_le_payload(v: u64, w: nat)
    requires
        w <= 8,
        v >> ((8 * w) as u64) == 0,
    ensures
        le_value(le_payload(v, w)) == v,
    decreases w,
{
    if w == 0 {
        assert(le_payload(v, 0) =~= Seq::<u8>::empty());
        assert(v >> 0u64 == v) by (bit_vector);
    } else {
        let rest: u64 = v >> 8u64;
        lemma_le_payload_skip(v, w);
        let m: u64 = (8 * (w - 1)) as u64;
        let m8: u64 = (8 * w) as u64;
        assert((v >> 8u64) >> m == v >> m8) by (bit_vector)
            requires
                m <= 56 && m8 == m + 8,
        ;
        lemma_le_value_of_le_payload(rest, (w - 1) as nat);
        let s = le_payload(v, w);
        assert(le_value(s) == (s[0] as u64) | (le_value(s.skip(1)) << 8u64));
        assert(s[0] == byte_of(v, 0));
        assert((8 * 0) as u64 == 0u64);
        assert(((v >> 0u64) as u8 as u64) | ((v >> 8u64) << 8u64) == v) by (bit_vector);
    }
}

/// Round trip: decoding the encoding of any value, with the order it was
/// encoded in, yields the value back and consumes the whole encoding.
pub proof fn lemma_round_trip(v: u64, order: ByteOrder)
    ensures
        encoding(v, order).len() == encoded_len(v),
        decode_result(encoding(v, order), order) == Ok::<(u64, usize), DecodeError>(
            (v, encoded_len(v) as usize),
        ),
{
    let w = (encoded_len(v) - 1) as nat;
    let e = encoding(v, order);
    assert(payload(v, w, order).len() == w);
    assert(e[0] == prefix_byte(v));
    if v <= 252 {
        assert((v as u8) as u64 == v && v as u8 <= 252) by (bit_vector)
            requires
                v <= 252,
        ;
    } else {
        assert(e.subrange(1, needed_len(e[0]) as int) =~= payload(v, w, order));
        if v <= 4095 {
            assert(v >> 16u64 == 0) by (bit_vector)
                requires
                    v <= 4095,
            ;
        } else if v <= 0xFFFF_FFFF {
            assert(v >> 32u64 == 0) by (bit_vector)
                requires
                    v <= 0xFFFF_FFFF,
            ;
        } else {
            assert(v >> 64u64 == 0) by (bit_vector);
        }
        lemma_le_value_of_le_payload(v, w);
        match order {
            ByteOrder::LittleEndian => {
            },
            ByteOrder::BigEndian => {
                assert(le_payload(v, w).reverse().reverse() =~= le_payload(v, w));
            },
        }
    }
}

/// The encoded length of a value is fixed by its size class alone: both byte
/// orders produce an encoding of the same length.
pub proof fn lemma_encoded_len_order_independent(v: u64, order_a: ByteOrder, order_b: ByteOrder)
    ensures
        encoding(v, order_a).len() == encoded_len(v),
        encoding(v, order_b).len() == encoded_len(v),
{
    let w = (encoded_len(v) - 1) as nat;
    assert(payload(v, w, order_a).len() == w);
    assert(payload(v, w, order_b).len() == w);
}

/// Encodes `value` with a big-endian payload.
pub fn big_endian_bytes_for_value(value: u64) -> (r: Vec<u8>)
    ensures
        r@ == encoding(value, ByteOrder::BigEndian),
{
    encode(value, ByteOrder::BigEndian)
}

} // verus!

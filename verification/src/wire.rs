//! Byte-level primitives of the contact wire format: big-endian integers and
//! `u16`-length-prefixed fields.
use vstd::prelude::*;

use crate::error::Error;

verus! {

/// Big-endian encoding of a `u16`.
pub open spec fn be16(n: u16) -> Seq<u8> {
    seq![(n >> 8u16) as u8, (n & 0xffu16) as u8]
}

/// Value of two big-endian bytes.
pub open spec fn be16_value(b: Seq<u8>) -> u16 {
    ((b[0] as u16) << 8u16) | (b[1] as u16)
}

/// Big-endian encoding of a `u64`.
pub open spec fn be64(n: u64) -> Seq<u8> {
    seq![
        (n >> 56u64) as u8,
        ((n >> 48u64) & 0xffu64) as u8,
        ((n >> 40u64) & 0xffu64) as u8,
        ((n >> 32u64) & 0xffu64) as u8,
        ((n >> 24u64) & 0xffu64) as u8,
        ((n >> 16u64) & 0xffu64) as u8,
        ((n >> 8u64) & 0xffu64) as u8,
        (n & 0xffu64) as u8,
    ]
}

/// Value of eight big-endian bytes.
pub open spec fn be64_value(b: Seq<u8>) -> u64 {
    ((b[0] as u64) << 56u64) | ((b[1] as u64) << 48u64) | ((b[2] as u64) << 40u64) | ((b[3] as u64)
        << 32u64) | ((b[4] as u64) << 24u64) | ((b[5] as u64) << 16u64) | ((b[6] as u64) << 8u64)
        | (b[7] as u64)
}

/// A `u16`-length-prefixed field holding `b`.
pub open spec fn field_bytes(b: Seq<u8>) -> Seq<u8> {
    be16(b.len() as u16) + b
}

/// Reading a field from the front of `s`: the field's content and what follows it.
pub open spec fn parse_field(s: Seq<u8>) -> Option<(Seq<u8>, Seq<u8>)> {
    if s.len() < 2 {
        None
    } else {
        let n = be16_value(s.take(2)) as int;
        let r = s.skip(2);
        if r.len() < n {
            None
        } else {
            Some((r.take(n), r.skip(n)))
        }
    }
}

/// Reading a big-endian `u64` from the front of `s`, and what follows it.
pub open spec fn parse_number(s: Seq<u8>) -> Option<(u64, Seq<u8>)> {
    if s.len() < 8 {
        None
    } else {
        Some((be64_value(s.take(8)), s.skip(8)))
    }
}

pub proof fn lemma_be16_roundtrip(n: u16)
    ensures
        be16(n).len() == 2,
        be16_value(be16(n)) == n,
{
    let hi = (n >> 8u16) as u8;
    let lo = (n & 0xffu16) as u8;
    assert((((hi as u16) << 8u16) | (lo as u16)) == n) by (bit_vector)
        requires
            hi == (n >> 8u16) as u8,
            lo == (n & 0xffu16) as u8,
    ;
}

pub proof fn lemma_be64_roundtrip(n: u64)
    ensures
        be64(n).len() == 8,
        be64_value(be64(n)) == n,
{
    let b = be64(n);
    let (b0, b1, b2, b3, b4, b5, b6, b7) = (b[0], b[1], b[2], b[3], b[4], b[5], b[6], b[7]);
    assert(((b0 as u64) << 56u64) | ((b1 as u64) << 48u64) | ((b2 as u64) << 40u64) | ((b3 as u64)
        << 32u64) | ((b4 as u64) << 24u64) | ((b5 as u64) << 16u64) | ((b6 as u64) << 8u64) | (
    b7 as u64) == n) by (bit_vector)
        requires
            b0 == (n >> 56u64) as u8,
            b1 == ((n >> 48u64) & 0xffu64) as u8,
            b2 == ((n >> 40u64) & 0xffu64) as u8,
            b3 == ((n >> 32u64) & 0xffu64) as u8,
            b4 == ((n >> 24u64) & 0xffu64) as u8,
            b5 == ((n >> 16u64) & 0xffu64) as u8,
            b6 == ((n >> 8u64) & 0xffu64) as u8,
            b7 == (n & 0xffu64) as u8,
    ;
}

/// Writing a field and reading it back gives the field and the bytes after it.
pub proof fn lemma_field_roundtrip(b: Seq<u8>, rest: Seq<u8>)
    requires
        b.len() <= u16::MAX,
    ensures
        parse_field(field_bytes(b) + rest) == Some((b, rest)),
{
    lemma_be16_roundtrip(b.len() as u16);
    let s = field_bytes(b) + rest;
    assert(s.take(2) =~= be16(b.len() as u16));
    assert(s.skip(2) =~= b + rest);
    assert((b + rest).take(b.len() as int) =~= b);
    assert((b + rest).skip(b.len() as int) =~= rest);
}

/// Writing a number and reading it back gives the number and the bytes after it.
pub proof fn lemma_number_roundtrip(n: u64, rest: Seq<u8>)
    ensures
        parse_number(be64(n) + rest) == Some((n, rest)),
{
    lemma_be64_roundtrip(n);
    let s = be64(n) + rest;
    assert(s.take(8) =~= be64(n));
    assert(s.skip(8) =~= rest);
}

/// Appends the big-endian bytes of `n` to `out`.
pub fn push_be16(out: &mut Vec<u8>, n: u16)
    ensures
        final(out)@ == old(out)@ + be16(n),
{
    out.push((n >> 8u16) as u8);
    out.push((n & 0xffu16) as u8);
    assert(final(out)@ =~= old(out)@ + be16(n));
}

/// Appends the big-endian bytes of `n` to `out`.
pub fn push_be64(out: &mut Vec<u8>, n: u64)
    ensures
        final(out)@ == old(out)@ + be64(n),
{
    out.push((n >> 56u64) as u8);
    out.push(((n >> 48u64) & 0xffu64) as u8);
    out.push(((n >> 40u64) & 0xffu64) as u8);
    out.push(((n >> 32u64) & 0xffu64) as u8);
    out.push(((n >> 24u64) & 0xffu64) as u8);
    out.push(((n >> 16u64) & 0xffu64) as u8);
    out.push(((n >> 8u64) & 0xffu64) as u8);
    out.push((n & 0xffu64) as u8);
    assert(final(out)@ =~= old(out)@ + be64(n));
}

/// Appends the bytes of `bytes` to `out`.
pub fn push_all(out: &mut Vec<u8>, bytes: &[u8])
    ensures
        final(out)@ == old(out)@ + bytes@,
{
    let ghost start = out@;
    let mut i: usize = 0;
    while i < bytes.len()
        invariant
            i <= bytes.len(),
            out@ == start + bytes@.take(i as int),
        decreases bytes.len() - i,
    {
        out.push(bytes[i]);
        i = i + 1;
        assert(out@ =~= start + bytes@.take(i as int));
    }
    assert(bytes@.take(i as int) =~= bytes@);
}

/// A copy of a byte slice.
pub fn copy_bytes(b: &[u8]) -> (r: Vec<u8>)
    ensures
        r@ == b@,
{
    let mut r: Vec<u8> = Vec::new();
    push_all(&mut r, b);
    assert(r@ =~= b@);
    r
}

/// Appends `bytes` as a `u16`-length-prefixed field; refuses content longer
/// than a `u16` can count, leaving `out` unchanged.
pub fn append(out: &mut Vec<u8>, bytes: &[u8]) -> (r: Result<(), Error>)
    ensures
        bytes@.len() <= u16::MAX ==> r is Ok && final(out)@ == old(out)@ + field_bytes(bytes@),
        bytes@.len() > u16::MAX ==> r == Err::<(), Error>(Error::Encoding) && final(out)@ == old(out)@,
{
    if bytes.len() > 0xffff {
        return Err(Error::Encoding);
    }
    let len: u16 = bytes.len() as u16;
    push_be16(out, len);
    push_all(out, bytes);
    assert(final(out)@ =~= old(out)@ + field_bytes(bytes@));
    Ok(())
}

/// Splits `count` bytes off the front of `rest`; refuses, leaving `rest`
/// unchanged, when fewer are left.
pub fn take<'a>(rest: &mut &'a [u8], count: usize) -> (r: Result<&'a [u8], Error>)
    ensures
        old(rest)@.len() < count ==> r == Err::<&'a [u8], Error>(Error::Encoding) && final(rest)@ == old(rest)@,
        old(rest)@.len() >= count ==> r is Ok && r->Ok_0@ == old(rest)@.take(count as int)
            && final(rest)@ == old(rest)@.skip(count as int),
{
    if rest.len() < count {
        return Err(Error::Encoding);
    }
    let (value, tail) = rest.split_at(count);
    *rest = tail;
    assert(value@ =~= old(rest)@.take(count as int));
    assert(tail@ =~= old(rest)@.skip(count as int));
    Ok(value)
}

/// Reads a `u16`-length-prefixed field off the front of `rest`.
pub fn field<'a>(rest: &mut &'a [u8]) -> (r: Result<&'a [u8], Error>)
    ensures
        match parse_field(old(rest)@) {
            Some((v, tail)) => r is Ok && r->Ok_0@ == v && final(rest)@ == tail,
            None => r is Err && r->Err_0 == Error::Encoding && final(rest)@ == (if old(rest)@.len()
                < 2 {
                old(rest)@
            } else {
                old(rest)@.skip(2)
            }),
        },
{
    let head = take(rest, 2)?;
    let len: usize = (((head[0] as u16) << 8u16) | (head[1] as u16)) as usize;
    assert(head@ =~= old(rest)@.take(2));
    take(rest, len)
}

/// Reads a big-endian `u64` off the front of `rest`.
pub fn number(rest: &mut &[u8]) -> (r: Result<u64, Error>)
    ensures
        match parse_number(old(rest)@) {
            Some((v, tail)) => r == Ok::<u64, Error>(v) && final(rest)@ == tail,
            None => r == Err::<u64, Error>(Error::Encoding) && final(rest)@ == old(rest)@,
        },
{
    let b = take(rest, 8)?;
    assert(b@ =~= old(rest)@.take(8));
    Ok(((b[0] as u64) << 56u64) | ((b[1] as u64) << 48u64) | ((b[2] as u64) << 40u64) | ((
    b[3] as u64) << 32u64) | ((b[4] as u64) << 24u64) | ((b[5] as u64) << 16u64) | ((b[6] as u64)
        << 8u64) | (b[7] as u64))
}

} // verus!

verus! {

/// Two bytes are the big-endian encoding of their value.
pub proof fn lemma_be16_canonical(b: Seq<u8>)
    requires
        b.len() == 2,
    ensures
        be16(be16_value(b)) == b,
{
    let (b0, b1) = (b[0], b[1]);
    let v = be16_value(b);
    assert((v >> 8u16) as u8 == b0 && (v & 0xffu16) as u8 == b1) by (bit_vector)
        requires
            v == ((b0 as u16) << 8u16) | (b1 as u16),
    ;
    assert(be16(v) =~= b);
}

/// Eight bytes are the big-endian encoding of their value.
pub proof fn lemma_be64_canonical(b: Seq<u8>)
    requires
        b.len() == 8,
    ensures
        be64(be64_value(b)) == b,
{
    let (b0, b1, b2, b3, b4, b5, b6, b7) = (b[0], b[1], b[2], b[3], b[4], b[5], b[6], b[7]);
    let v = be64_value(b);
    assert((v >> 56u64) as u8 == b0 && ((v >> 48u64) & 0xffu64) as u8 == b1 && ((v >> 40u64)
        & 0xffu64) as u8 == b2 && ((v >> 32u64) & 0xffu64) as u8 == b3 && ((v >> 24u64) & 0xffu64) as u8
        == b4 && ((v >> 16u64) & 0xffu64) as u8 == b5 && ((v >> 8u64) & 0xffu64) as u8 == b6 && (v
        & 0xffu64) as u8 == b7) by (bit_vector)
        requires
            v == ((b0 as u64) << 56u64) | ((b1 as u64) << 48u64) | ((b2 as u64) << 40u64) | ((
            b3 as u64) << 32u64) | ((b4 as u64) << 24u64) | ((b5 as u64) << 16u64) | ((b6 as u64)
                << 8u64) | (b7 as u64),
    ;
    assert(be64(v) =~= b);
}

/// A field read from `s` was written as a field in front of what is left.
pub proof fn lemma_field_canonical(s: Seq<u8>)
    requires
        parse_field(s) is Some,
    ensures
        parse_field(s) matches Some((v, r)) && v.len() <= u16::MAX && s == field_bytes(v) + r,
{
    let (v, r) = parse_field(s)->Some_0;
    lemma_be16_canonical(s.take(2));
    assert(s =~= s.take(2) + (v + r));
}

/// A number read from `s` was written in front of what is left.
pub proof fn lemma_number_canonical(s: Seq<u8>)
    requires
        parse_number(s) is Some,
    ensures
        parse_number(s) matches Some((v, r)) && s == be64(v) + r,
{
    lemma_be64_canonical(s.take(8));
    assert(s =~= s.take(8) + s.skip(8));
}

} // verus!

verus! {

/// The encoding of a `u64` is big-endian base 256: the first byte carries
/// the most significant digit and each following byte the next one.
pub proof fn lemma_be64_digits(n: u64)
    ensures
        be64(n).len() == 8,
        n as int == be64(n)[0] as int * 0x100_0000_0000_0000 + be64(n)[1] as int
            * 0x1_0000_0000_0000 + be64(n)[2] as int * 0x100_0000_0000 + be64(n)[3] as int
            * 0x1_0000_0000 + be64(n)[4] as int * 0x100_0000 + be64(n)[5] as int * 0x1_0000
            + be64(n)[6] as int * 0x100 + be64(n)[7] as int,
{
    let b = be64(n);
    let (b0, b1, b2, b3, b4, b5, b6, b7) = (b[0], b[1], b[2], b[3], b[4], b[5], b[6], b[7]);
    assert(n == (b0 as u64) * 0x100_0000_0000_0000u64 + (b1 as u64) * 0x1_0000_0000_0000u64 + (
    b2 as u64) * 0x100_0000_0000u64 + (b3 as u64) * 0x1_0000_0000u64 + (b4 as u64) * 0x100_0000u64
        + (b5 as u64) * 0x1_0000u64 + (b6 as u64) * 0x100u64 + (b7 as u64)) by (bit_vector)
        requires
            b0 == (n >> 56u64) as u8,
            b1 == ((n >> 48u64) & 0xffu64) as u8,
            b2 == ((n >> 40u64) & 0xffu64) as u8,
            b3 == ((n >> 32u64) & 0xffu64) as u8,
            b4 == ((n >> 24u64) & 0xffu64) as u8,
            b5 == ((n >> 16u64) & 0xffu64) as u8,
            b6 == ((n >> 8u64) & 0xffu64) as u8,
            b7 == (n & 0xffu64) as u8,
    ;
}

/// Eight bytes read as a number are big-endian base-256 digits.
pub proof fn lemma_be64_value_digits(b: Seq<u8>)
    requires
        b.len() == 8,
    ensures
        be64_value(b) as int == b[0] as int * 0x100_0000_0000_0000 + b[1] as int
            * 0x1_0000_0000_0000 + b[2] as int * 0x100_0000_0000 + b[3] as int * 0x1_0000_0000
            + b[4] as int * 0x100_0000 + b[5] as int * 0x1_0000 + b[6] as int * 0x100
            + b[7] as int,
{
    lemma_be64_canonical(b);
    lemma_be64_digits(be64_value(b));
}

/// The encoding of a `u16` is big-endian base 256.
pub proof fn lemma_be16_digits(n: u16)
    ensures
        be16(n).len() == 2,
        n as int == be16(n)[0] as int * 0x100 + be16(n)[1] as int,
{
    let b = be16(n);
    let (b0, b1) = (b[0], b[1]);
    assert(n == (b0 as u16) * 0x100u16 + (b1 as u16)) by (bit_vector)
        requires
            b0 == (n >> 8u16) as u8,
            b1 == (n & 0xffu16) as u8,
    ;
}

/// Two bytes read as a number are big-endian base-256 digits.
pub proof fn lemma_be16_value_digits(b: Seq<u8>)
    requires
        b.len() == 2,
    ensures
        be16_value(b) as int == b[0] as int * 0x100 + b[1] as int,
{
    lemma_be16_canonical(b);
    lemma_be16_digits(be16_value(b));
}

} // verus!

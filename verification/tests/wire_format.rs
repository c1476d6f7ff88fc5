use iroh_identity::error::Error;
use iroh_identity::wire::{append, field, number, take};

#[test]
fn append_writes_length_prefixed_field() {
    let mut out = vec![9u8];
    assert_eq!(append(&mut out, &[1, 2, 3]), Ok(()));
    assert_eq!(out, vec![9, 0, 3, 1, 2, 3]);
    assert_eq!(append(&mut out, &[]), Ok(()));
    assert_eq!(out, vec![9, 0, 3, 1, 2, 3, 0, 0]);
}

#[test]
fn append_refuses_field_longer_than_u16() {
    let mut out = vec![1u8];
    let long = vec![0u8; 65536];
    assert_eq!(append(&mut out, &long), Err(Error::Encoding));
    assert_eq!(out, vec![1]);
    let longest = vec![7u8; 65535];
    assert_eq!(append(&mut out, &longest), Ok(()));
    assert_eq!(&out[..3], &[1, 0xff, 0xff]);
    assert_eq!(out.len(), 3 + 65535);
}

#[test]
fn take_splits_or_refuses() {
    let data = [1u8, 2, 3];
    let mut rest: &[u8] = &data;
    assert_eq!(take(&mut rest, 2), Ok(&[1u8, 2][..]));
    assert_eq!(rest, &[3u8][..]);
    assert_eq!(take(&mut rest, 2), Err(Error::Encoding));
    assert_eq!(rest, &[3u8][..]);
    assert_eq!(take(&mut rest, 0), Ok(&[][..]));
    assert_eq!(take(&mut rest, 1), Ok(&[3u8][..]));
    assert!(rest.is_empty());
}

#[test]
fn field_reads_length_prefixed_content() {
    let data = [0u8, 2, 9, 8, 7];
    let mut rest: &[u8] = &data;
    assert_eq!(field(&mut rest), Ok(&[9u8, 8][..]));
    assert_eq!(rest, &[7u8][..]);
    let short = [0u8, 5, 1];
    let mut rest: &[u8] = &short;
    assert_eq!(field(&mut rest), Err(Error::Encoding));
    let tiny = [1u8];
    let mut rest: &[u8] = &tiny;
    assert_eq!(field(&mut rest), Err(Error::Encoding));
    let big = [1u8, 0];
    let mut rest: &[u8] = &big;
    assert_eq!(field(&mut rest), Err(Error::Encoding));
}

#[test]
fn number_reads_big_endian_u64() {
    let data = [0u8, 0, 0, 0, 0, 0, 1, 2, 99];
    let mut rest: &[u8] = &data;
    assert_eq!(number(&mut rest), Ok(258));
    assert_eq!(rest, &[99u8][..]);
    let all = [0xffu8; 8];
    let mut rest: &[u8] = &all;
    assert_eq!(number(&mut rest), Ok(u64::MAX));
    let short = [0u8; 7];
    let mut rest: &[u8] = &short;
    assert_eq!(number(&mut rest), Err(Error::Encoding));
}

#[test]
fn field_reads_back_what_append_wrote() {
    let mut out = Vec::new();
    append(&mut out, b"hello").unwrap();
    append(&mut out, b"").unwrap();
    out.extend_from_slice(&1234567u64.to_be_bytes());
    let mut rest: &[u8] = &out;
    assert_eq!(field(&mut rest), Ok(&b"hello"[..]));
    assert_eq!(field(&mut rest), Ok(&b""[..]));
    assert_eq!(number(&mut rest), Ok(1234567));
    assert!(rest.is_empty());
}

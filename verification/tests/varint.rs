use mzquic::varint::{
    put_be, put_bytes_with_varint_length, put_varint, read_be, try_get_varint, varint_len,
    varint_parse_len, TryGetError, VARINT_MAX,
};

fn encode(v: u64) -> Vec<u8> {
    let mut out = Vec::new();
    put_varint(&mut out, v);
    out
}

#[test]
fn varint_examples_from_rfc() {
    assert_eq!(encode(37), vec![0x25]);
    assert_eq!(encode(15293), vec![0x7b, 0xbd]);
    assert_eq!(encode(494878333), vec![0x9d, 0x7f, 0x3e, 0x7d]);
    assert_eq!(
        encode(151288809941952652),
        vec![0xc2, 0x19, 0x7c, 0x5e, 0xff, 0x14, 0xe8, 0x8c]
    );
}

#[test]
fn varint_lengths_at_boundaries() {
    assert_eq!(varint_len(0), 1);
    assert_eq!(varint_len(63), 1);
    assert_eq!(varint_len(64), 2);
    assert_eq!(varint_len(16383), 2);
    assert_eq!(varint_len(16384), 4);
    assert_eq!(varint_len((1 << 30) - 1), 4);
    assert_eq!(varint_len(1 << 30), 8);
    assert_eq!(varint_len(VARINT_MAX), 8);
}

#[test]
fn varint_roundtrip_law() {
    for v in [0u64, 1, 63, 64, 16383, 16384, (1 << 30) - 1, 1 << 30, VARINT_MAX] {
        let mut buf = encode(v);
        assert_eq!(buf.len(), varint_len(v));
        buf.extend_from_slice(&[0xaa, 0xbb]);
        assert_eq!(try_get_varint(&buf, 0), Ok((v, varint_len(v))));
    }
}

#[test]
fn varint_parse_len_from_first_byte() {
    assert_eq!(varint_parse_len(0x25), 1);
    assert_eq!(varint_parse_len(0x7b), 2);
    assert_eq!(varint_parse_len(0x9d), 4);
    assert_eq!(varint_parse_len(0xc2), 8);
}

#[test]
fn varint_read_at_position() {
    let buf = vec![0xff, 0x40, 0x25];
    assert_eq!(try_get_varint(&buf, 1), Ok((0x25, 3)));
}

#[test]
fn varint_errors_on_short_input() {
    assert_eq!(
        try_get_varint(&[], 0),
        Err(TryGetError { requested: 1, available: 0 })
    );
    assert_eq!(
        try_get_varint(&[0x9d, 0x7f], 0),
        Err(TryGetError { requested: 4, available: 2 })
    );
    assert_eq!(
        try_get_varint(&[0x00, 0xc2], 1),
        Err(TryGetError { requested: 8, available: 1 })
    );
}

#[test]
fn big_endian_put_and_read() {
    let mut out = vec![9];
    put_be(&mut out, 0x0102_0304, 4);
    assert_eq!(out, vec![9, 1, 2, 3, 4]);
    assert_eq!(read_be(&out, 1, 4), 0x0102_0304);
    assert_eq!(read_be(&out, 3, 2), 0x0304);
}

#[test]
fn bytes_with_length_prefix() {
    let mut out = Vec::new();
    put_bytes_with_varint_length(&mut out, b"abc");
    assert_eq!(out, vec![3, b'a', b'b', b'c']);
}

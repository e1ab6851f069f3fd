use bytes::Bytes;
use mzquic::common::ConnectionId;
use mzquic::packet::{
    Header, InitialHeader, LongHeaderType, LongType, PacketDecodeError, PacketNumber, SpaceId,
};
use mzquic::varint::TryGetError;

const VERSIONS: [u32; 1] = [1];

fn cid(bytes: &[u8]) -> ConnectionId {
    ConnectionId::new(bytes)
}

fn encode(h: &Header) -> Vec<u8> {
    let mut out = Vec::new();
    h.encode(&mut out);
    out
}

fn decode(buf: Vec<u8>, cid_len: usize) -> Result<(Header, usize), PacketDecodeError> {
    Header::decode(&Bytes::from(buf), cid_len, &VERSIONS)
}

#[test]
fn packet_number_width_from_rfc() {
    // RFC 9000, appendix A.2: 0xac5c02 with 0xabe8b3 acknowledged needs 16 bits
    let pn = PacketNumber::new(0xac5c02, 0xabe8b3);
    assert_eq!(pn, PacketNumber::U16(0x5c02));
    assert_eq!(pn.len(), 2);
    assert_eq!(pn.tag(), 1);
    let mut out = Vec::new();
    pn.encode(&mut out);
    assert_eq!(out, vec![0x5c, 0x02]);
}

#[test]
fn packet_number_widths() {
    assert_eq!(PacketNumber::new(5, 0), PacketNumber::U8(5));
    assert_eq!(PacketNumber::new(200, 0), PacketNumber::U16(200));
    assert_eq!(PacketNumber::new(0x10000, 0), PacketNumber::U24(0x10000));
    assert_eq!(PacketNumber::new(0x1000000, 0), PacketNumber::U32(0x1000000));
}

#[test]
fn packet_number_expand_from_rfc() {
    // RFC 9000, appendix A.3
    assert_eq!(PacketNumber::U16(0x9b32).expand(0xa82f30eb), 0xa82f9b32);
}

#[test]
fn packet_number_expand_near_zero() {
    assert_eq!(PacketNumber::U8(0xff).expand(1), 0xff);
    assert_eq!(PacketNumber::U8(3).expand(0x101), 0x103);
    assert_eq!(PacketNumber::U8(0xfe).expand(0x101), 0xfe);
}

#[test]
fn packet_number_recovered_law() {
    for (n, la) in [(0u64, 0u64), (300, 290), (0xac5c02, 0xabe8b3), (70000, 1)] {
        let pn = PacketNumber::new(n, la);
        let mut out = Vec::new();
        pn.encode(&mut out);
        let (read, next) = PacketNumber::decode(pn.len(), &out, 0).ok().unwrap();
        assert_eq!(next, pn.len());
        assert_eq!(read.expand(la + 1), n);
    }
}

#[test]
fn packet_number_decode_len_from_tag() {
    assert_eq!(PacketNumber::decode_len(0), 1);
    assert_eq!(PacketNumber::decode_len(3), 4);
}

#[test]
fn initial_header_roundtrip_law() {
    let h = Header::Initial(InitialHeader {
        dst_cid: cid(&[1, 2, 3, 4]),
        src_cid: cid(&[5, 6]),
        token: Bytes::from_static(b"tok"),
        number: PacketNumber::U16(0x1234),
        version: 1,
    });
    let mut buf = encode(&h);
    assert_eq!(
        buf,
        vec![0xc1, 0, 0, 0, 1, 4, 1, 2, 3, 4, 2, 5, 6, 3, b't', b'o', b'k', 2, 0x12, 0x34]
    );
    let len = buf.len();
    buf.extend_from_slice(b"payload");
    let (read, next) = decode(buf, 4).ok().unwrap();
    assert_eq!(next, len);
    match read {
        Header::Initial(i) => {
            assert_eq!(i.dst_cid, cid(&[1, 2, 3, 4]));
            assert_eq!(i.src_cid, cid(&[5, 6]));
            assert_eq!(&i.token[..], b"tok");
            assert_eq!(i.number, PacketNumber::U16(0x1234));
            assert_eq!(i.version, 1);
        }
        _ => panic!("expected an Initial header"),
    }
}

#[test]
fn handshake_header_roundtrip() {
    let h = Header::Long {
        ty: LongType::Handshake,
        dst_cid: cid(&[9; 20]),
        src_cid: cid(&[8; 20]),
        number: PacketNumber::U8(7),
        version: 1,
    };
    let buf = encode(&h);
    assert_eq!(buf[0], 0xe0);
    let (read, next) = decode(buf.clone(), 20).ok().unwrap();
    assert_eq!(next, buf.len());
    assert_eq!(read.space(), SpaceId::Handshake);
    assert!(read.is_long());
    assert_eq!(read.number(), Some(PacketNumber::U8(7)));
    assert_eq!(read.dst_cid(), cid(&[9; 20]));
}

#[test]
fn short_header_roundtrip() {
    let h = Header::Short {
        spin: true,
        key_phase: true,
        dst_cid: cid(&[7; 8]),
        number: PacketNumber::U32(0xdeadbeef),
    };
    let buf = encode(&h);
    assert_eq!(buf[0], 0x40 | 0x20 | 0x04 | 3);
    let (read, next) = decode(buf, 8).ok().unwrap();
    assert_eq!(next, 13);
    match read {
        Header::Short { spin, key_phase, dst_cid, number } => {
            assert!(spin);
            assert!(key_phase);
            assert_eq!(dst_cid, cid(&[7; 8]));
            assert_eq!(number, PacketNumber::U32(0xdeadbeef));
        }
        _ => panic!("expected a short header"),
    }
}

#[test]
fn retry_and_version_negotiation_headers() {
    let retry = Header::Retry { dst_cid: cid(&[1]), src_cid: cid(&[2]), version: 1 };
    let (read, _) = decode(encode(&retry), 1).ok().unwrap();
    assert!(read.is_retry());
    assert!(!read.is_protected());
    assert_eq!(read.number(), None);
    assert_eq!(read.space(), SpaceId::Initial);

    let vn = Header::VersionNegotiate { random: 0x71, src_cid: cid(&[3]), dst_cid: cid(&[4]) };
    let buf = encode(&vn);
    assert_eq!(&buf[1..5], &[0, 0, 0, 0]);
    let (read, _) = decode(buf, 1).ok().unwrap();
    assert!(read.is_version_negotiate());
    assert!(!read.has_frames());
}

#[test]
fn header_decode_errors() {
    assert_eq!(
        decode(vec![], 8).err().unwrap(),
        PacketDecodeError::UnexpectedEndOfHeader(TryGetError { requested: 1, available: 0 })
    );
    assert_eq!(decode(vec![0x00], 8).err().unwrap(), PacketDecodeError::FixedBitUnset);
    assert_eq!(decode(vec![0x58], 8).err().unwrap(), PacketDecodeError::ReservedBitsSet);
    // version 2 is not supported here
    let err = decode(vec![0xc0, 0, 0, 0, 2, 1, 5, 1, 6], 8).err().unwrap();
    assert_eq!(
        err,
        PacketDecodeError::UnsupportedVersion { src_cid: cid(&[6]), dst_cid: cid(&[5]), version: 2 }
    );
    // a version negotiation header with reserved bits set
    assert_eq!(decode(vec![0xc5, 0, 0, 0, 0, 1, 3, 1, 4], 8).err().unwrap(), PacketDecodeError::ReservedBitsSet);
    // a short header cut inside its connection ID
    assert_eq!(
        decode(vec![0x40, 1, 2], 8).err().unwrap(),
        PacketDecodeError::UnexpectedEndOfHeader(TryGetError { requested: 8, available: 2 })
    );
}

#[test]
fn long_header_type_from_first_byte() {
    assert_eq!(LongHeaderType::from(0xc0u8), LongHeaderType::Initial);
    assert_eq!(LongHeaderType::from(0xd0u8), LongHeaderType::Standard(LongType::ZeroRtt));
    assert_eq!(LongHeaderType::from(0xe0u8), LongHeaderType::Standard(LongType::Handshake));
    assert_eq!(LongHeaderType::from(0xf0u8), LongHeaderType::Retry);
    assert_eq!(u8::from(LongHeaderType::Retry), 0xf0);
}

#[test]
fn header_kinds() {
    let h = Header::Long {
        ty: LongType::ZeroRtt,
        dst_cid: cid(&[]),
        src_cid: cid(&[]),
        number: PacketNumber::U8(0),
        version: 1,
    };
    assert!(h.is_0rtt());
    assert!(!h.is_1rtt());
    assert_eq!(h.space(), SpaceId::Data);
    assert!(h.has_frames());
    assert!(h.is_protected());
}

#[test]
fn long_header_ignores_local_cid_length() {
    let h = Header::Long {
        ty: LongType::Handshake,
        dst_cid: cid(&[9; 4]),
        src_cid: cid(&[8; 4]),
        number: PacketNumber::U8(7),
        version: 1,
    };
    let buf = encode(&h);
    let (read, next) = decode(buf.clone(), 64).ok().unwrap();
    assert_eq!(next, buf.len());
    assert_eq!(read.dst_cid(), cid(&[9; 4]));
}

//! QUIC packet headers (RFC 9000, section 17): packet numbers, header
//! encoding and decoding.
use bytes::Bytes;
use vstd::arithmetic::div_mod::{lemma_fundamental_div_mod, lemma_mod_multiples_vanish, lemma_small_mod};
use vstd::prelude::*;

use crate::buf::{bytes_as_slice, bytes_clone, bytes_slice, bytes_view};
use crate::common::{ConnectionId, MAX_CID_SIZE};
use crate::varint::{
    TryGetError, VARINT_MAX, be_bytes, be_prefix, lemma_be_bytes_len, lemma_be_prefix_extend,
    lemma_be_roundtrip, lemma_varint_len, lemma_varint_roundtrip, spec_varint_len, put_be, put_bytes_with_varint_length, put_slice,
    put_varint, read_be, spec_parse_varint, spec_varint, spec_varint_parse_len, try_get_varint,
};

verus! {

pub const LONG_HEADER_FORM: u8 = 0x80;

pub const FIXED_BIT: u8 = 0x40;

const SPIN_BIT: u8 = 0x20;

const SHORT_RESERVED_BITS: u8 = 0x18;

const LONG_RESERVED_BITS: u8 = 0x0c;

const KEY_PHASE_BIT: u8 = 0x04;

/// Long packet types with uniform header structure
#[derive(Clone, Copy, Debug, Eq, PartialEq, Structural)]
pub enum LongType {
    /// Handshake packet
    Handshake,
    /// 0-RTT packet
    ZeroRtt,
}

/// Long packet type including non-uniform cases
#[derive(Clone, Copy, Debug, Eq, PartialEq, Structural)]
pub enum LongHeaderType {
    Initial,
    Retry,
    Standard(LongType),
}

/// The long packet type that the two type bits of a first byte name.
pub open spec fn long_header_type_of(b: u8) -> LongHeaderType {
    let t = (b & 0x30u8) >> 4u8;
    if t == 0 {
        LongHeaderType::Initial
    } else if t == 1 {
        LongHeaderType::Standard(LongType::ZeroRtt)
    } else if t == 2 {
        LongHeaderType::Standard(LongType::Handshake)
    } else {
        LongHeaderType::Retry
    }
}

/// The first byte of a long header of the given type, with a packet
/// number length tag of zero.
pub open spec fn long_header_byte(ty: LongHeaderType) -> u8 {
    match ty {
        LongHeaderType::Initial => 0xc0u8,
        LongHeaderType::Standard(LongType::ZeroRtt) => 0xd0u8,
        LongHeaderType::Standard(LongType::Handshake) => 0xe0u8,
        LongHeaderType::Retry => 0xf0u8,
    }
}

impl From<u8> for LongHeaderType {
    fn from(b: u8) -> (r: Self) {
        let t = (b & 0x30) >> 4;
        if t == 0 {
            LongHeaderType::Initial
        } else if t == 1 {
            LongHeaderType::Standard(LongType::ZeroRtt)
        } else if t == 2 {
            LongHeaderType::Standard(LongType::Handshake)
        } else {
            LongHeaderType::Retry
        }
    }
}

impl vstd::std_specs::convert::FromSpecImpl<u8> for LongHeaderType {
    open spec fn obeys_from_spec() -> bool {
        true
    }

    open spec fn from_spec(b: u8) -> Self {
        long_header_type_of(b)
    }
}

impl From<LongHeaderType> for u8 {
    fn from(ty: LongHeaderType) -> (r: Self) {
        proof {
            assert(0x80u8 | 0x40u8 == 0xc0u8 && 0x80u8 | 0x40u8 | (0x1u8 << 4u8) == 0xd0u8 && 0x80u8
                | 0x40u8 | (0x2u8 << 4u8) == 0xe0u8 && 0x80u8 | 0x40u8 | (0x3u8 << 4u8) == 0xf0u8)
                by (bit_vector);
        }
        match ty {
            LongHeaderType::Initial => LONG_HEADER_FORM | FIXED_BIT,
            LongHeaderType::Standard(LongType::ZeroRtt) => LONG_HEADER_FORM | FIXED_BIT | (0x1 << 4),
            LongHeaderType::Standard(LongType::Handshake) => LONG_HEADER_FORM | FIXED_BIT | (0x2
                << 4),
            LongHeaderType::Retry => LONG_HEADER_FORM | FIXED_BIT | (0x3 << 4),
        }
    }
}

impl vstd::std_specs::convert::FromSpecImpl<LongHeaderType> for u8 {
    open spec fn obeys_from_spec() -> bool {
        true
    }

    open spec fn from_spec(ty: LongHeaderType) -> u8 {
        long_header_byte(ty)
    }
}

/// The first byte written for a long packet type is read back as that
/// type, and it carries the long header form and the fixed bit.
pub proof fn lemma_long_header_type_roundtrip(ty: LongHeaderType)
    ensures
        long_header_type_of(long_header_byte(ty)) == ty,
        long_header_byte(ty) & LONG_HEADER_FORM != 0,
        long_header_byte(ty) & FIXED_BIT != 0,
        long_header_byte(ty) & 0x0cu8 == 0,
        long_header_byte(ty) & 0x03u8 == 0,
{
    assert((0xc0u8 & 0x30u8) >> 4u8 == 0u8 && (0xd0u8 & 0x30u8) >> 4u8 == 1u8 && (0xe0u8
        & 0x30u8) >> 4u8 == 2u8 && (0xf0u8 & 0x30u8) >> 4u8 == 3u8 && 0xc0u8 & 0x80u8 != 0 && 0xd0u8
        & 0x80u8 != 0 && 0xe0u8 & 0x80u8 != 0 && 0xf0u8 & 0x80u8 != 0 && 0xc0u8 & 0x40u8 != 0
        && 0xd0u8 & 0x40u8 != 0 && 0xe0u8 & 0x40u8 != 0 && 0xf0u8 & 0x40u8 != 0 && 0xc0u8 & 0x0cu8
        == 0 && 0xd0u8 & 0x0cu8 == 0 && 0xe0u8 & 0x0cu8 == 0 && 0xf0u8 & 0x0cu8 == 0 && 0xc0u8
        & 0x03u8 == 0 && 0xd0u8 & 0x03u8 == 0 && 0xe0u8 & 0x03u8 == 0 && 0xf0u8 & 0x03u8 == 0)
        by (bit_vector);
}

/// Packet number space identifiers
#[derive(Debug, Copy, Clone, Eq, PartialEq, Ord, PartialOrd, Structural)]
pub enum SpaceId {
    /// Unprotected packets, used to bootstrap the handshake
    Initial,
    Handshake,
    /// Application data space, used for 0-RTT and post-handshake/1-RTT packets
    Data,
}

/// The number of packet number spaces.
pub const SPACE_COUNT: usize = 3;

impl SpaceId {
    /// The position of the space in per-space arrays.
    pub open spec fn spec_index(self) -> nat {
        match self {
            SpaceId::Initial => 0,
            SpaceId::Handshake => 1,
            SpaceId::Data => 2,
        }
    }

    /// The position of the space in per-space arrays.
    pub fn index(self) -> (r: usize)
        ensures
            r == self.spec_index(),
            r < SPACE_COUNT,
    {
        match self {
            SpaceId::Initial => 0,
            SpaceId::Handshake => 1,
            SpaceId::Data => 2,
        }
    }

    /// All the spaces, in the order of their positions.
    pub fn variants() -> (r: [SpaceId; 3])
        ensures
            forall|i: int| 0 <= i < 3 ==> (#[trigger] r@[i]).spec_index() == i,
    {
        [SpaceId::Initial, SpaceId::Handshake, SpaceId::Data]
    }
}

/// Packet decode error
#[derive(Debug, Eq, PartialEq)]
pub enum PacketDecodeError {
    /// Packet uses a QUIC version that is not supported
    UnsupportedVersion {
        /// Source Connection ID
        src_cid: ConnectionId,
        /// Destination Connection ID
        dst_cid: ConnectionId,
        /// The version that was unsupported
        version: u32,
    },
    /// Unexpected end of packet header
    UnexpectedEndOfHeader(TryGetError),
    /// The reserved bits in the header are set
    ReservedBitsSet,
    /// The fixed bit in the header is unset
    FixedBitUnset,
}

impl From<TryGetError> for PacketDecodeError {
    fn from(e: TryGetError) -> (r: Self) {
        PacketDecodeError::UnexpectedEndOfHeader(e)
    }
}

impl vstd::std_specs::convert::FromSpecImpl<TryGetError> for PacketDecodeError {
    open spec fn obeys_from_spec() -> bool {
        true
    }

    open spec fn from_spec(e: TryGetError) -> Self {
        PacketDecodeError::UnexpectedEndOfHeader(e)
    }
}

// An encoded packet number
#[derive(Debug, Copy, Clone, Eq, PartialEq, Structural)]
pub enum PacketNumber {
    U8(u8),
    U16(u16),
    U24(u32),
    U32(u32),
}

/// The packet number of `len` bytes whose value is `x`.
pub open spec fn packet_number_of(len: nat, x: u64) -> PacketNumber {
    if len == 1 {
        PacketNumber::U8(x as u8)
    } else if len == 2 {
        PacketNumber::U16(x as u16)
    } else if len == 3 {
        PacketNumber::U24(x as u32)
    } else {
        PacketNumber::U32(x as u32)
    }
}

/// The packet number that `PacketNumber::new` writes for `n`: the fewest
/// bytes whose window holds twice the distance to `largest_acked`.
pub open spec fn spec_new(n: u64, largest_acked: u64) -> PacketNumber {
    let range = (n - largest_acked) * 2;
    if range < 0x100 {
        PacketNumber::U8(n as u8)
    } else if range < 0x1_0000 {
        PacketNumber::U16(n as u16)
    } else if range < 0x100_0000 {
        PacketNumber::U24(n as u32)
    } else {
        PacketNumber::U32(n as u32)
    }
}

impl PacketNumber {
    /// The number of bytes the packet number takes on the wire.
    pub open spec fn spec_len(self) -> nat {
        match self {
            PacketNumber::U8(_) => 1,
            PacketNumber::U16(_) => 2,
            PacketNumber::U24(_) => 3,
            PacketNumber::U32(_) => 4,
        }
    }

    /// The truncated packet number, as an integer.
    pub open spec fn truncated(self) -> u64 {
        match self {
            PacketNumber::U8(x) => x as u64,
            PacketNumber::U16(x) => x as u64,
            PacketNumber::U24(x) => x as u64,
            PacketNumber::U32(x) => x as u64,
        }
    }

    /// The number of values the truncated number can take: 2 to the power
    /// of its number of bits.
    pub open spec fn win(self) -> u64 {
        match self {
            PacketNumber::U8(_) => 0x100,
            PacketNumber::U16(_) => 0x1_0000,
            PacketNumber::U24(_) => 0x100_0000,
            PacketNumber::U32(_) => 0x1_0000_0000,
        }
    }

    /// The two bits that tell the length of the packet number in a first
    /// byte.
    pub open spec fn spec_tag(self) -> u8 {
        (self.spec_len() - 1) as u8
    }

    /// The number fits the width it is written with.
    pub open spec fn fits(self) -> bool {
        self.truncated() < self.win()
    }

    /// The bytes the packet number is written as.
    pub open spec fn spec_encoding(self) -> Seq<u8> {
        be_bytes(self.truncated(), self.spec_len())
    }

    /// The largest value of the window of candidates centered on the
    /// expected number; the value with the truncated number's bits closest
    /// to `expected`.
    pub open spec fn candidate(self, expected: u64) -> u64 {
        (expected & !((self.win() - 1) as u64)) | self.truncated()
    }

    /// The arithmetic of `expand` stays within 64 bits.
    pub open spec fn expand_fits(self, expected: u64) -> bool {
        let c = self.candidate(expected);
        let win = self.win();
        let hwin = win / 2;
        if expected >= hwin && c <= expected - hwin {
            c + win <= u64::MAX
        } else {
            expected + hwin <= u64::MAX
        }
    }

    /// The full packet number that `expand` recovers.
    pub open spec fn spec_expand(self, expected: u64) -> int {
        let c = self.candidate(expected);
        let win = self.win();
        let hwin = win / 2;
        if expected >= hwin && c <= expected - hwin {
            c + win
        } else if c > expected + hwin && c > win {
            c - win
        } else {
            c as int
        }
    }

    /// Encodes `n`, knowing that every number up to `largest_acked` has
    /// been acknowledged, in as few bytes as leave a window of twice the
    /// distance between them.
    pub fn new(n: u64, largest_acked: u64) -> (r: Self)
        requires
            largest_acked <= n,
            (n - largest_acked) * 2 < 0x1_0000_0000,
        ensures
            r == spec_new(n, largest_acked),
            r.spec_encoding() == be_bytes(n, r.spec_len()),
            (n - largest_acked) * 2 < r.win(),
    {
        let range = (n - largest_acked) * 2;
        if range < 0x100 {
            proof {
                lemma_be_bytes_low(n, 1);
            }
            Self::U8(n as u8)
        } else if range < 0x1_0000 {
            proof {
                lemma_be_bytes_low(n, 2);
            }
            Self::U16(n as u16)
        } else if range < 0x100_0000 {
            proof {
                lemma_be_bytes_low(n, 3);
            }
            Self::U24(n as u32)
        } else {
            proof {
                lemma_be_bytes_low(n, 4);
            }
            Self::U32(n as u32)
        }
    }

    /// Recovers the full packet number from its truncated form, given the
    /// number the receiver expects next (RFC 9000, appendix A.3).
    pub fn expand(self, expected: u64) -> (r: u64)
        requires
            self.expand_fits(expected),
        ensures
            r == self.spec_expand(expected),
            self.fits() ==> {
                &&& r % self.win() == self.truncated()
                &&& expected - self.win() / 2 < r
                &&& r <= expected + self.win() / 2 || r <= self.win()
            },
    {
        let truncated: u64 = match self {
            PacketNumber::U8(x) => x as u64,
            PacketNumber::U16(x) => x as u64,
            PacketNumber::U24(x) => x as u64,
            PacketNumber::U32(x) => x as u64,
        };
        let win: u64 = match self {
            PacketNumber::U8(_) => 0x100,
            PacketNumber::U16(_) => 0x1_0000,
            PacketNumber::U24(_) => 0x100_0000,
            PacketNumber::U32(_) => 0x1_0000_0000,
        };
        let hwin = win / 2;
        let mask = win - 1;
        // The incoming packet number should be greater than expected - hwin and less
        // than or equal to expected + hwin
        //
        // This means we can't just strip the trailing bits from expected and add the
        // truncated because that might yield a value outside the window.
        //
        // The following code calculates a candidate value and makes sure it's within
        // the packet number window.
        let candidate = (expected & !mask) | truncated;
        proof {
            if self.fits() {
                lemma_expand_window(self, expected);
            }
        }
        if expected >= hwin && candidate <= expected - hwin {
            candidate + win
        } else if candidate > expected + hwin && candidate > win {
            candidate - win
        } else {
            candidate
        }
    }

    #[allow(clippy::len_without_is_empty)]
    pub fn len(self) -> (r: usize)
        ensures
            r == self.spec_len(),
    {
        match self {
            PacketNumber::U8(_) => 1,
            PacketNumber::U16(_) => 2,
            PacketNumber::U24(_) => 3,
            PacketNumber::U32(_) => 4,
        }
    }

    /// Writes the packet number in network byte order.
    pub fn encode(self, out: &mut Vec<u8>)
        ensures
            final(out)@ == old(out)@ + self.spec_encoding(),
    {
        match self {
            PacketNumber::U8(x) => put_be(out, x as u64, 1),
            PacketNumber::U16(x) => put_be(out, x as u64, 2),
            PacketNumber::U24(x) => put_be(out, x as u64, 3),
            PacketNumber::U32(x) => put_be(out, x as u64, 4),
        }
    }

    /// Reads a packet number of `len` bytes at `pos` of `buf`, with the
    /// position that follows it.
    pub fn decode(len: usize, buf: &[u8], pos: usize) -> (r: Result<(Self, usize), PacketDecodeError>)
        requires
            1 <= len <= 4,
            pos <= buf.len(),
        ensures
            pos + len <= buf.len() ==> r == Ok::<(Self, usize), PacketDecodeError>(
                (
                    packet_number_of(len as nat, be_prefix(buf@.skip(pos as int), len as nat)),
                    (pos + len) as usize,
                ),
            ),
            pos + len > buf.len() ==> r == Err::<(Self, usize), PacketDecodeError>(
                PacketDecodeError::UnexpectedEndOfHeader(
                    TryGetError { requested: len, available: (buf.len() - pos) as usize },
                ),
            ),
    {
        if buf.len() - pos < len {
            return Err(
                PacketDecodeError::UnexpectedEndOfHeader(
                    TryGetError { requested: len, available: buf.len() - pos },
                ),
            );
        }
        let x = read_be(buf, pos, len);
        let pn = if len == 1 {
            PacketNumber::U8(x as u8)
        } else if len == 2 {
            PacketNumber::U16(x as u16)
        } else if len == 3 {
            PacketNumber::U24(x as u32)
        } else {
            PacketNumber::U32(x as u32)
        };
        Ok((pn, pos + len))
    }

    /// The length of a packet number whose first byte carries `tag` in its
    /// two least significant bits.
    pub fn decode_len(tag: u8) -> (r: usize)
        ensures
            r == 1 + (tag & 0x03u8),
            1 <= r <= 4,
    {
        assert(tag & 0x03u8 <= 3) by (bit_vector);
        1 + (tag & 0x03) as usize
    }

    pub fn tag(self) -> (r: u8)
        ensures
            r == self.spec_tag(),
            r <= 3,
    {
        match self {
            PacketNumber::U8(_) => 0b00,
            PacketNumber::U16(_) => 0b01,
            PacketNumber::U24(_) => 0b10,
            PacketNumber::U32(_) => 0b11,
        }
    }
}

#[derive(Debug)]
pub struct InitialHeader {
    pub dst_cid: ConnectionId,
    pub src_cid: ConnectionId,
    pub token: Bytes,
    pub number: PacketNumber,
    pub version: u32,
}

impl Clone for InitialHeader {
    fn clone(&self) -> (r: Self)
        ensures
            r.dst_cid == self.dst_cid,
            r.src_cid == self.src_cid,
            bytes_view(r.token) == bytes_view(self.token),
            r.number == self.number,
            r.version == self.version,
    {
        InitialHeader {
            dst_cid: self.dst_cid,
            src_cid: self.src_cid,
            token: bytes_clone(&self.token),
            number: self.number,
            version: self.version,
        }
    }
}

#[derive(Debug)]
pub struct InitialPacket {
    pub header: InitialHeader,
    pub payload: Bytes,
}

#[derive(Debug)]
pub enum Header {
    Initial(InitialHeader),
    Long {
        ty: LongType,
        dst_cid: ConnectionId,
        src_cid: ConnectionId,
        number: PacketNumber,
        version: u32,
    },
    Retry { dst_cid: ConnectionId, src_cid: ConnectionId, version: u32 },
    Short { spin: bool, key_phase: bool, dst_cid: ConnectionId, number: PacketNumber },
    VersionNegotiate { random: u8, src_cid: ConnectionId, dst_cid: ConnectionId },
}

/// The contents of a header, with connection IDs and the token as byte
/// sequences.
#[allow(inconsistent_fields)]
pub enum HeaderModel {
    Initial {
        dst_cid: Seq<u8>,
        src_cid: Seq<u8>,
        token: Seq<u8>,
        number: PacketNumber,
        version: u32,
    },
    Long { ty: LongType, dst_cid: Seq<u8>, src_cid: Seq<u8>, number: PacketNumber, version: u32 },
    Retry { dst_cid: Seq<u8>, src_cid: Seq<u8>, version: u32 },
    Short { spin: bool, key_phase: bool, dst_cid: Seq<u8>, number: PacketNumber },
    VersionNegotiate { random: u8, src_cid: Seq<u8>, dst_cid: Seq<u8> },
}

impl View for Header {
    type V = HeaderModel;

    open spec fn view(&self) -> HeaderModel {
        match self {
            Header::Initial(h) => HeaderModel::Initial {
                dst_cid: h.dst_cid@,
                src_cid: h.src_cid@,
                token: bytes_view(h.token),
                number: h.number,
                version: h.version,
            },
            Header::Long { ty, dst_cid, src_cid, number, version } => HeaderModel::Long {
                ty: *ty,
                dst_cid: dst_cid@,
                src_cid: src_cid@,
                number: *number,
                version: *version,
            },
            Header::Retry { dst_cid, src_cid, version } => HeaderModel::Retry {
                dst_cid: dst_cid@,
                src_cid: src_cid@,
                version: *version,
            },
            Header::Short { spin, key_phase, dst_cid, number } => HeaderModel::Short {
                spin: *spin,
                key_phase: *key_phase,
                dst_cid: dst_cid@,
                number: *number,
            },
            Header::VersionNegotiate { random, src_cid, dst_cid } => HeaderModel::VersionNegotiate {
                random: *random,
                src_cid: src_cid@,
                dst_cid: dst_cid@,
            },
        }
    }
}

/// Why a header cannot be read.
pub enum DecodeFailure {
    /// The header ends early: the bytes a read needed, and those left.
    End(usize, usize),
    FixedBitUnset,
    ReservedBitsSet,
    Unsupported { src_cid: Seq<u8>, dst_cid: Seq<u8>, version: u32 },
    /// A long header names a connection ID longer than `MAX_CID_SIZE`.
    CidTooLong,
}

impl View for PacketDecodeError {
    type V = DecodeFailure;

    open spec fn view(&self) -> DecodeFailure {
        match self {
            PacketDecodeError::UnsupportedVersion { src_cid, dst_cid, version } => {
                DecodeFailure::Unsupported { src_cid: src_cid@, dst_cid: dst_cid@, version: *version }
            },
            PacketDecodeError::UnexpectedEndOfHeader(e) => DecodeFailure::End(
                e.requested,
                e.available,
            ),
            PacketDecodeError::ReservedBitsSet => DecodeFailure::ReservedBitsSet,
            PacketDecodeError::FixedBitUnset => DecodeFailure::FixedBitUnset,
        }
    }
}

/// A length-prefixed connection ID at `p` of `s`, and the position after it.
pub open spec fn spec_cid_at(s: Seq<u8>, p: nat) -> Result<(Seq<u8>, nat), DecodeFailure> {
    if p >= s.len() {
        Err(DecodeFailure::End(1, 0))
    } else if s[p as int] > MAX_CID_SIZE {
        Err(DecodeFailure::CidTooLong)
    } else if p + 1 + s[p as int] > s.len() {
        Err(DecodeFailure::End(s[p as int] as usize, (s.len() - p - 1) as usize))
    } else {
        Ok((s.subrange(p + 1 as int, p + 1 + s[p as int]), (p + 1 + s[p as int]) as nat))
    }
}

/// A variable-length integer at `p` of `s`, and the position after it.
pub open spec fn spec_varint_at(s: Seq<u8>, p: nat) -> Result<(u64, nat), DecodeFailure> {
    match spec_parse_varint(s.skip(p as int)) {
        Some((v, n)) => Ok((v, p + n)),
        None => Err(
            DecodeFailure::End(
                if p >= s.len() {
                    1usize
                } else {
                    spec_varint_parse_len(s[p as int]) as usize
                },
                (s.len() - p) as usize,
            ),
        ),
    }
}

/// A packet number of `len` bytes at `p` of `s`, and the position after it.
pub open spec fn spec_number_at(s: Seq<u8>, p: nat, len: nat) -> Result<
    (PacketNumber, nat),
    DecodeFailure,
> {
    if p + len <= s.len() {
        Ok((packet_number_of(len, be_prefix(s.skip(p as int), len)), p + len))
    } else {
        Err(DecodeFailure::End(len as usize, (s.len() - p) as usize))
    }
}

/// A token prefixed with its variable-length length at `p` of `s`, and the
/// position after it.
pub open spec fn spec_token_at(s: Seq<u8>, p: nat) -> Result<(Seq<u8>, nat), DecodeFailure> {
    match spec_varint_at(s, p) {
        Err(e) => Err(e),
        Ok((len, q)) => if s.len() - q < len {
            Err(DecodeFailure::End(len as usize, (s.len() - q) as usize))
        } else {
            Ok((s.subrange(q as int, q + len), (q + len) as nat))
        },
    }
}

/// The rest of a long header of type `ty` once both connection IDs have
/// been read, up to `p`.
pub open spec fn spec_decode_long_rest(
    s: Seq<u8>,
    first: u8,
    version: u32,
    dst: Seq<u8>,
    src: Seq<u8>,
    p: nat,
) -> Result<(HeaderModel, nat), DecodeFailure> {
    let pn_len = 1 + (first & 0x03u8) as nat;
    match long_header_type_of(first) {
        LongHeaderType::Initial => match spec_token_at(s, p) {
            Err(e) => Err(e),
            Ok((token, p3)) => match spec_varint_at(s, p3) {
                Err(e) => Err(e),
                Ok((_, p4)) => match spec_number_at(s, p4, pn_len) {
                    Err(e) => Err(e),
                    Ok((number, p5)) => Ok(
                        (
                            HeaderModel::Initial {
                                dst_cid: dst,
                                src_cid: src,
                                token,
                                number,
                                version,
                            },
                            p5,
                        ),
                    ),
                },
            },
        },
        LongHeaderType::Retry => Ok((HeaderModel::Retry { dst_cid: dst, src_cid: src, version }, p)),
        LongHeaderType::Standard(ty) => match spec_varint_at(s, p) {
            Err(e) => Err(e),
            Ok((_, p4)) => match spec_number_at(s, p4, pn_len) {
                Err(e) => Err(e),
                Ok((number, p5)) => Ok(
                    (HeaderModel::Long { ty, dst_cid: dst, src_cid: src, number, version }, p5),
                ),
            },
        },
    }
}

/// The header at the start of `s`, read with short headers carrying
/// connection IDs of `cid_len` bytes, and the number of bytes it takes.
pub open spec fn spec_decode_header(s: Seq<u8>, cid_len: nat, versions: Seq<u32>) -> Result<
    (HeaderModel, nat),
    DecodeFailure,
> {
    if s.len() == 0 {
        Err(DecodeFailure::End(1, 0))
    } else {
        let first = s[0];
        if first & FIXED_BIT == 0 {
            Err(DecodeFailure::FixedBitUnset)
        } else if first & LONG_HEADER_FORM == 0 {
            if first & 0x18u8 != 0 {
                Err(DecodeFailure::ReservedBitsSet)
            } else if 1 + cid_len > s.len() {
                Err(DecodeFailure::End(cid_len as usize, (s.len() - 1) as usize))
            } else {
                match spec_number_at(s, 1 + cid_len, 1 + (first & 0x03u8) as nat) {
                    Err(e) => Err(e),
                    Ok((number, p)) => Ok(
                        (
                            HeaderModel::Short {
                                spin: first & 0x20u8 != 0,
                                key_phase: first & 0x04u8 != 0,
                                dst_cid: s.subrange(1, 1 + cid_len as int),
                                number,
                            },
                            p,
                        ),
                    ),
                }
            }
        } else if first & 0x0cu8 != 0 {
            Err(DecodeFailure::ReservedBitsSet)
        } else if s.len() < 5 {
            Err(DecodeFailure::End(4, (s.len() - 1) as usize))
        } else {
            let version = be_prefix(s.skip(1), 4) as u32;
            match spec_cid_at(s, 5) {
                Err(e) => Err(e),
                Ok((dst, p1)) => match spec_cid_at(s, p1) {
                    Err(e) => Err(e),
                    Ok((src, p2)) => if version == 0 {
                        Ok(
                            (
                                HeaderModel::VersionNegotiate {
                                    random: first & 0x7fu8,
                                    src_cid: src,
                                    dst_cid: dst,
                                },
                                p2,
                            ),
                        )
                    } else if !versions.contains(version) {
                        Err(DecodeFailure::Unsupported { src_cid: src, dst_cid: dst, version })
                    } else {
                        spec_decode_long_rest(s, first, version, dst, src, p2)
                    },
                },
            }
        }
    }
}

/// The bytes a header is written as.
pub open spec fn spec_header_encoding(h: HeaderModel) -> Seq<u8> {
    match h {
        HeaderModel::Initial { dst_cid, src_cid, token, number, version } => seq![
            long_header_byte(LongHeaderType::Initial) | number.spec_tag(),
        ] + be_bytes(version as u64, 4) + seq![dst_cid.len() as u8] + dst_cid + seq![
            src_cid.len() as u8,
        ] + src_cid + spec_varint(token.len() as u64) + token + spec_varint(
            number.spec_len() as u64,
        ) + number.spec_encoding(),
        HeaderModel::Long { ty, dst_cid, src_cid, number, version } => seq![
            long_header_byte(LongHeaderType::Standard(ty)) | number.spec_tag(),
        ] + be_bytes(version as u64, 4) + seq![dst_cid.len() as u8] + dst_cid + seq![
            src_cid.len() as u8,
        ] + src_cid + spec_varint(number.spec_len() as u64) + number.spec_encoding(),
        HeaderModel::Retry { dst_cid, src_cid, version } => seq![
            long_header_byte(LongHeaderType::Retry),
        ] + be_bytes(version as u64, 4) + seq![dst_cid.len() as u8] + dst_cid + seq![
            src_cid.len() as u8,
        ] + src_cid,
        HeaderModel::Short { spin, key_phase, dst_cid, number } => seq![
            FIXED_BIT | (if key_phase {
                0x04u8
            } else {
                0u8
            }) | (if spin {
                0x20u8
            } else {
                0u8
            }) | number.spec_tag(),
        ] + dst_cid + number.spec_encoding(),
        HeaderModel::VersionNegotiate { random, src_cid, dst_cid } => seq![0x80u8 | random]
            + be_bytes(0, 4) + seq![dst_cid.len() as u8] + dst_cid + seq![src_cid.len() as u8]
            + src_cid,
    }
}

impl Header {
    /// Whether the packet is encrypted on the wire
    pub fn is_protected(&self) -> (r: bool)
        ensures
            r == !(self is Retry || self is VersionNegotiate),
    {
        !(matches!(self, Self::Retry { .. }) || matches!(self, Self::VersionNegotiate { .. }))
    }

    pub fn number(&self) -> (r: Option<PacketNumber>)
        ensures
            r == match self {
                Header::Initial(h) => Some(h.number),
                Header::Long { number, .. } => Some(*number),
                Header::Short { number, .. } => Some(*number),
                _ => None::<PacketNumber>,
            },
    {
        match self {
            Header::Initial(h) => Some(h.number),
            Header::Long { number, .. } => Some(*number),
            Header::Short { number, .. } => Some(*number),
            _ => None,
        }
    }

    /// The packet number space a packet with this header belongs to.
    pub open spec fn spec_space(&self) -> SpaceId {
        match self {
            Header::Short { .. } => SpaceId::Data,
            Header::Long { ty: LongType::ZeroRtt, .. } => SpaceId::Data,
            Header::Long { ty: LongType::Handshake, .. } => SpaceId::Handshake,
            _ => SpaceId::Initial,
        }
    }

    pub fn space(&self) -> (r: SpaceId)
        ensures
            r == self.spec_space(),
    {
        match self {
            Header::Short { .. } => SpaceId::Data,
            Header::Long { ty: LongType::ZeroRtt, .. } => SpaceId::Data,
            Header::Long { ty: LongType::Handshake, .. } => SpaceId::Handshake,
            _ => SpaceId::Initial,
        }
    }

    pub fn key_phase(&self) -> (r: bool)
        ensures
            r == match self {
                Header::Short { key_phase, .. } => *key_phase,
                _ => false,
            },
    {
        match self {
            Header::Short { key_phase, .. } => *key_phase,
            _ => false,
        }
    }

    pub fn is_initial(&self) -> (r: bool)
        ensures
            r == self is Initial,
    {
        matches!(self, Header::Initial(_))
    }

    pub fn is_long(&self) -> (r: bool)
        ensures
            r == self is Long,
    {
        matches!(self, Header::Long { .. })
    }

    pub fn is_retry(&self) -> (r: bool)
        ensures
            r == self is Retry,
    {
        matches!(self, Header::Retry { .. })
    }

    pub fn is_short(&self) -> (r: bool)
        ensures
            r == self is Short,
    {
        matches!(self, Header::Short { .. })
    }

    pub fn is_version_negotiate(&self) -> (r: bool)
        ensures
            r == self is VersionNegotiate,
    {
        matches!(self, Header::VersionNegotiate { .. })
    }

    pub fn is_1rtt(&self) -> (r: bool)
        ensures
            r == self is Short,
    {
        self.is_short()
    }

    pub fn is_0rtt(&self) -> (r: bool)
        ensures
            r == (self matches Header::Long { ty: LongType::ZeroRtt, .. }),
    {
        matches!(self, Self::Long { ty: LongType::ZeroRtt, .. })
    }

    pub fn dst_cid(&self) -> (r: ConnectionId)
        ensures
            r == match self {
                Header::Initial(h) => h.dst_cid,
                Header::Long { dst_cid, .. } => *dst_cid,
                Header::Retry { dst_cid, .. } => *dst_cid,
                Header::Short { dst_cid, .. } => *dst_cid,
                Header::VersionNegotiate { dst_cid, .. } => *dst_cid,
            },
    {
        match self {
            Header::Initial(h) => h.dst_cid,
            Header::Long { dst_cid, .. } => *dst_cid,
            Header::Retry { dst_cid, .. } => *dst_cid,
            Header::Short { dst_cid, .. } => *dst_cid,
            Header::VersionNegotiate { dst_cid, .. } => *dst_cid,
        }
    }

    /// Whether the payload of this packet contains QUIC frames
    pub fn has_frames(&self) -> (r: bool)
        ensures
            r == (self is Initial || self is Long || self is Short),
    {
        match self {
            Header::Initial(_) | Header::Long { .. } | Header::Short { .. } => true,
            Header::Retry { .. } | Header::VersionNegotiate { .. } => false,
        }
    }
}

/// Whether `v` is one of `versions`.
fn version_supported(versions: &[u32], v: u32) -> (r: bool)
    ensures
        r == versions@.contains(v),
{
    let mut i: usize = 0;
    while i < versions.len()
        invariant
            i <= versions.len(),
            forall|j: int| 0 <= j < i ==> versions@[j] != v,
        decreases versions.len() - i,
    {
        if versions[i] == v {
            return true;
        }
        i += 1;
    }
    false
}

/// A variable-length integer at `pos` of `buf`, or the header error that
/// its absence gives.
fn header_varint(buf: &[u8], pos: usize) -> (r: Result<(u64, usize), PacketDecodeError>)
    requires
        pos <= buf.len(),
    ensures
        match spec_varint_at(buf@, pos as nat) {
            Ok((v, n)) => r == Ok::<(u64, usize), PacketDecodeError>((v, n as usize)) && n
                <= buf.len(),
            Err(f) => r matches Err(e) && e@ == f,
        },
{
    match try_get_varint(buf, pos) {
        Ok(x) => Ok(x),
        Err(e) => Err(PacketDecodeError::UnexpectedEndOfHeader(e)),
    }
}

impl Header {
    /// Writes the header: the first byte, then the fields of its form.
    pub fn encode(&self, out: &mut Vec<u8>)
        requires
            self matches Header::Initial(h) ==> bytes_view(h.token).len() <= VARINT_MAX,
        ensures
            final(out)@ == old(out)@ + spec_header_encoding(self@),
    {
        let ghost start = out@;
        match self {
            Header::Initial(h) => {
                out.push(u8::from(LongHeaderType::Initial) | h.number.tag());
                put_be(out, h.version as u64, 4);
                h.dst_cid.encode(out);
                h.src_cid.encode(out);
                put_bytes_with_varint_length(out, bytes_as_slice(&h.token));
                // Packet length
                put_varint(out, h.number.len() as u64);
                h.number.encode(out);
            },
            Header::Long { ty, dst_cid, src_cid, number, version } => {
                out.push(u8::from(LongHeaderType::Standard(*ty)) | number.tag());
                put_be(out, *version as u64, 4);
                dst_cid.encode(out);
                src_cid.encode(out);
                // Packet length
                put_varint(out, number.len() as u64);
                number.encode(out);
            },
            Header::Retry { dst_cid, src_cid, version } => {
                out.push(u8::from(LongHeaderType::Retry));
                put_be(out, *version as u64, 4);
                dst_cid.encode(out);
                src_cid.encode(out);
            },
            Header::Short { spin, key_phase, dst_cid, number } => {
                out.push(
                    FIXED_BIT | if *key_phase {
                        KEY_PHASE_BIT
                    } else {
                        0
                    } | if *spin {
                        SPIN_BIT
                    } else {
                        0
                    } | number.tag(),
                );
                put_slice(out, dst_cid.as_slice());
                number.encode(out);
            },
            Header::VersionNegotiate { random, dst_cid, src_cid } => {
                out.push(0x80u8 | *random);
                // Version
                put_be(out, 0, 4);
                dst_cid.encode(out);
                src_cid.encode(out);
            },
        }
        assert(out@ =~= start + spec_header_encoding(self@));
    }

    /// Reads the header at the start of `data`, with short headers carrying
    /// connection IDs of `cid_len` bytes; gives the number of bytes it takes.
    /// A long header whose connection ID length exceeds `MAX_CID_SIZE` cannot
    /// be read; callers check for it.
    /// Whether the header at the start of `data` can be read here: a long
    /// header gives no connection ID more than 20 bytes long, which no
    /// connection ID holds.
    pub fn can_decode(data: &Bytes, cid_len: usize, supported_versions: &[u32]) -> (r: bool)
        ensures
            r == !(spec_decode_header(bytes_view(*data), cid_len as nat, supported_versions@) matches Err(
                DecodeFailure::CidTooLong,
            )),
    {
        let buf = bytes_as_slice(data);
        if buf.len() <= 5 {
            return true;
        }
        let first = buf[0];
        if first & FIXED_BIT == 0 || first & LONG_HEADER_FORM == 0 || first & LONG_RESERVED_BITS != 0 {
            return true;
        }
        if buf[5] as usize > MAX_CID_SIZE {
            return false;
        }
        let p1 = 6 + buf[5] as usize;
        if p1 >= buf.len() {
            return true;
        }
        buf[p1] as usize <= MAX_CID_SIZE
    }

    pub fn decode(data: &Bytes, cid_len: usize, supported_versions: &[u32]) -> (r: Result<
        (Self, usize),
        PacketDecodeError,
    >)
        requires
            bytes_view(*data).len() > 0 && bytes_view(*data)[0] & LONG_HEADER_FORM == 0 ==> cid_len
                <= MAX_CID_SIZE,
            !(spec_decode_header(bytes_view(*data), cid_len as nat, supported_versions@) matches Err(
                DecodeFailure::CidTooLong,
            )),
        ensures
            match spec_decode_header(bytes_view(*data), cid_len as nat, supported_versions@) {
                Ok((h, n)) => r matches Ok((hdr, next)) && hdr@ == h && next == n,
                Err(f) => r matches Err(e) && e@ == f,
            },
            r matches Ok((_, next)) ==> next <= bytes_view(*data).len(),
    {
        let buf = bytes_as_slice(data);
        if buf.len() < 1 {
            return Err(
                PacketDecodeError::UnexpectedEndOfHeader(TryGetError { requested: 1, available: 0 }),
            );
        }
        let first = buf[0];
        if first & FIXED_BIT == 0 {
            return Err(PacketDecodeError::FixedBitUnset);
        }
        if first & LONG_HEADER_FORM == 0 {
            if first & SHORT_RESERVED_BITS != 0 {
                return Err(PacketDecodeError::ReservedBitsSet);
            }
            let spin = first & SPIN_BIT != 0;
            let key_phase = first & KEY_PHASE_BIT != 0;
            let (dst_cid, p) = match ConnectionId::from_buf(buf, 1, cid_len) {
                Ok(x) => x,
                Err(e) => {
                    return Err(PacketDecodeError::UnexpectedEndOfHeader(e));
                },
            };
            let (number, q) = PacketNumber::decode(PacketNumber::decode_len(first), buf, p)?;
            return Ok((Header::Short { spin, key_phase, dst_cid, number }, q));
        }
        if first & LONG_RESERVED_BITS != 0 {
            return Err(PacketDecodeError::ReservedBitsSet);
        }
        let ty = LongHeaderType::from(first);
        if buf.len() - 1 < 4 {
            return Err(
                PacketDecodeError::UnexpectedEndOfHeader(
                    TryGetError { requested: 4, available: buf.len() - 1 },
                ),
            );
        }
        let version = read_be(buf, 1, 4) as u32;
        let (dst_cid, p1) = match ConnectionId::decode(buf, 5) {
            Ok(x) => x,
            Err(e) => {
                return Err(PacketDecodeError::UnexpectedEndOfHeader(e));
            },
        };
        let (src_cid, p2) = match ConnectionId::decode(buf, p1) {
            Ok(x) => x,
            Err(e) => {
                return Err(PacketDecodeError::UnexpectedEndOfHeader(e));
            },
        };
        if version == 0 {
            let random = first & !LONG_HEADER_FORM;
            assert(first & !0x80u8 == first & 0x7fu8) by (bit_vector);
            return Ok((Header::VersionNegotiate { random, src_cid, dst_cid }, p2));
        }
        if !version_supported(supported_versions, version) {
            return Err(PacketDecodeError::UnsupportedVersion { src_cid, dst_cid, version });
        }
        match ty {
            LongHeaderType::Initial => {
                let (len, p) = header_varint(buf, p2)?;
                if ((buf.len() - p) as u64) < len {
                    return Err(
                        PacketDecodeError::UnexpectedEndOfHeader(
                            TryGetError { requested: len as usize, available: buf.len() - p },
                        ),
                    );
                }
                let p3 = p + len as usize;
                let token = bytes_slice(data, p, p3);
                let (_, p4) = header_varint(buf, p3)?;
                let (number, p5) = PacketNumber::decode(PacketNumber::decode_len(first), buf, p4)?;
                Ok((Header::Initial(InitialHeader { dst_cid, src_cid, token, number, version }), p5))
            },
            LongHeaderType::Retry => Ok((Header::Retry { dst_cid, src_cid, version }, p2)),
            LongHeaderType::Standard(ty) => {
                let (_, p4) = header_varint(buf, p2)?;
                let (number, p5) = PacketNumber::decode(PacketNumber::decode_len(first), buf, p4)?;
                Ok((Header::Long { ty, dst_cid, src_cid, number, version }, p5))
            },
        }
    }
}

#[derive(Debug)]
pub struct Packet {
    pub header: Header,
    pub payload: Bytes,
}

impl From<InitialPacket> for Packet {
    fn from(packet: InitialPacket) -> (r: Self) {
        Self { header: Header::Initial(packet.header), payload: packet.payload }
    }
}

impl vstd::std_specs::convert::FromSpecImpl<InitialPacket> for Packet {
    open spec fn obeys_from_spec() -> bool {
        true
    }

    open spec fn from_spec(packet: InitialPacket) -> Self {
        Packet { header: Header::Initial(packet.header), payload: packet.payload }
    }
}

/// The headers that read back as written: connection IDs and the token fit
/// their length fields, packet numbers fit their width, the version of a
/// long header is a supported one, a short header's connection ID has the
/// length the reader expects, and a version negotiation header's random
/// bits leave the fixed bit set and the reserved bits clear.
pub open spec fn header_roundtrips(h: HeaderModel, cid_len: nat, versions: Seq<u32>) -> bool {
    match h {
        HeaderModel::Initial { dst_cid, src_cid, token, number, version } => {
            &&& dst_cid.len() <= MAX_CID_SIZE
            &&& src_cid.len() <= MAX_CID_SIZE
            &&& token.len() <= VARINT_MAX
            &&& number.fits()
            &&& version != 0
            &&& versions.contains(version)
        },
        HeaderModel::Long { dst_cid, src_cid, number, version, .. } => {
            &&& dst_cid.len() <= MAX_CID_SIZE
            &&& src_cid.len() <= MAX_CID_SIZE
            &&& number.fits()
            &&& version != 0
            &&& versions.contains(version)
        },
        HeaderModel::Retry { dst_cid, src_cid, version } => {
            &&& dst_cid.len() <= MAX_CID_SIZE
            &&& src_cid.len() <= MAX_CID_SIZE
            &&& version != 0
            &&& versions.contains(version)
        },
        HeaderModel::Short { dst_cid, number, .. } => dst_cid.len() == cid_len && number.fits(),
        HeaderModel::VersionNegotiate { random, src_cid, dst_cid } => {
            &&& dst_cid.len() <= MAX_CID_SIZE
            &&& src_cid.len() <= MAX_CID_SIZE
            &&& random & 0x40u8 != 0
            &&& random & 0x0cu8 == 0
            &&& random < 0x80
        },
    }
}

/// A connection ID written with its length byte reads back.
proof fn lemma_cid_at(pre: Seq<u8>, cid: Seq<u8>, rest: Seq<u8>)
    requires
        cid.len() <= MAX_CID_SIZE,
    ensures
        spec_cid_at(pre + (seq![cid.len() as u8] + cid + rest), pre.len()) == Ok::<
            (Seq<u8>, nat),
            DecodeFailure,
        >((cid, pre.len() + 1 + cid.len())),
{
    let s = pre + (seq![cid.len() as u8] + cid + rest);
    assert(s[pre.len() as int] == cid.len() as u8);
    assert(s.subrange(pre.len() + 1 as int, pre.len() + 1 + cid.len() as int) =~= cid);
}

/// A variable-length integer written at `pre.len()` reads back.
proof fn lemma_varint_at(pre: Seq<u8>, v: u64, rest: Seq<u8>)
    requires
        v <= VARINT_MAX,
    ensures
        spec_varint_at(pre + (spec_varint(v) + rest), pre.len()) == Ok::<(u64, nat), DecodeFailure>(
            (v, pre.len() + spec_varint_len(v)),
        ),
{
    let s = pre + (spec_varint(v) + rest);
    assert(s.skip(pre.len() as int) =~= spec_varint(v) + rest);
    lemma_varint_roundtrip(v, rest);
}

/// A packet number written at `pre.len()` reads back.
proof fn lemma_number_at(pre: Seq<u8>, pn: PacketNumber, rest: Seq<u8>)
    requires
        pn.fits(),
    ensures
        spec_number_at(pre + (pn.spec_encoding() + rest), pre.len(), pn.spec_len()) == Ok::<
            (PacketNumber, nat),
            DecodeFailure,
        >((pn, pre.len() + pn.spec_len())),
{
    let s = pre + (pn.spec_encoding() + rest);
    assert(s.skip(pre.len() as int) =~= pn.spec_encoding() + rest);
    lemma_be_bytes_len(pn.truncated(), pn.spec_len());
    lemma_packet_number_roundtrip(pn, rest);
}

/// The long header fields that follow the first byte (the version and
/// both connection IDs) read back.
proof fn lemma_long_fields_at(
    first: u8,
    version: u32,
    dst: Seq<u8>,
    src: Seq<u8>,
    rest: Seq<u8>,
)
    requires
        dst.len() <= MAX_CID_SIZE,
        src.len() <= MAX_CID_SIZE,
    ensures
        ({
            let pre = seq![first] + be_bytes(version as u64, 4);
            let s = pre + seq![dst.len() as u8] + dst + seq![src.len() as u8] + src + rest;
            &&& s.len() >= 5
            &&& s[0] == first
            &&& be_prefix(s.skip(1), 4) as u32 == version
            &&& spec_cid_at(s, 5) == Ok::<(Seq<u8>, nat), DecodeFailure>((dst, 6 + dst.len()))
            &&& spec_cid_at(s, 6 + dst.len()) == Ok::<(Seq<u8>, nat), DecodeFailure>(
                (src, 7 + dst.len() + src.len()),
            )
        }),
{
    let v4 = be_bytes(version as u64, 4);
    let pre = seq![first] + v4;
    let s = pre + seq![dst.len() as u8] + dst + seq![src.len() as u8] + src + rest;
    lemma_be_bytes_len(version as u64, 4);
    assert(s.skip(1) =~= v4 + (seq![dst.len() as u8] + dst + seq![src.len() as u8] + src + rest));
    lemma_be_prefix_extend(v4, seq![dst.len() as u8] + dst + seq![src.len() as u8] + src + rest, 4);
    lemma_be_roundtrip(version as u64, 4);
    assert((version as u64) & 0xffff_ffffu64 == version as u64) by (bit_vector);
    assert(s =~= pre + (seq![dst.len() as u8] + dst + (seq![src.len() as u8] + src + rest)));
    lemma_cid_at(pre, dst, seq![src.len() as u8] + src + rest);
    let pre2 = pre + seq![dst.len() as u8] + dst;
    assert(s =~= pre2 + (seq![src.len() as u8] + src + rest));
    lemma_cid_at(pre2, src, rest);
}

/// Reading a written header gives back the header and its length, for the
/// headers that read back as written, whatever follows them.
pub proof fn lemma_header_roundtrip(h: HeaderModel, cid_len: nat, versions: Seq<u32>, rest: Seq<u8>)
    requires
        header_roundtrips(h, cid_len, versions),
    ensures
        spec_decode_header(spec_header_encoding(h) + rest, cid_len, versions) == Ok::<
            (HeaderModel, nat),
            DecodeFailure,
        >((h, spec_header_encoding(h).len())),
{
    match h {
        HeaderModel::Initial { dst_cid, src_cid, token, number, version } => {
            lemma_initial_roundtrip(dst_cid, src_cid, token, number, version, cid_len, versions, rest)
        },
        HeaderModel::Long { ty, dst_cid, src_cid, number, version } => {
            lemma_long_roundtrip(ty, dst_cid, src_cid, number, version, cid_len, versions, rest)
        },
        HeaderModel::Retry { dst_cid, src_cid, version } => {
            let s = spec_header_encoding(h) + rest;
            let first = long_header_byte(LongHeaderType::Retry);
            assert(s =~= seq![first] + be_bytes(version as u64, 4) + seq![dst_cid.len() as u8]
                + dst_cid + seq![src_cid.len() as u8] + src_cid + rest);
            lemma_long_fields_at(first, version, dst_cid, src_cid, rest);
            lemma_long_header_type_roundtrip(LongHeaderType::Retry);
            lemma_be_bytes_len(version as u64, 4);
        },
        HeaderModel::Short { spin, key_phase, dst_cid, number } => {
            lemma_short_roundtrip(spin, key_phase, dst_cid, number, cid_len, versions, rest)
        },
        HeaderModel::VersionNegotiate { random, src_cid, dst_cid } => {
            let s = spec_header_encoding(h) + rest;
            let first = 0x80u8 | random;
            assert(s =~= seq![first] + be_bytes(0u32 as u64, 4) + seq![dst_cid.len() as u8]
                + dst_cid + seq![src_cid.len() as u8] + src_cid + rest);
            lemma_long_fields_at(first, 0u32, dst_cid, src_cid, rest);
            lemma_be_bytes_len(0, 4);
            assert(random & 0x40u8 != 0 && random & 0x0cu8 == 0 && random < 0x80 ==> {
                let f = 0x80u8 | random;
                &&& f & 0x40u8 != 0
                &&& f & 0x80u8 != 0
                &&& f & 0x0cu8 == 0
                &&& f & 0x7fu8 == random
            }) by (bit_vector);
        },
    }
}

proof fn lemma_initial_roundtrip(
    dst_cid: Seq<u8>,
    src_cid: Seq<u8>,
    token: Seq<u8>,
    number: PacketNumber,
    version: u32,
    cid_len: nat,
    versions: Seq<u32>,
    rest: Seq<u8>,
)
    requires
        header_roundtrips(
            HeaderModel::Initial { dst_cid, src_cid, token, number, version },
            cid_len,
            versions,
        ),
    ensures
        ({
            let h = HeaderModel::Initial { dst_cid, src_cid, token, number, version };
            spec_decode_header(spec_header_encoding(h) + rest, cid_len, versions) == Ok::<
                (HeaderModel, nat),
                DecodeFailure,
            >((h, spec_header_encoding(h).len()))
        }),
{
    let h = HeaderModel::Initial { dst_cid, src_cid, token, number, version };
    let s = spec_header_encoding(h) + rest;
    let first = long_header_byte(LongHeaderType::Initial) | number.spec_tag();
    let tail = spec_varint(token.len() as u64) + token + spec_varint(number.spec_len() as u64)
        + number.spec_encoding() + rest;
    assert(s =~= seq![first] + be_bytes(version as u64, 4) + seq![dst_cid.len() as u8] + dst_cid
        + seq![src_cid.len() as u8] + src_cid + tail);
    lemma_long_fields_at(first, version, dst_cid, src_cid, tail);
    lemma_first_long_byte(LongHeaderType::Initial, number);
    lemma_be_bytes_len(version as u64, 4);
    let p2 = 7 + dst_cid.len() + src_cid.len();
    let pre2 = s.take(p2 as int);
    assert(s =~= pre2 + tail);
    lemma_initial_tail(pre2, token, number, rest);
    let p3 = p2 + spec_varint_len(token.len() as u64) + token.len();
    let p4 = p3 + spec_varint_len(number.spec_len() as u64);
    lemma_varint_len(token.len() as u64);
    lemma_varint_len(number.spec_len() as u64);
    lemma_be_bytes_len(number.truncated(), number.spec_len());
    assert(spec_decode_long_rest(s, first, version, dst_cid, src_cid, p2) == Ok::<
        (HeaderModel, nat),
        DecodeFailure,
    >((h, p4 + number.spec_len())));
}

/// The fields of an Initial header that follow its connection IDs read
/// back: the token, the length and the packet number.
proof fn lemma_initial_tail(pre: Seq<u8>, token: Seq<u8>, number: PacketNumber, rest: Seq<u8>)
    requires
        token.len() <= VARINT_MAX,
        number.fits(),
    ensures
        ({
            let s = pre + (spec_varint(token.len() as u64) + token + spec_varint(
                number.spec_len() as u64,
            ) + number.spec_encoding() + rest);
            let p3 = pre.len() + spec_varint_len(token.len() as u64) + token.len();
            let p4 = p3 + spec_varint_len(number.spec_len() as u64);
            &&& spec_token_at(s, pre.len()) == Ok::<(Seq<u8>, nat), DecodeFailure>((token, p3))
            &&& spec_varint_at(s, p3) == Ok::<(u64, nat), DecodeFailure>(
                (number.spec_len() as u64, p4),
            )
            &&& spec_number_at(s, p4, number.spec_len()) == Ok::<(PacketNumber, nat), DecodeFailure>(
                (number, p4 + number.spec_len()),
            )
        }),
{
    let s = pre + (spec_varint(token.len() as u64) + token + spec_varint(number.spec_len() as u64)
        + number.spec_encoding() + rest);
    assert(s =~= pre + (spec_varint(token.len() as u64) + (token + spec_varint(
        number.spec_len() as u64,
    ) + number.spec_encoding() + rest)));
    lemma_varint_at(
        pre,
        token.len() as u64,
        token + spec_varint(number.spec_len() as u64) + number.spec_encoding() + rest,
    );
    lemma_varint_len(token.len() as u64);
    let q = pre.len() + spec_varint_len(token.len() as u64);
    assert(s.subrange(q as int, q + token.len() as int) =~= token);
    let p3 = q + token.len();
    let pre3 = s.take(p3 as int);
    assert(s =~= pre3 + (spec_varint(number.spec_len() as u64) + (number.spec_encoding() + rest)));
    lemma_varint_at(pre3, number.spec_len() as u64, number.spec_encoding() + rest);
    lemma_varint_len(number.spec_len() as u64);
    let p4 = p3 + spec_varint_len(number.spec_len() as u64);
    let pre4 = s.take(p4 as int);
    assert(s =~= pre4 + (number.spec_encoding() + rest));
    lemma_number_at(pre4, number, rest);
}

proof fn lemma_long_roundtrip(
    ty: LongType,
    dst_cid: Seq<u8>,
    src_cid: Seq<u8>,
    number: PacketNumber,
    version: u32,
    cid_len: nat,
    versions: Seq<u32>,
    rest: Seq<u8>,
)
    requires
        header_roundtrips(HeaderModel::Long { ty, dst_cid, src_cid, number, version }, cid_len, versions),
    ensures
        ({
            let h = HeaderModel::Long { ty, dst_cid, src_cid, number, version };
            spec_decode_header(spec_header_encoding(h) + rest, cid_len, versions) == Ok::<
                (HeaderModel, nat),
                DecodeFailure,
            >((h, spec_header_encoding(h).len()))
        }),
{
    let h = HeaderModel::Long { ty, dst_cid, src_cid, number, version };
    let s = spec_header_encoding(h) + rest;
    let first = long_header_byte(LongHeaderType::Standard(ty)) | number.spec_tag();
    let tail = spec_varint(number.spec_len() as u64) + number.spec_encoding() + rest;
    assert(s =~= seq![first] + be_bytes(version as u64, 4) + seq![dst_cid.len() as u8] + dst_cid
        + seq![src_cid.len() as u8] + src_cid + tail);
    lemma_long_fields_at(first, version, dst_cid, src_cid, tail);
    lemma_first_long_byte(LongHeaderType::Standard(ty), number);
    lemma_be_bytes_len(version as u64, 4);
    let p2 = 7 + dst_cid.len() + src_cid.len();
    let pre2 = s.take(p2 as int);
    assert(s =~= pre2 + (spec_varint(number.spec_len() as u64) + (number.spec_encoding() + rest)));
    lemma_varint_at(pre2, number.spec_len() as u64, number.spec_encoding() + rest);
    lemma_varint_len(number.spec_len() as u64);
    let p4 = p2 + spec_varint_len(number.spec_len() as u64);
    let pre4 = s.take(p4 as int);
    assert(s =~= pre4 + (number.spec_encoding() + rest));
    lemma_number_at(pre4, number, rest);
    lemma_be_bytes_len(number.truncated(), number.spec_len());
    assert(spec_decode_long_rest(s, first, version, dst_cid, src_cid, p2) == Ok::<
        (HeaderModel, nat),
        DecodeFailure,
    >((h, p4 + number.spec_len())));
}

proof fn lemma_short_roundtrip(
    spin: bool,
    key_phase: bool,
    dst_cid: Seq<u8>,
    number: PacketNumber,
    cid_len: nat,
    versions: Seq<u32>,
    rest: Seq<u8>,
)
    requires
        header_roundtrips(HeaderModel::Short { spin, key_phase, dst_cid, number }, cid_len, versions),
    ensures
        ({
            let h = HeaderModel::Short { spin, key_phase, dst_cid, number };
            spec_decode_header(spec_header_encoding(h) + rest, cid_len, versions) == Ok::<
                (HeaderModel, nat),
                DecodeFailure,
            >((h, spec_header_encoding(h).len()))
        }),
{
    let h = HeaderModel::Short { spin, key_phase, dst_cid, number };
    let s = spec_header_encoding(h) + rest;
    let first = s[0];
    let k: u8 = if key_phase {
        0x04u8
    } else {
        0u8
    };
    let sp: u8 = if spin {
        0x20u8
    } else {
        0u8
    };
    let tag = number.spec_tag();
    assert(tag <= 3);
    assert(first == 0x40u8 | k | sp | tag);
    assert((k == 0 || k == 4) && (sp == 0 || sp == 0x20) && tag <= 3 ==> {
        let f = 0x40u8 | k | sp | tag;
        &&& f & 0x40u8 != 0
        &&& f & 0x80u8 == 0
        &&& f & 0x18u8 == 0
        &&& (f & 0x20u8 != 0) == (sp == 0x20u8)
        &&& (f & 0x04u8 != 0) == (k == 4u8)
        &&& f & 0x03u8 == tag
    }) by (bit_vector);
    let pre = seq![first] + dst_cid;
    assert(s =~= pre + (number.spec_encoding() + rest));
    assert(s.subrange(1, 1 + cid_len as int) =~= dst_cid);
    lemma_number_at(pre, number, rest);
    lemma_be_bytes_len(number.truncated(), number.spec_len());
}

/// The first byte of a long header carries its type and the packet
/// number's length tag.
proof fn lemma_first_long_byte(ty: LongHeaderType, number: PacketNumber)
    ensures
        ({
            let f = long_header_byte(ty) | number.spec_tag();
            &&& f & FIXED_BIT != 0
            &&& f & LONG_HEADER_FORM != 0
            &&& f & 0x0cu8 == 0
            &&& long_header_type_of(f) == ty
            &&& 1 + (f & 0x03u8) as nat == number.spec_len()
        }),
{
    let b = long_header_byte(ty);
    let tag = number.spec_tag();
    assert(tag <= 3);
    lemma_long_header_type_roundtrip(ty);
    assert(b & 0x0fu8 == 0 && tag <= 3 ==> {
        let f = b | tag;
        &&& f & 0x40u8 == b & 0x40u8
        &&& f & 0x80u8 == b & 0x80u8
        &&& f & 0x0cu8 == b & 0x0cu8
        &&& (f & 0x30u8) >> 4u8 == (b & 0x30u8) >> 4u8
        &&& f & 0x03u8 == tag
    }) by (bit_vector);
    assert(b & 0x0fu8 == 0) by {
        assert(0xc0u8 & 0x0fu8 == 0 && 0xd0u8 & 0x0fu8 == 0 && 0xe0u8 & 0x0fu8 == 0 && 0xf0u8
            & 0x0fu8 == 0) by (bit_vector);
    }
}

/// The candidate of `expand` is `expected` with its low bits replaced by
/// the truncated number.
pub proof fn lemma_candidate(pn: PacketNumber, expected: u64)
    requires
        pn.fits(),
    ensures
        pn.candidate(expected) == expected - expected % pn.win() + pn.truncated(),
{
    let t = pn.truncated();
    let e = expected;
    assert((t < 0x100 ==> (e & !0xffu64) | t == e - e % 0x100 + t) && (t < 0x1_0000 ==> (e
        & !0xffffu64) | t == e - e % 0x1_0000 + t) && (t < 0x100_0000 ==> (e & !0xff_ffffu64) | t
        == e - e % 0x100_0000 + t) && (t < 0x1_0000_0000 ==> (e & !0xffff_ffffu64) | t == e - e
        % 0x1_0000_0000 + t)) by (bit_vector);
}

/// The expanded number agrees with the truncated one in its low bits, and
/// lies within half a window of the expected number, except where that
/// window would reach past zero.
pub proof fn lemma_expand_window(pn: PacketNumber, expected: u64)
    requires
        pn.fits(),
    ensures
        pn.spec_expand(expected) % (pn.win() as int) == pn.truncated(),
        expected - pn.win() / 2 < pn.spec_expand(expected),
        pn.spec_expand(expected) <= expected + pn.win() / 2 || pn.spec_expand(expected) <= pn.win(),
{
    lemma_candidate(pn, expected);
    let w = pn.win() as int;
    let t = pn.truncated() as int;
    let e = expected as int;
    let q = e / w;
    lemma_fundamental_div_mod(e, w);
    lemma_small_mod(t as nat, w as nat);
    lemma_mod_multiples_vanish(q, t, w);
    lemma_mod_multiples_vanish(q + 1, t, w);
    lemma_mod_multiples_vanish(q - 1, t, w);
    assert(w * (q + 1) == w * q + w) by (nonlinear_arith);
    assert(w * (q - 1) == w * q - w) by (nonlinear_arith);
}

/// Any truncated number can be expanded against an expected number up to
/// 2^62, and the result stays below 2^63.
pub proof fn lemma_expand_small(pn: PacketNumber, expected: u64)
    requires
        expected <= 0x4000_0000_0000_0000,
    ensures
        pn.expand_fits(expected),
        pn.spec_expand(expected) < 0x8000_0000_0000_0000,
{
    let w = pn.win();
    let t = pn.truncated();
    assert(t < 0x1_0000_0000);
    assert(w <= 0x1_0000_0000);
    assert(1 <= w);
    let m = !((w - 1) as u64);
    assert(expected <= 0x4000_0000_0000_0000 && t < 0x1_0000_0000 ==> (expected & m) | t
        < 0x4000_0001_0000_0000) by (bit_vector);
}

/// A packet number read back from its encoding, followed by anything, is
/// the number that was written, cut to its width.
pub proof fn lemma_packet_number_roundtrip(pn: PacketNumber, rest: Seq<u8>)
    ensures
        be_prefix(pn.spec_encoding() + rest, pn.spec_len()) == pn.truncated() % pn.win(),
        pn.fits() ==> packet_number_of(
            pn.spec_len(),
            be_prefix(pn.spec_encoding() + rest, pn.spec_len()),
        ) == pn,
{
    let x = pn.truncated();
    let n = pn.spec_len();
    lemma_be_bytes_len(x, n);
    lemma_be_prefix_extend(pn.spec_encoding(), rest, n);
    lemma_be_roundtrip(x, n);
    assert(x & 0xffu64 == x % 0x100 && x & 0xffffu64 == x % 0x1_0000 && x & 0xff_ffffu64 == x
        % 0x100_0000 && x & 0xffff_ffffu64 == x % 0x1_0000_0000 && (x < 0x100 ==> (x & 0xffu64)
        as u8 == x as u8) && (x < 0x1_0000 ==> (x & 0xffffu64) as u16 == x as u16) && (x
        < 0x100_0000 ==> (x & 0xff_ffffu64) as u32 == x as u32) && (x < 0x1_0000_0000 ==> (x
        & 0xffff_ffffu64) as u32 == x as u32)) by (bit_vector);
}

/// Two numbers with the same remainder that lie less than the divisor
/// apart are equal.
proof fn lemma_same_residue(a: int, b: int, w: int)
    requires
        0 < w,
        0 <= a,
        0 <= b,
        a % w == b % w,
        a - b < w,
        b - a < w,
    ensures
        a == b,
{
    lemma_fundamental_div_mod(a, w);
    lemma_fundamental_div_mod(b, w);
    assert(w * (a / w) - w * (b / w) == a - b);
    assert(a / w == b / w) by (nonlinear_arith)
        requires
            0 < w,
            w * (a / w) - w * (b / w) < w,
            w * (b / w) - w * (a / w) < w,
    ;
}

/// The receiver recovers the packet number the sender wrote: a number
/// written by `new` with the largest acknowledged number, sent on the wire
/// and read back, expands to the original number at a receiver that expects
/// the number after the largest acknowledged one.
pub proof fn lemma_packet_number_recovered(n: u64, largest_acked: u64, rest: Seq<u8>)
    requires
        largest_acked <= n,
        (n - largest_acked) * 2 < 0x1_0000_0000,
        n <= VARINT_MAX,
    ensures
        ({
            let sent = spec_new(n, largest_acked);
            let read = packet_number_of(
                sent.spec_len(),
                be_prefix(sent.spec_encoding() + rest, sent.spec_len()),
            );
            &&& read.spec_len() == sent.spec_len()
            &&& read.expand_fits((largest_acked + 1) as u64)
            &&& read.spec_expand((largest_acked + 1) as u64) == n
        }),
{
    let sent = spec_new(n, largest_acked);
    lemma_packet_number_roundtrip(sent, rest);
    let y = be_prefix(sent.spec_encoding() + rest, sent.spec_len());
    let read = packet_number_of(sent.spec_len(), y);
    let w = sent.win() as int;
    let e = (largest_acked + 1) as u64;
    let t = (n as int) % w;
    // the number read back is the written one, cut to its width
    assert((sent.truncated() as int) % w == t) by {
        let v = n as u64;
        assert(v as u8 == v % 0x100 && v as u16 == v % 0x1_0000 && v as u32 == v % 0x1_0000_0000
            && v % 0x1_0000_0000 % 0x100_0000 == v % 0x100_0000) by (bit_vector);
    }
    assert(read.truncated() == t && read.win() == w) by {
        assert(y == t);
        assert(y < 0x1_0000_0000 ==> (y as u32) as u64 == y && (y as u16) as u64 == y % 0x1_0000
            && (y as u8) as u64 == y % 0x100) by (bit_vector);
    }
    assert(read.fits());
    lemma_expand_window(read, e);
    lemma_candidate(read, e);
    let r = read.spec_expand(e);
    lemma_fundamental_div_mod(n as int, w);
    assert(r <= e + w / 2) by {
        if r > e + w / 2 {
            // only a candidate above the window that is at most a window
            // wide is kept; it would be a whole window above `n`
            lemma_fundamental_div_mod(r, w);
            lemma_fundamental_div_mod(e as int, w);
            lemma_same_residue(r - w, n as int, w);
        }
    }
    lemma_same_residue(r, n as int, w);
}

/// Writing the `n` least significant bytes of a number only looks at
/// those bytes.
pub proof fn lemma_be_bytes_low(x: u64, n: nat)
    requires
        1 <= n <= 4,
    ensures
        n == 1 ==> be_bytes(x, n) == be_bytes((x as u8) as u64, n),
        n == 2 ==> be_bytes(x, n) == be_bytes((x as u16) as u64, n),
        n >= 3 ==> be_bytes(x, n) == be_bytes((x as u32) as u64, n),
{
    reveal_with_fuel(be_bytes, 5);
    let y8 = (x as u8) as u64;
    let y16 = (x as u16) as u64;
    let y32 = (x as u32) as u64;
    assert(y8 as u8 == x as u8 && y16 as u8 == x as u8 && (y16 >> 8u64) as u8 == (x >> 8u64) as u8
        && y32 as u8 == x as u8 && (y32 >> 8u64) as u8 == (x >> 8u64) as u8 && ((y32 >> 8u64)
        >> 8u64) as u8 == ((x >> 8u64) >> 8u64) as u8 && (((y32 >> 8u64) >> 8u64) >> 8u64) as u8
        == (((x >> 8u64) >> 8u64) >> 8u64) as u8) by (bit_vector)
        requires
            y8 == (x as u8) as u64,
            y16 == (x as u16) as u64,
            y32 == (x as u32) as u64,
    ;
}

} // verus!

//! Identifiers shared by the codec and the connection: sides, stream
//! directions and identifiers, connection IDs, ECN codepoints and reset
//! tokens.
use vstd::prelude::*;

use crate::text::{hex_bytes, decimal_text, push_decimal, push_hex_bytes, push_text};
use crate::varint::{TryGetError, put_slice};

verus! {

/// Whether an endpoint was the initiator of a connection
#[derive(Debug, Copy, Clone, Eq, PartialEq, Ord, PartialOrd, Hash, Structural)]
pub enum Side {
    /// The initiator of a connection
    Client,
    /// The acceptor of a connection
    Server,
}

impl Side {
    /// The number the side takes in the low bit of a stream ID.
    pub open spec fn spec_bit(self) -> u64 {
        match self {
            Side::Client => 0,
            Side::Server => 1,
        }
    }

    pub fn is_client(&self) -> (r: bool)
        ensures
            r == (*self is Client),
    {
        match self {
            Side::Client => true,
            Side::Server => false,
        }
    }

    pub fn is_server(&self) -> (r: bool)
        ensures
            r == (*self is Server),
    {
        match self {
            Side::Client => false,
            Side::Server => true,
        }
    }

    /// The other side of the connection.
    pub fn not(self) -> (r: Self)
        ensures
            r != self,
    {
        match self {
            Side::Client => Side::Server,
            Side::Server => Side::Client,
        }
    }
}

/// The name a side is shown with.
pub open spec fn side_text(s: Side) -> Seq<char> {
    match s {
        Side::Client => "client"@,
        Side::Server => "server"@,
    }
}

impl Side {
    /// The name the side is shown with.
    pub fn to_string(&self) -> (r: String)
        ensures
            r@ == side_text(*self),
    {
        match self {
            Side::Client => "client".to_owned(),
            Side::Server => "server".to_owned(),
        }
    }
}

/// The name a direction is shown with.
pub open spec fn dir_text(d: Dir) -> Seq<char> {
    match d {
        Dir::Bi => "bidirectional"@,
        Dir::Uni => "unidirectional"@,
    }
}

impl Dir {
    /// The name the direction is shown with.
    pub fn to_string(&self) -> (r: String)
        ensures
            r@ == dir_text(*self),
    {
        match self {
            Dir::Bi => "bidirectional".to_owned(),
            Dir::Uni => "unidirectional".to_owned(),
        }
    }
}

/// Whether a stream communicates data in both directions or only from the
/// initiator
#[derive(Debug, Copy, Clone, Eq, PartialEq, Ord, PartialOrd, Hash, Structural)]
pub enum Dir {
    /// Data flows in both directions
    Bi,
    /// Data flows only from the stream's initiator
    Uni,
}

impl Dir {
    /// The number the direction takes in the second bit of a stream ID.
    pub open spec fn spec_bit(self) -> u64 {
        match self {
            Dir::Bi => 0,
            Dir::Uni => 1,
        }
    }

    /// Index of the direction among `[Bi, Uni]`.
    pub fn index(self) -> (r: usize)
        ensures
            r == self.spec_bit(),
    {
        match self {
            Dir::Bi => 0,
            Dir::Uni => 1,
        }
    }
}

/// Identifier for a stream within a particular connection
#[derive(Debug, Default, Copy, Clone, Eq, PartialEq, Ord, PartialOrd, Hash, Structural)]
pub struct StreamId(pub u64);

/// The stream ID of the `index`th stream of the given initiator and
/// direction: the index in the bits above the two lowest, the direction in
/// the second bit and the initiator in the lowest.
pub open spec fn spec_stream_id(initiator: Side, dir: Dir, index: u64) -> u64 {
    (index << 2u64) | (dir.spec_bit() << 1u64) | initiator.spec_bit()
}

impl StreamId {
    /// The text the stream ID is shown with: who opened it, its direction
    /// and its index, as in "client bidirectional stream 3".
    pub fn to_string(&self) -> (r: String)
        ensures
            r@ == side_text(self.spec_initiator()) + " "@ + dir_text(self.spec_dir()) + " stream "@
                + decimal_text(self.spec_index() as nat),
    {
        let mut s = self.initiator().to_string();
        push_text(&mut s, " ");
        let d = self.dir().to_string();
        push_text(&mut s, d.as_str());
        push_text(&mut s, " stream ");
        push_decimal(&mut s, self.index());
        s
    }

    /// Create a new StreamId
    pub fn new(initiator: Side, dir: Dir, index: u64) -> (r: Self)
        ensures
            r.0 == spec_stream_id(initiator, dir, index),
    {
        let d: u64 = match dir {
            Dir::Bi => 0,
            Dir::Uni => 1,
        };
        let i: u64 = match initiator {
            Side::Client => 0,
            Side::Server => 1,
        };
        Self((index << 2) | (d << 1) | i)
    }

    pub open spec fn spec_initiator(self) -> Side {
        if self.0 & 1u64 == 0 {
            Side::Client
        } else {
            Side::Server
        }
    }

    pub open spec fn spec_dir(self) -> Dir {
        if self.0 & 2u64 == 0 {
            Dir::Bi
        } else {
            Dir::Uni
        }
    }

    pub open spec fn spec_index(self) -> u64 {
        self.0 >> 2u64
    }

    /// Which side of a connection initiated the stream
    pub fn initiator(self) -> (r: Side)
        ensures
            r == self.spec_initiator(),
    {
        if self.0 & 0x1 == 0 {
            Side::Client
        } else {
            Side::Server
        }
    }

    /// Which directions data flows in
    pub fn dir(self) -> (r: Dir)
        ensures
            r == self.spec_dir(),
    {
        if self.0 & 0x2 == 0 {
            Dir::Bi
        } else {
            Dir::Uni
        }
    }

    /// Distinguishes streams of the same initiator and directionality
    pub fn index(self) -> (r: u64)
        ensures
            r == self.spec_index(),
    {
        self.0 >> 2
    }

    /// The stream ID as an integer.
    pub fn value(self) -> (r: u64)
        ensures
            r == self.0,
    {
        self.0
    }

    /// The stream ID with the given integer value.
    pub fn from_u64(x: u64) -> (r: Self)
        ensures
            r.0 == x,
    {
        Self(x)
    }
}

impl From<u64> for StreamId {
    fn from(x: u64) -> (r: Self) {
        Self(x)
    }
}

impl vstd::std_specs::convert::FromSpecImpl<u64> for StreamId {
    open spec fn obeys_from_spec() -> bool {
        true
    }

    open spec fn from_spec(x: u64) -> Self {
        StreamId(x)
    }
}

/// A stream ID gives back the initiator and direction it was made from,
/// and its index when the index fits in 62 bits.
pub proof fn lemma_stream_id_parts(initiator: Side, dir: Dir, index: u64)
    ensures
        StreamId(spec_stream_id(initiator, dir, index)).spec_initiator() == initiator,
        StreamId(spec_stream_id(initiator, dir, index)).spec_dir() == dir,
        index < 0x4000_0000_0000_0000 ==> StreamId(
            spec_stream_id(initiator, dir, index),
        ).spec_index() == index,
{
    let d = dir.spec_bit();
    let i = initiator.spec_bit();
    assert(i <= 1 && d <= 1 ==> ((index << 2u64) | (d << 1u64) | i) & 1u64 == i)
        by (bit_vector);
    assert(i <= 1 && d <= 1 ==> (((index << 2u64) | (d << 1u64) | i) & 2u64 == 0 <==> d == 0))
        by (bit_vector);
    assert(i <= 1 && d <= 1 && index < 0x4000_0000_0000_0000 ==> ((index << 2u64) | (d << 1u64)
        | i) >> 2u64 == index) by (bit_vector);
}

/// Every stream ID is the one made from its own initiator, direction and
/// index.
pub proof fn lemma_stream_id_from_parts(id: StreamId)
    ensures
        spec_stream_id(id.spec_initiator(), id.spec_dir(), id.spec_index()) == id.0,
{
    let x = id.0;
    let i = id.spec_initiator().spec_bit();
    let d = id.spec_dir().spec_bit();
    assert(i == x & 1u64) by {
        assert(x & 1u64 == 0 || x & 1u64 == 1) by (bit_vector);
    }
    assert(d == (x & 2u64) >> 1u64) by {
        assert((x & 2u64 == 0 && (x & 2u64) >> 1u64 == 0) || (x & 2u64 != 0 && (x & 2u64)
            >> 1u64 == 1)) by (bit_vector);
    }
    assert(((x >> 2u64) << 2u64) | (((x & 2u64) >> 1u64) << 1u64) | (x & 1u64) == x)
        by (bit_vector);
}

/// Maximum size of a connection ID
pub const MAX_CID_SIZE: usize = 20;

/// Protocol-level identifier for a connection.
#[derive(Clone, Copy, Eq, PartialEq, Ord, PartialOrd, Hash, Debug)]
pub struct ConnectionId {
    /// length of CID
    len: u8,
    /// CID in byte array
    bytes: [u8; 20],
}

/// The byte at `i` of `s`, or zero past its end.
fn byte_or_zero(s: &[u8], i: usize) -> (r: u8)
    ensures
        r == (if i < s.len() {
            s@[i as int]
        } else {
            0u8
        }),
{
    if i < s.len() {
        s[i]
    } else {
        0
    }
}

impl View for ConnectionId {
    type V = Seq<u8>;

    /// The bytes of the connection ID.
    closed spec fn view(&self) -> Seq<u8> {
        self.bytes@.take(self.len as int)
    }
}

impl ConnectionId {
    /// The text the connection ID is shown with: its bytes in hexadecimal.
    pub fn to_string(&self) -> (r: String)
        ensures
            r@ == hex_bytes(self@),
    {
        let mut s = String::new();
        push_hex_bytes(&mut s, self.as_slice());
        assert(s@ =~= hex_bytes(self@));
        s
    }

    #[verifier::type_invariant]
    spec fn inv(self) -> bool {
        self.len <= 20
    }

    /// Construct cid from byte array
    pub fn new(bytes: &[u8]) -> (r: Self)
        requires
            bytes.len() <= MAX_CID_SIZE,
        ensures
            r@ == bytes@,
    {
        let b = [
            byte_or_zero(bytes, 0),
            byte_or_zero(bytes, 1),
            byte_or_zero(bytes, 2),
            byte_or_zero(bytes, 3),
            byte_or_zero(bytes, 4),
            byte_or_zero(bytes, 5),
            byte_or_zero(bytes, 6),
            byte_or_zero(bytes, 7),
            byte_or_zero(bytes, 8),
            byte_or_zero(bytes, 9),
            byte_or_zero(bytes, 10),
            byte_or_zero(bytes, 11),
            byte_or_zero(bytes, 12),
            byte_or_zero(bytes, 13),
            byte_or_zero(bytes, 14),
            byte_or_zero(bytes, 15),
            byte_or_zero(bytes, 16),
            byte_or_zero(bytes, 17),
            byte_or_zero(bytes, 18),
            byte_or_zero(bytes, 19),
        ];
        let r = Self { len: bytes.len() as u8, bytes: b };
        assert(r@ =~= bytes@);
        r
    }

    /// Constructs cid by reading `len` bytes at `pos` of `buf`; returns the
    /// position that follows them.
    pub fn from_buf(buf: &[u8], pos: usize, len: usize) -> (r: Result<(Self, usize), TryGetError>)
        requires
            pos <= buf.len(),
            len <= MAX_CID_SIZE,
        ensures
            match r {
                Ok((cid, next)) => pos + len <= buf.len() && next == pos + len
                    && cid@ == buf@.subrange(pos as int, pos + len),
                Err(e) => pos + len > buf.len() && e == (TryGetError {
                    requested: len,
                    available: (buf.len() - pos) as usize,
                }),
            },
    {
        if buf.len() - pos < len {
            return Err(TryGetError { requested: len, available: buf.len() - pos });
        }
        let cid = Self::new(&buf[pos..pos + len]);
        Ok((cid, pos + len))
    }

    /// Decode from long header format: a length byte followed by the bytes.
    /// A length byte above `MAX_CID_SIZE` cannot be read into a connection
    /// ID; callers check for it.
    pub fn decode(buf: &[u8], pos: usize) -> (r: Result<(Self, usize), TryGetError>)
        requires
            pos <= buf.len(),
            pos < buf.len() ==> buf@[pos as int] <= MAX_CID_SIZE,
        ensures
            match r {
                Ok((cid, next)) => pos < buf.len() && next == pos + 1 + buf@[pos as int]
                    && next <= buf.len() && cid@ == buf@.subrange(pos + 1, next as int),
                Err(e) => if pos == buf.len() {
                    e == (TryGetError { requested: 1, available: 0 })
                } else {
                    pos + 1 + buf@[pos as int] > buf.len() && e == (TryGetError {
                        requested: buf@[pos as int] as usize,
                        available: (buf.len() - pos - 1) as usize,
                    })
                },
            },
    {
        if pos == buf.len() {
            return Err(TryGetError { requested: 1, available: 0 });
        }
        let len = buf[pos] as usize;
        Self::from_buf(buf, pos + 1, len)
    }

    /// Encode in long header format: a length byte followed by the bytes.
    pub fn encode(&self, out: &mut Vec<u8>)
        ensures
            self@.len() <= MAX_CID_SIZE,
            final(out)@ == old(out)@ + seq![self@.len() as u8] + self@,
    {
        proof {
            use_type_invariant(self);
        }
        out.push(self.len);
        put_slice(out, self.as_slice());
    }

    /// The length of the connection ID.
    pub fn len(&self) -> (r: usize)
        ensures
            r == self@.len(),
            r <= MAX_CID_SIZE,
    {
        proof {
            use_type_invariant(self);
        }
        self.len as usize
    }

    /// Whether the connection ID has no bytes.
    pub fn is_empty(&self) -> (r: bool)
        ensures
            r == (self@.len() == 0),
    {
        proof {
            use_type_invariant(self);
        }
        self.len == 0
    }

    /// The bytes of the connection ID.
    pub fn as_slice(&self) -> (r: &[u8])
        ensures
            r@ == self@,
            r@.len() <= MAX_CID_SIZE,
    {
        proof {
            use_type_invariant(self);
        }
        let len = self.len as usize;
        let r = &self.bytes.as_slice()[0..len];
        r
    }
}

/// Explicit congestion notification codepoint
#[derive(Debug, Copy, Clone, Eq, PartialEq, Structural)]
pub enum EcnCodepoint {
    /// The ECT(0) codepoint, indicating that an endpoint is ECN-capable
    Ect0,
    /// The ECT(1) codepoint, indicating that an endpoint is ECN-capable
    Ect1,
    /// The CE codepoint, signalling that congestion was experienced
    Ce,
}

impl EcnCodepoint {
    /// Create new object from the given bits
    pub fn from_bits(x: u8) -> (r: Option<Self>)
        ensures
            r == (if x & 3u8 == 2u8 {
                Some(EcnCodepoint::Ect0)
            } else if x & 3u8 == 1u8 {
                Some(EcnCodepoint::Ect1)
            } else if x & 3u8 == 3u8 {
                Some(EcnCodepoint::Ce)
            } else {
                None
            }),
    {
        let b = x & 0b11;
        if b == 0b10 {
            Some(EcnCodepoint::Ect0)
        } else if b == 0b01 {
            Some(EcnCodepoint::Ect1)
        } else if b == 0b11 {
            Some(EcnCodepoint::Ce)
        } else {
            None
        }
    }
}

pub const RESET_TOKEN_SIZE: usize = 16;

/// Stateless reset token
///
/// Used for an endpoint to securely communicate that it has lost state for a
/// connection.
#[derive(Debug, Copy, Clone, Hash, Eq, PartialEq)]
pub struct ResetToken(pub [u8; 16]);

impl View for ResetToken {
    type V = Seq<u8>;

    open spec fn view(&self) -> Seq<u8> {
        self.0@
    }
}

impl ResetToken {
    /// The text the token is shown with: its bytes in hexadecimal.
    pub fn to_string(&self) -> (r: String)
        ensures
            r@ == hex_bytes(self@),
    {
        let mut s = String::new();
        push_hex_bytes(&mut s, self.as_slice());
        assert(s@ =~= hex_bytes(self@));
        s
    }

    /// The token from its sixteen bytes.
    pub fn from_array(x: [u8; 16]) -> (r: Self)
        ensures
            r@ == x@,
    {
        Self(x)
    }

    /// The bytes of the token.
    pub fn as_slice(&self) -> (r: &[u8])
        ensures
            r@ == self@,
            r@.len() == 16,
    {
        self.0.as_slice()
    }
}

#[derive(Debug, Copy, Clone)]
pub struct IssuedCid {
    pub sequence: u64,
    pub id: ConnectionId,
    pub reset_token: ResetToken,
}

} // verus!

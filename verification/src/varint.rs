//! QUIC variable-length integers (RFC 9000, section 16) and big-endian
//! fixed-width reads and writes over byte buffers.
use vstd::prelude::*;

verus! {

pub const VARINT_MAX_1: u8 = 0x3f;

pub const VARINT_MAX_2: u16 = 0x3fff;

pub const VARINT_MAX_4: u32 = 0x3fff_ffff;

pub const VARINT_MAX_8: u64 = 0x3fff_ffff_ffff_ffff;

pub const VARINT_MAX: u64 = VARINT_MAX_8;

/// Not enough bytes were left in a buffer to read a value.
#[derive(Debug, Clone, Copy, PartialEq, Eq, Structural)]
pub struct TryGetError {
    /// Number of bytes the read needed
    pub requested: usize,
    /// Number of bytes that were left
    pub available: usize,
}

/// Number of bytes the encoding of `v` takes.
pub open spec fn spec_varint_len(v: u64) -> nat {
    if v <= VARINT_MAX_1 {
        1
    } else if v <= VARINT_MAX_2 {
        2
    } else if v <= VARINT_MAX_4 {
        4
    } else {
        8
    }
}

/// Number of bytes of a variable-length integer whose first byte is `first`:
/// two to the power of its two most significant bits.
pub open spec fn spec_varint_parse_len(first: u8) -> nat {
    let tag = first >> 6u8;
    if tag == 0 {
        1
    } else if tag == 1 {
        2
    } else if tag == 2 {
        4
    } else {
        8
    }
}

/// The value of the first `n` bytes of `s`, read as a big-endian unsigned
/// integer (modulo 2^64).
pub open spec fn be_prefix(s: Seq<u8>, n: nat) -> u64
    decreases n,
{
    if n == 0 {
        0
    } else {
        ((be_prefix(s, (n - 1) as nat) << 8u64) | (s[n - 1] as u64)) as u64
    }
}

/// The big-endian bytes of the `n` least significant bytes of `x`.
pub open spec fn be_bytes(x: u64, n: nat) -> Seq<u8>
    decreases n,
{
    if n == 0 {
        Seq::empty()
    } else {
        be_bytes(x >> 8u64, (n - 1) as nat).push(x as u8)
    }
}

/// The encoding of `v`: its big-endian value on `spec_varint_len(v)` bytes,
/// with the two most significant bits holding the length.
pub open spec fn spec_varint(v: u64) -> Seq<u8> {
    if v <= VARINT_MAX_1 {
        be_bytes(v, 1)
    } else if v <= VARINT_MAX_2 {
        be_bytes(v | 0x4000u64, 2)
    } else if v <= VARINT_MAX_4 {
        be_bytes(v | 0x8000_0000u64, 4)
    } else {
        be_bytes(v | 0xc000_0000_0000_0000u64, 8)
    }
}

/// The mask that removes the two length bits from a `len`-byte integer.
pub open spec fn varint_mask(len: nat) -> u64 {
    if len == 1 {
        VARINT_MAX_1 as u64
    } else if len == 2 {
        VARINT_MAX_2 as u64
    } else if len == 4 {
        VARINT_MAX_4 as u64
    } else {
        VARINT_MAX_8
    }
}

/// Reads a variable-length integer at the start of `s`: its value and the
/// number of bytes it takes, or `None` if `s` is too short.
pub open spec fn spec_parse_varint(s: Seq<u8>) -> Option<(u64, nat)> {
    if s.len() == 0 {
        None
    } else {
        let len = spec_varint_parse_len(s[0]);
        if s.len() < len {
            None
        } else {
            Some((be_prefix(s, len) & varint_mask(len), len))
        }
    }
}

/// Reads `k` consecutive variable-length integers at the start of `s`.
pub open spec fn spec_parse_varints(s: Seq<u8>, k: nat) -> Option<(Seq<u64>, nat)>
    decreases k,
{
    if k == 0 {
        Some((Seq::empty(), 0))
    } else {
        match spec_parse_varint(s) {
            None => None,
            Some((v, n)) => match spec_parse_varints(s.skip(n as int), (k - 1) as nat) {
                None => None,
                Some((vs, m)) => Some((seq![v].add(vs), n + m)),
            },
        }
    }
}

/// Returns how many bytes it would take to encode `v` as a variable-length
/// integer.
pub fn varint_len(v: u64) -> (r: usize)
    requires
        v <= VARINT_MAX,
    ensures
        r == spec_varint_len(v),
        r == spec_varint(v).len(),
{
    proof {
        lemma_varint_len(v);
    }
    if v <= VARINT_MAX_1 as u64 {
        1
    } else if v <= VARINT_MAX_2 as u64 {
        2
    } else if v <= VARINT_MAX_4 as u64 {
        4
    } else {
        8
    }
}

/// Returns how long the variable-length integer is, given its first byte.
pub fn varint_parse_len(first: u8) -> (r: usize)
    ensures
        r == spec_varint_parse_len(first),
{
    let tag = first >> 6;
    assert(tag == first >> 6u8 ==> tag < 4u8 && (tag == 0 ==> (1usize << tag) == 1usize) && (tag
        == 1 ==> (1usize << tag) == 2usize) && (tag == 2 ==> (1usize << tag) == 4usize) && (tag
        == 3 ==> (1usize << tag) == 8usize)) by (bit_vector);
    1usize << tag
}

pub proof fn lemma_be_bytes_len(x: u64, n: nat)
    ensures
        be_bytes(x, n).len() == n,
    decreases n,
{
    if n > 0 {
        lemma_be_bytes_len(x >> 8u64, (n - 1) as nat);
    }
}

pub proof fn lemma_varint_len(v: u64)
    ensures
        spec_varint(v).len() == spec_varint_len(v),
{
    lemma_be_bytes_len(v, 1);
    lemma_be_bytes_len(v | 0x4000u64, 2);
    lemma_be_bytes_len(v | 0x8000_0000u64, 4);
    lemma_be_bytes_len(v | 0xc000_0000_0000_0000u64, 8);
}

/// Reading `n` bytes only looks at the first `n` bytes.
pub proof fn lemma_be_prefix_extend(s: Seq<u8>, t: Seq<u8>, n: nat)
    requires
        n <= s.len(),
    ensures
        be_prefix(s + t, n) == be_prefix(s, n),
    decreases n,
{
    if n > 0 {
        lemma_be_prefix_extend(s, t, (n - 1) as nat);
        assert((s + t)[n - 1] == s[n - 1]);
    }
}

/// Reading `n` bytes of a subrange is reading them from the original offset.
pub proof fn lemma_be_prefix_skip(s: Seq<u8>, p: int, n: nat)
    requires
        0 <= p,
        p + n <= s.len(),
    ensures
        be_prefix(s.skip(p), n) == be_prefix(s.subrange(p, p + n), n),
    decreases n,
{
    if n > 0 {
        lemma_be_prefix_skip(s, p, (n - 1) as nat);
        assert(s.skip(p)[n - 1] == s.subrange(p, p + n)[n - 1]);
        assert(be_prefix(s.subrange(p, p + n), (n - 1) as nat) == be_prefix(
            s.subrange(p, p + n - 1),
            (n - 1) as nat,
        )) by {
            lemma_be_prefix_same(s.subrange(p, p + n), s.subrange(p, p + n - 1), (n - 1) as nat);
        }
        assert(be_prefix(s.skip(p), (n - 1) as nat) == be_prefix(
            s.subrange(p, p + n - 1),
            (n - 1) as nat,
        ));
    }
}

/// Two sequences that agree on their first `n` bytes read the same.
pub proof fn lemma_be_prefix_same(s: Seq<u8>, t: Seq<u8>, n: nat)
    requires
        n <= s.len(),
        n <= t.len(),
        forall|i: int| 0 <= i < n ==> s[i] == t[i],
    ensures
        be_prefix(s, n) == be_prefix(t, n),
    decreases n,
{
    if n > 0 {
        lemma_be_prefix_same(s, t, (n - 1) as nat);
    }
}

/// Reading back the big-endian bytes of `x` gives `x` for the widths QUIC
/// uses.
pub proof fn lemma_be_roundtrip(x: u64, n: nat)
    requires
        n == 1 || n == 2 || n == 3 || n == 4 || n == 8,
    ensures
        n == 1 ==> be_prefix(be_bytes(x, n), n) == x & 0xffu64,
        n == 2 ==> be_prefix(be_bytes(x, n), n) == x & 0xffffu64,
        n == 3 ==> be_prefix(be_bytes(x, n), n) == x & 0xff_ffffu64,
        n == 4 ==> be_prefix(be_bytes(x, n), n) == x & 0xffff_ffffu64,
        n == 8 ==> be_prefix(be_bytes(x, n), n) == x,
{
    reveal_with_fuel(be_bytes, 9);
    reveal_with_fuel(be_prefix, 9);
    let s = be_bytes(x, n);
    lemma_be_bytes_len(x, n);
    assert(((0u64 << 8u64) | ((x as u8) as u64)) == x & 0xffu64 && ((((0u64 << 8u64) | (((x
        >> 8u64) as u8) as u64)) << 8u64) | ((x as u8) as u64)) == x & 0xffffu64 && ((((((0u64
        << 8u64) | ((((x >> 8u64) >> 8u64) as u8) as u64)) << 8u64) | (((x >> 8u64) as u8) as u64))
        << 8u64) | ((x as u8) as u64)) == x & 0xff_ffffu64 && ((((((((0u64 << 8u64) | (((((x
        >> 8u64) >> 8u64) >> 8u64) as u8) as u64)) << 8u64) | ((((x >> 8u64) >> 8u64) as u8)
        as u64)) << 8u64) | (((x >> 8u64) as u8) as u64)) << 8u64) | ((x as u8) as u64)) == x
        & 0xffff_ffffu64) by (bit_vector);
    if n == 1 {
        assert(s[0] == x as u8);
    } else if n == 2 {
        assert(s[0] == (x >> 8u64) as u8);
        assert(s[1] == x as u8);
    } else if n == 3 {
        assert(s[0] == ((x >> 8u64) >> 8u64) as u8);
        assert(s[1] == (x >> 8u64) as u8);
        assert(s[2] == x as u8);
    } else if n == 4 {
        assert(s[0] == (((x >> 8u64) >> 8u64) >> 8u64) as u8);
        assert(s[1] == ((x >> 8u64) >> 8u64) as u8);
        assert(s[2] == (x >> 8u64) as u8);
        assert(s[3] == x as u8);
    } else {
        let x1 = x >> 8u64;
        let x2 = x1 >> 8u64;
        let x3 = x2 >> 8u64;
        let x4 = x3 >> 8u64;
        let x5 = x4 >> 8u64;
        let x6 = x5 >> 8u64;
        let x7 = x6 >> 8u64;
        assert(s[0] == x7 as u8);
        assert(s[1] == x6 as u8);
        assert(s[2] == x5 as u8);
        assert(s[3] == x4 as u8);
        assert(s[4] == x3 as u8);
        assert(s[5] == x2 as u8);
        assert(s[6] == x1 as u8);
        assert(s[7] == x as u8);
        assert(((((((((((((((((0u64 << 8u64) | ((x7 as u8) as u64)) << 8u64) | ((x6 as u8)
            as u64)) << 8u64) | ((x5 as u8) as u64)) << 8u64) | ((x4 as u8) as u64)) << 8u64)
            | ((x3 as u8) as u64)) << 8u64) | ((x2 as u8) as u64)) << 8u64) | ((x1 as u8)
            as u64)) << 8u64) | ((x as u8) as u64)) == x) by (bit_vector)
            requires
                x1 == x >> 8u64,
                x2 == x1 >> 8u64,
                x3 == x2 >> 8u64,
                x4 == x3 >> 8u64,
                x5 == x4 >> 8u64,
                x6 == x5 >> 8u64,
                x7 == x6 >> 8u64,
        ;
    }
}

/// Decoding the encoding of `v`, followed by anything, gives back `v` and
/// the length of its encoding.
pub proof fn lemma_varint_roundtrip(v: u64, rest: Seq<u8>)
    requires
        v <= VARINT_MAX,
    ensures
        spec_parse_varint(spec_varint(v) + rest) == Some((v, spec_varint_len(v))),
{
    let e = spec_varint(v);
    let s = e + rest;
    let n = spec_varint_len(v);
    lemma_varint_len(v);
    lemma_be_prefix_extend(e, rest, n);
    reveal_with_fuel(be_bytes, 9);
    assert(s[0] == e[0]);
    if v <= VARINT_MAX_1 as u64 {
        lemma_be_roundtrip(v, 1);
        assert(e[0] == v as u8);
        assert(v <= 0x3f ==> (v as u8) >> 6u8 == 0u8 && v & 0xffu64 & 0x3fu64 == v) by (bit_vector);
    } else if v <= VARINT_MAX_2 as u64 {
        let x = v | 0x4000u64;
        lemma_be_roundtrip(x, 2);
        assert(e[0] == (x >> 8u64) as u8);
        assert(x == v | 0x4000u64 && v <= 0x3fff ==> ((x >> 8u64) as u8) >> 6u8 == 1u8 && x
            & 0xffffu64 & 0x3fffu64 == v) by (bit_vector);
    } else if v <= VARINT_MAX_4 as u64 {
        let x = v | 0x8000_0000u64;
        lemma_be_roundtrip(x, 4);
        assert(e[0] == (((x >> 8u64) >> 8u64) >> 8u64) as u8);
        assert(x == v | 0x8000_0000u64 && v <= 0x3fff_ffff ==> ((((x >> 8u64) >> 8u64) >> 8u64)
            as u8) >> 6u8 == 2u8 && x & 0xffff_ffffu64 & 0x3fff_ffffu64 == v) by (bit_vector);
    } else {
        let x = v | 0xc000_0000_0000_0000u64;
        lemma_be_roundtrip(x, 8);
        assert(e[0] == (((((((x >> 8u64) >> 8u64) >> 8u64) >> 8u64) >> 8u64) >> 8u64) >> 8u64)
            as u8);
        assert(x == v | 0xc000_0000_0000_0000u64 && v <= 0x3fff_ffff_ffff_ffff ==> ((((((((x
            >> 8u64) >> 8u64) >> 8u64) >> 8u64) >> 8u64) >> 8u64) >> 8u64) as u8) >> 6u8 == 3u8 && x
            & 0x3fff_ffff_ffff_ffffu64 == v) by (bit_vector);
    }
}

/// Appends the big-endian bytes of the `n` least significant bytes of `x`.
pub fn put_be(out: &mut Vec<u8>, x: u64, n: usize)
    requires
        n <= 8,
    ensures
        final(out)@ == old(out)@ + be_bytes(x, n as nat),
    decreases n,
{
    if n > 0 {
        put_be(out, x >> 8, n - 1);
        out.push(x as u8);
        assert(final(out)@ == old(out)@ + be_bytes(x, n as nat));
    }
}

/// Reads the `n` bytes at `pos` of `s` as a big-endian integer.
pub fn read_be(s: &[u8], pos: usize, n: usize) -> (r: u64)
    requires
        pos + n <= s.len(),
    ensures
        r == be_prefix(s@.skip(pos as int), n as nat),
{
    let mut acc: u64 = 0;
    let mut i: usize = 0;
    while i < n
        invariant
            pos + n <= s.len(),
            i <= n,
            acc == be_prefix(s@.skip(pos as int), i as nat),
        decreases n - i,
    {
        acc = (acc << 8) | (s[pos + i] as u64);
        i += 1;
    }
    acc
}

/// Puts an unsigned variable-length integer into `out` in network byte
/// order.
pub fn put_varint(out: &mut Vec<u8>, v: u64)
    requires
        v <= VARINT_MAX,
    ensures
        final(out)@ == old(out)@ + spec_varint(v),
{
    let len = varint_len(v);
    if len == 1 {
        put_be(out, v, 1);
    } else if len == 2 {
        put_be(out, v | 0x4000, 2);
    } else if len == 4 {
        put_be(out, v | 0x8000_0000, 4);
    } else {
        put_be(out, v | 0xc000_0000_0000_0000, 8);
    }
}

/// Puts `bytes` into `out`, prefixed with an unsigned variable-length
/// integer length in network byte order.
pub fn put_bytes_with_varint_length(out: &mut Vec<u8>, bytes: &[u8])
    requires
        bytes.len() <= VARINT_MAX,
    ensures
        final(out)@ == old(out)@ + spec_varint(bytes.len() as u64) + bytes@,
{
    put_varint(out, bytes.len() as u64);
    put_slice(out, bytes);
}

/// Appends all of `bytes` to `out`.
pub fn put_slice(out: &mut Vec<u8>, bytes: &[u8])
    ensures
        final(out)@ == old(out)@ + bytes@,
{
    let ghost start = out@;
    let mut i: usize = 0;
    while i < bytes.len()
        invariant
            i <= bytes.len(),
            out@ == start + bytes@.take(i as int),
        decreases bytes.len() - i,
    {
        out.push(bytes[i]);
        i += 1;
        assert(bytes@.take(i as int) == bytes@.take(i - 1) + seq![bytes@[i - 1]]);
    }
    assert(bytes@.take(i as int) == bytes@);
}

/// Gets an unsigned variable-length integer at `pos` of `buf` in network
/// byte order, with the position that follows it.
///
/// Returns `Err(TryGetError)` when there are not enough remaining bytes to
/// read the value.
pub fn try_get_varint(buf: &[u8], pos: usize) -> (r: Result<(u64, usize), TryGetError>)
    requires
        pos <= buf.len(),
    ensures
        match r {
            Ok((v, next)) => spec_parse_varint(buf@.skip(pos as int)) == Some(
                (v, (next - pos) as nat),
            ) && pos < next <= buf.len(),
            Err(e) => spec_parse_varint(buf@.skip(pos as int)) is None && e.available == buf.len()
                - pos && e.requested == (if pos == buf.len() {
                1
            } else {
                spec_varint_parse_len(buf@[pos as int])
            }),
        },
{
    let remaining = buf.len() - pos;
    if remaining < 1 {
        return Err(TryGetError { requested: 1, available: remaining });
    }
    let first = buf[pos];
    let len = varint_parse_len(first);
    if remaining < len {
        return Err(TryGetError { requested: len, available: remaining });
    }
    let x = read_be(buf, pos, len);
    let v = if len == 1 {
        x & (VARINT_MAX_1 as u64)
    } else if len == 2 {
        x & (VARINT_MAX_2 as u64)
    } else if len == 4 {
        x & (VARINT_MAX_4 as u64)
    } else {
        x & VARINT_MAX_8
    };
    Ok((v, pos + len))
}

/// A parsed variable-length integer never exceeds `VARINT_MAX`.
pub proof fn lemma_parse_varint_bound(s: Seq<u8>)
    ensures
        spec_parse_varint(s) matches Some((v, n)) ==> v <= VARINT_MAX && 1 <= n <= 8 && n
            <= s.len(),
{
    if let Some((v, n)) = spec_parse_varint(s) {
        let x = be_prefix(s, n);
        assert(x & 0x3fu64 <= 0x3fff_ffff_ffff_ffffu64 && x & 0x3fffu64 <= 0x3fff_ffff_ffff_ffffu64
            && x & 0x3fff_ffffu64 <= 0x3fff_ffff_ffff_ffffu64 && x & 0x3fff_ffff_ffff_ffffu64
            <= 0x3fff_ffff_ffff_ffffu64) by (bit_vector);
    }
}

/// Reading a variable-length integer only looks at the bytes it takes.
pub proof fn lemma_parse_varint_extend(s: Seq<u8>, t: Seq<u8>)
    requires
        spec_parse_varint(s) is Some,
    ensures
        spec_parse_varint(s + t) == spec_parse_varint(s),
{
    let n = spec_varint_parse_len(s[0]);
    lemma_be_prefix_extend(s, t, n);
    assert((s + t)[0] == s[0]);
}

} // verus!

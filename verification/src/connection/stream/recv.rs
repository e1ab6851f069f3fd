//! The receiving half of a stream: its state and the reassembly of the
//! frames that arrive into an ordered byte stream.
use std::collections::VecDeque;

use bytes::Bytes;
use vstd::prelude::*;

use crate::buf::{bytes_len, bytes_slice, bytes_view};
use crate::error::{TransportError, TransportErrorCode};
use crate::frame::Stream;

use crate::common::StreamId;
use crate::connection::Connection;
use crate::frame::StopSending;

use super::ClosedStream;
use super::state::StreamsState;

verus! {

/// The offset past the end of a segment.
pub open spec fn seg_end(s: (u64, Seq<u8>)) -> int {
    s.0 + s.1.len()
}

/// The number of segments at the start of `s` that satisfy `p`.
pub open spec fn prefix_while(s: Seq<(u64, Seq<u8>)>, p: spec_fn((u64, Seq<u8>)) -> bool) -> nat
    decreases s.len(),
{
    if s.len() == 0 {
        0
    } else if p(s[0]) {
        1 + prefix_while(s.drop_first(), p)
    } else {
        0
    }
}

/// The segments before the prefix count satisfy the predicate, and the
/// one at the count, if any, does not.
pub proof fn lemma_prefix_while(s: Seq<(u64, Seq<u8>)>, p: spec_fn((u64, Seq<u8>)) -> bool)
    ensures
        prefix_while(s, p) <= s.len(),
        forall|i: int| 0 <= i < prefix_while(s, p) ==> p(#[trigger] s[i]),
        prefix_while(s, p) < s.len() ==> !p(s[prefix_while(s, p) as int]),
    decreases s.len(),
{
    if s.len() > 0 && p(s[0]) {
        lemma_prefix_while(s.drop_first(), p);
        assert forall|i: int| 0 <= i < prefix_while(s, p) implies p(#[trigger] s[i]) by {
            if i > 0 {
                assert(s[i] == s.drop_first()[i - 1]);
            }
        }
    }
}

/// The only count with that property is the prefix count.
pub proof fn lemma_prefix_while_unique(
    s: Seq<(u64, Seq<u8>)>,
    p: spec_fn((u64, Seq<u8>)) -> bool,
    k: int,
)
    requires
        0 <= k <= s.len(),
        forall|i: int| 0 <= i < k ==> p(#[trigger] s[i]),
        k < s.len() ==> !p(s[k]),
    ensures
        prefix_while(s, p) == k,
{
    lemma_prefix_while(s, p);
    let n = prefix_while(s, p) as int;
    if n < k {
        assert(p(s[n]));
    } else if k < n {
        assert(p(s[k]));
    }
}

/// Whether a segment ends at or before `o`.
pub open spec fn ends_by(o: int) -> spec_fn((u64, Seq<u8>)) -> bool {
    |s: (u64, Seq<u8>)| seg_end(s) <= o
}

/// Whether a segment starts before `e` and ends at or before it.
pub open spec fn covered_by(e: int) -> spec_fn((u64, Seq<u8>)) -> bool {
    |s: (u64, Seq<u8>)| s.0 < e && seg_end(s) <= e
}

/// Segments are non-empty, in order of offset, without overlap, and end
/// within 64 bits.
pub open spec fn segs_wf(segs: Seq<(u64, Seq<u8>)>) -> bool {
    &&& forall|i: int| 0 <= i < segs.len() ==> #[trigger] segs[i].1.len() > 0
    &&& forall|i: int| 0 <= i < segs.len() ==> seg_end(#[trigger] segs[i]) <= u64::MAX
    &&& forall|i: int, j: int| 0 <= i < j < segs.len() ==> seg_end(#[trigger] segs[i]) <= (
    #[trigger] segs[j]).0
}

/// Where new data received at `offset` begins to be stored, once the first
/// `read` bytes of the stream were read: past what was read, and past a
/// stored segment that holds its first position.
pub open spec fn insert_from(segs: Seq<(u64, Seq<u8>)>, read: u64, offset: u64) -> int {
    let o1: int = if offset < read {
        read as int
    } else {
        offset as int
    };
    let k = prefix_while(segs, ends_by(o1)) as int;
    if k < segs.len() && segs[k].0 < o1 {
        seg_end(segs[k])
    } else {
        o1
    }
}

/// The segments after storing `bytes` from `o1`, where no segment holds
/// position `o1`: the segments that end within the new data are replaced by
/// it, and the new data stops where the next segment starts.
pub open spec fn place_result(segs: Seq<(u64, Seq<u8>)>, o1: int, b1: Seq<u8>) -> Seq<(u64, Seq<u8>)> {
    let frame_end = o1 + b1.len();
    let k = prefix_while(segs, ends_by(o1)) as int;
    let j = k + prefix_while(segs.skip(k), covered_by(frame_end));
    let b3 = if j < segs.len() && segs[j].0 < frame_end {
        b1.take(segs[j].0 - o1)
    } else {
        b1
    };
    if b3.len() == 0 {
        segs.take(k) + segs.skip(j)
    } else {
        segs.take(k) + seq![(o1 as u64, b3)] + segs.skip(j)
    }
}

/// The segments after inserting `bytes` at `offset`, once the first `read`
/// bytes of the stream were read: the part already read or already stored
/// at its front is dropped, and the rest is placed.
pub open spec fn insert_result(
    segs: Seq<(u64, Seq<u8>)>,
    read: u64,
    offset: u64,
    bytes: Seq<u8>,
) -> Seq<(u64, Seq<u8>)> {
    let frame_end = offset + bytes.len();
    let o1 = insert_from(segs, read, offset);
    if bytes.len() == 0 || frame_end <= read || frame_end <= o1 {
        segs
    } else {
        place_result(segs, o1, bytes.skip(o1 - offset))
    }
}

/// A chunk of data from the receive stream
#[derive(Debug)]
pub struct Chunk {
    /// The offset in the stream
    pub offset: u64,
    /// The contents of the chunk
    pub bytes: Bytes,
}

pub struct Buffer {
    offset: u64,
    bytes: Bytes,
    /// Size of the allocation behind `bytes`. Will never be less than
    /// `bytes.len()`.
    allocation_size: usize,
    defragmented: bool,
}

impl View for Buffer {
    type V = (u64, Seq<u8>);

    closed spec fn view(&self) -> (u64, Seq<u8>) {
        (self.offset, bytes_view(self.bytes))
    }
}

impl Buffer {
    /// Constructs a new fragmented Buffer
    pub fn new(offset: u64, bytes: Bytes, allocation_size: usize) -> (r: Self)
        ensures
            r@ == (offset, bytes_view(bytes)),
            r.spec_allocation_size() == allocation_size,
    {
        Self { offset, bytes, allocation_size, defragmented: false }
    }

    pub closed spec fn spec_allocation_size(&self) -> usize {
        self.allocation_size
    }

    /// Whether the buffer is known to use its allocation well.
    pub closed spec fn spec_defragmented(&self) -> bool {
        self.defragmented
    }

    /// Constructs a new defragmented Buffer, whose allocation is its bytes.
    pub fn new_defragmented(offset: u64, bytes: Bytes) -> (r: Self)
        ensures
            r@ == (offset, bytes_view(bytes)),
            r.spec_allocation_size() == bytes_view(bytes).len(),
            r.spec_defragmented(),
    {
        let allocation_size = bytes_len(&bytes);
        Self { offset, bytes, allocation_size, defragmented: true }
    }

    /// Discards data before `offset` and flags `self` as defragmented if it
    /// uses at least five sixths of its allocation; a defragmented buffer
    /// takes no more allocation than its bytes.
    pub fn try_mark_defragment(&mut self, offset: u64)
        requires
            old(self)@.1.len() * 6 <= usize::MAX,
        ensures
            ({
                let (o, b) = old(self)@;
                let duplicate = if offset > o {
                    offset - o
                } else {
                    0
                };
                let rest = if duplicate >= b.len() {
                    Seq::<u8>::empty()
                } else {
                    b.skip(duplicate)
                };
                let defragmented = duplicate >= b.len() || old(self).spec_defragmented() || rest.len()
                    * 6 / 5 >= old(self).spec_allocation_size();
                &&& final(self)@ == (
                    if offset > o {
                        offset
                    } else {
                        o
                    },
                    rest,
                )
                &&& final(self).spec_defragmented() == defragmented
                &&& final(self).spec_allocation_size() == if defragmented {
                    rest.len() as usize
                } else {
                    old(self).spec_allocation_size()
                }
            }),
    {
        let duplicate: u64 = if offset > self.offset {
            offset - self.offset
        } else {
            0
        };
        if offset > self.offset {
            self.offset = offset;
        }
        let len = bytes_len(&self.bytes);
        if duplicate >= len as u64 {
            // All bytes are duplicate
            self.bytes = crate::buf::bytes_new();
            self.defragmented = true;
            self.allocation_size = 0;
            return;
        }
        self.bytes = bytes_slice(&self.bytes, duplicate as usize, len);
        // Make sure that fragmented buffers with high utilization become defragmented
        // and defragmented buffers remain defragmented
        let rest_len = len - duplicate as usize;
        self.defragmented = self.defragmented || rest_len * 6 / 5 >= self.allocation_size;
        if self.defragmented {
            // Make sure that defragmented buffers do not contribute to over-allocation
            self.allocation_size = rest_len;
        }
    }
}

/// The segments the buffers hold.
pub open spec fn buffers_view(data: Seq<Buffer>) -> Seq<(u64, Seq<u8>)> {
    data.map_values(|b: Buffer| b@)
}

/// The sum of the lengths of the buffers.
pub open spec fn total_len(data: Seq<Buffer>) -> nat
    decreases data.len(),
{
    if data.len() == 0 {
        0
    } else {
        total_len(data.drop_last()) + data.last()@.1.len()
    }
}

/// The sum of the allocation sizes of the buffers.
pub open spec fn total_alloc(data: Seq<Buffer>) -> nat
    decreases data.len(),
{
    if data.len() == 0 {
        0
    } else {
        total_alloc(data.drop_last()) + data.last().spec_allocation_size() as nat
    }
}



/// The number of bytes the segments hold.
pub open spec fn segs_len(segs: Seq<(u64, Seq<u8>)>) -> nat
    decreases segs.len(),
{
    if segs.len() == 0 {
        0
    } else {
        segs_len(segs.drop_last()) + segs.last().1.len()
    }
}

proof fn lemma_total_len_segs(data: Seq<Buffer>)
    ensures
        total_len(data) == segs_len(buffers_view(data)),
    decreases data.len(),
{
    if data.len() > 0 {
        assert(buffers_view(data.drop_last()) =~= buffers_view(data).drop_last());
        lemma_total_len_segs(data.drop_last());
    }
}

/// Dropping a run of segments, and putting one in its place that fits
/// between its neighbours, keeps the segments well formed.
pub proof fn lemma_segs_splice(segs: Seq<(u64, Seq<u8>)>, k: int, j: int, m: Option<(u64, Seq<u8>)>)
    requires
        segs_wf(segs),
        0 <= k <= j <= segs.len(),
        m matches Some(x) ==> {
            &&& x.1.len() > 0
            &&& seg_end(x) <= u64::MAX
            &&& k > 0 ==> seg_end(segs[k - 1]) <= x.0
            &&& j < segs.len() ==> seg_end(x) <= segs[j].0
        },
    ensures
        ({
            let mid = match m {
                Some(x) => seq![x],
                None => Seq::empty(),
            };
            let out = segs.take(k) + mid + segs.skip(j);
            &&& segs_wf(out)
            &&& out.len() > 0 ==> (k > 0 && out[0] == segs[0]) || (k == 0 && m is Some && out[0]
                == m->0) || (k == 0 && m is None && out[0] == segs[j])
        }),
{
    let mid = match m {
        Some(x) => seq![x],
        None => Seq::<(u64, Seq<u8>)>::empty(),
    };
    let out = segs.take(k) + mid + segs.skip(j);
    let ml = mid.len() as int;
    assert forall|a: int| 0 <= a < out.len() implies #[trigger] out[a].1.len() > 0 && seg_end(
        out[a],
    ) <= u64::MAX by {
        if a < k {
            assert(out[a] == segs[a]);
        } else if a < k + ml {
        } else {
            assert(out[a] == segs[j + (a - k - ml)]);
        }
    }
    assert forall|a: int, b: int| 0 <= a < b < out.len() implies seg_end(#[trigger] out[a]) <= (
    #[trigger] out[b]).0 by {
        if b < k {
            assert(out[a] == segs[a] && out[b] == segs[b]);
        } else if b < k + ml {
            assert(out[a] == segs[a]);
            if a < k - 1 {
                assert(seg_end(segs[a]) <= segs[k - 1].0);
            }
        } else {
            let bb = j + (b - k - ml);
            assert(out[b] == segs[bb]);
            if a < k {
                assert(out[a] == segs[a]);
                if a < bb {
                }
            } else if a < k + ml {
                if j < bb {
                    assert(seg_end(segs[j]) <= segs[bb].0);
                }
            } else {
                assert(out[a] == segs[j + (a - k - ml)]);
            }
        }
    }
}

/// The total length of two runs of buffers is the sum of theirs.
pub proof fn lemma_total_concat(a: Seq<Buffer>, b: Seq<Buffer>)
    ensures
        total_len(a + b) == total_len(a) + total_len(b),
        total_alloc(a + b) == total_alloc(a) + total_alloc(b),
    decreases b.len(),
{
    if b.len() == 0 {
        assert(a + b =~= a);
    } else {
        lemma_total_concat(a, b.drop_last());
        assert((a + b).drop_last() =~= a + b.drop_last());
    }
}

/// Removing a buffer takes its length and allocation from the totals.
pub proof fn lemma_total_remove(a: Seq<Buffer>, i: int)
    requires
        0 <= i < a.len(),
    ensures
        total_len(a.remove(i)) + a[i]@.1.len() == total_len(a),
        total_alloc(a.remove(i)) + a[i].spec_allocation_size() == total_alloc(a),
{
    reveal_with_fuel(total_len, 2);
    reveal_with_fuel(total_alloc, 2);
    assert(a =~= a.take(i) + seq![a[i]] + a.skip(i + 1));
    assert(a.remove(i) =~= a.take(i) + a.skip(i + 1));
    lemma_total_concat(a.take(i) + seq![a[i]], a.skip(i + 1));
    lemma_total_concat(a.take(i), seq![a[i]]);
    lemma_total_concat(a.take(i), a.skip(i + 1));
    assert(seq![a[i]].drop_last() =~= Seq::<Buffer>::empty());
    assert(total_len(seq![a[i]]) == a[i]@.1.len());
    assert(total_alloc(seq![a[i]]) == a[i].spec_allocation_size());
}

/// Inserting a buffer adds its length and allocation to the totals.
pub proof fn lemma_total_insert(a: Seq<Buffer>, i: int, b: Buffer)
    requires
        0 <= i <= a.len(),
    ensures
        total_len(a.insert(i, b)) == total_len(a) + b@.1.len(),
        total_alloc(a.insert(i, b)) == total_alloc(a) + b.spec_allocation_size(),
{
    lemma_total_remove(a.insert(i, b), i);
    assert(a.insert(i, b).remove(i) =~= a);
}

/// What `Assembler::read` does: nothing when no data follows what was
/// read; otherwise the first segment, or its first `max_length` bytes, is
/// handed out and counted as read.
pub open spec fn read_effect(old: Assembler, new: Assembler, max_length: usize, r: Option<Chunk>) -> bool {
    &&& new.spec_end() == old.spec_end()
    &&& ({
                let segs = old.segments();
                if segs.len() == 0 || segs[0].0 != old.spec_bytes_read() {
                    r is None && new == old
                } else if max_length < segs[0].1.len() {
                    &&& r matches Some(c) && c.offset == segs[0].0 && bytes_view(c.bytes)
                        == segs[0].1.take(max_length as int)
                    &&& new.segments() == segs.update(
                        0,
                        ((segs[0].0 + max_length) as u64, segs[0].1.skip(max_length as int)),
                    )
                    &&& new.spec_bytes_read() == old.spec_bytes_read() + max_length
                } else {
                    &&& r matches Some(c) && c.offset == segs[0].0 && bytes_view(c.bytes)
                        == segs[0].1
                    &&& new.segments() == segs.drop_first()
                    &&& new.spec_bytes_read() == old.spec_bytes_read()
                        + segs[0].1.len()
                }
            })
}

/// What a read gives back of a write: bytes written at the read position
/// of an assembler that holds nothing are what the next read returns, at
/// that position, up to the length asked for.
pub proof fn lemma_write_then_read(a0: Assembler, a1: Assembler, a2: Assembler, bytes: Seq<u8>, max_length: usize, r: Option<Chunk>)
    requires
        a0.segments().len() == 0,
        bytes.len() > 0,
        a0.spec_bytes_read() + bytes.len() <= u64::MAX,
        a1.segments() == insert_result(a0.segments(), a0.spec_bytes_read(), a0.spec_bytes_read(), bytes),
        a1.spec_bytes_read() == a0.spec_bytes_read(),
        read_effect(a1, a2, max_length, r),
    ensures
        r matches Some(c) && c.offset == a0.spec_bytes_read() && bytes_view(c.bytes) == if max_length
            < bytes.len() {
            bytes.take(max_length as int)
        } else {
            bytes
        },
{
    let segs = a0.segments();
    let read = a0.spec_bytes_read();
    assert(prefix_while(segs, ends_by(read as int)) == 0);
    assert(prefix_while(segs.skip(0), covered_by(read + bytes.len())) == 0);
    assert(bytes.skip(0) =~= bytes);
    assert(a1.segments() =~= seq![(read, bytes)]);
}

/// Reordered data is read back in order: of two pieces of a stream, the
/// second written first at its offset, then the first at the read
/// position, the reads give the first piece, then the second.
pub proof fn lemma_reordered_pieces(read: u64, first: Seq<u8>, second: Seq<u8>)
    requires
        first.len() > 0,
        second.len() > 0,
        read + first.len() + second.len() <= u64::MAX,
    ensures
        insert_result(
            insert_result(Seq::empty(), read, (read + first.len()) as u64, second),
            read,
            read,
            first,
        ) == seq![(read, first), ((read + first.len()) as u64, second)],
{
    let o2 = (read + first.len()) as u64;
    let e: Seq<(u64, Seq<u8>)> = Seq::empty();
    assert(prefix_while(e, ends_by(o2 as int)) == 0);
    assert(prefix_while(e.skip(0), covered_by(o2 + second.len())) == 0);
    assert(second.skip(0) =~= second);
    let s1 = insert_result(e, read, o2, second);
    assert(s1 =~= seq![(o2, second)]);
    assert(prefix_while(s1, ends_by(read as int)) == 0) by {
        reveal_with_fuel(prefix_while, 2);
    }
    assert(prefix_while(s1.skip(0), covered_by(read + first.len())) == 0) by {
        reveal_with_fuel(prefix_while, 2);
        assert(s1.skip(0) =~= s1);
    }
    assert(first.skip(0) =~= first);
    assert(first.take(o2 - read) =~= first);
    assert(insert_result(s1, read, read, first) =~= seq![(read, first), (o2, second)]);
}

/// Whether segment `s` holds stream position `x`.
pub open spec fn in_seg(s: (u64, Seq<u8>), x: int) -> bool {
    s.0 <= x < seg_end(s)
}

/// Whether one of the segments holds stream position `x`.
pub open spec fn holds(segs: Seq<(u64, Seq<u8>)>, x: int) -> bool {
    exists|i: int| 0 <= i < segs.len() && #[trigger] in_seg(segs[i], x)
}

/// The byte the segments hold at stream position `x`.
pub open spec fn byte_at(segs: Seq<(u64, Seq<u8>)>, x: int) -> u8 {
    let i = choose|i: int| 0 <= i < segs.len() && #[trigger] in_seg(segs[i], x);
    segs[i].1[x - segs[i].0]
}

/// In well formed segments, the one segment that holds a position gives
/// its byte.
proof fn lemma_byte_at(segs: Seq<(u64, Seq<u8>)>, i: int, x: int)
    requires
        segs_wf(segs),
        0 <= i < segs.len(),
        in_seg(segs[i], x),
    ensures
        holds(segs, x),
        byte_at(segs, x) == segs[i].1[x - segs[i].0],
{
    let c = choose|c: int| 0 <= c < segs.len() && #[trigger] in_seg(segs[c], x);
    assert(0 <= c < segs.len() && in_seg(segs[c], x));
    if c < i {
        assert(seg_end(segs[c]) <= segs[i].0);
    } else if i < c {
        assert(seg_end(segs[i]) <= segs[c].0);
    }
}

/// Where an insert starts to store: no earlier than the data and what was
/// read; the segments before that point end by it, the next one starts
/// at or after it, and what lies between the data's start and that point
/// is held by the segment just before it.
proof fn lemma_insert_from(segs: Seq<(u64, Seq<u8>)>, read: u64, offset: u64)
    requires
        segs_wf(segs),
    ensures
        ({
            let o0: int = if offset < read {
                read as int
            } else {
                offset as int
            };
            let o1 = insert_from(segs, read, offset);
            let k = prefix_while(segs, ends_by(o1)) as int;
            &&& o1 >= o0
            &&& k <= segs.len()
            &&& forall|i: int| 0 <= i < k ==> seg_end(#[trigger] segs[i]) <= o1
            &&& k < segs.len() ==> segs[k].0 >= o1 && seg_end(segs[k]) > o1
            &&& o1 > o0 ==> k > 0 && segs[k - 1].0 <= o0 && seg_end(segs[k - 1]) == o1
        }),
{
    let o0: int = if offset < read {
        read as int
    } else {
        offset as int
    };
    lemma_prefix_while(segs, ends_by(o0));
    let k0 = prefix_while(segs, ends_by(o0)) as int;
    let o1 = insert_from(segs, read, offset);
    if k0 < segs.len() && segs[k0].0 < o0 {
        if k0 + 1 < segs.len() {
            assert(seg_end(segs[k0]) <= segs[k0 + 1].0);
            assert(segs[k0 + 1].1.len() > 0);
        }
        assert forall|i: int| 0 <= i < k0 + 1 implies (#[trigger] ends_by(o1)(segs[i])) by {
            if i < k0 {
                assert(ends_by(o0)(segs[i]));
            }
        }
        lemma_prefix_while_unique(segs, ends_by(o1), k0 + 1);
        assert forall|i: int| 0 <= i < k0 + 1 implies seg_end(#[trigger] segs[i]) <= o1 by {
            assert(ends_by(o1)(segs[i]));
        }
    } else {
        assert forall|i: int| 0 <= i < k0 implies seg_end(#[trigger] segs[i]) <= o1 by {
            assert(ends_by(o0)(segs[i]));
        }
        if k0 < segs.len() {
            assert(!ends_by(o0)(segs[k0]));
        }
    }
}

/// Inserting keeps what was stored and adds what is new: after an insert,
/// a position at or past what was read is held exactly when it was held
/// before or lies in the new data; its byte is the one held before, or the
/// new data's byte at a position of the new data; so a byte held before
/// stays wherever the new data does not cover it or agrees with it.
#[verifier::spinoff_prover]
#[verifier::rlimit(100)]
pub proof fn lemma_insert_keeps_bytes(segs: Seq<(u64, Seq<u8>)>, read: u64, offset: u64, bytes: Seq<u8>, x: int)
    requires
        segs_wf(segs),
        offset + bytes.len() <= u64::MAX,
        x >= read,
    ensures
        ({
            let out = insert_result(segs, read, offset, bytes);
            let in_new = offset <= x < offset + bytes.len();
            &&& holds(out, x) <==> holds(segs, x) || in_new
            &&& holds(out, x) ==> (holds(segs, x) && byte_at(out, x) == byte_at(segs, x)) || (in_new
                && byte_at(out, x) == bytes[x - offset])
            &&& holds(segs, x) && (!in_new || byte_at(segs, x) == bytes[x - offset]) ==> byte_at(
                out,
                x,
            ) == byte_at(segs, x)
        }),
{
    let out = insert_result(segs, read, offset, bytes);
    let frame_end = offset + bytes.len();
    let in_new = offset <= x < frame_end;
    let o0: int = if offset < read {
        read as int
    } else {
        offset as int
    };
    let o1 = insert_from(segs, read, offset);
    lemma_insert_from(segs, read, offset);
    let k = prefix_while(segs, ends_by(o1)) as int;
    if bytes.len() == 0 || frame_end <= read || frame_end <= o1 {
        if in_new && x < o1 {
            assert(in_seg(segs[k - 1], x));
        }
    } else {
        let b1 = bytes.skip(o1 - offset);
        lemma_prefix_while(segs.skip(k), covered_by(frame_end));
        let j = k + prefix_while(segs.skip(k), covered_by(frame_end));
        let b3 = if j < segs.len() && segs[j].0 < frame_end {
            b1.take(segs[j].0 - o1)
        } else {
            b1
        };
        assert forall|i: int| k <= i < j implies segs[i].0 < frame_end && seg_end(#[trigger] segs[i])
            <= frame_end && segs[i].0 >= o1 by {
            assert(segs.skip(k)[i - k] == segs[i]);
            assert(covered_by(frame_end)(segs.skip(k)[i - k]));
            if i > k {
                assert(seg_end(segs[k]) <= segs[i].0);
            }
        }
        if j < segs.len() {
            assert(segs.skip(k)[j - k] == segs[j]);
            assert(!covered_by(frame_end)(segs[j]));
            if j > k {
                assert(seg_end(segs[k]) <= segs[j].0);
            }
        }
        let m: Option<(u64, Seq<u8>)> = if b3.len() == 0 {
            None
        } else {
            Some((o1 as u64, b3))
        };
        lemma_segs_splice(segs, k, j, m);
        let mid = match m {
            Some(v) => seq![v],
            None => Seq::<(u64, Seq<u8>)>::empty(),
        };
        let ml = mid.len() as int;
        assert(out == segs.take(k) + mid + segs.skip(j));
        if holds(segs, x) {
            let i = choose|i: int| 0 <= i < segs.len() && #[trigger] in_seg(segs[i], x);
            lemma_byte_at(segs, i, x);
            if i < k {
                assert(out[i] == segs[i]);
                lemma_byte_at(out, i, x);
            } else if i >= j {
                assert(out[i - j + k + ml] == segs[i]);
                lemma_byte_at(out, i - j + k + ml, x);
            } else {
                if j < segs.len() {
                    assert(seg_end(segs[i]) <= segs[j].0);
                }
                assert(out[k] == (o1 as u64, b3));
                assert(in_seg(out[k], x));
                lemma_byte_at(out, k, x);
                assert(b3[x - o1] == bytes[x - offset]);
            }
        }
        if in_new && !holds(segs, x) {
            if x < o1 {
                assert(in_seg(segs[k - 1], x));
            }
            if j < segs.len() && segs[j].0 <= x {
                assert(in_seg(segs[j], x));
            }
            assert(out[k] == (o1 as u64, b3));
            assert(in_seg(out[k], x));
            lemma_byte_at(out, k, x);
            assert(b3[x - o1] == bytes[x - offset]);
        }
        if holds(out, x) {
            let a = choose|a: int| 0 <= a < out.len() && #[trigger] in_seg(out[a], x);
            lemma_byte_at(out, a, x);
            if a < k {
                assert(out[a] == segs[a]);
                lemma_byte_at(segs, a, x);
            } else if a >= k + ml {
                assert(out[a] == segs[a - k - ml + j]);
                lemma_byte_at(segs, a - k - ml + j, x);
            } else {
                assert(out[a] == (o1 as u64, b3));
                assert(b3[x - o1] == bytes[x - offset]);
            }
        }
    }
}

/// Helper to assemble unordered stream frames into an ordered stream
pub struct Assembler {
    // Store received data.
    data: VecDeque<Buffer>,
    /// Total number of buffered bytes.
    buffered: usize,
    /// Estimated number of allocated bytes, will never be less than `buffered`.
    allocated: usize,
    /// Number of bytes read by the application: the length of the
    /// contiguous prefix of the stream which has been consumed.
    bytes_read: u64,
    end: u64,
}

impl Assembler {
    /// The segments are well formed and lie after what was read, and the
    /// counters add up.
    pub closed spec fn wf(&self) -> bool {
        &&& segs_wf(self.segments())
        &&& self.segments().len() > 0 ==> self.segments()[0].0 >= self.bytes_read
        &&& self.buffered == total_len(self.data@)
        &&& self.allocated == total_alloc(self.data@)
    }

    /// The buffered data, as segments in order of offset.
    pub closed spec fn segments(&self) -> Seq<(u64, Seq<u8>)> {
        buffers_view(self.data@)
    }

    pub closed spec fn spec_bytes_read(&self) -> u64 {
        self.bytes_read
    }

    /// The largest offset past any data received.
    pub closed spec fn spec_end(&self) -> u64 {
        self.end
    }

    pub closed spec fn spec_buffered(&self) -> usize {
        self.buffered
    }

    pub closed spec fn spec_allocated(&self) -> usize {
        self.allocated
    }

    /// A well formed assembler holds its segments in order of offset,
    /// without overlap, past what was read, and its buffered count is the
    /// number of bytes they hold.
    pub proof fn lemma_buffered(&self)
        requires
            self.wf(),
        ensures
            segs_wf(self.segments()),
            self.segments().len() > 0 ==> self.segments()[0].0 >= self.spec_bytes_read(),
            self.spec_buffered() == segs_len(self.segments()),
    {
        lemma_total_len_segs(self.data@);
    }

    pub fn new() -> (r: Self)
        ensures
            r.wf(),
            r.segments().len() == 0,
            r.spec_bytes_read() == 0,
            r.spec_end() == 0,
            r.spec_buffered() == 0,
            r.spec_allocated() == 0,
    {
        let r = Assembler { data: VecDeque::new(), buffered: 0, allocated: 0, bytes_read: 0, end: 0 };
        assert(r.segments() =~= Seq::<(u64, Seq<u8>)>::empty());
        r
    }

    /// Number of bytes consumed by the application
    pub fn bytes_read(&self) -> (r: u64)
        ensures
            r == self.spec_bytes_read(),
    {
        self.bytes_read
    }


    /// Buffers `bytes`, received at `offset`, with `allocation_size` bytes
    /// allocated behind them.
    #[verifier::spinoff_prover]
    #[verifier::rlimit(100)]
    pub fn insert(&mut self, offset: u64, bytes: Bytes, allocation_size: usize)
        requires
            old(self).wf(),
            offset + bytes_view(bytes).len() <= u64::MAX,
            bytes_view(bytes).len() <= allocation_size,
            old(self).spec_buffered() + bytes_view(bytes).len() <= usize::MAX,
            old(self).spec_allocated() + allocation_size <= usize::MAX,
        ensures
            final(self).wf(),
            final(self).segments() == insert_result(
                old(self).segments(),
                old(self).spec_bytes_read(),
                offset,
                bytes_view(bytes),
            ),
            final(self).spec_bytes_read() == old(self).spec_bytes_read(),
            final(self).spec_buffered() <= old(self).spec_buffered() + bytes_view(bytes).len(),
            final(self).spec_allocated() <= old(self).spec_allocated() + allocation_size,
            final(self).spec_end() == if old(self).spec_end() < offset + bytes_view(bytes).len() {
                offset + bytes_view(bytes).len()
            } else {
                old(self).spec_end() as int
            },
    {
        let ghost segs = self.segments();
        let ghost bv = bytes_view(bytes);
        let ghost old_offset = offset as int;
        let len = bytes_len(&bytes);
        let frame_end = offset + len as u64;
        if self.end < frame_end {
            self.end = frame_end;
        }
        if len == 0 {
            return;
        }
        // Drop data that the application has already consumed.
        if frame_end <= self.bytes_read {
            return;
        }
        let mut offset = offset;
        let mut bytes = bytes;
        // Trim already-read prefix.
        if offset < self.bytes_read {
            let duplicate = (self.bytes_read - offset) as usize;
            bytes = bytes_slice(&bytes, duplicate, len);
            offset = self.bytes_read;
        }
        let ghost o0 = offset as int;
        let ghost b0 = bytes_view(bytes);
        assert(b0 =~= bv.skip(o0 - old_offset));
        // Keep the data sorted by offset, with no overlaps: the new data
        // goes before the first buffer that ends after it starts.
        let n = self.data.len();
        let mut insert_at: usize = 0;
        let mut searching = true;
        while searching && insert_at < n
            invariant
                n == self.data@.len(),
                segs == self.segments(),
                segs_wf(segs),
                insert_at <= n,
                o0 == offset,
                forall|k: int| 0 <= k < insert_at ==> seg_end(#[trigger] segs[k]) <= o0,
                !searching ==> insert_at < n && seg_end(segs[insert_at as int]) > o0,
            decreases n - insert_at + (if searching {
                1int
            } else {
                0int
            }),
        {
            assert(segs[insert_at as int] == self.data@[insert_at as int]@);
            let buf_end = self.data[insert_at].offset + bytes_len(&self.data[insert_at].bytes) as u64;
            if buf_end > offset {
                searching = false;
            } else {
                insert_at += 1;
            }
        }
        proof {
            lemma_prefix_while_unique(segs, ends_by(o0), insert_at as int);
        }
        let ghost k0 = insert_at as int;
        // A buffer that holds the first new position keeps its bytes: the
        // new data is stored from where that buffer ends.
        if insert_at < n {
            assert(segs[k0] == self.data@[k0]@);
            let b_off = self.data[insert_at].offset;
            if b_off < offset {
                let b_end = b_off + bytes_len(&self.data[insert_at].bytes) as u64;
                if b_end >= frame_end {
                    return;
                }
                let duplicate = (b_end - offset) as usize;
                bytes = bytes_slice(&bytes, duplicate, bytes_len(&bytes));
                offset = b_end;
                insert_at = insert_at + 1;
                proof {
                    if k0 + 1 < segs.len() {
                        assert(seg_end(segs[k0]) <= segs[k0 + 1].0);
                        assert(segs[k0 + 1].1.len() > 0);
                    }
                    lemma_prefix_while_unique(segs, ends_by(offset as int), k0 + 1);
                }
            }
        }
        let ghost o1 = offset as int;
        let ghost b1 = bytes_view(bytes);
        assert(o1 == insert_from(segs, old(self).bytes_read, old_offset as u64));
        assert(b1 =~= bv.skip(o1 - old_offset));
        let ghost k = insert_at as int;
        assert(k == prefix_while(segs, ends_by(o1)));
        self.place(insert_at, offset, bytes, allocation_size);
    }

    /// Stores `bytes` from `offset`, which no buffer holds, before the
    /// buffer at `insert_at`, the first that ends after `offset`.
    #[verifier::spinoff_prover]
    #[verifier::rlimit(50)]
    fn place(&mut self, insert_at: usize, offset: u64, bytes: Bytes, allocation_size: usize)
        requires
            old(self).wf(),
            insert_at == prefix_while(old(self).segments(), ends_by(offset as int)),
            insert_at < old(self).segments().len() ==> old(self).segments()[insert_at as int].0 >= offset,
            bytes_view(bytes).len() > 0,
            offset + bytes_view(bytes).len() <= u64::MAX,
            offset >= old(self).spec_bytes_read(),
            bytes_view(bytes).len() <= allocation_size,
            old(self).spec_buffered() + bytes_view(bytes).len() <= usize::MAX,
            old(self).spec_allocated() + allocation_size <= usize::MAX,
        ensures
            final(self).wf(),
            final(self).segments() == place_result(old(self).segments(), offset as int, bytes_view(bytes)),
            final(self).spec_bytes_read() == old(self).spec_bytes_read(),
            final(self).spec_buffered() <= old(self).spec_buffered() + bytes_view(bytes).len(),
            final(self).spec_allocated() <= old(self).spec_allocated() + allocation_size,
            final(self).spec_end() == old(self).spec_end(),
    {
        let ghost segs = self.segments();
        let ghost o1 = offset as int;
        let ghost b1 = bytes_view(bytes);
        let ghost k = insert_at as int;
        let ghost frame_end = o1 + b1.len();
        let ghost final_end = self.end;
        let mut insert_at = insert_at;
        let mut bytes = bytes;
        proof {
            lemma_prefix_while(segs, ends_by(o1));
        }
        // Drop fully covered following segments, or trim suffix overlap.
        let new_end = offset + bytes_len(&bytes) as u64;
        assert(new_end == frame_end);
        let mut done = false;
        let ghost mut r: int = 0;
        while !done && insert_at < self.data.len()
            invariant
                insert_at == k,
                0 <= k <= segs.len(),
                0 <= r <= segs.len() - k,
                segs_wf(segs),
                offset == o1,
                new_end == frame_end,
                self.segments() == segs.take(k) + segs.skip(k + r),
                forall|t: int| 0 <= t < r ==> (#[trigger] covered_by(frame_end as int)(segs[k + t])),
                !done ==> bytes_view(bytes) == b1,
                done ==> k + r < segs.len() && !covered_by(frame_end as int)(segs[k + r]) && (
                    if segs[k + r].0 < frame_end {
                        bytes_view(bytes) == b1.take(segs[k + r].0 - o1)
                    } else {
                        bytes_view(bytes) == b1
                    }),
                self.buffered == total_len(self.data@),
                self.allocated == total_alloc(self.data@),
                self.bytes_read == old(self).bytes_read,
                self.end == final_end,
                self.buffered <= old(self).buffered,
                self.allocated <= old(self).allocated,
                bytes_view(bytes).len() <= b1.len(),
                b1.len() <= allocation_size,
                o1 >= self.bytes_read,
                b1.len() > 0,
                o1 + b1.len() == frame_end,
                k == prefix_while(segs, ends_by(o1)),
                k < segs.len() ==> !(segs[k].0 < o1 && seg_end(segs[k]) > frame_end),
                k < segs.len() ==> seg_end(segs[k]) > o1,
                k > 0 ==> seg_end(segs[k - 1]) <= o1,
            decreases self.data@.len() - insert_at + (if done {
                0int
            } else {
                1int
            }),
        {
            assert(self.segments()[k] == segs[k + r]);
            assert(self.segments()[k] == self.data@[k]@);
            let b_off = self.data[insert_at].offset;
            let b_end = b_off + bytes_len(&self.data[insert_at].bytes) as u64;
            if b_off >= new_end {
                done = true;
            } else if b_end <= new_end {
                let ghost before = self.data@;
                let ghost before_segs = self.segments();
                let removed = self.data.remove(insert_at).unwrap();
                proof {
                    lemma_total_remove(before, k);
                    assert(self.segments() =~= before_segs.remove(k));
                    assert(before_segs.remove(k) =~= segs.take(k) + segs.skip(k + r + 1));
                }
                self.buffered = self.buffered - bytes_len(&removed.bytes);
                self.allocated = self.allocated - removed.allocation_size;
                proof {
                    r = r + 1;
                }
            } else {
                proof {
                    if r > 0 {
                        assert(seg_end(segs[k]) <= segs[k + r].0);
                    }
                }
                assert(b_off == segs[k + r].0);
                let keep = (b_off - offset) as usize;
                assert(keep == segs[k + r].0 - o1);
                let ghost prev = bytes_view(bytes);
                bytes = bytes_slice(&bytes, 0, keep);
                assert(prev == b1);
                assert(bytes_view(bytes) =~= b1.take(segs[k + r].0 - o1));
                done = true;
            }
        }
        proof {
            assert forall|t: int| 0 <= t < r implies covered_by(frame_end as int)(
                #[trigger] segs.skip(k)[t],
            ) by {
                assert(segs.skip(k)[t] == segs[k + t]);
            }
            if k + r < segs.len() {
                assert(segs.skip(k)[r] == segs[k + r]);
            }
            lemma_prefix_while_unique(segs.skip(k), covered_by(frame_end as int), r);
        }
        proof {
            lemma_prefix_while(segs, ends_by(o1));
        }
        if bytes_len(&bytes) == 0 {
            proof {
                lemma_segs_splice(segs, k, k + r, None);
                assert(self.segments() =~= segs.take(k) + Seq::empty() + segs.skip(k + r));
                if k == 0 && k + r < segs.len() {
                    assert(seg_end(segs[0]) <= segs[k + r].0 || r == 0);
                }
            }
            return;
        }
        let buffer = Buffer::new(offset, bytes, allocation_size);
        self.buffered = self.buffered + bytes_len(&buffer.bytes);
        self.allocated = self.allocated + buffer.allocation_size;
        let ghost before = self.data@;
        let ghost before_segs = self.segments();
        let ghost m = buffer@;
        self.data.insert(insert_at, buffer);
        proof {
            lemma_total_insert(before, k, buffer);
            lemma_segs_splice(segs, k, k + r, Some(m));
            assert(self.segments() =~= before_segs.insert(k, m));
            assert(before_segs.insert(k, m) =~= segs.take(k) + seq![m] + segs.skip(k + r));
        }
    }


    /// Ordered reads only: whether an ordered read is allowed, which it
    /// always is, as reads never leave the stream's order.
    pub fn ensure_ordering(&self, ordered: bool) -> (r: Result<(), IllegalOrderedRead>)
        requires
            ordered,
        ensures
            r is Ok,
    {
        Ok(())
    }

    /// Get the next chunk of the contiguous data that follows what was
    /// read, of at most `max_length` bytes.
    pub fn read(&mut self, max_length: usize, ordered: bool) -> (r: Option<Chunk>)
        requires
            old(self).wf(),
            ordered,
        ensures
            final(self).wf(),
            read_effect(*old(self), *final(self), max_length, r),
            r matches Some(c) ==> final(self).spec_buffered() == old(self).spec_buffered() - bytes_view(
                c.bytes,
            ).len(),
            r is None ==> final(self).spec_buffered() == old(self).spec_buffered(),
            final(self).spec_allocated() <= old(self).spec_allocated(),
    {
        let ghost segs = self.segments();
        if self.data.len() == 0 {
            return None;
        }
        assert(segs[0] == self.data@[0]@);
        // Ordered reads may only release the contiguous prefix.
        if self.data[0].offset != self.bytes_read {
            return None;
        }
        let ghost before = self.data@;
        let front = self.data.pop_front().unwrap();
        assert(self.data@ =~= before.remove(0));
        proof {
            lemma_total_remove(before, 0);
        }
        let n = bytes_len(&front.bytes);
        if max_length < n {
            let head = bytes_slice(&front.bytes, 0, max_length);
            let tail = bytes_slice(&front.bytes, max_length, n);
            self.bytes_read = self.bytes_read + max_length as u64;
            self.buffered = self.buffered - max_length;
            let offset = front.offset;
            let rest = Buffer {
                offset: offset + max_length as u64,
                bytes: tail,
                allocation_size: front.allocation_size,
                defragmented: front.defragmented,
            };
            let ghost mid = self.data@;
            self.data.push_front(rest);
            proof {
                lemma_total_insert(mid, 0, rest);
                assert(self.data@ =~= mid.insert(0, rest));
                assert(self.segments() =~= segs.update(
                    0,
                    ((segs[0].0 + max_length) as u64, segs[0].1.skip(max_length as int)),
                ));
                assert(bytes_view(head) =~= segs[0].1.take(max_length as int));
                assert(seg_end(self.segments()[0]) == seg_end(segs[0]));
                assert forall|i: int, j: int| 0 <= i < j < self.segments().len() implies seg_end(
                    #[trigger] self.segments()[i],
                ) <= (#[trigger] self.segments()[j]).0 by {
                    assert(seg_end(segs[i]) <= segs[j].0);
                }
            }
            Some(Chunk { offset, bytes: head })
        } else {
            self.bytes_read = self.bytes_read + n as u64;
            self.buffered = self.buffered - n;
            self.allocated = self.allocated - front.allocation_size;
            proof {
                assert(self.segments() =~= segs.drop_first());
                if segs.len() > 1 {
                    assert(seg_end(segs[0]) <= segs[1].0);
                }
                assert forall|i: int, j: int| 0 <= i < j < self.segments().len() implies seg_end(
                    #[trigger] self.segments()[i],
                ) <= (#[trigger] self.segments()[j]).0 by {
                    assert(seg_end(segs[i + 1]) <= segs[j + 1].0);
                }
            }
            Some(Chunk { offset: front.offset, bytes: front.bytes })
        }
    }

    /// Discard all buffered data
    pub fn clear(&mut self)
        ensures
            final(self).wf(),
            final(self).segments().len() == 0,
            final(self).spec_bytes_read() == old(self).spec_bytes_read(),
            final(self).spec_end() == old(self).spec_end(),
    {
        self.data.clear();
        self.buffered = 0;
        self.allocated = 0;
        assert(self.segments() =~= Seq::<(u64, Seq<u8>)>::empty());
    }
}

/// Error indicating that an ordered read was performed on a stream after an
/// unordered read
#[derive(Debug, Clone, Copy, PartialEq, Eq, Structural)]
pub struct IllegalOrderedRead;

/// Errors triggered when reading from a recv stream
#[derive(Debug, Clone, Copy, Eq, PartialEq, Structural)]
pub enum ReadError {
    /// No more data is currently available on this stream.
    Blocked,
    /// The peer abandoned transmitting data on this stream.
    ///
    /// Carries an application-defined error code.
    Reset(u64),
}

/// Errors triggered when opening a recv stream for reading
#[derive(Debug, Clone, Copy, Eq, PartialEq, Structural)]
pub enum ReadableError {
    /// The stream has not been opened or was already stopped, finished, or
    /// reset
    ClosedStream,
    /// Attempted an ordered read following an unordered read
    IllegalOrderedRead,
}

impl ReadableError {
    /// The message the error is shown with.
    pub fn to_string(&self) -> (r: String)
        ensures
            r@ == match self {
                ReadableError::ClosedStream => "closed stream"@,
                ReadableError::IllegalOrderedRead => "ordered read after unordered read"@,
            },
    {
        match self {
            ReadableError::ClosedStream => "closed stream".to_owned(),
            ReadableError::IllegalOrderedRead => "ordered read after unordered read".to_owned(),
        }
    }
}

impl From<IllegalOrderedRead> for ReadableError {
    fn from(e: IllegalOrderedRead) -> (r: Self) {
        ReadableError::IllegalOrderedRead
    }
}

impl vstd::std_specs::convert::FromSpecImpl<IllegalOrderedRead> for ReadableError {
    open spec fn obeys_from_spec() -> bool {
        true
    }

    open spec fn from_spec(e: IllegalOrderedRead) -> Self {
        ReadableError::IllegalOrderedRead
    }
}

/// The largest stream offset, plus one.
pub const MAX_STREAM_OFFSET: u64 = 0x4000_0000_0000_0000;

#[derive(Debug, Copy, Clone, Eq, PartialEq, Structural)]
pub enum RecvState {
    Recv { size: Option<u64> },
    ResetRecvd { size: u64, error_code: u64 },
}

impl Default for RecvState {
    fn default() -> (r: Self)
        ensures
            r == (RecvState::Recv { size: None }),
    {
        RecvState::Recv { size: None }
    }
}

impl RecvState {
    /// The final size of the stream, once known.
    pub open spec fn final_size(self) -> Option<u64> {
        match self {
            RecvState::Recv { size } => size,
            RecvState::ResetRecvd { size, .. } => Some(size),
        }
    }
}

pub struct Recv {
    pub state: RecvState,
    pub assembler: Assembler,
    pub end: u64,
    pub stopped: bool,
}

impl Recv {
    /// The buffered data lies below the high water mark `end`, below the
    /// largest stream offset.
    pub open spec fn wf(&self) -> bool {
        &&& self.assembler.wf()
        &&& self.end < MAX_STREAM_OFFSET
        &&& self.assembler.spec_bytes_read() <= self.end
        &&& forall|i: int|
            0 <= i < self.assembler.segments().len() ==> seg_end(
                #[trigger] self.assembler.segments()[i],
            ) <= self.end
    }

    /// A stream on which nothing was received.
    pub fn new() -> (r: Self)
        ensures
            r.wf(),
            r.state == (RecvState::Recv { size: None }),
            r.assembler.segments().len() == 0,
            r.assembler.spec_bytes_read() == 0,
            r.assembler.spec_buffered() == 0,
            r.assembler.spec_allocated() == 0,
            r.end == 0,
            r.stopped == false,
    {
        Recv { state: RecvState::Recv { size: None }, assembler: Assembler::new(), end: 0, stopped: false }
    }

    /// Process a STREAM frame
    ///
    /// Return value is `(number_of_new_bytes_ingested, stream_is_closed)`
    pub fn ingest(&mut self, frame: Stream, payload_len: usize) -> (r: Result<(u64, bool), TransportError>)
        requires
            old(self).wf(),
            frame.offset + bytes_view(frame.data).len() <= u64::MAX,
            bytes_view(frame.data).len() <= payload_len,
            !old(self).stopped ==> old(self).assembler.spec_buffered() + bytes_view(frame.data).len()
                <= usize::MAX,
            !old(self).stopped ==> old(self).assembler.spec_allocated() + payload_len <= usize::MAX,
        ensures
            final(self).wf(),
            ingest_effect(*old(self), *final(self), frame, r),
            r matches Ok((n, _)) ==> old(self).end + n == final(self).end && final(self).end >= frame.offset
                + bytes_view(frame.data).len(),
    {
        let len = bytes_len(&frame.data);
        let end = frame.offset + len as u64;
        if end >= MAX_STREAM_OFFSET {
            return Err(TransportError::FLOW_CONTROL_ERROR("maximum stream offset too large"));
        }
        if let Some(final_offset) = self.final_offset() {
            if end > final_offset || (frame.fin && end != final_offset) {
                return Err(TransportError::FINAL_SIZE_ERROR(""));
            }
        }
        let new_bytes = end.saturating_sub(self.end);
        // Stopped streams don't need to wait for the actual data, they just need to
        // know how much there was.
        if frame.fin && !self.stopped {
            if let RecvState::Recv { .. } = self.state {
                self.state = RecvState::Recv { size: Some(end) };
            }
        }
        if self.end < end {
            self.end = end;
        }
        let fin = frame.fin;
        // Don't bother storing data or releasing stream-level flow control credit if
        // the stream's already stopped
        if !self.stopped {
            let ghost old_segs = self.assembler.segments();
            self.assembler.insert(frame.offset, frame.data, payload_len);
            proof {
                lemma_insert_ends(
                    old_segs,
                    self.assembler.spec_bytes_read(),
                    frame.offset,
                    bytes_view(frame.data),
                    self.end as int,
                );
            }
        }
        Ok((new_bytes, fin && self.stopped))
    }

    /// Stops the stream: drops what is buffered; gives the number of bytes
    /// received and not read, and whether data is still being accepted.
    pub fn stop(&mut self) -> (r: Result<(u64, bool), ClosedStream>)
        requires
            old(self).wf(),
        ensures
            final(self).wf(),
            old(self).stopped ==> r == Err::<(u64, bool), ClosedStream>(ClosedStream) && *final(self)
                == *old(self),
            !old(self).stopped ==> {
                &&& r == Ok::<(u64, bool), ClosedStream>(
                    (
                        (old(self).end - old(self).assembler.spec_bytes_read()) as u64,
                        old(self).state is Recv,
                    ),
                )
                &&& final(self).stopped
                &&& final(self).state == old(self).state
                &&& final(self).end == old(self).end
                &&& final(self).assembler.segments().len() == 0
                &&& final(self).assembler.spec_bytes_read() == old(self).assembler.spec_bytes_read()
            },
    {
        if self.stopped {
            return Err(ClosedStream);
        }
        self.stopped = true;
        self.assembler.clear();
        // Issue flow control credit for unread data
        let read_credits = self.end - self.assembler.bytes_read();
        Ok((read_credits, self.is_receiving()))
    }

    /// Whether the total amount of data that the peer will send on this stream
    /// is unknown
    pub fn final_offset_unknown(&self) -> (r: bool)
        ensures
            r == (self.state == RecvState::Recv { size: None }),
    {
        matches!(self.state, RecvState::Recv { size: None })
    }

    /// Whether data is still being accepted from the peer
    pub fn is_receiving(&self) -> (r: bool)
        ensures
            r == self.state is Recv,
    {
        matches!(self.state, RecvState::Recv { .. })
    }

    pub fn final_offset(&self) -> (r: Option<u64>)
        ensures
            r == self.state.final_size(),
    {
        match self.state {
            RecvState::Recv { size } => size,
            RecvState::ResetRecvd { size, .. } => Some(size),
        }
    }

    /// Returns `false` iff the reset was redundant
    pub fn reset(&mut self, error_code: u64, final_offset: u64) -> (r: Result<bool, TransportError>)
        requires
            old(self).wf(),
        ensures
            final(self).wf(),
            reset_effect(*old(self), *final(self), error_code, final_offset, r),
    {
        // Validate final_offset
        if let Some(offset) = self.final_offset() {
            if offset != final_offset {
                return Err(TransportError::FINAL_SIZE_ERROR("inconsistent value"));
            }
        } else if self.end > final_offset {
            return Err(TransportError::FINAL_SIZE_ERROR("lower than high water mark"));
        }
        if matches!(self.state, RecvState::ResetRecvd { .. }) {
            return Ok(false);
        }
        self.state = RecvState::ResetRecvd { size: final_offset, error_code };
        // Nuke buffers so that future reads fail immediately, which ensures future
        // reads don't issue flow control credit redundant to that already issued.
        self.assembler.clear();
        Ok(true)
    }

    pub fn reset_code(&self) -> (r: Option<u64>)
        ensures
            r == match self.state {
                RecvState::ResetRecvd { error_code, .. } => Some(error_code),
                _ => None::<u64>,
            },
    {
        match self.state {
            RecvState::ResetRecvd { error_code, .. } => Some(error_code),
            _ => None,
        }
    }
}


/// What `Recv::ingest` does: the error it gives for a frame past the
/// largest offset or against the final size, leaving the stream as it was;
/// otherwise the count of new bytes and whether a stopped stream is now
/// closed, with the final size, high water mark and buffered segments
/// updated.
pub open spec fn ingest_effect(
    old: Recv,
    new: Recv,
    frame: Stream,
    r: Result<(u64, bool), TransportError>,
) -> bool {
    ({
                let end = frame.offset + bytes_view(frame.data).len();
                if end >= MAX_STREAM_OFFSET {
                    &&& r matches Err(e) && e.code == TransportErrorCode::FLOW_CONTROL_ERROR()
                        && e.frame is None && e.reason@ == "maximum stream offset too large"@
                    &&& new == old
                } else if old.state.final_size() matches Some(f) && (end > f || (frame.fin
                    && end != f)) {
                    &&& r matches Err(e) && e.code == TransportErrorCode::FINAL_SIZE_ERROR()
                        && e.frame is None && e.reason@ == ""@
                    &&& new == old
                } else {
                    &&& r == Ok::<(u64, bool), TransportError>(
                        (
                            if end > old.end {
                                (end - old.end) as u64
                            } else {
                                0u64
                            },
                            frame.fin && old.stopped,
                        ),
                    )
                    &&& new.state == if frame.fin && !old.stopped
                        && old.state is Recv {
                        RecvState::Recv { size: Some(end as u64) }
                    } else {
                        old.state
                    }
                    &&& new.end == if end > old.end {
                        end
                    } else {
                        old.end as int
                    }
                    &&& new.stopped == old.stopped
                    &&& new.assembler.spec_bytes_read()
                        == old.assembler.spec_bytes_read()
                    &&& new.assembler.segments() == if old.stopped {
                        old.assembler.segments()
                    } else {
                        insert_result(
                            old.assembler.segments(),
                            old.assembler.spec_bytes_read(),
                            frame.offset,
                            bytes_view(frame.data),
                        )
                    }
                }
            })
}


/// The count of new bytes `ingest` reports is how far the frame's end
/// raises the stream's high water mark: the mark becomes the larger of the
/// two, and the count is the rise, none when the frame ends within what was
/// already received.
pub proof fn lemma_ingest_new_bytes(a: Recv, b: Recv, frame: Stream, r: Result<(u64, bool), TransportError>)
    requires
        ingest_effect(a, b, frame, r),
    ensures
        r matches Ok((n, _)) ==> {
            let end = frame.offset + bytes_view(frame.data).len();
            &&& a.end + n == b.end
            &&& b.end == if end > a.end {
                end
            } else {
                a.end as int
            }
            &&& end <= a.end ==> n == 0
        },
{
}

/// A frame received twice, as when the peer sends it again, brings no new
/// bytes the second time and leaves the high water mark where the first
/// time put it.
pub proof fn lemma_ingest_twice(
    a: Recv,
    b: Recv,
    c: Recv,
    frame: Stream,
    r1: Result<(u64, bool), TransportError>,
    r2: Result<(u64, bool), TransportError>,
)
    requires
        ingest_effect(a, b, frame, r1),
        ingest_effect(b, c, frame, r2),
        r1 is Ok,
    ensures
        r2 matches Ok((n, _)) && n == 0,
        c.end == b.end,
{
}

/// What `Recv::reset` does: a final size that disagrees with the known
/// one, or lies below the high water mark, is an error and leaves the
/// stream as it was; a second reset changes nothing; the first one records
/// the final size and code and drops the buffered data.
pub open spec fn reset_effect(
    old: Recv,
    new: Recv,
    error_code: u64,
    final_offset: u64,
    r: Result<bool, TransportError>,
) -> bool {
            match old.state.final_size() {
                Some(offset) if offset != final_offset => r matches Err(e) && e.code
                    == TransportErrorCode::FINAL_SIZE_ERROR() && e.frame is None && e.reason@
                    == "inconsistent value"@ && new == old,
                None if old.end > final_offset => r matches Err(e) && e.code
                    == TransportErrorCode::FINAL_SIZE_ERROR() && e.frame is None && e.reason@
                    == "lower than high water mark"@ && new == old,
                _ => if old.state is ResetRecvd {
                    r == Ok::<bool, TransportError>(false) && new == old
                } else {
                    &&& r == Ok::<bool, TransportError>(true)
                    &&& new.state == (RecvState::ResetRecvd { size: final_offset, error_code })
                    &&& new.assembler.segments().len() == 0
                    &&& new.assembler.spec_bytes_read()
                        == old.assembler.spec_bytes_read()
                    &&& new.end == old.end
                    &&& new.stopped == old.stopped
                },
            }
}

/// The segments an insert leaves end at or before the frame's end or where
/// the segments ended before.
proof fn lemma_insert_ends(segs: Seq<(u64, Seq<u8>)>, read: u64, offset: u64, bytes: Seq<u8>, bound: int)
    requires
        segs_wf(segs),
        forall|i: int| 0 <= i < segs.len() ==> seg_end(#[trigger] segs[i]) <= bound,
        offset + bytes.len() <= bound,
    ensures
        forall|i: int| 0 <= i < insert_result(segs, read, offset, bytes).len() ==> seg_end(
            #[trigger] insert_result(segs, read, offset, bytes)[i],
        ) <= bound,
{
    let out = insert_result(segs, read, offset, bytes);
    let frame_end = offset + bytes.len();
    let o0: int = if offset < read {
        read as int
    } else {
        offset as int
    };
    lemma_prefix_while(segs, ends_by(o0));
    let o1 = insert_from(segs, read, offset);
    if !(bytes.len() == 0 || frame_end <= read || frame_end <= o1) {
        let k = prefix_while(segs, ends_by(o1)) as int;
        lemma_prefix_while(segs, ends_by(o1));
        lemma_prefix_while(segs.skip(k), covered_by(frame_end));
        let j = k + prefix_while(segs.skip(k), covered_by(frame_end));
        assert forall|i: int| 0 <= i < out.len() implies seg_end(#[trigger] out[i]) <= bound by {
            if i < k {
                assert(out[i] == segs[i]);
            } else {
                let b1 = bytes.skip(o1 - offset);
                let b3 = if j < segs.len() && segs[j].0 < frame_end {
                    b1.take(segs[j].0 - o1)
                } else {
                    b1
                };
                if b3.len() == 0 {
                    assert(out[i] == segs[j + (i - k)]);
                } else if i > k {
                    assert(out[i] == segs[j + (i - k - 1)]);
                } else {
                    assert(out[i] == (o1 as u64, b3));
                    if j < segs.len() && segs[j].0 < frame_end && j > k {
                        assert(seg_end(segs[k]) <= segs[j].0);
                    }
                }
            }
        }
    }
}

/// Where a read of a stream stands.
pub enum ChunksState {
    Readable(Recv),
    Reset(u64),
    Finished,
}

/// Chunks returned from [`RecvStream::read()`][crate::RecvStream::read].
///
/// The receiving half is taken out of the connection while its chunks are
/// read; `finalize` puts it back, and must be called once reading is done,
/// or the stream stays blocked.
pub struct Chunks {
    pub id: StreamId,
    pub ordered: bool,
    pub state: ChunksState,
    pub read: u64,
}

impl Chunks {
    /// The receiving half is well formed and accounts for what was read.
    pub open spec fn wf(&self) -> bool {
        self.state matches ChunksState::Readable(rs) ==> rs.wf() && self.read
            <= rs.assembler.spec_bytes_read() && self.ordered
    }

    /// Takes the receiving half of `id` out of `streams` to read it; a
    /// stream without one, or stopped, is closed.
    pub fn new(id: StreamId, ordered: bool, streams: &mut StreamsState) -> (r: Result<Self, ReadableError>)
        requires
            old(streams).wf(),
            old(streams).recv@.contains_key(id.0) && !old(streams).recv@[id.0].stopped ==> ordered,
        ensures
            final(streams).wf(),
            final(streams).send@ == old(streams).send@,
            final(streams).pending == old(streams).pending,
            final(streams).events == old(streams).events,
            final(streams).next == old(streams).next,
            final(streams).side == old(streams).side,
            !old(streams).recv@.contains_key(id.0) || old(streams).recv@[id.0].stopped ==> r
                == Err::<Self, ReadableError>(ReadableError::ClosedStream) && final(streams).recv@
                == old(streams).recv@,
            old(streams).recv@.contains_key(id.0) && !old(streams).recv@[id.0].stopped ==> {
                &&& r matches Ok(c) && c.wf() && c.id == id && c.ordered == ordered && c.read == 0
                    && c.state == ChunksState::Readable(old(streams).recv@[id.0])
                &&& final(streams).recv@ == old(streams).recv@.remove(id.0)
            },
    {
        if !streams.recv.contains_key(&id.0) {
            return Err(ReadableError::ClosedStream);
        }
        if streams.recv.get(&id.0).unwrap().stopped {
            return Err(ReadableError::ClosedStream);
        }
        let recv = streams.recv.remove(&id.0).unwrap();
        let _ = recv.assembler.ensure_ordering(ordered);
        Ok(Chunks { id, ordered, state: ChunksState::Readable(recv), read: 0 })
    }

    /// Whether a read of `rs` would give a chunk.
    pub open spec fn chunk_ready(rs: Recv) -> bool {
        let segs = rs.assembler.segments();
        segs.len() > 0 && segs[0].0 == rs.assembler.spec_bytes_read()
    }

    /// The next chunk of at most `max_length` bytes; `None` once the stream
    /// is finished; an error while no data is ready, or once it was reset.
    pub fn next(&mut self, max_length: usize) -> (r: Result<Option<Chunk>, ReadError>)
        requires
            old(self).wf(),
        ensures
            final(self).wf(),
            final(self).id == old(self).id,
            final(self).ordered == old(self).ordered,
            match old(self).state {
                ChunksState::Reset(code) => r == Err::<Option<Chunk>, ReadError>(ReadError::Reset(code))
                    && *final(self) == *old(self),
                ChunksState::Finished => r == Ok::<Option<Chunk>, ReadError>(None) && *final(self)
                    == *old(self),
                ChunksState::Readable(rs) => if Self::chunk_ready(rs) {
                    exists|a1: Assembler, c: Chunk|
                        #![trigger read_effect(rs.assembler, a1, max_length, Some(c))]
                        read_effect(rs.assembler, a1, max_length, Some(c)) && r == Ok::<
                            Option<Chunk>,
                            ReadError,
                        >(Some(c)) && final(self).state == ChunksState::Readable(
                            Recv { assembler: a1, ..rs },
                        ) && final(self).read == old(self).read + bytes_view(c.bytes).len()
                } else {
                    match rs.state {
                        RecvState::ResetRecvd { error_code, .. } => r == Err::<
                            Option<Chunk>,
                            ReadError,
                        >(ReadError::Reset(error_code)) && final(self).state == ChunksState::Reset(
                            error_code,
                        ) && final(self).read == old(self).read,
                        RecvState::Recv { size } => if size == Some(rs.end)
                            && rs.assembler.spec_bytes_read() == rs.end {
                            r == Ok::<Option<Chunk>, ReadError>(None) && final(self).state
                                == ChunksState::Finished && final(self).read == old(self).read
                        } else {
                            r == Err::<Option<Chunk>, ReadError>(ReadError::Blocked) && *final(self)
                                == *old(self)
                        },
                    }
                },
            },
    {
        match &self.state {
            ChunksState::Reset(error_code) => {
                return Err(ReadError::Reset(*error_code));
            },
            ChunksState::Finished => {
                return Ok(None);
            },
            ChunksState::Readable(_) => {},
        }
        let mut state = ChunksState::Finished;
        core::mem::swap(&mut state, &mut self.state);
        let mut rs = match state {
            ChunksState::Readable(rs) => rs,
            _ => {
                proof {
                    assert(false);
                }
                return Ok(None);
            },
        };
        let ghost rs0 = rs;
        if let Some(chunk) = rs.assembler.read(max_length, self.ordered) {
            proof {
                let segs = rs0.assembler.segments();
                assert(seg_end(segs[0]) <= rs0.end);
            }
            self.read = self.read + bytes_len(&chunk.bytes) as u64;
            self.state = ChunksState::Readable(rs);
            assert(read_effect(rs0.assembler, rs.assembler, max_length, Some(chunk)));
            return Ok(Some(chunk));
        }
        match rs.state {
            RecvState::ResetRecvd { error_code, .. } => {
                self.state = ChunksState::Reset(error_code);
                Err(ReadError::Reset(error_code))
            },
            RecvState::Recv { size } => {
                if size == Some(rs.end) && rs.assembler.bytes_read() == rs.end {
                    self.state = ChunksState::Finished;
                    Ok(None)
                } else {
                    // Retrying a read harmlessly re-traces our steps back to
                    // returning `Err(Blocked)` again.
                    self.state = ChunksState::Readable(rs);
                    Err(ReadError::Blocked)
                }
            },
        }
    }

    /// Puts the receiving half back, for future use, if it is still
    /// readable.
    pub fn finalize(self, streams: &mut StreamsState)
        requires
            old(streams).wf(),
            self.wf(),
        ensures
            final(streams).wf(),
            final(streams).recv@ == match self.state {
                ChunksState::Readable(rs) => old(streams).recv@.insert(self.id.0, rs),
                _ => old(streams).recv@,
            },
            final(streams).send@ == old(streams).send@,
            final(streams).pending == old(streams).pending,
            final(streams).events == old(streams).events,
            final(streams).next == old(streams).next,
            final(streams).side == old(streams).side,
    {
        if let ChunksState::Readable(rs) = self.state {
            // Return the stream to storage for future use
            streams.recv.insert(self.id.0, rs);
        }
    }
}

/// Access to the receiving half of a stream of a connection.
pub struct RecvStream {
    pub id: StreamId,
}

impl RecvStream {
    /// Read from the given recv stream, in order: takes its receiving half
    /// out of the connection until the chunks are finalized.
    pub fn read(&self, conn: &mut Connection, ordered: bool) -> (r: Result<Chunks, ReadableError>)
        requires
            old(conn).wf(),
            old(conn).streams.recv@.contains_key(self.id.0) && !old(conn).streams.recv@[self.id.0].stopped
                ==> ordered,
        ensures
            final(conn).wf(),
            crate::connection::same_but_recv(*final(conn), *old(conn)),
            !old(conn).streams.recv@.contains_key(self.id.0) || old(conn).streams.recv@[self.id.0].stopped
                ==> r == Err::<Chunks, ReadableError>(ReadableError::ClosedStream)
                && final(conn).streams.recv@ == old(conn).streams.recv@,
            old(conn).streams.recv@.contains_key(self.id.0) && !old(conn).streams.recv@[self.id.0].stopped
                ==> {
                &&& r matches Ok(c) && c.wf() && c.id == self.id && c.read == 0 && c.state
                    == ChunksState::Readable(old(conn).streams.recv@[self.id.0])
                &&& final(conn).streams.recv@ == old(conn).streams.recv@.remove(self.id.0)
            },
    {
        Chunks::new(self.id, ordered, &mut conn.streams)
    }

    /// Stop accepting data on the given receive stream
    ///
    /// Discards unread data and notifies the peer to stop transmitting. Once
    /// stopped, further attempts to operate on a stream will yield
    /// `ClosedStream` errors.
    pub fn stop(&self, conn: &mut Connection, error_code: u64) -> (r: Result<(), ClosedStream>)
        requires
            old(conn).wf(),
        ensures
            final(conn).wf(),
            final(conn).state == old(conn).state,
            final(conn).streams.send@ == old(conn).streams.send@,
            final(conn).streams.events == old(conn).streams.events,
            final(conn).streams.pending == old(conn).streams.pending,
            final(conn).streams.next == old(conn).streams.next,
            final(conn).side == old(conn).side,
            (!old(conn).streams.recv@.contains_key(self.id.0) || old(conn).streams.recv@[self.id.0].stopped)
                ==> r == Err::<(), ClosedStream>(ClosedStream) && *final(conn) == *old(conn),
            (old(conn).streams.recv@.contains_key(self.id.0) && !old(conn).streams.recv@[self.id.0].stopped)
                ==> {
                let rs = old(conn).streams.recv@[self.id.0];
                &&& r is Ok
                &&& final(conn).spaces@[2].pending.stop_sending@ == if rs.state is Recv {
                    old(conn).spaces@[2].pending.stop_sending@.push(
                        StopSending { id: self.id, error_code },
                    )
                } else {
                    old(conn).spaces@[2].pending.stop_sending@
                }
                &&& rs.state != (RecvState::Recv { size: None }) ==> final(conn).streams.recv@
                    == old(conn).streams.recv@.remove(self.id.0)
                &&& rs.state == (RecvState::Recv { size: None }) ==> {
                    let after = final(conn).streams.recv@;
                    after.contains_key(self.id.0) && after[self.id.0].stopped
                        && after[self.id.0].assembler.segments().len() == 0
                }
            },
    {
        let id = self.id;
        if !conn.streams.recv.contains_key(&id.0) {
            return Err(ClosedStream);
        }
        if conn.streams.recv.get(&id.0).unwrap().stopped {
            return Err(ClosedStream);
        }
        let mut stream = conn.streams.recv.remove(&id.0).unwrap();
        let res = stream.stop();
        let (_, stop_sending) = match res {
            Ok(x) => x,
            Err(e) => {
                proof {
                    assert(false);
                }
                return Err(e);
            },
        };
        if stop_sending {
            conn.spaces[2].pending.stop_sending.push(StopSending { id, error_code });
        }
        // We need to keep stopped streams around until they're finished or reset so we
        // can update connection-level flow control to account for discarded data.
        // Otherwise, we can discard state immediately.
        if stream.final_offset_unknown() {
            conn.streams.recv.insert(id.0, stream);
        }
        Ok(())
    }

    /// Check whether this stream has been reset by the peer, returning the
    /// reset error code if so
    ///
    /// After returning `Ok(Some(_))` once, stream state will be discarded and
    /// all future calls will return `Err(ClosedStream)`.
    pub fn received_reset(&self, conn: &mut Connection) -> (r: Result<Option<u64>, ClosedStream>)
        requires
            old(conn).wf(),
        ensures
            final(conn).wf(),
            final(conn).state == old(conn).state,
            final(conn).spaces == old(conn).spaces,
            final(conn).streams.send@ == old(conn).streams.send@,
            final(conn).streams.events == old(conn).streams.events,
            (!old(conn).streams.recv@.contains_key(self.id.0) || old(conn).streams.recv@[self.id.0].stopped)
                ==> r == Err::<Option<u64>, ClosedStream>(ClosedStream) && *final(conn) == *old(conn),
            (old(conn).streams.recv@.contains_key(self.id.0) && !old(conn).streams.recv@[self.id.0].stopped)
                ==> match old(conn).streams.recv@[self.id.0].state {
                RecvState::ResetRecvd { error_code, .. } => r == Ok::<Option<u64>, ClosedStream>(
                    Some(error_code),
                ) && final(conn).streams.recv@ == old(conn).streams.recv@.remove(self.id.0)
                    && final(conn).streams.forgotten@ == old(conn).streams.forgotten@.insert(
                    self.id.0,
                ),
                _ => r == Ok::<Option<u64>, ClosedStream>(None) && *final(conn) == *old(conn),
            },
    {
        let id = self.id;
        if !conn.streams.recv.contains_key(&id.0) {
            return Err(ClosedStream);
        }
        let s = conn.streams.recv.get(&id.0).unwrap();
        if s.stopped {
            return Err(ClosedStream);
        }
        let code = match s.reset_code() {
            None => {
                return Ok(None);
            },
            Some(code) => code,
        };
        conn.streams.recv.remove(&id.0);
        // Frames that come later for the stream are ignored: the reset is
        // reported once.
        conn.streams.forgotten.insert(id.0);
        Ok(Some(code))
    }
}

} // verus!

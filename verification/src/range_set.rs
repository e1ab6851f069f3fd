//! Sets of integers held as sorted, disjoint, non-adjacent half-open ranges.
use core::ops::Range;

use vstd::prelude::*;

verus! {

/// A set of `u64` values, as sorted half-open ranges `[start, end)` with a
/// gap of at least one value between consecutive ranges.
#[derive(Debug, Default, Clone)]
pub struct RangeSet {
    ranges: Vec<(u64, u64)>,
}

/// The set used for pending acknowledgements.
pub type ArrayRangeSet = RangeSet;

/// Whether `rs` is sorted, non-empty range by range, and separated.
pub open spec fn ranges_wf(rs: Seq<(u64, u64)>) -> bool {
    &&& forall|i: int| #![trigger rs[i]] 0 <= i < rs.len() ==> rs[i].0 < rs[i].1
    &&& forall|i: int| #![trigger rs[i]] 0 <= i < rs.len() - 1 ==> rs[i].1 < rs[i + 1].0
}

/// Whether `x` lies in one of the ranges.
pub open spec fn ranges_contain(rs: Seq<(u64, u64)>, x: int) -> bool {
    exists|i: int| 0 <= i < rs.len() && #[trigger] rs[i].0 <= x < rs[i].1
}

impl View for RangeSet {
    type V = Seq<(u64, u64)>;

    closed spec fn view(&self) -> Seq<(u64, u64)> {
        self.ranges@
    }
}

impl RangeSet {
    pub closed spec fn wf(&self) -> bool {
        ranges_wf(self.ranges@)
    }

    /// Whether `x` is in the set.
    pub open spec fn contains(&self, x: int) -> bool {
        ranges_contain(self@, x)
    }

    /// An empty set.
    pub fn new() -> (r: Self)
        ensures
            r.wf(),
            r@.len() == 0,
    {
        RangeSet { ranges: Vec::new() }
    }

    /// Ranges lie in order: the end of an earlier range is below the start
    /// of a later one.
    pub proof fn lemma_ordered(&self, i: int, j: int)
        requires
            self.wf(),
            0 <= i < j < self@.len(),
        ensures
            self@[i].1 < self@[j].0,
            self@[i].0 < self@[i].1,
            self@[j].0 < self@[j].1,
        decreases j - i,
    {
        if j > i + 1 {
            self.lemma_ordered(i, j - 1);
            assert(self@[j - 1].1 < self@[j].0);
            assert(self@[j - 1].0 < self@[j - 1].1);
        }
    }

    /// Every range is non-empty.
    pub proof fn lemma_bounds(&self)
        requires
            self.wf(),
        ensures
            forall|i: int| #![trigger self@[i]] 0 <= i < self@.len() ==> self@[i].0 < self@[i].1,
            forall|i: int| #![trigger self@[i]] 0 <= i < self@.len() ==> self@[i].0 >= 2 * i,
            self@.len() > 0 ==> self@.len() - 1 <= self@.last().0 / 2,
    {
        lemma_ranges_spread(self@, self@.len() as int);
        if self@.len() > 0 {
            assert(self@.last() == self@[self@.len() - 1]);
        }
    }

    pub fn is_empty(&self) -> (r: bool)
        ensures
            r == (self@.len() == 0),
    {
        self.ranges.len() == 0
    }

    /// Number of ranges.
    pub fn len(&self) -> (r: usize)
        ensures
            r == self@.len(),
    {
        self.ranges.len()
    }

    /// The `i`th range from the lowest.
    pub fn get(&self, i: usize) -> (r: (u64, u64))
        requires
            i < self@.len(),
        ensures
            r == self@[i as int],
    {
        self.ranges[i]
    }

    /// The largest value in the set.
    pub fn max(&self) -> (r: Option<u64>)
        requires
            self.wf(),
        ensures
            self@.len() == 0 ==> r is None,
            self@.len() > 0 ==> r == Some((self@.last().1 - 1) as u64),
    {
        let n = self.ranges.len();
        if n == 0 {
            None
        } else {
            Some(self.ranges[n - 1].1 - 1)
        }
    }

    /// Removes and returns the lowest range.
    pub fn pop_min(&mut self) -> (r: Option<Range<u64>>)
        requires
            old(self).wf(),
        ensures
            final(self).wf(),
            old(self)@.len() == 0 ==> r is None && final(self)@ == old(self)@,
            old(self)@.len() > 0 ==> (r matches Some(range) && range.start == old(self)@[0].0
                && range.end == old(self)@[0].1 && final(self)@ == old(self)@.drop_first()),
    {
        if self.ranges.len() == 0 {
            None
        } else {
            let (s, e) = self.ranges.remove(0);
            assert(self.ranges@ =~= old(self).ranges@.drop_first());
            Some(s..e)
        }
    }

    /// Adds the values of `[start, end)` to the set, merging the ranges it
    /// meets or touches.
    pub fn insert(&mut self, start: u64, end: u64)
        requires
            old(self).wf(),
            start < end,
        ensures
            final(self).wf(),
            forall|x: int| #[trigger]
                final(self).contains(x) <==> (old(self).contains(x) || start <= x < end),
    {
        let ghost rs = self.ranges@;
        let n = self.ranges.len();
        // The first range that ends at or after `start`.
        let mut i: usize = 0;
        while i < n && self.ranges[i].1 < start
            invariant
                n == self.ranges.len(),
                rs == self.ranges@,
                i <= n,
                forall|k: int| 0 <= k < i ==> #[trigger] rs[k].1 < start,
            decreases n - i,
        {
            i += 1;
        }
        // The first range at or after `i` that starts after `end`.
        let mut j: usize = i;
        while j < n && self.ranges[j].0 <= end
            invariant
                n == self.ranges.len(),
                rs == self.ranges@,
                i <= j <= n,
                forall|k: int| i <= k < j ==> #[trigger] rs[k].0 <= end,
            decreases n - j,
        {
            j += 1;
        }
        let mut lo = start;
        let mut hi = end;
        if i < j {
            if self.ranges[i].0 < lo {
                lo = self.ranges[i].0;
            }
            if self.ranges[j - 1].1 > hi {
                hi = self.ranges[j - 1].1;
            }
        }
        let mut out: Vec<(u64, u64)> = Vec::new();
        let mut k: usize = 0;
        while k < i
            invariant
                n == self.ranges.len(),
                rs == self.ranges@,
                i <= n,
                k <= i,
                out@ == rs.take(k as int),
            decreases i - k,
        {
            out.push(self.ranges[k]);
            k += 1;
            assert(out@ =~= rs.take(k as int));
        }
        out.push((lo, hi));
        let mut m: usize = j;
        while m < n
            invariant
                n == self.ranges.len(),
                rs == self.ranges@,
                i <= j <= m <= n,
                out@ == rs.take(i as int).push((lo, hi)) + rs.subrange(j as int, m as int),
            decreases n - m,
        {
            out.push(self.ranges[m]);
            m += 1;
            assert(out@ =~= rs.take(i as int).push((lo, hi)) + rs.subrange(j as int, m as int));
        }
        proof {
            lemma_insert(rs, out@, start, end, i as int, j as int, lo, hi);
        }
        self.ranges = out;
    }
}

/// Splicing the merged range `(lo, hi)` in place of the ranges from `i` up
/// to `j` keeps the set well formed and adds exactly `[start, end)`.
#[verifier::rlimit(60)]
#[verifier::spinoff_prover]
proof fn lemma_insert(
    rs: Seq<(u64, u64)>,
    ns: Seq<(u64, u64)>,
    start: u64,
    end: u64,
    i: int,
    j: int,
    lo: u64,
    hi: u64,
)
    requires
        ranges_wf(rs),
        start < end,
        0 <= i <= j <= rs.len(),
        forall|k: int| 0 <= k < i ==> #[trigger] rs[k].1 < start,
        forall|k: int| i <= k < j ==> #[trigger] rs[k].0 <= end,
        j < rs.len() ==> !(rs[j].0 <= end),
        i < rs.len() ==> !(rs[i].1 < start),
        i < j ==> lo == (if rs[i].0 < start { rs[i].0 } else { start }),
        i < j ==> hi == (if rs[j - 1].1 > end { rs[j - 1].1 } else { end }),
        i == j ==> lo == start && hi == end,
        ns == rs.take(i).push((lo, hi)) + rs.subrange(j, rs.len() as int),
    ensures
        ranges_wf(ns),
        forall|x: int| #[trigger] ranges_contain(ns, x) <==> (ranges_contain(rs, x) || start <= x < end),
{
    let n = rs.len() as int;
    assert(ns.len() == i + 1 + (n - j));
    assert forall|a: int| #![trigger ns[a]] 0 <= a < ns.len() implies ns[a].0 < ns[a].1 by {
        if a < i {
            assert(ns[a] == rs[a]);
        } else if a > i {
            assert(ns[a] == rs[a - i - 1 + j]);
        } else {
            if i < j {
                assert(rs[i].0 < rs[i].1);
                lemma_ordered_rs(rs, i, j - 1);
            }
        }
    }
    assert forall|a: int| #![trigger ns[a]] 0 <= a < ns.len() - 1 implies ns[a].1 < ns[a + 1].0 by {
        if a + 1 < i {
            assert(ns[a] == rs[a] && ns[a + 1] == rs[a + 1]);
        } else if a + 1 == i {
            assert(ns[a] == rs[a]);
            assert(rs[a].1 < start);
            if i < j {
                assert(rs[a].1 < rs[a + 1].0);
            }
        } else if a == i {
            assert(ns[a + 1] == rs[j]);
            assert(!(rs[j].0 <= end));
            if i < j {
                assert(rs[j - 1].1 < rs[j].0);
            }
        } else {
            assert(ns[a] == rs[a - i - 1 + j] && ns[a + 1] == rs[a - i + j]);
        }
    }
    assert forall|x: int| #[trigger] ranges_contain(ns, x) implies (ranges_contain(rs, x) || start
        <= x < end) by {
        let a = choose|a: int| 0 <= a < ns.len() && #[trigger] ns[a].0 <= x < ns[a].1;
        if a < i {
            assert(ns[a] == rs[a]);
        } else if a > i {
            assert(ns[a] == rs[a - i - 1 + j]);
        } else if !(start <= x < end) {
            if x < start {
                assert(rs[i].0 <= x < rs[i].1);
            } else {
                assert(rs[j - 1].0 <= end);
                assert(rs[j - 1].0 <= x < rs[j - 1].1);
            }
        }
    }
    assert forall|x: int| (ranges_contain(rs, x) || start <= x < end) implies #[trigger] ranges_contain(
        ns,
        x,
    ) by {
        if start <= x < end {
            assert(ns[i] == (lo, hi));
        } else {
            let a = choose|a: int| 0 <= a < rs.len() && #[trigger] rs[a].0 <= x < rs[a].1;
            if a < i {
                assert(ns[a] == rs[a]);
            } else if a >= j {
                assert(ns[a + i + 1 - j] == rs[a]);
            } else {
                lemma_ordered_rs(rs, i, a);
                lemma_ordered_rs(rs, a, j - 1);
                assert(ns[i] == (lo, hi));
            }
        }
    }
}

/// Ranges further along start and end no lower.
pub proof fn lemma_ordered_rs(rs: Seq<(u64, u64)>, a: int, b: int)
    requires
        ranges_wf(rs),
        0 <= a <= b < rs.len(),
    ensures
        rs[a].0 <= rs[b].0,
        rs[a].1 <= rs[b].1,
    decreases b - a,
{
    if a < b {
        lemma_ordered_rs(rs, a + 1, b);
        assert(rs[a].1 < rs[a + 1].0);
    }
}

/// The `k`th range starts at or above `2 * k`: each range before it takes
/// at least one value and leaves a gap of at least one.
pub proof fn lemma_ranges_spread(rs: Seq<(u64, u64)>, k: int)
    requires
        ranges_wf(rs),
        0 <= k <= rs.len(),
    ensures
        forall|i: int| #![trigger rs[i]] 0 <= i < k ==> rs[i].0 >= 2 * i,
    decreases k,
{
    if k > 0 {
        lemma_ranges_spread(rs, k - 1);
        if k >= 2 {
            assert(rs[k - 2].0 < rs[k - 2].1 && rs[k - 2].1 < rs[k - 1].0);
        }
    }
}

} // verus!

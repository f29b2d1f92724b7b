//! Ordered sets of closed integer ranges over 1-based line numbers.
//!
//! An [`IntervalSet`] stores a sorted list of closed pairs `(lo, hi)` with
//! `1 <= lo <= hi`.  Consecutive stored pairs are separated by a gap of at
//! least one number, so the list is the canonical representation of the set
//! of numbers it covers.  `insert` merges a new range into the set, joining
//! any stored range that overlaps or touches it; `subtract` reports the
//! parts of a requested range that the set does not cover.

use vstd::prelude::*;

verus! {

/// Well-formed interval list: every pair is a nonempty range of positive
/// numbers, and consecutive pairs are sorted with a gap of at least one
/// uncovered number between them (`hi + 1 < next_lo`).
pub open spec fn intervals_wf(s: Seq<(usize, usize)>) -> bool {
    &&& forall|i: int| 0 <= i < s.len() ==> 1 <= (#[trigger] s[i]).0 && s[i].0 <= s[i].1
    &&& forall|i: int| 0 <= i && i + 1 < s.len() ==> (#[trigger] s[i]).1 + 1 < s[i + 1].0
}

/// Whether the number `x` lies inside one of the ranges of `s`.
pub open spec fn intervals_cover(s: Seq<(usize, usize)>, x: int) -> bool {
    exists|i: int| 0 <= i < s.len() && (#[trigger] s[i]).0 <= x <= s[i].1
}

/// A request `(start, end)` that both operations treat as a no-op.
pub open spec fn range_invalid(start: usize, end: usize) -> bool {
    start == 0 || end == 0 || start > end
}

/// In a well-formed list any earlier range ends strictly below any later
/// range, with a gap of at least one number.
pub proof fn lemma_wf_ordered(s: Seq<(usize, usize)>, i: int, j: int)
    requires
        intervals_wf(s),
        0 <= i < j < s.len(),
    ensures
        s[i].1 + 1 < s[j].0,
    decreases j - i,
{
    if i + 1 < j {
        lemma_wf_ordered(s, i + 1, j);
    }
}

/// Appending one range extends coverage by exactly that range.
pub proof fn lemma_cover_push(s: Seq<(usize, usize)>, p: (usize, usize), x: int)
    ensures
        intervals_cover(s.push(p), x) <==> (intervals_cover(s, x) || p.0 <= x <= p.1),
{
    if intervals_cover(s, x) {
        let j = choose|j: int| 0 <= j < s.len() && (#[trigger] s[j]).0 <= x <= s[j].1;
        assert(s.push(p)[j] == s[j]);
        assert(intervals_cover(s.push(p), x));
    }
    if p.0 <= x <= p.1 {
        assert(s.push(p)[s.len() as int] == p);
        assert(intervals_cover(s.push(p), x));
    }
    if intervals_cover(s.push(p), x) {
        let j = choose|j: int| 0 <= j < s.push(p).len() && (#[trigger] s.push(p)[j]).0 <= x
            <= s.push(p)[j].1;
        if j < s.len() {
            assert(s[j] == s.push(p)[j]);
            assert(intervals_cover(s, x));
        } else {
            assert(s.push(p)[j] == p);
        }
    }
}

/// One overlap step of `subtract`.  With the cursor standing at `cursor0`
/// and the stored range `s[idx]` overlapping `[cursor0, end]`, pushing the
/// uncovered gap in front of `s[idx]` (when there is one) extends the
/// collected ranges to cover exactly the uncovered part of
/// `[start, new_cursor)`, where `new_cursor` stands one past the stored
/// range, capped at `end`.
proof fn lemma_subtract_advance(
    s: Seq<(usize, usize)>,
    r0: Seq<(usize, usize)>,
    r1: Seq<(usize, usize)>,
    start: usize,
    end: usize,
    cursor0: usize,
    new_cursor: int,
    idx: int,
)
    requires
        intervals_wf(s),
        0 <= idx < s.len(),
        1 <= start <= end,
        start <= cursor0 <= end,
        s[idx].0 <= end,
        cursor0 <= s[idx].1,
        forall|j: int| 0 <= j < idx ==> (#[trigger] s[j]).1 < cursor0,
        r1 == (if s[idx].0 > cursor0 {
            r0.push((cursor0, (s[idx].0 - 1) as usize))
        } else {
            r0
        }),
        new_cursor == (if s[idx].1 < end {
            s[idx].1 + 1
        } else {
            end as int
        }),
        intervals_wf(r0),
        r0.len() > 0 ==> r0[r0.len() - 1].1 + 1 < cursor0,
        forall|i: int| 0 <= i < r0.len() ==> start <= (#[trigger] r0[i]).0 && r0[i].1 <= end,
        forall|x: int| intervals_cover(r0, x)
            <==> (start <= x < cursor0 && !intervals_cover(s, x)),
    ensures
        intervals_wf(r1),
        forall|i: int| 0 <= i < r1.len() ==> start <= (#[trigger] r1[i]).0 && r1[i].1 <= end,
        s[idx].1 < end ==> (r1.len() > 0 ==> r1[r1.len() - 1].1 + 1 < new_cursor),
        forall|x: int| intervals_cover(r1, x)
            <==> (start <= x < new_cursor && !intervals_cover(s, x)),
{
    let lo = s[idx].0;
    let hi = s[idx].1;
    // Nothing in the list covers the gap `[cursor0, lo - 1]`: earlier
    // ranges end below the cursor and later ranges start at `lo` or beyond.
    assert forall|x: int| cursor0 <= x < lo implies !intervals_cover(s, x) by {
        assert forall|j: int| 0 <= j < s.len()
            implies !((#[trigger] s[j]).0 <= x <= s[j].1) by {
            if j < idx {
            } else if j == idx {
            } else {
                lemma_wf_ordered(s, idx, j);
            }
        }
    }
    // The stored range covers everything from `lo` through `hi` itself.
    assert forall|x: int| lo <= x <= hi implies intervals_cover(s, x) by {
        assert(s[idx].0 <= x <= s[idx].1);
    }
    let front: int = if lo > cursor0 { lo as int } else { cursor0 as int };
    if lo > cursor0 {
        let p = (cursor0, (lo - 1) as usize);
        assert forall|i: int| 0 <= i < r1.len()
            implies 1 <= (#[trigger] r1[i]).0 && r1[i].0 <= r1[i].1
                && start <= r1[i].0 && r1[i].1 <= end by {
            if i < r0.len() {
                assert(r1[i] == r0[i]);
            } else {
                assert(r1[i] == p);
            }
        }
        assert forall|i: int| 0 <= i && i + 1 < r1.len()
            implies (#[trigger] r1[i]).1 + 1 < r1[i + 1].0 by {
            if i + 1 < r0.len() {
                assert(r1[i] == r0[i] && r1[i + 1] == r0[i + 1]);
            } else {
                assert(r1[i] == r0[i] && r1[i + 1] == p);
            }
        }
        // The pushed gap extends coverage through `front`.
        assert forall|x: int| intervals_cover(r1, x)
            <==> (start <= x < front && !intervals_cover(s, x)) by {
            lemma_cover_push(r0, p, x);
        }
    }
    assert forall|x: int| intervals_cover(r1, x)
        <==> (start <= x < new_cursor && !intervals_cover(s, x)) by {
        if start <= x < new_cursor && !intervals_cover(s, x) {
            assert(!(front <= x <= hi));
        }
    }
}

/// An ordered set of closed ranges of 1-based line numbers.
pub struct IntervalSet {
    intervals: Vec<(usize, usize)>,
}

impl View for IntervalSet {
    type V = Seq<(usize, usize)>;

    closed spec fn view(&self) -> Seq<(usize, usize)> {
        self.intervals@
    }
}

impl Default for IntervalSet {
    /// The empty set.
    fn default() -> (r: IntervalSet)
        ensures
            r@ =~= Seq::<(usize, usize)>::empty(),
            r.wf(),
    {
        IntervalSet { intervals: Vec::new() }
    }
}

impl IntervalSet {
    /// The invariant every mutation preserves: the stored list is strictly
    /// ordered with gaps of at least one number between consecutive ranges.
    pub open spec fn wf(&self) -> bool {
        intervals_wf(self@)
    }

    /// Whether the set covers the number `x`.
    pub open spec fn covers(&self, x: int) -> bool {
        intervals_cover(self@, x)
    }

    /// The stored ranges, in ascending order.
    pub fn ranges(&self) -> (r: Vec<(usize, usize)>)
        ensures
            r@ == self@,
    {
        let mut r: Vec<(usize, usize)> = Vec::new();
        let mut i: usize = 0;
        while i < self.intervals.len()
            invariant
                i <= self.intervals.len(),
                r@ =~= self@.subrange(0, i as int),
            decreases self.intervals.len() - i,
        {
            r.push(self.intervals[i]);
            i = i + 1;
        }
        proof {
            assert(r@ =~= self@);
        }
        r
    }

    /// Returns the subranges of `[start, end]` that the set does not cover,
    /// in ascending order and pairwise disjoint.  An invalid request yields
    /// an empty list; on an empty set the whole request comes back.
    #[verifier::rlimit(100)]
    pub fn subtract(&self, start: usize, end: usize) -> (r: Vec<(usize, usize)>)
        requires
            self.wf(),
        ensures
            intervals_wf(r@),
            range_invalid(start, end) ==> r@.len() == 0,
            !range_invalid(start, end) ==> forall|x: int|
                intervals_cover(r@, x) <==> (start <= x <= end && !self.covers(x)),
            forall|i: int| 0 <= i < r@.len() ==> start <= (#[trigger] r@[i]).0 && r@[i].1 <= end,
    {
        let mut r: Vec<(usize, usize)> = Vec::new();
        if start == 0 || end == 0 || start > end {
            return r;
        }

        let n = self.intervals.len();
        let mut cursor: usize = start;
        let mut idx: usize = 0;
        // Every remaining stored range lies beyond `end`; the uncovered
        // tail `[cursor, end]` is still owed.
        let mut beyond: bool = false;
        // A stored range reached `end`; nothing at or above the cursor is
        // uncovered any more.
        let mut covered_to_end: bool = false;

        while idx < n && !beyond && !covered_to_end
            invariant
                self.wf(),
                n == self@.len(),
                idx <= n,
                1 <= start <= end,
                start <= cursor <= end,
                beyond ==> forall|j: int| idx <= j < n ==> end < (#[trigger] self@[j]).0,
                covered_to_end ==> cursor == end && intervals_cover(self@, end as int),
                forall|j: int| 0 <= j < idx ==> (#[trigger] self@[j]).1 < cursor,
                intervals_wf(r@),
                !covered_to_end && r@.len() > 0 ==> r@[r@.len() - 1].1 + 1 < cursor,
                forall|i: int| 0 <= i < r@.len()
                    ==> start <= (#[trigger] r@[i]).0 && r@[i].1 <= end,
                forall|x: int| intervals_cover(r@, x)
                    <==> (start <= x < cursor && !intervals_cover(self@, x)),
            decreases n - idx + (if beyond || covered_to_end { 0int } else { 1int }),
        {
            let (lo, hi) = self.intervals[idx];
            if hi < cursor {
                proof {
                    assert forall|j: int| 0 <= j < idx + 1
                        implies (#[trigger] self@[j]).1 < cursor by {
                        if j < idx {
                        } else {
                            assert(self@[idx as int].1 == hi);
                        }
                    }
                }
                idx = idx + 1;
            } else if lo > end {
                proof {
                    assert forall|j: int| idx <= j < n
                        implies end < (#[trigger] self@[j]).0 by {
                        if idx < j {
                            lemma_wf_ordered(self@, idx as int, j);
                        }
                    }
                }
                beyond = true;
            } else {
                // Here `lo <= end` and `cursor <= hi`: the stored range
                // overlaps `[cursor, end]`.
                let ghost r0 = r@;
                let ghost idx0 = idx as int;
                let cursor0 = cursor;
                if lo > cursor {
                    r.push((cursor, lo - 1));
                }
                if hi >= end {
                    covered_to_end = true;
                    cursor = end;
                } else {
                    cursor = hi + 1;
                    idx = idx + 1;
                }
                proof {
                    lemma_subtract_advance(self@, r0, r@, start, end, cursor0,
                        cursor as int, idx0);
                    assert forall|j: int| 0 <= j < idx
                        implies (#[trigger] self@[j]).1 < cursor by {
                        if j == idx0 {
                            assert(self@[idx0].1 == hi);
                        }
                    }
                    if hi >= end {
                        assert(self@[idx0].0 <= end <= self@[idx0].1);
                    }
                }
            }
        }

        if !covered_to_end {
            proof {
                // Nothing in the set covers `[cursor, end]`: processed
                // ranges end below the cursor, and the loop only stops
                // early when the remaining ranges start beyond `end`.
                assert forall|x: int| cursor <= x <= end
                    implies !intervals_cover(self@, x) by {
                    assert forall|j: int| 0 <= j < n
                        implies !((#[trigger] self@[j]).0 <= x <= self@[j].1) by {
                        if j < idx {
                        }
                    }
                }
                let ghost r0 = r@;
                assert forall|x: int| intervals_cover(r0.push((cursor, end)), x)
                    <==> (start <= x <= end && !intervals_cover(self@, x)) by {
                    lemma_cover_push(r0, (cursor, end), x);
                }
            }
            r.push((cursor, end));
        } else {
            proof {
                // The loop already covered the request through `end`.
                assert forall|x: int| intervals_cover(r@, x)
                    <==> (start <= x <= end && !intervals_cover(self@, x)) by {
                    if x == end {
                        assert(intervals_cover(self@, end as int));
                    }
                }
            }
        }
        r
    }

    /// Merges `[start, end]` into the set, joining every stored range that
    /// overlaps or touches it (gap of zero).  An invalid request leaves the
    /// set unchanged.
    pub fn insert(&mut self, start: usize, end: usize)
        requires
            old(self).wf(),
        ensures
            final(self).wf(),
            range_invalid(start, end) ==> final(self)@ == old(self)@,
            !range_invalid(start, end) ==> forall|x: int|
                final(self).covers(x) <==> (old(self).covers(x) || start <= x <= end),
    {
        if start == 0 || end == 0 || start > end {
            return;
        }

        let n = self.intervals.len();
        let ghost s = self@;
        let mut merged: Vec<(usize, usize)> = Vec::new();
        let mut i: usize = 0;

        // Ranges that end strictly more than one number below `start` stay
        // in front, untouched.
        while i < n && self.intervals[i].1.saturating_add(1) < start
            invariant
                self.wf(),
                s == self@,
                n == s.len(),
                i <= n,
                1 <= start <= end,
                merged@ =~= s.subrange(0, i as int),
                forall|j: int| 0 <= j < i ==> (#[trigger] s[j]).1 + 1 < start,
            decreases n - i,
        {
            merged.push(self.intervals[i]);
            i = i + 1;
        }

        let ghost zone_start = i as int;
        let mut new_start = start;
        let mut new_end = end;

        // Ranges that overlap or touch `[start, end]` fold into one range.
        while i < n && self.intervals[i].0 <= end.saturating_add(1)
            invariant
                self.wf(),
                s == self@,
                n == s.len(),
                0 <= zone_start <= i <= n,
                1 <= start <= end,
                1 <= new_start <= start,
                end <= new_end,
                zone_start < n ==> start <= s[zone_start].1 + 1,
                zone_start == i ==> new_start == start && new_end == end,
                zone_start < i ==> new_start == (if s[zone_start].0 < start {
                    s[zone_start].0
                } else {
                    start
                }),
                zone_start < i ==> new_end == (if s[i - 1].1 > end { s[i - 1].1 } else { end }),
                forall|j: int| zone_start <= j < i ==> (#[trigger] s[j]).0 <= end + 1,
                forall|j: int| zone_start <= j < i ==> start <= (#[trigger] s[j]).1 + 1,
            decreases n - i,
        {
            let (lo, hi) = self.intervals[i];
            proof {
                if zone_start < i {
                    // Sortedness keeps each folded range touching the
                    // accumulated one.
                    lemma_wf_ordered(s, zone_start, i as int);
                    lemma_wf_ordered(s, i - 1, i as int);
                }
            }
            if lo < new_start {
                new_start = lo;
            }
            if hi > new_end {
                new_end = hi;
            }
            i = i + 1;
        }

        let ghost zone_end = i as int;
        merged.push((new_start, new_end));

        proof {
            assert(merged@ =~= s.subrange(0, zone_start)
                + seq![(new_start, new_end)]
                + s.subrange(zone_end, zone_end));
        }

        // The remaining ranges begin beyond `end + 1` and beyond the folded
        // range, so they follow untouched.
        while i < n
            invariant
                self.wf(),
                s == self@,
                n == s.len(),
                0 <= zone_start <= zone_end <= i <= n,
                merged@ =~= s.subrange(0, zone_start)
                    + seq![(new_start, new_end)]
                    + s.subrange(zone_end, i as int),
            decreases n - i,
        {
            merged.push(self.intervals[i]);
            i = i + 1;
            proof {
                assert(s.subrange(zone_end, i as int)
                    =~= s.subrange(zone_end, i - 1).push(s[i - 1]));
                assert(merged@ =~= s.subrange(0, zone_start)
                    + seq![(new_start, new_end)]
                    + s.subrange(zone_end, i as int));
            }
        }

        proof {
            lemma_insert_merged(s, merged@, zone_start, zone_end, start, end, new_start, new_end);
        }

        self.intervals = merged;
    }
}

/// The list built by `insert` — the untouched front, one folded range, and
/// the untouched back — is well formed and covers exactly the old numbers
/// plus `[start, end]`.
proof fn lemma_insert_merged(
    s: Seq<(usize, usize)>,
    m: Seq<(usize, usize)>,
    zone_start: int,
    zone_end: int,
    start: usize,
    end: usize,
    new_start: usize,
    new_end: usize,
)
    requires
        intervals_wf(s),
        1 <= start <= end,
        0 <= zone_start <= zone_end <= s.len(),
        m =~= s.subrange(0, zone_start)
            + seq![(new_start, new_end)]
            + s.subrange(zone_end, s.len() as int),
        1 <= new_start <= start,
        end <= new_end,
        forall|j: int| 0 <= j < zone_start ==> (#[trigger] s[j]).1 + 1 < start,
        forall|j: int| zone_start <= j < zone_end ==> (#[trigger] s[j]).0 <= end + 1,
        forall|j: int| zone_start <= j < zone_end ==> start <= (#[trigger] s[j]).1 + 1,
        zone_start == zone_end ==> new_start == start && new_end == end,
        zone_start < zone_end ==> new_start == (if s[zone_start].0 < start {
            s[zone_start].0
        } else {
            start
        }),
        zone_start < zone_end ==> new_end == (if s[zone_end - 1].1 > end {
            s[zone_end - 1].1
        } else {
            end
        }),
        zone_end < s.len() ==> end + 1 < s[zone_end].0,
    ensures
        intervals_wf(m),
        forall|x: int| intervals_cover(m, x)
            <==> (intervals_cover(s, x) || start <= x <= end),
{
    lemma_insert_merged_wf(s, m, zone_start, zone_end, start, end, new_start, new_end);
    lemma_insert_merged_cover(s, m, zone_start, zone_end, start, end, new_start, new_end);
}

/// Well-formedness half of the `insert` result: the merged list is sorted
/// with gaps and holds nonempty positive ranges.
proof fn lemma_insert_merged_wf(
    s: Seq<(usize, usize)>,
    m: Seq<(usize, usize)>,
    zone_start: int,
    zone_end: int,
    start: usize,
    end: usize,
    new_start: usize,
    new_end: usize,
)
    requires
        intervals_wf(s),
        1 <= start <= end,
        0 <= zone_start <= zone_end <= s.len(),
        m =~= s.subrange(0, zone_start)
            + seq![(new_start, new_end)]
            + s.subrange(zone_end, s.len() as int),
        1 <= new_start <= start,
        end <= new_end,
        forall|j: int| 0 <= j < zone_start ==> (#[trigger] s[j]).1 + 1 < start,
        forall|j: int| zone_start <= j < zone_end ==> (#[trigger] s[j]).0 <= end + 1,
        forall|j: int| zone_start <= j < zone_end ==> start <= (#[trigger] s[j]).1 + 1,
        zone_start == zone_end ==> new_start == start && new_end == end,
        zone_start < zone_end ==> new_start == (if s[zone_start].0 < start {
            s[zone_start].0
        } else {
            start
        }),
        zone_start < zone_end ==> new_end == (if s[zone_end - 1].1 > end {
            s[zone_end - 1].1
        } else {
            end
        }),
        zone_end < s.len() ==> end + 1 < s[zone_end].0,
    ensures
        intervals_wf(m),
{
    let k = zone_start;
    let n = s.len() as int;
    assert(m.len() == k + 1 + (n - zone_end));

    // Well-formedness: ranges are nonempty and positive.
    assert forall|a: int| 0 <= a < m.len()
        implies 1 <= (#[trigger] m[a]).0 && m[a].0 <= m[a].1 by {
        if a < k {
            assert(m[a] == s[a]);
        } else if a == k {
            assert(m[a] == (new_start, new_end));
        } else {
            assert(m[a] == s[zone_end + (a - k - 1)]);
        }
    }
    // Well-formedness: sorted with gaps.
    assert forall|a: int| 0 <= a && a + 1 < m.len()
        implies (#[trigger] m[a]).1 + 1 < m[a + 1].0 by {
        if a + 1 < k {
            assert(m[a] == s[a] && m[a + 1] == s[a + 1]);
        } else if a + 1 == k {
            // Last untouched front range against the folded range.
            assert(m[a] == s[a]);
            assert(s[a].1 + 1 < start);
            if zone_start < zone_end && s[zone_start].0 < start {
                // The folded range may begin at the first folded stored
                // range; consecutive well-formedness bridges the gap.
                assert(s[a].1 + 1 < s[zone_start].0);
            }
        } else if a == k {
            assert(m[a + 1] == s[zone_end]);
            assert(end + 1 < s[zone_end].0);
            if zone_start < zone_end {
                lemma_wf_ordered(s, zone_end - 1, zone_end);
            }
        } else {
            assert(m[a] == s[zone_end + (a - k - 1)]);
            assert(m[a + 1] == s[zone_end + (a - k)]);
        }
    }
}

/// Coverage half of the `insert` result: the merged list covers exactly the
/// old numbers plus `[start, end]`.
#[verifier::rlimit(100)]
proof fn lemma_insert_merged_cover(
    s: Seq<(usize, usize)>,
    m: Seq<(usize, usize)>,
    zone_start: int,
    zone_end: int,
    start: usize,
    end: usize,
    new_start: usize,
    new_end: usize,
)
    requires
        intervals_wf(s),
        1 <= start <= end,
        0 <= zone_start <= zone_end <= s.len(),
        m =~= s.subrange(0, zone_start)
            + seq![(new_start, new_end)]
            + s.subrange(zone_end, s.len() as int),
        1 <= new_start <= start,
        end <= new_end,
        forall|j: int| 0 <= j < zone_start ==> (#[trigger] s[j]).1 + 1 < start,
        forall|j: int| zone_start <= j < zone_end ==> (#[trigger] s[j]).0 <= end + 1,
        forall|j: int| zone_start <= j < zone_end ==> start <= (#[trigger] s[j]).1 + 1,
        zone_start == zone_end ==> new_start == start && new_end == end,
        zone_start < zone_end ==> new_start == (if s[zone_start].0 < start {
            s[zone_start].0
        } else {
            start
        }),
        zone_start < zone_end ==> new_end == (if s[zone_end - 1].1 > end {
            s[zone_end - 1].1
        } else {
            end
        }),
        zone_end < s.len() ==> end + 1 < s[zone_end].0,
    ensures
        forall|x: int| intervals_cover(m, x)
            <==> (intervals_cover(s, x) || start <= x <= end),
{
    let k = zone_start;
    let n = s.len() as int;
    assert(m.len() == k + 1 + (n - zone_end));
    // Coverage, forward: the folded range covers only `[start, end]` and
    // numbers of folded stored ranges, because every folded range touches
    // `[start, end]`.
    assert forall|x: int| intervals_cover(m, x)
        implies (intervals_cover(s, x) || start <= x <= end) by {
        let a = choose|a: int| 0 <= a < m.len() && (#[trigger] m[a]).0 <= x <= m[a].1;
        if a < k {
            assert(s[a].0 <= x <= s[a].1);
            assert(intervals_cover(s, x));
        } else if a == k {
            if x < start {
                // Below `start` only the first folded range reaches down
                // to `new_start`, and it reaches up to at least `start - 1`.
                assert(zone_start < zone_end);
                assert(new_start == s[zone_start].0);
                assert(x <= s[zone_start].1);
                assert(s[zone_start].0 <= x <= s[zone_start].1);
                assert(intervals_cover(s, x));
            } else if x > end {
                // Above `end` only the last folded range reaches up to
                // `new_end`, and it begins at or below `end + 1`.
                assert(zone_start < zone_end);
                assert(new_end == s[zone_end - 1].1);
                assert(s[zone_end - 1].0 <= end + 1 <= x);
                assert(s[zone_end - 1].0 <= x <= s[zone_end - 1].1);
                assert(intervals_cover(s, x));
            }
        } else {
            let b = zone_end + (a - k - 1);
            assert(m[a] == s[b]);
            assert(s[b].0 <= x <= s[b].1);
            assert(intervals_cover(s, x));
        }
    }
    // Coverage, backward.
    assert forall|x: int| (intervals_cover(s, x) || start <= x <= end)
        implies intervals_cover(m, x) by {
        if start <= x <= end {
            assert(m[k].0 <= x <= m[k].1);
            assert(intervals_cover(m, x));
        } else {
            let j = choose|j: int| 0 <= j < s.len() && (#[trigger] s[j]).0 <= x <= s[j].1;
            if j < zone_start {
                assert(m[j] == s[j]);
                assert(m[j].0 <= x <= m[j].1);
                assert(intervals_cover(m, x));
            } else if j < zone_end {
                // A folded range lies inside `[new_start, new_end]`.
                if zone_start < j {
                    lemma_wf_ordered(s, zone_start, j);
                }
                if j < zone_end - 1 {
                    lemma_wf_ordered(s, j, zone_end - 1);
                }
                assert(new_start <= s[j].0 && s[j].1 <= new_end);
                assert(m[k].0 <= x <= m[k].1);
                assert(intervals_cover(m, x));
            } else {
                let a = k + 1 + (j - zone_end);
                assert(m[a] == s[j]);
                assert(m[a].0 <= x <= m[a].1);
                assert(intervals_cover(m, x));
            }
        }
    }
}

/// Any two well-formed interval lists covering the same numbers are the
/// same list: the representation is canonical.
#[verifier::rlimit(100)]
pub proof fn lemma_wf_coverage_unique(a: Seq<(usize, usize)>, b: Seq<(usize, usize)>)
    requires
        intervals_wf(a),
        intervals_wf(b),
        forall|x: int| intervals_cover(a, x) <==> intervals_cover(b, x),
    ensures
        a =~= b,
    decreases a.len(),
{
    if a.len() == 0 {
        if b.len() > 0 {
            assert(intervals_cover(b, b[0].0 as int));
        }
    } else if b.len() == 0 {
        assert(intervals_cover(a, a[0].0 as int));
    } else {
        lemma_wf_first_equal(a, b);
        let at = a.subrange(1, a.len() as int);
        let bt = b.subrange(1, b.len() as int);
        lemma_wf_tail(a);
        lemma_wf_tail(b);
        // Dropping the shared head restricts coverage to numbers above it.
        assert forall|x: int| intervals_cover(at, x) <==> (intervals_cover(a, x)
            && x > a[0].1) by {
            lemma_tail_coverage(a, x);
        }
        assert forall|x: int| intervals_cover(bt, x) <==> (intervals_cover(b, x)
            && x > b[0].1) by {
            lemma_tail_coverage(b, x);
        }
        lemma_wf_coverage_unique(at, bt);
        assert forall|i: int| 0 <= i < a.len() implies a[i] == b[i] by {
            if i > 0 {
                assert(at[i - 1] == bt[i - 1]);
            }
        }
    }
}

/// Two nonempty well-formed lists with the same coverage share their first
/// range: its lower bound is the least covered number, and the number one
/// past its upper bound is the least uncovered number above that.
proof fn lemma_wf_first_equal(a: Seq<(usize, usize)>, b: Seq<(usize, usize)>)
    requires
        intervals_wf(a),
        intervals_wf(b),
        a.len() > 0,
        b.len() > 0,
        forall|x: int| intervals_cover(a, x) <==> intervals_cover(b, x),
    ensures
        a[0] == b[0],
{
    // The first lower bounds agree: each is the least covered number.
    assert(intervals_cover(a, a[0].0 as int));
    assert(intervals_cover(b, b[0].0 as int));
    let ja = choose|j: int| 0 <= j < b.len() && (#[trigger] b[j]).0 <= a[0].0 <= b[j].1;
    if 0 < ja {
        lemma_wf_ordered(b, 0, ja);
    }
    let jb = choose|j: int| 0 <= j < a.len() && (#[trigger] a[j]).0 <= b[0].0 <= a[j].1;
    if 0 < jb {
        lemma_wf_ordered(a, 0, jb);
    }
    assert(a[0].0 == b[0].0);

    // The first upper bounds agree: the number one past each is the least
    // uncovered number at or above the shared lower bound.
    assert forall|j: int| 0 <= j < a.len()
        implies !((#[trigger] a[j]).0 <= a[0].1 + 1 <= a[j].1) by {
        if 0 < j {
            lemma_wf_ordered(a, 0, j);
        }
    }
    assert forall|j: int| 0 <= j < b.len()
        implies !((#[trigger] b[j]).0 <= b[0].1 + 1 <= b[j].1) by {
        if 0 < j {
            lemma_wf_ordered(b, 0, j);
        }
    }
    if a[0].1 < b[0].1 {
        assert(intervals_cover(b, a[0].1 + 1));
        assert(!intervals_cover(a, a[0].1 + 1));
    }
    if b[0].1 < a[0].1 {
        assert(intervals_cover(a, b[0].1 + 1));
        assert(!intervals_cover(b, b[0].1 + 1));
    }
    assert(a[0].1 == b[0].1);
}

/// A well-formed list stays well-formed when its first range is dropped.
proof fn lemma_wf_tail(a: Seq<(usize, usize)>)
    requires
        intervals_wf(a),
        a.len() > 0,
    ensures
        intervals_wf(a.subrange(1, a.len() as int)),
{
    let at = a.subrange(1, a.len() as int);
    assert forall|i: int| 0 <= i < at.len()
        implies 1 <= (#[trigger] at[i]).0 && at[i].0 <= at[i].1 by {
        assert(at[i] == a[i + 1]);
    }
    assert forall|i: int| 0 <= i && i + 1 < at.len()
        implies (#[trigger] at[i]).1 + 1 < at[i + 1].0 by {
        assert(at[i] == a[i + 1] && at[i + 1] == a[i + 2]);
    }
}

/// Coverage of a well-formed list without its first range is coverage of
/// the whole list restricted to numbers above the first range.
proof fn lemma_tail_coverage(a: Seq<(usize, usize)>, x: int)
    requires
        intervals_wf(a),
        a.len() > 0,
    ensures
        intervals_cover(a.subrange(1, a.len() as int), x)
            <==> (intervals_cover(a, x) && x > a[0].1),
{
    let at = a.subrange(1, a.len() as int);
    if intervals_cover(at, x) {
        let j = choose|j: int| 0 <= j < at.len() && (#[trigger] at[j]).0 <= x <= at[j].1;
        assert(at[j] == a[j + 1]);
        lemma_wf_ordered(a, 0, j + 1);
        assert(intervals_cover(a, x));
    }
    if intervals_cover(a, x) && x > a[0].1 {
        let j = choose|j: int| 0 <= j < a.len() && (#[trigger] a[j]).0 <= x <= a[j].1;
        assert(j > 0);
        assert(at[j - 1] == a[j]);
        assert(intervals_cover(at, x));
    }
}

/// Inserting a range a second time changes nothing: the second insertion
/// adds only numbers the set already covers, and coverage determines the
/// stored list.
pub proof fn lemma_insert_idempotent(
    s0: Seq<(usize, usize)>,
    s1: Seq<(usize, usize)>,
    s2: Seq<(usize, usize)>,
    start: usize,
    end: usize,
)
    requires
        intervals_wf(s1),
        intervals_wf(s2),
        forall|x: int| intervals_cover(s1, x)
            <==> (intervals_cover(s0, x) || start <= x <= end),
        forall|x: int| intervals_cover(s2, x)
            <==> (intervals_cover(s1, x) || start <= x <= end),
    ensures
        s1 =~= s2,
{
    assert forall|x: int| intervals_cover(s2, x) <==> intervals_cover(s1, x) by {
        if start <= x <= end {
            assert(intervals_cover(s1, x));
        }
    }
    lemma_wf_coverage_unique(s1, s2);
}

/// After `insert(start, end)` the set covers all of `[start, end]`, so
/// `subtract(start, end)` has nothing left to report: its result is empty.
pub proof fn lemma_insert_then_subtract_empty(
    s: Seq<(usize, usize)>,
    r: Seq<(usize, usize)>,
    start: usize,
    end: usize,
)
    requires
        intervals_wf(r),
        forall|x: int| start <= x <= end ==> intervals_cover(s, x),
        forall|x: int| intervals_cover(r, x) <==> (start <= x <= end && !intervals_cover(s, x)),
    ensures
        r.len() == 0,
{
    if r.len() > 0 {
        assert(intervals_cover(r, r[0].0 as int));
    }
}

} // verus!

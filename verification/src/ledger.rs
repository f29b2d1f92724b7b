//! Per-path ledger of already-served source line ranges.
//!
//! Each path maps to an [`IntervalSet`] of the line ranges already shown.
//! `compute_unserved` reports, for a batch of requested ranges, the parts
//! not yet served and whether anything requested was already covered;
//! `record_served` marks ranges as served.

use vstd::prelude::*;
use crate::interval_set::IntervalSet;
use crate::interval_set::intervals_cover;
use crate::interval_set::intervals_wf;
use crate::interval_set::range_invalid;
use crate::text::str_eq;

verus! {

/// The ledger: one interval set per path, created on first insertion.
pub struct CodeReadIndex {
    entries: Vec<(String, IntervalSet)>,
}

impl Default for CodeReadIndex {
    /// An empty ledger.
    fn default() -> (r: CodeReadIndex)
        ensures
            r.wf(),
            r.entries_seq().len() == 0,
    {
        CodeReadIndex { entries: Vec::new() }
    }
}

/// Whether an entry list holds a path.
pub open spec fn index_has_path(s: Seq<(String, IntervalSet)>, path: Seq<char>) -> bool {
    exists|i: int| 0 <= i < s.len() && (#[trigger] s[i]).0@ == path
}

/// The position at which an entry list holds a path.
pub open spec fn index_path_at(s: Seq<(String, IntervalSet)>, path: Seq<char>) -> int {
    choose|i: int| 0 <= i < s.len() && (#[trigger] s[i]).0@ == path
}

/// The canonical uncovered list of `[start, end]` against the stored
/// ranges: the unique well-formed range list, inside the request, covering
/// exactly the requested lines the stored ranges miss.
pub open spec fn uncovered_canon(stored: Seq<(usize, usize)>, start: usize, end: usize)
    -> Seq<(usize, usize)> {
    choose|r: Seq<(usize, usize)>|
        intervals_wf(r)
        && (forall|i: int| 0 <= i < r.len()
            ==> start <= (#[trigger] r[i]).0 && r[i].1 <= end)
        && (forall|x: int| intervals_cover(r, x)
            <==> (start <= x <= end && !intervals_cover(stored, x)))
}

/// The unserved parts of the requests against the stored ranges: each
/// valid request contributes its canonical uncovered list, in request
/// order; invalid requests contribute nothing.
pub open spec fn unserved_concat(
    stored: Seq<(usize, usize)>,
    reqs: Seq<(usize, usize)>,
) -> Seq<(usize, usize)>
    decreases reqs.len(),
{
    if reqs.len() == 0 {
        Seq::empty()
    } else {
        let head = if range_invalid(reqs[0].0, reqs[0].1) {
            Seq::<(usize, usize)>::empty()
        } else {
            uncovered_canon(stored, reqs[0].0, reqs[0].1)
        };
        head + unserved_concat(stored, reqs.drop_first())
    }
}

/// Extending the considered request prefix by one request appends that
/// request's canonical uncovered list (nothing, for an invalid request).
pub proof fn lemma_unserved_concat_snoc(
    stored: Seq<(usize, usize)>,
    reqs: Seq<(usize, usize)>,
    j: int,
)
    requires
        0 <= j < reqs.len(),
    ensures
        unserved_concat(stored, reqs.subrange(0, j + 1))
            == unserved_concat(stored, reqs.subrange(0, j)) + (if range_invalid(
            reqs[j].0,
            reqs[j].1,
        ) {
            Seq::<(usize, usize)>::empty()
        } else {
            uncovered_canon(stored, reqs[j].0, reqs[j].1)
        }),
    decreases j,
{
    let head = if range_invalid(reqs[0].0, reqs[0].1) {
        Seq::<(usize, usize)>::empty()
    } else {
        uncovered_canon(stored, reqs[0].0, reqs[0].1)
    };
    let last = if range_invalid(reqs[j].0, reqs[j].1) {
        Seq::<(usize, usize)>::empty()
    } else {
        uncovered_canon(stored, reqs[j].0, reqs[j].1)
    };
    if j == 0 {
        let s1 = reqs.subrange(0, 1);
        assert(reqs.subrange(0, 0) =~= Seq::<(usize, usize)>::empty());
        assert(s1[0] == reqs[0]);
        assert(s1.drop_first() =~= Seq::<(usize, usize)>::empty());
        assert(unserved_concat(stored, s1.drop_first()).len() == 0);
        assert(unserved_concat(stored, s1) == (if range_invalid(s1[0].0, s1[0].1) {
            Seq::<(usize, usize)>::empty()
        } else {
            uncovered_canon(stored, s1[0].0, s1[0].1)
        }) + unserved_concat(stored, s1.drop_first()));
        assert(unserved_concat(stored, s1) =~= head);
        assert(unserved_concat(stored, reqs.subrange(0, 0)) + last =~= head);
    } else {
        lemma_unserved_concat_snoc(stored, reqs.drop_first(), j - 1);
        let sj1 = reqs.subrange(0, j + 1);
        let sj = reqs.subrange(0, j);
        assert(sj1[0] == reqs[0]);
        assert(sj[0] == reqs[0]);
        assert(sj1.drop_first() =~= reqs.drop_first().subrange(0, j));
        assert(sj.drop_first() =~= reqs.drop_first().subrange(0, j - 1));
        assert(reqs.drop_first()[j - 1] == reqs[j]);
        // Unfold one step on both prefixes.
        assert(unserved_concat(stored, sj1) == (if range_invalid(sj1[0].0, sj1[0].1) {
            Seq::<(usize, usize)>::empty()
        } else {
            uncovered_canon(stored, sj1[0].0, sj1[0].1)
        }) + unserved_concat(stored, sj1.drop_first()));
        assert(unserved_concat(stored, sj) == (if range_invalid(sj[0].0, sj[0].1) {
            Seq::<(usize, usize)>::empty()
        } else {
            uncovered_canon(stored, sj[0].0, sj[0].1)
        }) + unserved_concat(stored, sj.drop_first()));
        assert(unserved_concat(stored, sj1)
            == head + (unserved_concat(stored, reqs.drop_first().subrange(0, j - 1)) + last));
        assert(head + (unserved_concat(stored, reqs.drop_first().subrange(0, j - 1)) + last)
            =~= (head + unserved_concat(stored, reqs.drop_first().subrange(0, j - 1))) + last);
        assert(unserved_concat(stored, sj)
            == head + unserved_concat(stored, reqs.drop_first().subrange(0, j - 1)));
    }
}

/// An invalid request leaves the canonical concatenation untouched.
pub proof fn lemma_unserved_concat_skip(
    stored: Seq<(usize, usize)>,
    reqs: Seq<(usize, usize)>,
    j: int,
    u: Seq<(usize, usize)>,
)
    requires
        0 <= j < reqs.len(),
        range_invalid(reqs[j].0, reqs[j].1),
        u == unserved_concat(stored, reqs.subrange(0, j)),
    ensures
        u == unserved_concat(stored, reqs.subrange(0, j + 1)),
{
    lemma_unserved_concat_snoc(stored, reqs, j);
    assert(unserved_concat(stored, reqs.subrange(0, j + 1)) =~= u);
}

/// A list with the canonical properties is the canonical list: coverage
/// determines a well-formed range list.
pub proof fn lemma_uncovered_canon_unique(
    stored: Seq<(usize, usize)>,
    r: Seq<(usize, usize)>,
    start: usize,
    end: usize,
)
    requires
        intervals_wf(r),
        forall|i: int| 0 <= i < r.len() ==> start <= (#[trigger] r[i]).0 && r[i].1 <= end,
        forall|x: int| intervals_cover(r, x)
            <==> (start <= x <= end && !intervals_cover(stored, x)),
    ensures
        uncovered_canon(stored, start, end) == r,
{
    assert(exists|c: Seq<(usize, usize)>|
        intervals_wf(c)
        && (forall|i: int| 0 <= i < c.len()
            ==> start <= (#[trigger] c[i]).0 && c[i].1 <= end)
        && (forall|x: int| intervals_cover(c, x)
            <==> (start <= x <= end && !intervals_cover(stored, x)))) by {
        assert(intervals_wf(r)
            && (forall|i: int| 0 <= i < r.len()
                ==> start <= (#[trigger] r[i]).0 && r[i].1 <= end)
            && (forall|x: int| intervals_cover(r, x)
                <==> (start <= x <= end && !intervals_cover(stored, x))));
    }
    let c = uncovered_canon(stored, start, end);
    crate::interval_set::lemma_wf_coverage_unique(c, r);
}

impl CodeReadIndex {
    /// The stored entries.
    pub closed spec fn entries_seq(&self) -> Seq<(String, IntervalSet)> {
        self.entries@
    }

    /// At most one entry per path, each a well-formed interval set.
    pub open spec fn wf(&self) -> bool {
        &&& forall|i: int, j: int| 0 <= i < j < self.entries_seq().len()
            ==> (#[trigger] self.entries_seq()[i]).0@ != (#[trigger] self.entries_seq()[j]).0@
        &&& forall|i: int| 0 <= i < self.entries_seq().len()
            ==> (#[trigger] self.entries_seq()[i]).1.wf()
    }

    /// Whether the ledger tracks a path.
    pub open spec fn has_path(&self, path: Seq<char>) -> bool {
        index_has_path(self.entries_seq(), path)
    }

    /// Whether the ledger records line `x` of `path` as served.
    pub open spec fn serves(&self, path: Seq<char>, x: int) -> bool {
        self.has_path(path) && self.entries_seq()[index_path_at(self.entries_seq(), path)].1
            .covers(x)
    }

    /// The stored ranges of a tracked path.
    pub open spec fn intervals_of(&self, path: Seq<char>) -> Seq<(usize, usize)> {
        self.entries_seq()[index_path_at(self.entries_seq(), path)].1@
    }

    /// The position of the entry for `path`, if one exists.
    fn find_path(&self, path: &str) -> (r: Option<usize>)
        requires
            self.wf(),
        ensures
            match r {
                Option::Some(i) => i < self.entries_seq().len()
                    && self.entries_seq()[i as int].0@ == path@
                    && self.has_path(path@),
                Option::None => !self.has_path(path@),
            },
    {
        let mut i: usize = 0;
        while i < self.entries.len()
            invariant
                i <= self.entries_seq().len(),
                forall|k: int| 0 <= k < i ==> (#[trigger] self.entries_seq()[k]).0@ != path@,
            decreases self.entries.len() - i,
        {
            if str_eq(self.entries[i].0.as_str(), path) {
                return Some(i);
            }
            i = i + 1;
        }
        None
    }

    /// The chosen position of a tracked path is where it was found.
    proof fn lemma_path_at_agrees(&self, path: Seq<char>, i: int)
        requires
            self.wf(),
            0 <= i < self.entries_seq().len(),
            self.entries_seq()[i].0@ == path,
        ensures
            self.has_path(path),
            index_path_at(self.entries_seq(), path) == i,
    {
        assert(self.has_path(path));
        let k = index_path_at(self.entries_seq(), path);
        assert(0 <= k < self.entries_seq().len() && self.entries_seq()[k].0@ == path);
        if k < i {
            assert(self.entries_seq()[k].0@ != self.entries_seq()[i].0@);
        }
        if i < k {
            assert(self.entries_seq()[i].0@ != self.entries_seq()[k].0@);
        }
    }

    /// For each requested range, the parts of it not yet served, in the
    /// order requested; and whether any valid requested line was already
    /// served.  A path never read comes back exactly as requested.
    #[verifier::rlimit(100)]
    pub fn compute_unserved(&self, path: &str, ranges: &Vec<(usize, usize)>)
        -> (r: (Vec<(usize, usize)>, bool))
        requires
            self.wf(),
        ensures
            !self.has_path(path@) ==> r.0@ == ranges@ && !r.1,
            self.has_path(path@) ==> {
                &&& r.0@ == unserved_concat(self.intervals_of(path@), ranges@)
                &&& forall|i: int| 0 <= i < r.0@.len()
                    ==> 1 <= (#[trigger] r.0@[i]).0 <= r.0@[i].1
                &&& forall|x: int| intervals_cover(r.0@, x) <==> exists|j: int|
                    0 <= j < ranges@.len()
                    && !range_invalid((#[trigger] ranges@[j]).0, ranges@[j].1)
                    && ranges@[j].0 <= x <= ranges@[j].1 && !self.serves(path@, x)
                &&& r.1 <==> exists|j: int| 0 <= j < ranges@.len()
                    && !range_invalid((#[trigger] ranges@[j]).0, ranges@[j].1)
                    && exists|x: int| ranges@[j].0 <= x <= ranges@[j].1
                        && self.serves(path@, x)
            },
    {
        let idx = match self.find_path(path) {
            Option::Some(i) => i,
            Option::None => {
                let mut copy: Vec<(usize, usize)> = Vec::new();
                let mut i: usize = 0;
                while i < ranges.len()
                    invariant
                        i <= ranges@.len(),
                        copy@ =~= ranges@.subrange(0, i as int),
                    decreases ranges.len() - i,
                {
                    copy.push(ranges[i]);
                    i = i + 1;
                }
                proof {
                    assert(copy@ =~= ranges@);
                }
                return (copy, false);
            },
        };
        proof {
            self.lemma_path_at_agrees(path@, idx as int);
        }
        let intervals = &self.entries[idx].1;
        let ghost stored = self.entries_seq()[idx as int].1@;

        let mut uncovered: Vec<(usize, usize)> = Vec::new();
        let mut had_overlap = false;
        let mut j: usize = 0;

        while j < ranges.len()
            invariant
                self.wf(),
                idx < self.entries_seq().len(),
                self.entries_seq()[idx as int].0@ == path@,
                index_path_at(self.entries_seq(), path@) == idx as int,
                self.has_path(path@),
                intervals == &self.entries_seq()[idx as int].1,
                intervals.wf(),
                stored == intervals@,
                j <= ranges@.len(),
                uncovered@ == unserved_concat(stored, ranges@.subrange(0, j as int)),
                forall|i: int| 0 <= i < uncovered@.len()
                    ==> 1 <= (#[trigger] uncovered@[i]).0 <= uncovered@[i].1,
                forall|x: int| intervals_cover(uncovered@, x) <==> exists|q: int|
                    0 <= q < j && !range_invalid((#[trigger] ranges@[q]).0, ranges@[q].1)
                    && ranges@[q].0 <= x <= ranges@[q].1 && !intervals.covers(x),
                had_overlap <==> exists|q: int| 0 <= q < j
                    && !range_invalid((#[trigger] ranges@[q]).0, ranges@[q].1)
                    && exists|x: int| ranges@[q].0 <= x <= ranges@[q].1
                        && intervals.covers(x),
            decreases ranges.len() - j,
        {
            let (start, end) = ranges[j];
            if start == 0 || end == 0 || start > end {
                // An invalid request adds nothing: no valid request with
                // index `j` exists, so the loop facts carry over.
                proof {
                    lemma_unserved_concat_skip(stored, ranges@, j as int, uncovered@);
                }
            } else {
                let missing = intervals.subtract(start, end);
                let requested_len = end - start + 1;
                let mut uncovered_len: usize = 0;
                let ghost u0 = uncovered@;
                let mut m: usize = 0;
                while m < missing.len()
                    invariant
                        intervals_wf(missing@),
                        1 <= start <= end,
                        forall|i: int| 0 <= i < missing@.len()
                            ==> start <= (#[trigger] missing@[i]).0
                                && missing@[i].1 <= end,
                        m <= missing@.len(),
                        uncovered@ =~= u0 + missing@.subrange(0, m as int),
                        uncovered_len == range_total(missing@.subrange(0, m as int)),
                        uncovered_len <= end - start + 1,
                    decreases missing.len() - m,
                {
                    let (lo, hi) = missing[m];
                    proof {
                        assert(missing@.subrange(0, m + 1).drop_last()
                            =~= missing@.subrange(0, m as int));
                        lemma_range_total_bound(missing@, m + 1, start as int, end as int);
                        assert(missing@.subrange(0, m + 1)
                            =~= missing@.subrange(0, m + 1));
                    }
                    uncovered.push((lo, hi));
                    uncovered_len = uncovered_len + (hi - lo + 1);
                    m = m + 1;
                }
                if uncovered_len < requested_len {
                    had_overlap = true;
                }
                proof {
                    assert(missing@.subrange(0, missing@.len() as int) =~= missing@);
                    assert(uncovered@ =~= u0 + missing@);
                    lemma_unserved_step(ranges@, u0, missing@, intervals, j as int,
                        uncovered_len as int);
                }
            }
            j = j + 1;
        }
        proof {
            assert(ranges@.subrange(0, ranges@.len() as int) =~= ranges@);
            assert(uncovered@ == unserved_concat(self.intervals_of(path@), ranges@));
            assert forall|x: int|
                #![trigger self.serves(path@, x)]
                #![trigger intervals.covers(x)]
                self.serves(path@, x) == intervals.covers(x) by {}
        }
        (uncovered, had_overlap)
    }

    /// Marks each valid requested range of `path` as served, creating the
    /// path's interval set on first use.  Nothing else changes, and an
    /// empty batch changes nothing at all.
    #[verifier::rlimit(100)]
    pub fn record_served(&mut self, path: &str, ranges: &Vec<(usize, usize)>)
        requires
            old(self).wf(),
        ensures
            final(self).wf(),
            ranges@.len() == 0 ==> final(self).entries_seq() == old(self).entries_seq(),
            ranges@.len() > 0 ==> {
                &&& forall|x: int| final(self).serves(path@, x) <==> (old(self).serves(path@, x)
                    || exists|j: int| 0 <= j < ranges@.len()
                        && !range_invalid((#[trigger] ranges@[j]).0, ranges@[j].1)
                        && ranges@[j].0 <= x <= ranges@[j].1)
                &&& forall|p: Seq<char>|
                    #![trigger final(self).has_path(p)]
                    #![trigger old(self).has_path(p)]
                    p != path@ ==> (final(self).has_path(p) == old(self).has_path(p)
                        && forall|x: int| #[trigger] final(self).serves(p, x)
                            == old(self).serves(p, x))
            },
    {
        if ranges.len() == 0 {
            return;
        }
        let idx = match self.find_path(path) {
            Option::Some(i) => i,
            Option::None => {
                let i = self.entries.len();
                let ghost o = self.entries_seq();
                self.entries.push((path.to_owned(), IntervalSet::default()));
                proof {
                    assert(self.entries_seq()[o.len() as int].0@ == path@);
                    assert forall|a: int, b: int|
                        0 <= a < b < self.entries_seq().len()
                        implies (#[trigger] self.entries_seq()[a]).0@
                            != (#[trigger] self.entries_seq()[b]).0@ by {
                        if b < o.len() {
                            assert(self.entries_seq()[a] == o[a]
                                && self.entries_seq()[b] == o[b]);
                        } else {
                            assert(self.entries_seq()[a] == o[a]);
                        }
                    }
                    assert forall|a: int| 0 <= a < self.entries_seq().len()
                        implies (#[trigger] self.entries_seq()[a]).1.wf() by {
                        if a < o.len() {
                            assert(self.entries_seq()[a] == o[a]);
                        }
                    }
                }
                i
            },
        };
        proof {
            self.lemma_path_at_agrees(path@, idx as int);
        }
        let ghost before = self.entries_seq();
        let mut j: usize = 0;
        while j < ranges.len()
            invariant
                idx < self.entries_seq().len(),
                self.entries_seq().len() == before.len(),
                j <= ranges@.len(),
                forall|k: int| 0 <= k < self.entries_seq().len() && k != idx
                    ==> #[trigger] self.entries_seq()[k] == before[k],
                self.entries_seq()[idx as int].0 == before[idx as int].0,
                before[idx as int].1.wf(),
                self.entries_seq()[idx as int].1.wf(),
                forall|x: int|
                    #![trigger self.entries_seq()[idx as int].1.covers(x)]
                    self.entries_seq()[idx as int].1.covers(x)
                    <==> (before[idx as int].1.covers(x) || exists|q: int| 0 <= q < j
                        && !range_invalid((#[trigger] ranges@[q]).0, ranges@[q].1)
                        && ranges@[q].0 <= x <= ranges@[q].1),
            decreases ranges.len() - j,
        {
            let (start, end) = ranges[j];
            let ghost prev = self.entries_seq()[idx as int].1;
            insert_at(&mut self.entries, idx, start, end);
            proof {
                assert forall|x: int| #[trigger] prev.covers(x)
                    <==> (before[idx as int].1.covers(x) || exists|q: int| 0 <= q < j
                        && !range_invalid((#[trigger] ranges@[q]).0, ranges@[q].1)
                        && ranges@[q].0 <= x <= ranges@[q].1) by {}
                lemma_record_step(ranges@, before[idx as int].1, prev,
                    self.entries_seq()[idx as int].1, j as int);
            }
            j = j + 1;
        }
        proof {
            lemma_record_done(*self, before, path@, idx as int, ranges@);
            let o0 = old(self).entries_seq();
            if before.len() != o0.len() {
                // The entry was created here: `before` is the old list plus
                // a fresh, empty set for the path.
                lemma_index_push_fresh(o0, before, path@);
            }
        }
    }
}

/// Pushing a fresh, empty entry for an untracked path serves no line of
/// that path and leaves every other path exactly as it was.
proof fn lemma_index_push_fresh(
    o: Seq<(String, IntervalSet)>,
    f: Seq<(String, IntervalSet)>,
    path: Seq<char>,
)
    requires
        forall|a: int, b: int| 0 <= a < b < o.len()
            ==> (#[trigger] o[a]).0@ != (#[trigger] o[b]).0@,
        forall|a: int| 0 <= a < o.len() ==> (#[trigger] o[a]).0@ != path,
        f == o.push(f[o.len() as int]),
        f[o.len() as int].0@ == path,
        f[o.len() as int].1@ == Seq::<(usize, usize)>::empty(),
    ensures
        forall|x: int| !(#[trigger] index_cover(f, path, x)),
        forall|p: Seq<char>|
            #![trigger index_has_path(f, p)]
            #![trigger index_has_path(o, p)]
            p != path ==> (index_has_path(f, p) == index_has_path(o, p)
                && forall|x: int| #[trigger] index_cover(f, p, x) == index_cover(o, p, x)),
{
    let last = o.len() as int;
    assert(index_has_path(f, path));
    assert forall|a: int, b: int| 0 <= a < b < f.len()
        implies (#[trigger] f[a]).0@ != (#[trigger] f[b]).0@ by {
        if b < last {
            assert(f[a] == o[a] && f[b] == o[b]);
        } else {
            assert(f[a] == o[a]);
        }
    }
    assert forall|x: int| !(#[trigger] index_cover(f, path, x)) by {
        let k = index_path_at(f, path);
        assert(0 <= k < f.len() && f[k].0@ == path);
        if k < last {
            assert(f[k] == o[k]);
        }
        assert(k == last);
        assert(!crate::interval_set::intervals_cover(f[last].1@, x));
    }
    assert forall|p: Seq<char>| p != path implies (#[trigger] index_has_path(f, p)
        == index_has_path(o, p)
        && forall|x: int| #[trigger] index_cover(f, p, x) == index_cover(o, p, x)) by {
        if index_has_path(o, p) {
            let k = index_path_at(o, p);
            assert(0 <= k < o.len() && o[k].0@ == p);
            assert(f[k] == o[k]);
            assert(index_has_path(f, p));
        }
        if index_has_path(f, p) {
            let k = index_path_at(f, p);
            assert(0 <= k < f.len() && f[k].0@ == p);
            assert(k != last);
            assert(f[k] == o[k]);
            assert(index_has_path(o, p));
        }
        if index_has_path(o, p) {
            let ko = index_path_at(o, p);
            let kf = index_path_at(f, p);
            assert(0 <= ko < o.len() && o[ko].0@ == p);
            assert(0 <= kf < f.len() && f[kf].0@ == p);
            assert(kf != last);
            assert(f[kf] == o[kf]);
            if ko < kf {
                assert(o[ko].0@ != o[kf].0@);
            }
            if kf < ko {
                assert(o[kf].0@ != o[ko].0@);
            }
            assert(ko == kf);
        }
    }
}

/// The total number of lines the ranges hold.
pub open spec fn range_total(rs: Seq<(usize, usize)>) -> int
    decreases rs.len(),
{
    if rs.len() == 0 {
        0
    } else {
        range_total(rs.drop_last()) + (rs.last().1 - rs.last().0 + 1)
    }
}

/// Disjoint ordered subranges of `[start, end]` hold at most
/// `end - start + 1` lines in total.
proof fn lemma_range_total_bound(rs: Seq<(usize, usize)>, m: int, start: int, end: int)
    requires
        intervals_wf(rs),
        0 <= m <= rs.len(),
        start <= end,
        forall|i: int| 0 <= i < rs.len()
            ==> start <= (#[trigger] rs[i]).0 && rs[i].1 <= end,
    ensures
        range_total(rs.subrange(0, m)) <= if m == 0 {
            0
        } else {
            rs[m - 1].1 - start + 1
        },
        range_total(rs.subrange(0, m)) <= end - start + 1,
        range_total(rs.subrange(0, m)) >= 0,
    decreases m,
{
    if m > 0 {
        lemma_range_total_bound(rs, m - 1, start, end);
        assert(rs.subrange(0, m).drop_last() =~= rs.subrange(0, m - 1));
        assert(rs.subrange(0, m).last() == rs[m - 1]);
        if m >= 2 {
            crate::interval_set::lemma_wf_ordered(rs, m - 2, m - 1);
        }
    }
}

/// Inserts `[start, end]` into the interval set at position `idx`.
fn insert_at(entries: &mut Vec<(String, IntervalSet)>, idx: usize, start: usize, end: usize)
    requires
        idx < old(entries)@.len(),
        old(entries)@[idx as int].1.wf(),
    ensures
        final(entries)@.len() == old(entries)@.len(),
        forall|k: int| 0 <= k < final(entries)@.len() && k != idx
            ==> #[trigger] final(entries)@[k] == old(entries)@[k],
        final(entries)@[idx as int].0 == old(entries)@[idx as int].0,
        final(entries)@[idx as int].1.wf(),
        range_invalid(start, end) ==> final(entries)@[idx as int].1@
            == old(entries)@[idx as int].1@,
        !range_invalid(start, end) ==> forall|x: int|
            final(entries)@[idx as int].1.covers(x)
                <==> (old(entries)@[idx as int].1.covers(x) || start <= x <= end),
{
    let pair = &mut entries[idx];
    pair.1.insert(start, end);
}

/// After appending one request's missing ranges, the collected list is the
/// canonical concatenation for the first `j + 1` requests and covers
/// exactly their unserved parts, and the overlap flag accounts for
/// request `j`.
#[verifier::rlimit(100)]
proof fn lemma_unserved_step(
    ranges: Seq<(usize, usize)>,
    u0: Seq<(usize, usize)>,
    missing: Seq<(usize, usize)>,
    intervals: &IntervalSet,
    j: int,
    uncovered_len: int,
)
    requires
        0 <= j < ranges.len(),
        !range_invalid(ranges[j].0, ranges[j].1),
        u0 == unserved_concat(intervals@, ranges.subrange(0, j)),
        intervals.wf(),
        intervals_wf(missing),
        forall|i: int| 0 <= i < missing.len()
            ==> ranges[j].0 <= (#[trigger] missing[i]).0 && missing[i].1 <= ranges[j].1,
        forall|x: int| intervals_cover(missing, x)
            <==> (ranges[j].0 <= x <= ranges[j].1 && !intervals.covers(x)),
        forall|x: int| intervals_cover(u0, x) <==> exists|q: int|
            0 <= q < j && !range_invalid((#[trigger] ranges[q]).0, ranges[q].1)
            && ranges[q].0 <= x <= ranges[q].1 && !intervals.covers(x),
        uncovered_len == range_total(missing),
        uncovered_len <= ranges[j].1 - ranges[j].0 + 1,
    ensures
        u0 + missing == unserved_concat(intervals@, ranges.subrange(0, j + 1)),
        forall|x: int| intervals_cover(u0 + missing, x) <==> exists|q: int|
            0 <= q < j + 1 && !range_invalid((#[trigger] ranges[q]).0, ranges[q].1)
            && ranges[q].0 <= x <= ranges[q].1 && !intervals.covers(x),
        (uncovered_len < ranges[j].1 - ranges[j].0 + 1) <==> exists|x: int|
            ranges[j].0 <= x <= ranges[j].1 && intervals.covers(x),
{
    assert forall|x: int| intervals_cover(missing, x)
        <==> (ranges[j].0 <= x <= ranges[j].1 && !intervals_cover(intervals@, x)) by {}
    lemma_uncovered_canon_unique(intervals@, missing, ranges[j].0, ranges[j].1);
    lemma_unserved_concat_snoc(intervals@, ranges, j);
    assert(u0 + missing =~= unserved_concat(intervals@, ranges.subrange(0, j + 1)));
    assert forall|x: int| intervals_cover(u0 + missing, x) implies exists|q: int|
        0 <= q < j + 1 && !range_invalid((#[trigger] ranges[q]).0, ranges[q].1)
        && ranges[q].0 <= x <= ranges[q].1 && !intervals.covers(x) by {
        lemma_cover_concat(u0, missing, x);
        if intervals_cover(u0, x) {
            let q = choose|q: int| 0 <= q < j
                && !range_invalid((#[trigger] ranges[q]).0, ranges[q].1)
                && ranges[q].0 <= x <= ranges[q].1 && !intervals.covers(x);
            assert(0 <= q < j + 1 && !range_invalid(ranges[q].0, ranges[q].1)
                && ranges[q].0 <= x <= ranges[q].1 && !intervals.covers(x));
        } else {
            assert(intervals_cover(missing, x));
            assert(!range_invalid(ranges[j].0, ranges[j].1)
                && ranges[j].0 <= x <= ranges[j].1 && !intervals.covers(x));
        }
    }
    assert forall|x: int| (exists|q: int| 0 <= q < j + 1
        && !range_invalid((#[trigger] ranges[q]).0, ranges[q].1)
        && ranges[q].0 <= x <= ranges[q].1 && !intervals.covers(x))
        implies intervals_cover(u0 + missing, x) by {
        lemma_cover_concat(u0, missing, x);
        let q = choose|q: int| 0 <= q < j + 1
            && !range_invalid((#[trigger] ranges[q]).0, ranges[q].1)
            && ranges[q].0 <= x <= ranges[q].1 && !intervals.covers(x);
        if q < j {
            assert(intervals_cover(u0, x));
        } else {
            assert(intervals_cover(missing, x));
        }
    }
    // The overlap test: the missing ranges hold exactly the unserved lines
    // of the request, so fewer lines than requested means some line of the
    // request was already served.
    let start = ranges[j].0 as int;
    let end = ranges[j].1 as int;
    lemma_covered_count(missing, start, end);
    if uncovered_len < end - start + 1 {
        assert(exists|x: int| start <= x <= end && !intervals_cover(missing, x));
        let x = choose|x: int| start <= x <= end && !intervals_cover(missing, x);
        assert(intervals.covers(x));
    }
    if exists|x: int| start <= x <= end && intervals.covers(x) {
        let x = choose|x: int| start <= x <= end && intervals.covers(x);
        assert(!intervals_cover(missing, x));
        assert(range_total(missing) < end - start + 1);
    }
}

/// Coverage of a concatenation is coverage of either part.
proof fn lemma_cover_concat(a: Seq<(usize, usize)>, b: Seq<(usize, usize)>, x: int)
    ensures
        intervals_cover(a + b, x) <==> (intervals_cover(a, x) || intervals_cover(b, x)),
{
    if intervals_cover(a, x) {
        let i = choose|i: int| 0 <= i < a.len() && (#[trigger] a[i]).0 <= x <= a[i].1;
        assert((a + b)[i] == a[i]);
        assert(intervals_cover(a + b, x));
    }
    if intervals_cover(b, x) {
        let i = choose|i: int| 0 <= i < b.len() && (#[trigger] b[i]).0 <= x <= b[i].1;
        assert((a + b)[a.len() + i] == b[i]);
        assert(intervals_cover(a + b, x));
    }
    if intervals_cover(a + b, x) {
        let i = choose|i: int| 0 <= i < (a + b).len() && (#[trigger] (a + b)[i]).0 <= x
            <= (a + b)[i].1;
        if i < a.len() {
            assert(a[i] == (a + b)[i]);
            assert(intervals_cover(a, x));
        } else {
            assert(b[i - a.len()] == (a + b)[i]);
            assert(intervals_cover(b, x));
        }
    }
}

/// A well-formed list of subranges of `[start, end]` holds at most
/// `end - start + 1` lines, exactly that many precisely when it covers the
/// whole of `[start, end]`.
proof fn lemma_covered_count(rs: Seq<(usize, usize)>, start: int, end: int)
    requires
        intervals_wf(rs),
        start <= end,
        forall|i: int| 0 <= i < rs.len()
            ==> start <= (#[trigger] rs[i]).0 && rs[i].1 <= end,
    ensures
        0 <= range_total(rs) <= end - start + 1,
        range_total(rs) == end - start + 1
            <==> (forall|x: int| start <= x <= end ==> intervals_cover(rs, x)),
    decreases rs.len(),
{
    if rs.len() == 0 {
        assert(!intervals_cover(rs, start));
    } else {
        let last = rs.last();
        let lo = last.0 as int;
        let hi = last.1 as int;
        let front = rs.drop_last();
        assert(intervals_wf(front)) by {
            assert(forall|i: int| 0 <= i < front.len() ==> front[i] == rs[i]);
        }
        assert(range_total(rs) == range_total(front) + (hi - lo + 1));
        // Every front range ends at least two below `lo`.
        assert forall|i: int| 0 <= i < front.len()
            implies start <= (#[trigger] front[i]).0 && front[i].1 + 1 < lo by {
            assert(front[i] == rs[i]);
            crate::interval_set::lemma_wf_ordered(rs, i, rs.len() - 1);
        }
        if lo == start {
            if front.len() > 0 {
                assert(front[0].0 >= start && front[0].1 + 1 < lo);
            }
            assert(front.len() == 0);
            assert(range_total(rs) == hi - start + 1);
            if hi == end {
                assert forall|x: int| start <= x <= end
                    implies intervals_cover(rs, x) by {
                    assert((#[trigger] rs[rs.len() - 1]).0 <= x <= rs[rs.len() - 1].1);
                }
            } else {
                assert(range_total(rs) < end - start + 1);
                assert(!intervals_cover(rs, end)) by {
                    assert forall|i: int| 0 <= i < rs.len()
                        implies !((#[trigger] rs[i]).0 <= end <= rs[i].1) by {
                        if i < rs.len() - 1 {
                            crate::interval_set::lemma_wf_ordered(rs, i, rs.len() - 1);
                        }
                    }
                }
            }
        } else {
            lemma_covered_count(front, start, lo - 1);
            assert(0 <= range_total(front) <= lo - start);
            // Totals: equality holds exactly when both parts are full.
            if range_total(rs) == end - start + 1 {
                assert(range_total(front) == lo - start && hi == end);
            }
            // Coverage of the two parts.
            assert forall|x: int| start <= x < lo
                implies (intervals_cover(rs, x) <==> intervals_cover(front, x)) by {
                if intervals_cover(rs, x) {
                    let i = choose|i: int| 0 <= i < rs.len()
                        && (#[trigger] rs[i]).0 <= x <= rs[i].1;
                    assert(i < rs.len() - 1);
                    assert(front[i] == rs[i]);
                }
                if intervals_cover(front, x) {
                    let i = choose|i: int| 0 <= i < front.len()
                        && (#[trigger] front[i]).0 <= x <= front[i].1;
                    assert(rs[i] == front[i]);
                }
            }
            if range_total(front) == lo - start && hi == end {
                assert forall|x: int| start <= x <= end
                    implies intervals_cover(rs, x) by {
                    if x < lo {
                        assert(intervals_cover(front, x));
                    } else {
                        assert((#[trigger] rs[rs.len() - 1]).0 <= x
                            <= rs[rs.len() - 1].1);
                    }
                }
            }
            if forall|x: int| start <= x <= end ==> intervals_cover(rs, x) {
                assert(hi == end) by {
                    if hi < end {
                        assert(intervals_cover(rs, end));
                        let i = choose|i: int| 0 <= i < rs.len()
                            && (#[trigger] rs[i]).0 <= end <= rs[i].1;
                        if i < rs.len() - 1 {
                            crate::interval_set::lemma_wf_ordered(rs, i, rs.len() - 1);
                        }
                    }
                }
                assert forall|x: int| start <= x <= lo - 1
                    implies intervals_cover(front, x) by {
                    assert(intervals_cover(rs, x));
                }
                assert(range_total(front) == lo - start);
                assert(range_total(rs) == end - start + 1);
            }
        }
    }
}

/// One `insert` extends the served lines of the path's set by the valid
/// request, or leaves them alone for an invalid one.
proof fn lemma_record_step(
    ranges: Seq<(usize, usize)>,
    base: IntervalSet,
    prev: IntervalSet,
    cur: IntervalSet,
    j: int,
)
    requires
        0 <= j < ranges.len(),
        forall|x: int| prev.covers(x) <==> (base.covers(x) || exists|q: int| 0 <= q < j
            && !range_invalid((#[trigger] ranges[q]).0, ranges[q].1)
            && ranges[q].0 <= x <= ranges[q].1),
        range_invalid(ranges[j].0, ranges[j].1) ==> cur@ == prev@,
        !range_invalid(ranges[j].0, ranges[j].1) ==> forall|x: int|
            cur.covers(x) <==> (prev.covers(x) || ranges[j].0 <= x <= ranges[j].1),
    ensures
        forall|x: int| cur.covers(x) <==> (base.covers(x) || exists|q: int| 0 <= q < j + 1
            && !range_invalid((#[trigger] ranges[q]).0, ranges[q].1)
            && ranges[q].0 <= x <= ranges[q].1),
{
    assert forall|x: int| cur.covers(x) implies (base.covers(x) || exists|q: int|
        0 <= q < j + 1 && !range_invalid((#[trigger] ranges[q]).0, ranges[q].1)
        && ranges[q].0 <= x <= ranges[q].1) by {
        if range_invalid(ranges[j].0, ranges[j].1) {
            assert(prev.covers(x));
        } else {
            if prev.covers(x) {
            } else {
                assert(ranges[j].0 <= x <= ranges[j].1);
            }
        }
    }
    assert forall|x: int| (base.covers(x) || exists|q: int| 0 <= q < j + 1
        && !range_invalid((#[trigger] ranges[q]).0, ranges[q].1)
        && ranges[q].0 <= x <= ranges[q].1) implies cur.covers(x) by {
        if base.covers(x) {
            assert(prev.covers(x));
        } else {
            let q = choose|q: int| 0 <= q < j + 1
                && !range_invalid((#[trigger] ranges[q]).0, ranges[q].1)
                && ranges[q].0 <= x <= ranges[q].1;
            if q < j {
                assert(prev.covers(x));
            }
        }
    }
}

/// After the insertion loop the ledger is well formed, the path's lines
/// are the old ones plus all valid requests, and every other path is
/// untouched.
#[verifier::rlimit(100)]
proof fn lemma_record_done(
    l: CodeReadIndex,
    before: Seq<(String, IntervalSet)>,
    path: Seq<char>,
    idx: int,
    ranges: Seq<(usize, usize)>,
)
    requires
        0 <= idx < l.entries_seq().len(),
        l.entries_seq().len() == before.len(),
        forall|a: int, b: int| 0 <= a < b < before.len()
            ==> (#[trigger] before[a]).0@ != (#[trigger] before[b]).0@,
        forall|a: int| 0 <= a < before.len() ==> (#[trigger] before[a]).1.wf(),
        forall|k: int| 0 <= k < l.entries_seq().len() && k != idx
            ==> #[trigger] l.entries_seq()[k] == before[k],
        l.entries_seq()[idx].0 == before[idx].0,
        before[idx].0@ == path,
        l.entries_seq()[idx].1.wf(),
        forall|x: int| l.entries_seq()[idx].1.covers(x)
            <==> (before[idx].1.covers(x) || exists|q: int| 0 <= q < ranges.len()
                && !range_invalid((#[trigger] ranges[q]).0, ranges[q].1)
                && ranges[q].0 <= x <= ranges[q].1),
    ensures
        l.wf(),
        forall|x: int| l.serves(path, x) <==> (index_cover(before, path, x)
            || exists|q: int| 0 <= q < ranges.len()
                && !range_invalid((#[trigger] ranges[q]).0, ranges[q].1)
                && ranges[q].0 <= x <= ranges[q].1),
        forall|p: Seq<char>|
            #![trigger l.has_path(p)]
            #![trigger index_has_path(before, p)]
            p != path ==> (l.has_path(p) == index_has_path(before, p)
                && forall|x: int| #[trigger] l.serves(p, x) == index_cover(before, p, x)),
{
    let f = l.entries_seq();
    assert forall|a: int, b: int| 0 <= a < b < f.len()
        implies (#[trigger] f[a]).0@ != (#[trigger] f[b]).0@ by {
        assert(f[a].0 == before[a].0 || a == idx);
        assert(f[a].0@ == before[a].0@);
        assert(f[b].0@ == before[b].0@);
    }
    assert forall|a: int| 0 <= a < f.len() implies (#[trigger] f[a]).1.wf() by {
        if a != idx {
            assert(f[a] == before[a]);
        }
    }
    l.lemma_path_at_agrees(path, idx);
    assert(index_has_path(before, path));
    assert(index_path_at(before, path) == idx) by {
        let k = index_path_at(before, path);
        assert(0 <= k < before.len() && before[k].0@ == path);
        if k < idx {
            assert(before[k].0@ != before[idx].0@);
        }
        if idx < k {
            assert(before[idx].0@ != before[k].0@);
        }
    }
    assert forall|p: Seq<char>| p != path implies (#[trigger] l.has_path(p)
        == index_has_path(before, p)
        && forall|x: int| #[trigger] l.serves(p, x) == index_cover(before, p, x)) by {
        if index_has_path(before, p) {
            let k = index_path_at(before, p);
            assert(0 <= k < before.len() && before[k].0@ == p);
            assert(k != idx);
            assert(f[k] == before[k]);
            l.lemma_path_at_agrees(p, k);
            assert(index_path_at(before, p) == k);
        }
        if l.has_path(p) {
            let k = index_path_at(f, p);
            assert(0 <= k < f.len() && f[k].0@ == p);
            assert(k != idx);
            assert(f[k] == before[k]);
            assert(index_has_path(before, p));
        }
    }
}

/// Whether the entry list records line `x` of `path` as served.
pub open spec fn index_cover(s: Seq<(String, IntervalSet)>, path: Seq<char>, x: int) -> bool {
    index_has_path(s, path) && s[index_path_at(s, path)].1.covers(x)
}

} // verus!

//! The line-range code reader: argument normalization, range arithmetic,
//! and content assembly under line and byte caps.
//!
//! A read request names a file and optionally a line range, context lines
//! and a byte allowance.  The requested ranges are normalized, widened by
//! the context, merged, cut down to the lines not yet served, capped, and
//! rendered as labelled segments — all under exact byte accounting.

use vstd::prelude::*;
use vstd::string::StringSliceAdditionalSpecFns;
use vstd::string::StringExecFns;
use vstd::string::StrSliceExecFns;
use crate::breaker::all_ws_bytes;
use crate::breaker::is_ws_byte;
use crate::interval_set::intervals_cover;
use crate::interval_set::intervals_wf;
use crate::session::SessionState;
use crate::text::bytes_to_utf8_lossy;
use crate::text::truncate_string_to_bytes;
use crate::text::truncated_notice;
use crate::turn::TURN_OUTPUT_TRUNCATION_NOTICE;
use crate::turn::TurnState;

verus! {

/// Line cap for large files.
pub const DEFAULT_MAX_LINES: usize = 160;

/// Byte cap for large files (8 KiB).
pub const DEFAULT_MAX_BYTES: usize = 8 * 1024;

/// Line cap for small files.
pub const SMALL_FILE_MAX_LINES: usize = 400;

/// Byte cap for small files (16 KiB).
pub const SMALL_FILE_MAX_BYTES: usize = 16 * 1024;

/// A problem with a tool call that the agent itself can mend: the message
/// goes back to the model.
#[derive(Debug)]
pub enum FunctionCallError {
    RespondToModel(String),
}

/// An invalid-arguments error carrying `msg`.
pub fn invalid_arguments(msg: &str) -> (r: FunctionCallError)
    ensures
        r matches FunctionCallError::RespondToModel(m) && m@ == msg@,
{
    FunctionCallError::RespondToModel(msg.to_owned())
}

/// The accepted shapes of the `lines` argument.
#[derive(Debug)]
pub enum LinesArg {
    /// A `[start, end]` pair.
    Pair([usize; 2]),
    /// An object with `start` and an optional `end`.
    Object { start: usize, end: Option<usize> },
    /// A list of pairs; only a single one is supported.
    Ranges(Vec<[usize; 2]>),
}

impl LinesArg {
    /// The requested ranges: exactly one for every accepted shape.  A list
    /// argument must hold exactly one pair.
    pub fn into_ranges(self) -> (r: Result<Vec<(usize, usize)>, FunctionCallError>)
        ensures
            match self {
                LinesArg::Pair(p) => r matches Ok(v) && v@ =~= seq![(p[0], p[1])],
                LinesArg::Object { start, end } => r matches Ok(v) && v@ =~= seq![
                    (start, match end {
                        Option::Some(e) => e,
                        Option::None => start,
                    })],
                LinesArg::Ranges(ranges) => {
                    if ranges@.len() == 1 {
                        r matches Ok(v) && v@ =~= seq![(ranges@[0][0], ranges@[0][1])]
                    } else {
                        r matches Err(e) && e matches FunctionCallError::RespondToModel(m)
                            && (ranges@.len() == 0
                                ==> m@ == "lines must include at least one range"@)
                            && (ranges@.len() > 1
                                ==> m@ == "multiple line ranges are not supported yet; provide a single [start, end] range"@)
                    }
                },
            },
    {
        match self {
            LinesArg::Pair(p) => {
                let mut v: Vec<(usize, usize)> = Vec::new();
                v.push((p[0], p[1]));
                Ok(v)
            },
            LinesArg::Object { start, end } => {
                let e = match end {
                    Option::Some(e) => e,
                    Option::None => start,
                };
                let mut v: Vec<(usize, usize)> = Vec::new();
                v.push((start, e));
                Ok(v)
            },
            LinesArg::Ranges(ranges) => {
                if ranges.len() == 0 {
                    return Err(invalid_arguments("lines must include at least one range"));
                }
                if ranges.len() > 1 {
                    return Err(invalid_arguments(
                        "multiple line ranges are not supported yet; provide a single [start, end] range",
                    ));
                }
                let pair = ranges[0];
                let mut v: Vec<(usize, usize)> = Vec::new();
                v.push((pair[0], pair[1]));
                Ok(v)
            },
        }
    }
}

/// A pair with its endpoints put in ascending order.
pub open spec fn swap_pair(p: (usize, usize)) -> (usize, usize) {
    if p.1 < p.0 {
        (p.1, p.0)
    } else {
        p
    }
}

/// Each pair with its endpoints put in ascending order.
pub open spec fn swapped_seq(s: Seq<(usize, usize)>) -> Seq<(usize, usize)> {
    Seq::new(s.len(), |i: int| swap_pair(s[i]))
}

/// Nondecreasing lower bounds.
pub open spec fn sorted_by_lo(s: Seq<(usize, usize)>) -> bool {
    forall|i: int| 0 <= i && i + 1 < s.len() ==> (#[trigger] s[i]).0 <= s[i + 1].0
}

/// Rejects zero line numbers, swaps reversed pairs, and sorts the ranges
/// by their lower bound.  The result holds the same ranges (endpoints
/// ordered) as the input, rearranged.
pub fn normalize_ranges(ranges: &mut Vec<(usize, usize)>)
    -> (r: Result<(), FunctionCallError>)
    ensures
        (r is Ok) <==> (forall|i: int| 0 <= i < old(ranges)@.len()
            ==> (#[trigger] old(ranges)@[i]).0 != 0 && old(ranges)@[i].1 != 0),
        r matches Err(e) ==> e matches FunctionCallError::RespondToModel(m)
            && m@ == "line numbers must be 1-indexed and greater than zero"@,
        r is Ok ==> {
            &&& final(ranges)@.to_multiset() == swapped_seq(old(ranges)@).to_multiset()
            &&& final(ranges)@.len() == old(ranges)@.len()
            &&& sorted_by_lo(final(ranges)@)
            &&& forall|i: int| 0 <= i < final(ranges)@.len()
                ==> 1 <= (#[trigger] final(ranges)@[i]).0 <= final(ranges)@[i].1
        },
{
    let ghost o = ranges@;
    let mut swapped: Vec<(usize, usize)> = Vec::new();
    let mut i: usize = 0;
    while i < ranges.len()
        invariant
            o == ranges@,
            i <= o.len(),
            swapped@ =~= swapped_seq(o).subrange(0, i as int),
            forall|k: int| 0 <= k < i ==> (#[trigger] o[k]).0 != 0 && o[k].1 != 0,
        decreases ranges.len() - i,
    {
        let (start, end) = ranges[i];
        if start == 0 || end == 0 {
            return Err(invalid_arguments(
                "line numbers must be 1-indexed and greater than zero",
            ));
        }
        if end < start {
            swapped.push((end, start));
        } else {
            swapped.push((start, end));
        }
        proof {
            assert(swapped@ =~= swapped_seq(o).subrange(0, i + 1));
        }
        i = i + 1;
    }
    proof {
        assert(swapped@ =~= swapped_seq(o));
        assert forall|k: int| 0 <= k < swapped@.len()
            implies 1 <= (#[trigger] swapped@[k]).0 <= swapped@[k].1 by {
            assert(swapped@[k] == swap_pair(o[k]));
        }
    }
    let sorted = sort_by_lo(swapped);
    proof {
        assert forall|i: int| 0 <= i < sorted@.len()
            implies 1 <= (#[trigger] sorted@[i]).0 <= sorted@[i].1 by {
            assert(sorted@.contains(sorted@[i]));
            assert(swapped@.contains(sorted@[i]));
            let j = choose|j: int| 0 <= j < swapped@.len() && swapped@[j] == sorted@[i];
        }
        assert(swapped@.to_multiset() == swapped_seq(o).to_multiset());
    }
    *ranges = sorted;
    Ok(())
}

/// Sorts ranges by their lower bound: the result is a rearrangement (the
/// same multiset) in nondecreasing order of lower bounds, with every
/// element's shape untouched.
pub fn sort_by_lo(v: Vec<(usize, usize)>) -> (r: Vec<(usize, usize)>)
    ensures
        r@.to_multiset() == v@.to_multiset(),
        r@.len() == v@.len(),
        sorted_by_lo(r@),
        forall|q: (usize, usize)| #[trigger] r@.contains(q) <==> v@.contains(q),
{
    proof {
        broadcast use vstd::seq_lib::group_to_multiset_ensures;

    }
    let mut src = v;
    let mut out: Vec<(usize, usize)> = Vec::new();
    let ghost orig = src@;
    while src.len() > 0
        invariant
            out@.to_multiset().add(src@.to_multiset()) =~= orig.to_multiset(),
            out@.len() + src@.len() == orig.len(),
            sorted_by_lo(out@),
            out@.len() > 0 ==> forall|k: int| 0 <= k < src@.len()
                ==> out@.last().0 <= (#[trigger] src@[k]).0,
        decreases src.len(),
    {
        proof {
            broadcast use vstd::seq_lib::group_to_multiset_ensures;

        }
        let mut m: usize = 0;
        let mut k: usize = 1;
        while k < src.len()
            invariant
                src@.len() > 0,
                m < src@.len(),
                k <= src@.len(),
                forall|q: int| 0 <= q < k ==> src@[m as int].0 <= (#[trigger] src@[q]).0,
            decreases src.len() - k,
        {
            if src[k].0 < src[m].0 {
                m = k;
            }
            k = k + 1;
        }
        let ghost src0 = src@;
        let ghost out0 = out@;
        let e = src.remove(m);
        out.push(e);
        proof {
            assert(src@.to_multiset() =~= src0.to_multiset().remove(e));
            assert(out@.to_multiset() =~= out0.to_multiset().insert(e));
            assert(out@.to_multiset().add(src@.to_multiset()) =~= orig.to_multiset()) by {
                assert(src0.to_multiset().count(e) > 0) by {
                    assert(src0.contains(e)) by {
                        assert(src0[m as int] == e);
                    }
                }
                assert(out0.to_multiset().insert(e).add(src0.to_multiset().remove(e))
                    =~= out0.to_multiset().add(src0.to_multiset()));
            }
            assert(sorted_by_lo(out@)) by {
                assert forall|a: int| 0 <= a && a + 1 < out@.len()
                    implies (#[trigger] out@[a]).0 <= out@[a + 1].0 by {
                    if a + 1 < out0.len() {
                        assert(out@[a] == out0[a] && out@[a + 1] == out0[a + 1]);
                    } else {
                        assert(out@[a] == out0.last());
                        assert(out@[a + 1] == e);
                        assert(src0[m as int] == e);
                    }
                }
            }
            assert forall|k2: int| 0 <= k2 < src@.len()
                implies out@.last().0 <= (#[trigger] src@[k2]).0 by {
                let k0 = if k2 < m { k2 } else { k2 + 1 };
                assert(src@[k2] == src0[k0]);
                assert(src0[m as int].0 <= src0[k0].0);
            }
        }
    }
    proof {
        assert(src@.to_multiset() =~= vstd::multiset::Multiset::<(usize, usize)>::empty());
        assert(out@.to_multiset() =~= orig.to_multiset());
        assert forall|q: (usize, usize)| #[trigger] out@.contains(q) <==> orig.contains(q) by {
            assert(out@.contains(q) <==> out@.to_multiset().count(q) > 0);
            assert(orig.contains(q) <==> orig.to_multiset().count(q) > 0);
        }
    }
    out
}

/// In a list sorted by lower bound, any earlier lower bound is at most
/// any later one.
pub proof fn lemma_sorted_by_lo_trans(s: Seq<(usize, usize)>, i: int, j: int)
    requires
        sorted_by_lo(s),
        0 <= i <= j < s.len(),
    ensures
        s[i].0 <= s[j].0,
    decreases j - i,
{
    if i < j {
        lemma_sorted_by_lo_trans(s, i + 1, j);
    }
}

/// Whether some listed range contains the line `x`.
pub open spec fn ranges_cover(s: Seq<(usize, usize)>, x: int) -> bool {
    exists|i: int| 0 <= i < s.len() && (#[trigger] s[i]).0 <= x <= s[i].1
}

/// The widened form of one request under `context` lines, clipped to the
/// file.
pub open spec fn expanded_lo(p: (usize, usize), context: int) -> int {
    if p.0 - context < 1 {
        1
    } else {
        p.0 - context
    }
}

/// The widened upper end of one request under `context` lines.
pub open spec fn expanded_hi(p: (usize, usize), context: int, line_count: int) -> int {
    if p.1 + context > line_count {
        line_count
    } else {
        p.1 + context
    }
}

/// Whether some request, widened by the context and clipped to the file,
/// contains the line `x`.
pub open spec fn expanded_cover(
    s: Seq<(usize, usize)>,
    context: int,
    line_count: int,
    x: int,
) -> bool {
    exists|i: int| 0 <= i < s.len() && expanded_lo(#[trigger] s[i], context) <= x
        <= expanded_hi(s[i], context, line_count)
}

/// Widens every request by `context` lines on both sides — clipped to
/// `[1, line_count]` — and merges what overlaps or touches.  The result
/// is a well-formed range list covering exactly the widened requests;
/// an empty file yields nothing.
pub fn apply_context(ranges: &Vec<(usize, usize)>, context: usize, line_count: usize)
    -> (r: Vec<(usize, usize)>)
    ensures
        intervals_wf(r@),
        line_count == 0 ==> r@.len() == 0,
        forall|x: int| intervals_cover(r@, x)
            <==> (line_count > 0 && expanded_cover(ranges@, context as int,
                line_count as int, x)),
{
    let mut widened: Vec<(usize, usize)> = Vec::new();
    let mut i: usize = 0;
    if line_count == 0 {
        let r: Vec<(usize, usize)> = Vec::new();
        return r;
    }
    while i < ranges.len()
        invariant
            line_count > 0,
            i <= ranges@.len(),
            forall|k: int| 0 <= k < widened@.len()
                ==> 1 <= (#[trigger] widened@[k]).0 <= widened@[k].1 <= line_count,
            forall|x: int| ranges_cover(widened@, x)
                <==> expanded_cover(ranges@.subrange(0, i as int), context as int,
                    line_count as int, x),
        decreases ranges.len() - i,
    {
        let (start, end) = ranges[i];
        let ghost w0 = widened@;
        let lo = if start > context { start - context } else { 1 };
        let hi = if end >= line_count {
            line_count
        } else if context < line_count - end {
            end + context
        } else {
            line_count
        };
        if lo <= hi {
            widened.push((lo, hi));
        }
        proof {
            let sub1 = ranges@.subrange(0, i + 1);
            assert(sub1.drop_last() =~= ranges@.subrange(0, i as int));
            assert(sub1.last() == ranges@[i as int]);
            assert(lo == expanded_lo(ranges@[i as int], context as int));
            assert(hi == expanded_hi(ranges@[i as int], context as int, line_count as int));
            assert forall|x: int| ranges_cover(widened@, x)
                <==> expanded_cover(sub1, context as int, line_count as int, x) by {
                if ranges_cover(widened@, x) {
                    let k = choose|k: int| 0 <= k < widened@.len()
                        && (#[trigger] widened@[k]).0 <= x <= widened@[k].1;
                    if k < w0.len() {
                        assert(widened@[k] == w0[k]);
                        assert(ranges_cover(w0, x));
                        let j = choose|j: int| 0 <= j < ranges@.subrange(0, i as int).len()
                            && expanded_lo(#[trigger] ranges@.subrange(0, i as int)[j],
                                context as int) <= x
                            <= expanded_hi(ranges@.subrange(0, i as int)[j], context as int,
                                line_count as int);
                        assert(sub1[j] == ranges@.subrange(0, i as int)[j]);
                        assert(expanded_cover(sub1, context as int, line_count as int, x));
                    } else {
                        assert(expanded_lo(sub1[i as int], context as int) <= x
                            <= expanded_hi(sub1[i as int], context as int,
                                line_count as int));
                        assert(expanded_cover(sub1, context as int, line_count as int, x));
                    }
                }
                if expanded_cover(sub1, context as int, line_count as int, x) {
                    let j = choose|j: int| 0 <= j < sub1.len()
                        && expanded_lo(#[trigger] sub1[j], context as int) <= x
                        <= expanded_hi(sub1[j], context as int, line_count as int);
                    if j < i {
                        assert(sub1[j] == ranges@.subrange(0, i as int)[j]);
                        assert(expanded_cover(ranges@.subrange(0, i as int),
                            context as int, line_count as int, x));
                        assert(ranges_cover(w0, x));
                        let k = choose|k: int| 0 <= k < w0.len()
                            && (#[trigger] w0[k]).0 <= x <= w0[k].1;
                        assert(widened@[k] == w0[k]);
                        assert(ranges_cover(widened@, x));
                    } else {
                        assert(lo <= x <= hi);
                        assert(widened@[widened@.len() - 1] == (lo, hi));
                        assert(ranges_cover(widened@, x));
                    }
                }
            }
        }
        i = i + 1;
    }
    proof {
        assert(ranges@.subrange(0, ranges@.len() as int) =~= ranges@);
    }
    merge_ranges(&mut widened);
    widened
}

/// Sorts the ranges and merges every pair that overlaps or touches: the
/// result is a well-formed range list covering exactly the same lines.
#[verifier::rlimit(100)]
pub fn merge_ranges(ranges: &mut Vec<(usize, usize)>)
    requires
        forall|i: int| 0 <= i < old(ranges)@.len()
            ==> 1 <= (#[trigger] old(ranges)@[i]).0 <= old(ranges)@[i].1,
    ensures
        intervals_wf(final(ranges)@),
        forall|x: int| intervals_cover(final(ranges)@, x)
            <==> ranges_cover(old(ranges)@, x),
{
    proof {
        broadcast use vstd::seq_lib::group_to_multiset_ensures;

    }
    if ranges.len() == 0 {
        return;
    }
    let ghost o = ranges@;
    let mut tmp: Vec<(usize, usize)> = Vec::new();
    core::mem::swap(&mut tmp, ranges);
    let sorted = sort_by_lo(tmp);
    proof {
        lemma_cover_same_elements(sorted@, o);
        assert forall|i: int| 0 <= i < sorted@.len()
            implies 1 <= (#[trigger] sorted@[i]).0 <= sorted@[i].1 by {
            assert(sorted@.contains(sorted@[i]));
            assert(o.contains(sorted@[i]));
            let j = choose|j: int| 0 <= j < o.len() && o[j] == sorted@[i];
            assert(1 <= o[j].0 <= o[j].1);
        }
    }

    let mut merged: Vec<(usize, usize)> = Vec::new();
    let mut current = sorted[0];
    let mut k: usize = 1;
    proof {
        assert forall|j: int| 1 <= j < sorted@.len()
            implies current.0 <= (#[trigger] sorted@[j]).0 by {
            lemma_sorted_by_lo_trans(sorted@, 0, j);
        }
        assert forall|x: int| (intervals_cover(merged@, x)
            || current.0 <= x <= current.1)
            <==> ranges_cover(sorted@.subrange(0, 1), x) by {
            if current.0 <= x <= current.1 {
                assert(sorted@.subrange(0, 1)[0] == sorted@[0]);
                assert(ranges_cover(sorted@.subrange(0, 1), x));
            }
            if ranges_cover(sorted@.subrange(0, 1), x) {
                let q = choose|q: int| 0 <= q < sorted@.subrange(0, 1).len()
                    && (#[trigger] sorted@.subrange(0, 1)[q]).0 <= x
                    <= sorted@.subrange(0, 1)[q].1;
                assert(sorted@.subrange(0, 1)[q] == sorted@[0]);
            }
        }
    }
    while k < sorted.len()
        invariant
            sorted@.len() > 0,
            1 <= k <= sorted@.len(),
            sorted_by_lo(sorted@),
            forall|i: int| 0 <= i < sorted@.len()
                ==> 1 <= (#[trigger] sorted@[i]).0 <= sorted@[i].1,
            1 <= current.0 <= current.1,
            intervals_wf(merged@),
            merged@.len() > 0 ==> merged@.last().1 + 1 < current.0,
            forall|j: int| k <= j < sorted@.len() ==> current.0 <= (#[trigger] sorted@[j]).0,
            forall|x: int| (intervals_cover(merged@, x) || current.0 <= x <= current.1)
                <==> ranges_cover(sorted@.subrange(0, k as int), x),
        decreases sorted.len() - k,
    {
        let (lo, hi) = sorted[k];
        let ghost m0 = merged@;
        let ghost cur0 = current;
        proof {
            assert forall|j: int| k + 1 <= j < sorted@.len()
                implies (#[trigger] sorted@[j]).0 >= sorted@[k as int].0 by {
                lemma_sorted_by_lo_trans(sorted@, k as int, j);
            }
        }
        if lo <= current.1.saturating_add(1) {
            if hi > current.1 {
                current.1 = hi;
            }
        } else {
            merged.push(current);
            current = (lo, hi);
        }
        proof {
            if !(lo <= cur0.1 + 1) {
                assert forall|a: int| 0 <= a && a + 1 < merged@.len()
                    implies (#[trigger] merged@[a]).1 + 1 < merged@[a + 1].0 by {
                    if a + 1 < m0.len() {
                        assert(merged@[a] == m0[a] && merged@[a + 1] == m0[a + 1]);
                    } else {
                        assert(merged@[a] == m0[a] && merged@[a + 1] == cur0);
                    }
                }
                assert forall|a: int| 0 <= a < merged@.len()
                    implies 1 <= (#[trigger] merged@[a]).0 && merged@[a].0
                        <= merged@[a].1 by {
                    if a < m0.len() {
                        assert(merged@[a] == m0[a]);
                    } else {
                        assert(merged@[a] == cur0);
                    }
                }
            }
            assert forall|x: int| (intervals_cover(merged@, x)
                || current.0 <= x <= current.1)
                <==> ranges_cover(sorted@.subrange(0, k + 1), x) by {
                lemma_ranges_cover_snoc(sorted@, k as int, x);
                if lo <= cur0.1 + 1 {
                    // The new range was folded into the current one: the
                    // widened current range covers exactly the old one
                    // plus the new range, since they overlap or touch.
                    assert(cur0.0 <= lo);
                    if (intervals_cover(merged@, x) || current.0 <= x <= current.1)
                        && !(intervals_cover(m0, x) || cur0.0 <= x <= cur0.1) {
                        assert(current.0 <= x <= current.1);
                        assert(x > cur0.1);
                        assert(lo <= x <= hi);
                    }
                    if lo <= x <= hi {
                        assert(cur0.0 <= x && x <= current.1);
                    }
                } else {
                    crate::interval_set::lemma_cover_push(m0, cur0, x);
                    assert(merged@ =~= m0.push(cur0));
                }
            }
        }
        k = k + 1;
    }
    let ghost m0 = merged@;
    let ghost cur0 = current;
    merged.push(current);
    proof {
        assert(sorted@.subrange(0, sorted@.len() as int) =~= sorted@);
        assert forall|a: int| 0 <= a && a + 1 < merged@.len()
            implies (#[trigger] merged@[a]).1 + 1 < merged@[a + 1].0 by {
            if a + 1 < m0.len() {
                assert(merged@[a] == m0[a] && merged@[a + 1] == m0[a + 1]);
            } else {
                assert(merged@[a] == m0[a] && merged@[a + 1] == cur0);
            }
        }
        assert forall|a: int| 0 <= a < merged@.len()
            implies 1 <= (#[trigger] merged@[a]).0 && merged@[a].0 <= merged@[a].1 by {
            if a < m0.len() {
                assert(merged@[a] == m0[a]);
            } else {
                assert(merged@[a] == cur0);
            }
        }
        assert forall|x: int| intervals_cover(merged@, x)
            <==> ranges_cover(sorted@, x) by {
            crate::interval_set::lemma_cover_push(m0, cur0, x);
            assert(merged@ =~= m0.push(cur0));
            assert(k == sorted@.len());
            assert((intervals_cover(m0, x) || cur0.0 <= x <= cur0.1)
                <==> ranges_cover(sorted@.subrange(0, k as int), x));
        }
    }
    *ranges = merged;
}

/// Two lists with the same elements cover the same lines.
proof fn lemma_cover_same_elements(a: Seq<(usize, usize)>, b: Seq<(usize, usize)>)
    requires
        forall|q: (usize, usize)| #[trigger] a.contains(q) <==> b.contains(q),
    ensures
        forall|x: int| ranges_cover(a, x) <==> ranges_cover(b, x),
{
    assert forall|x: int| ranges_cover(a, x) <==> ranges_cover(b, x) by {
        if ranges_cover(a, x) {
            let i = choose|i: int| 0 <= i < a.len() && (#[trigger] a[i]).0 <= x <= a[i].1;
            assert(a.contains(a[i]));
            assert(b.contains(a[i]));
            let j = choose|j: int| 0 <= j < b.len() && b[j] == a[i];
            assert(ranges_cover(b, x));
        }
        if ranges_cover(b, x) {
            let i = choose|i: int| 0 <= i < b.len() && (#[trigger] b[i]).0 <= x <= b[i].1;
            assert(b.contains(b[i]));
            assert(a.contains(b[i]));
            let j = choose|j: int| 0 <= j < a.len() && a[j] == b[i];
            assert(ranges_cover(a, x));
        }
    }
}

/// Extending the considered prefix by one range extends its coverage by
/// exactly that range.
proof fn lemma_ranges_cover_snoc(s: Seq<(usize, usize)>, k: int, x: int)
    requires
        0 <= k < s.len(),
    ensures
        ranges_cover(s.subrange(0, k + 1), x)
            <==> (ranges_cover(s.subrange(0, k), x) || s[k].0 <= x <= s[k].1),
{
    let sub1 = s.subrange(0, k + 1);
    let sub0 = s.subrange(0, k);
    if ranges_cover(sub1, x) {
        let i = choose|i: int| 0 <= i < sub1.len() && (#[trigger] sub1[i]).0 <= x <= sub1[i].1;
        if i < k {
            assert(sub0[i] == sub1[i]);
            assert(ranges_cover(sub0, x));
        } else {
            assert(sub1[k] == s[k]);
        }
    }
    if ranges_cover(sub0, x) {
        let i = choose|i: int| 0 <= i < sub0.len() && (#[trigger] sub0[i]).0 <= x <= sub0[i].1;
        assert(sub1[i] == sub0[i]);
        assert(ranges_cover(sub1, x));
    }
    if s[k].0 <= x <= s[k].1 {
        assert(sub1[k] == s[k]);
        assert(ranges_cover(sub1, x));
    }
}

/// The line cap applied to a range list: each range consumes lines from
/// the remaining allowance in order; the first range that does not fit
/// whole is clipped, and everything after the allowance is dropped with
/// the truncation flag raised.
pub open spec fn line_cap_spec(ranges: Seq<(usize, usize)>, remaining: int)
    -> (Seq<(usize, usize)>, bool)
    decreases ranges.len(),
{
    if ranges.len() == 0 {
        (Seq::empty(), false)
    } else if remaining <= 0 {
        (Seq::empty(), true)
    } else {
        let p = ranges[0];
        let span = p.1 - p.0 + 1;
        if span <= remaining {
            let rest = line_cap_spec(ranges.drop_first(), remaining - span);
            (seq![p] + rest.0, rest.1)
        } else {
            (seq![(p.0, (p.0 + remaining - 1) as usize)], true)
        }
    }
}

/// Cuts the ranges down to at most `max_lines` lines in total, in order,
/// clipping the first range that does not fit and dropping the rest.
pub fn enforce_line_cap(ranges: &Vec<(usize, usize)>, max_lines: usize)
    -> (r: (Vec<(usize, usize)>, bool))
    requires
        forall|i: int| 0 <= i < ranges@.len()
            ==> 1 <= (#[trigger] ranges@[i]).0 <= ranges@[i].1,
    ensures
        (r.0@, r.1) == line_cap_spec(ranges@, max_lines as int),
{
    let mut remaining = max_lines;
    let mut result: Vec<(usize, usize)> = Vec::new();
    let mut truncated = false;
    let mut i: usize = 0;

    proof {
        assert(ranges@.subrange(0, ranges@.len() as int) =~= ranges@);
        assert(result@ + line_cap_spec(ranges@, max_lines as int).0
            =~= line_cap_spec(ranges@, max_lines as int).0);
    }
    while i < ranges.len() && !truncated
        invariant
            forall|k: int| 0 <= k < ranges@.len()
                ==> 1 <= (#[trigger] ranges@[k]).0 <= ranges@[k].1,
            i <= ranges@.len(),
            remaining <= max_lines,
            !truncated ==> line_cap_spec(ranges@, max_lines as int) == {
                let rest = line_cap_spec(
                    ranges@.subrange(i as int, ranges@.len() as int), remaining as int);
                (result@ + rest.0, rest.1)
            },
            truncated ==> line_cap_spec(ranges@, max_lines as int) == (result@, true),
        decreases ranges.len() - i + (if truncated { 0int } else { 1int }),
    {
        let ghost suffix = ranges@.subrange(i as int, ranges@.len() as int);
        let (start, end) = ranges[i];
        proof {
            assert(suffix[0] == ranges@[i as int]);
            assert(suffix.drop_first()
                =~= ranges@.subrange(i + 1, ranges@.len() as int));
        }
        if remaining == 0 {
            truncated = true;
            proof {
                assert(result@ + Seq::<(usize, usize)>::empty() =~= result@);
            }
        } else {
            let span = end - start + 1;
            if span <= remaining {
                let ghost r0 = result@;
                result.push((start, end));
                remaining = remaining - span;
                proof {
                    let rest = line_cap_spec(suffix.drop_first(), remaining as int);
                    assert(r0 + (seq![(start, end)] + rest.0)
                        =~= result@ + rest.0);
                }
                i = i + 1;
            } else {
                let actual_end = start + remaining - 1;
                let ghost r0 = result@;
                result.push((start, actual_end));
                truncated = true;
                proof {
                    assert(r0 + seq![(start, actual_end)] =~= result@);
                }
            }
        }
    }
    proof {
        if !truncated {
            assert(ranges@.subrange(i as int, ranges@.len() as int)
                =~= Seq::<(usize, usize)>::empty());
            assert(result@ + Seq::<(usize, usize)>::empty() =~= result@);
        }
    }
    (result, truncated)
}

/// The decimal digits of `n`.
pub open spec fn dec_rep(n: int) -> Seq<u8>
    decreases n,
{
    if n < 10 {
        seq![(48 + n) as u8]
    } else {
        dec_rep(n / 10) + seq![(48 + n % 10) as u8]
    }
}

/// Appends the decimal digits of `n`.
pub fn push_dec(out: &mut Vec<u8>, n: usize)
    ensures
        final(out)@ == old(out)@ + dec_rep(n as int),
    decreases n,
{
    if n < 10 {
        out.push((48 + n) as u8);
        proof {
            assert(out@ =~= old(out)@ + dec_rep(n as int));
        }
    } else {
        push_dec(out, n / 10);
        out.push((48 + (n % 10)) as u8);
        proof {
            assert(out@ =~= old(out)@ + dec_rep(n as int));
        }
    }
}

/// The bytes of the segment label `lines {s}-{e}:` with its newline.
pub open spec fn label_bytes(s: int, e: int) -> Seq<u8> {
    seq![108u8, 105u8, 110u8, 101u8, 115u8, 32u8] + dec_rep(s) + seq![45u8] + dec_rep(e)
        + seq![58u8, 10u8]
}

/// The label `lines {s}-{e}:` with its newline, as bytes.
pub fn make_label(s: usize, e: usize) -> (r: Vec<u8>)
    ensures
        r@ == label_bytes(s as int, e as int),
{
    let mut out: Vec<u8> = Vec::new();
    out.push(108);
    out.push(105);
    out.push(110);
    out.push(101);
    out.push(115);
    out.push(32);
    push_dec(&mut out, s);
    out.push(45);
    push_dec(&mut out, e);
    out.push(58);
    out.push(10);
    proof {
        assert(out@ =~= label_bytes(s as int, e as int));
    }
    out
}

/// The lines `cur..=end` as far as they exist and fit under the byte cap,
/// together with the number of the last line taken (`cur - 1` when none
/// was).
pub open spec fn take_lines_spec(lines: Seq<Seq<u8>>, cur: int, end: int, used: int, max: int)
    -> (Seq<u8>, int)
    decreases end + 1 - cur,
{
    if cur > end || cur < 1 || cur > lines.len() {
        (Seq::empty(), cur - 1)
    } else if used + lines[cur - 1].len() > max {
        (Seq::empty(), cur - 1)
    } else {
        let rest = take_lines_spec(lines, cur + 1, end, used + lines[cur - 1].len(), max);
        (lines[cur - 1] + rest.0, rest.1)
    }
}

/// Emits the lines `cur..=end` while they exist and fit.
fn take_lines_rec(lines: &Vec<Vec<u8>>, cur: usize, end: usize, used: usize, max: usize)
    -> (r: (Vec<u8>, usize))
    requires
        1 <= cur,
        used <= max,
        end < usize::MAX,
    ensures
        (r.0@, r.1 as int) == take_lines_spec(lines.deep_view(), cur as int, end as int,
            used as int, max as int),
        used + r.0@.len() <= max,
    decreases end + 1 - cur,
{
    proof {
        assert(lines.deep_view().len() == lines@.len());
    }
    if cur > end || cur > lines.len() {
        let empty: Vec<u8> = Vec::new();
        return (empty, cur - 1);
    }
    let line = &lines[cur - 1];
    proof {
        assert(lines.deep_view()[cur - 1] == lines@[cur - 1]@);
    }
    if line.len() > max - used {
        let empty: Vec<u8> = Vec::new();
        return (empty, cur - 1);
    }
    let rest = take_lines_rec(lines, cur + 1, end, used + line.len(), max);
    let mut out: Vec<u8> = Vec::new();
    out.extend_from_slice(line.as_slice());
    proof {
        assert(out@ =~= lines@[cur - 1]@);
    }
    let mut tail = rest.0;
    out.append(&mut tail);
    (out, rest.1)
}

/// The content built for the ranges: each range that begins inside the
/// file contributes a label and its lines, set off by a blank separator
/// when the previous segment did not end in a newline; assembly stops the
/// moment a segment's label and first line — or any further line — would
/// pass the byte cap.  Returns the bytes, the subranges actually written,
/// and whether anything was cut.
pub open spec fn build_content_spec(
    ranges: Seq<(usize, usize)>,
    lines: Seq<Seq<u8>>,
    max: int,
    used: int,
    first: bool,
    ends_nl: bool,
) -> (Seq<u8>, Seq<(usize, usize)>, bool)
    decreases ranges.len(),
{
    if ranges.len() == 0 {
        (Seq::empty(), Seq::empty(), false)
    } else {
        let s = ranges[0].0 as int;
        let e = ranges[0].1 as int;
        if s < 1 || s > lines.len() {
            build_content_spec(ranges.drop_first(), lines, max, used, first, ends_nl)
        } else {
            let label = label_bytes(s, e);
            let need_sep = !first && !ends_nl;
            let required = label.len() + lines[s - 1].len() + (if need_sep {
                1int
            } else {
                0
            });
            if used + required > max {
                (Seq::empty(), Seq::empty(), true)
            } else {
                let pre = if need_sep {
                    seq![10u8] + label
                } else {
                    label
                };
                let inner = take_lines_spec(lines, s, e, used + pre.len(), max);
                let seg = pre + inner.0;
                let served = if inner.1 >= s {
                    seq![(ranges[0].0, inner.1 as usize)]
                } else {
                    Seq::<(usize, usize)>::empty()
                };
                if inner.1 < e {
                    (seg, served, true)
                } else {
                    let rest = build_content_spec(ranges.drop_first(), lines, max,
                        used + seg.len(), false, seg.last() == 10);
                    (seg + rest.0, served + rest.1, rest.2)
                }
            }
        }
    }
}

/// Builds the content for the ranges from `idx` on.
fn build_content_rec(
    ranges: &Vec<(usize, usize)>,
    idx: usize,
    lines: &Vec<Vec<u8>>,
    max: usize,
    used: usize,
    first: bool,
    ends_nl: bool,
) -> (r: (Vec<u8>, Vec<(usize, usize)>, bool))
    requires
        idx <= ranges@.len(),
        used <= max,
        forall|i: int| 0 <= i < ranges@.len() ==> (#[trigger] ranges@[i]).1 < usize::MAX,
    ensures
        (r.0@, r.1@, r.2) == build_content_spec(
            ranges@.subrange(idx as int, ranges@.len() as int), lines.deep_view(),
            max as int, used as int, first, ends_nl),
        used + r.0@.len() <= max,
    decreases ranges@.len() - idx,
{
    let ghost suffix = ranges@.subrange(idx as int, ranges@.len() as int);
    proof {
        assert(lines.deep_view().len() == lines@.len());
    }
    if idx == ranges.len() {
        let c: Vec<u8> = Vec::new();
        let sv: Vec<(usize, usize)> = Vec::new();
        return (c, sv, false);
    }
    proof {
        assert(suffix[0] == ranges@[idx as int]);
        assert(suffix.drop_first() =~= ranges@.subrange(idx + 1, ranges@.len() as int));
    }
    let (s, e) = ranges[idx];
    if s < 1 || s > lines.len() {
        return build_content_rec(ranges, idx + 1, lines, max, used, first, ends_nl);
    }
    let line0 = &lines[s - 1];
    proof {
        assert(lines.deep_view()[s - 1] == lines@[s - 1]@);
    }
    let label = make_label(s, e);
    let sep: usize = if !first && !ends_nl { 1 } else { 0 };
    let room = max - used;
    if line0.len() > room || label.len() > room - line0.len()
        || sep > room - line0.len() - label.len() {
        let c: Vec<u8> = Vec::new();
        let sv: Vec<(usize, usize)> = Vec::new();
        return (c, sv, true);
    }
    let mut pre: Vec<u8> = Vec::new();
    if sep == 1 {
        pre.push(10);
    }
    pre.extend_from_slice(label.as_slice());
    proof {
        if sep == 1 {
            assert(pre@ =~= seq![10u8] + label@);
        } else {
            assert(pre@ =~= label@);
        }
    }
    let inner = take_lines_rec(lines, s, e, used + pre.len(), max);
    let mut seg = pre;
    let mut inner_bytes = inner.0;
    seg.append(&mut inner_bytes);
    let last = inner.1;
    let mut served: Vec<(usize, usize)> = Vec::new();
    if last >= s {
        served.push((s, last));
    }
    proof {
        let spec_inner = take_lines_spec(lines.deep_view(), s as int, e as int,
            used + pre@.len(), max as int);
        assert(seg@ == pre@ + spec_inner.0);
        if last >= s {
            assert(served@ =~= seq![(s, last)]);
        } else {
            assert(served@ =~= Seq::<(usize, usize)>::empty());
        }
    }
    if last < e {
        return (seg, served, true);
    }
    let seg_last = seg[seg.len() - 1];
    let rest = build_content_rec(ranges, idx + 1, lines, max, used + seg.len(), false,
        seg_last == 10);
    let mut out = seg;
    let mut rest_bytes = rest.0;
    out.append(&mut rest_bytes);
    let mut served_out = served;
    let mut rest_served = rest.1;
    served_out.append(&mut rest_served);
    (out, served_out, rest.2)
}

/// Builds the output content for the capped, unserved ranges: labelled
/// segments of raw lines, cut exactly at the byte cap; see
/// [`build_content_spec`].
pub fn build_content(ranges: &Vec<(usize, usize)>, lines: &Vec<Vec<u8>>, max_bytes: usize)
    -> (r: (Vec<u8>, Vec<(usize, usize)>, bool))
    requires
        forall|i: int| 0 <= i < ranges@.len() ==> (#[trigger] ranges@[i]).1 < usize::MAX,
    ensures
        (r.0@, r.1@, r.2) == build_content_spec(ranges@, lines.deep_view(),
            max_bytes as int, 0, true, true),
        r.0@.len() <= max_bytes,
{
    proof {
        assert(ranges@.subrange(0, ranges@.len() as int) =~= ranges@);
    }
    build_content_rec(ranges, 0, lines, max_bytes, 0, true, true)
}

/// The content split into lines, each keeping its terminating newline;
/// the final line keeps whatever end it has.
pub open spec fn split_from(bytes: Seq<u8>, start: int, j: int) -> Seq<Seq<u8>>
    decreases bytes.len() - j,
{
    if j < 0 || j >= bytes.len() {
        if start < bytes.len() {
            seq![bytes.subrange(start, bytes.len() as int)]
        } else {
            Seq::empty()
        }
    } else if bytes[j] == 10 {
        seq![bytes.subrange(start, j + 1)] + split_from(bytes, j + 1, j + 1)
    } else {
        split_from(bytes, start, j + 1)
    }
}

/// The lines of the content, newlines kept.
pub open spec fn split_lines_spec(bytes: Seq<u8>) -> Seq<Seq<u8>> {
    split_from(bytes, 0, 0)
}

/// Splits the content into lines, each keeping its newline.
pub fn split_lines(content: &Vec<u8>) -> (r: Vec<Vec<u8>>)
    ensures
        r.deep_view() == split_lines_spec(content@),
        content@.len() == 0 ==> r@.len() == 0,
        content@.len() > 0 ==> r@.len() > 0,
{
    let n = content.len();
    let mut out: Vec<Vec<u8>> = Vec::new();
    let mut start: usize = 0;
    let mut j: usize = 0;
    while j < n
        invariant
            n == content@.len(),
            start <= j <= n,
            out@.len() > 0 || start == 0,
            out.deep_view() + split_from(content@, start as int, j as int)
                =~= split_lines_spec(content@),
        decreases n - j,
    {
        if content[j] == 10 {
            let ghost o = out.deep_view();
            let piece = copy_range(content, start, j + 1);
            proof {
                assert(piece.deep_view() =~= piece@);
            }
            out.push(piece);
            proof {
                assert(out.deep_view()
                    =~= o + seq![content@.subrange(start as int, j + 1)]);
                assert(split_from(content@, start as int, j as int)
                    =~= seq![content@.subrange(start as int, j + 1)]
                        + split_from(content@, j + 1, j + 1));
                assert((o + seq![content@.subrange(start as int, j + 1)])
                    + split_from(content@, j + 1, j + 1)
                    =~= o + (seq![content@.subrange(start as int, j + 1)]
                        + split_from(content@, j + 1, j + 1)));
                assert(out.deep_view() + split_from(content@, j + 1, j + 1)
                    =~= split_lines_spec(content@));
            }
            start = j + 1;
        }
        j = j + 1;
    }
    if start < n {
        let ghost o = out.deep_view();
        let piece = copy_range(content, start, n);
        proof {
            assert(piece.deep_view() =~= piece@);
        }
        out.push(piece);
        proof {
            assert(out.deep_view()
                =~= o + seq![content@.subrange(start as int, n as int)]);
            assert(split_from(content@, start as int, n as int)
                =~= seq![content@.subrange(start as int, n as int)]);
            assert((o + seq![content@.subrange(start as int, n as int)])
                + Seq::<Seq<u8>>::empty()
                =~= o + seq![content@.subrange(start as int, n as int)]);
            assert(out.deep_view() + Seq::<Seq<u8>>::empty()
                =~= split_lines_spec(content@));
        }
    } else {
        proof {
            assert(split_from(content@, start as int, n as int)
                =~= Seq::<Seq<u8>>::empty());
            assert(out.deep_view() + Seq::<Seq<u8>>::empty()
                =~= split_lines_spec(content@));
        }
    }
    proof {
        assert(out.deep_view() =~= split_lines_spec(content@));
        assert(out.deep_view().len() == out@.len());
    }
    out
}

/// The bytes `content[a..b]` as a fresh vector.
fn copy_range(content: &Vec<u8>, a: usize, b: usize) -> (r: Vec<u8>)
    requires
        a <= b <= content@.len(),
    ensures
        r@ == content@.subrange(a as int, b as int),
{
    let (_, tail) = content.as_slice().split_at(a);
    let (piece, _) = tail.split_at(b - a);
    let r = vstd::slice::slice_to_vec(piece);
    proof {
        assert(r@ =~= content@.subrange(a as int, b as int));
    }
    r
}

/// The arguments of one read request.
#[derive(Debug)]
pub struct ReadCodeArgs {
    pub path: String,
    pub lines: Option<LinesArg>,
    pub context: Option<u32>,
    pub max_bytes: Option<usize>,
    /// Reserved; a request using it is rejected.
    pub symbol: Option<String>,
}

/// The requested path resolved against the working directory: an absolute
/// path stands as it is, anything else goes below the directory.
pub open spec fn resolved_path_spec(path: Seq<char>, cwd: Seq<char>) -> Seq<char> {
    if path.len() > 0 && path[0] == '/' {
        path
    } else {
        cwd + seq!['/'] + path
    }
}

/// Whether `path` lies inside the workspace at `cwd`: the directory is a
/// prefix and the remainder begins at a path separator, or the path is the
/// directory itself written without its trailing slash.
pub open spec fn within_workspace(path: Seq<char>, cwd: Seq<char>) -> bool {
    ||| {
        &&& cwd.len() <= path.len()
        &&& path.subrange(0, cwd.len() as int) == cwd
        &&& (path.len() == cwd.len() || path[cwd.len() as int] == '/'
            || (cwd.len() > 0 && cwd.last() == '/'))
    }
    ||| {
        &&& cwd.len() == path.len() + 1
        &&& cwd.len() > 0
        &&& cwd.last() == '/'
        &&& cwd.subrange(0, path.len() as int) == path
    }
}

/// The path as shown to the agent: relative to the workspace when inside
/// it, with the separator dropped; the full path otherwise.
pub open spec fn display_path_spec(path: Seq<char>, cwd: Seq<char>) -> Seq<char> {
    if cwd.len() <= path.len() && within_workspace(path, cwd) {
        let rest = path.subrange(cwd.len() as int, path.len() as int);
        if rest.len() > 0 && rest[0] == '/' {
            rest.subrange(1, rest.len() as int)
        } else {
            rest
        }
    } else if within_workspace(path, cwd) {
        Seq::empty()
    } else {
        path
    }
}

/// Resolves the requested path against the working directory.
pub fn resolve_path(path: &str, cwd: &str) -> (r: String)
    ensures
        r@ == resolved_path_spec(path@, cwd@),
{
    let n = path.unicode_len();
    if n > 0 && path.get_char(0) == '/' {
        return path.to_owned();
    }
    let mut r = cwd.to_owned();
    r.append("/");
    r.append(path);
    proof {
        reveal_strlit("/");
        assert("/"@ =~= seq!['/']);
        assert(r@ =~= cwd@ + seq!['/'] + path@);
    }
    r
}

/// Whether `path` lies inside the workspace at `cwd`.
pub fn validate_within_workspace(path: &str, cwd: &str) -> (r: Result<(),
    FunctionCallError>)
    ensures
        r is Ok <==> within_workspace(path@, cwd@),
        r matches Err(e) ==> e matches FunctionCallError::RespondToModel(m)
            && m@ == "paths outside the workspace are not allowed"@,
{
    let pn = path.unicode_len();
    let cn = cwd.unicode_len();
    if cn > pn {
        // The one accepted shape with a longer directory: the path is the
        // directory itself, minus its trailing slash.
        if cn == pn + 1 && cwd.get_char(cn - 1) == '/' {
            let mut k: usize = 0;
            while k < pn
                invariant
                    pn == path@.len(),
                    cn == cwd@.len(),
                    cn == pn + 1,
                    k <= pn,
                    forall|q: int| 0 <= q < k ==> path@[q] == cwd@[q],
                decreases pn - k,
            {
                if path.get_char(k) != cwd.get_char(k) {
                    proof {
                        assert(cwd@.subrange(0, pn as int)[k as int] != path@[k as int]);
                    }
                    return Err(FunctionCallError::RespondToModel(
                        "paths outside the workspace are not allowed".to_owned()));
                }
                k = k + 1;
            }
            proof {
                assert(cwd@.subrange(0, pn as int) =~= path@);
            }
            return Ok(());
        }
        proof {
            if within_workspace(path@, cwd@) {
                assert(cwd@.len() == path@.len() + 1);
            }
        }
        return Err(FunctionCallError::RespondToModel(
            "paths outside the workspace are not allowed".to_owned()));
    }
    let mut i: usize = 0;
    while i < cn
        invariant
            pn == path@.len(),
            cn == cwd@.len(),
            cn <= pn,
            i <= cn,
            forall|k: int| 0 <= k < i ==> path@[k] == cwd@[k],
        decreases cn - i,
    {
        if path.get_char(i) != cwd.get_char(i) {
            proof {
                assert(path@.subrange(0, cn as int)[i as int] != cwd@[i as int]);
            }
            return Err(FunctionCallError::RespondToModel(
                "paths outside the workspace are not allowed".to_owned()));
        }
        i = i + 1;
    }
    proof {
        assert(path@.subrange(0, cn as int) =~= cwd@);
    }
    if pn == cn {
        return Ok(());
    }
    if path.get_char(cn) == '/' {
        return Ok(());
    }
    if cn > 0 && cwd.get_char(cn - 1) == '/' {
        return Ok(());
    }
    Err(FunctionCallError::RespondToModel(
        "paths outside the workspace are not allowed".to_owned()))
}

/// The path as shown to the agent.
pub fn display_path(path: &str, cwd: &str) -> (r: String)
    ensures
        r@ == display_path_spec(path@, cwd@),
{
    match validate_within_workspace(path, cwd) {
        Result::Ok(_) => {
            let pn = path.unicode_len();
            let cn = cwd.unicode_len();
            if cn > pn {
                let r = String::new();
                proof {
                    assert(r@ =~= display_path_spec(path@, cwd@));
                }
                return r;
            }
            let rest = path.substring_char(cn, pn);
            let rn = rest.unicode_len();
            if rn > 0 && rest.get_char(0) == '/' {
                let r = rest.substring_char(1, rn).to_owned();
                proof {
                    assert(r@ =~= display_path_spec(path@, cwd@));
                }
                r
            } else {
                let r = rest.to_owned();
                proof {
                    assert(r@ =~= display_path_spec(path@, cwd@));
                }
                r
            }
        },
        Result::Err(_) => path.to_owned(),
    }
}

/// Checks the request before any file is touched: the path must not be
/// blank, the reserved `symbol` field must be unused, and the path,
/// resolved against the working directory, must lie inside the workspace.
/// Returns the resolved path.
pub fn validate_read_code_request(args: &ReadCodeArgs, cwd: &str)
    -> (r: Result<String, FunctionCallError>)
    ensures
        r matches Ok(resolved) ==> {
            &&& resolved@ == resolved_path_spec(args.path@, cwd@)
            &&& within_workspace(resolved@, cwd@)
            &&& !all_ws_bytes(vstd::utf8::encode_utf8(args.path@))
            &&& args.symbol is None
        },
        r is Err <==> (all_ws_bytes(vstd::utf8::encode_utf8(args.path@)) || args.symbol is Some
            || !within_workspace(resolved_path_spec(args.path@, cwd@), cwd@)),
        r matches Err(e) ==> e matches FunctionCallError::RespondToModel(m) && m@ == (
            if all_ws_bytes(vstd::utf8::encode_utf8(args.path@)) {
                "path must not be empty"@
            } else if args.symbol is Some {
                "symbol lookups are not yet supported; request an explicit line range instead"@
            } else {
                "paths outside the workspace are not allowed"@
            }),
{
    let bytes = args.path.as_str().as_bytes();
    let mut i: usize = 0;
    let mut blank = true;
    while i < bytes.len()
        invariant
            bytes@ == vstd::utf8::encode_utf8(args.path@),
            i <= bytes@.len(),
            blank <==> (forall|k: int| 0 <= k < i ==> is_ws_byte(#[trigger] bytes@[k])),
        decreases bytes.len() - i,
    {
        let b = bytes[i];
        if !(b == 32 || b == 9 || b == 10 || b == 13) {
            blank = false;
        }
        i = i + 1;
    }
    if blank {
        return Err(invalid_arguments("path must not be empty"));
    }
    if args.symbol.is_some() {
        return Err(invalid_arguments(
            "symbol lookups are not yet supported; request an explicit line range instead",
        ));
    }
    let resolved = resolve_path(args.path.as_str(), cwd);
    match validate_within_workspace(resolved.as_str(), cwd) {
        Result::Ok(_) => Ok(resolved),
        Result::Err(e) => Err(e),
    }
}


/// The ranges one read request asks for, before normalization: the given
/// range for every accepted `lines` shape, or the whole file when the
/// argument is absent.
pub open spec fn requested_ranges_spec(
    lines_arg: Option<LinesArg>,
    line_count: usize,
) -> Seq<(usize, usize)> {
    match lines_arg {
        Option::None => seq![(1usize, if line_count > 0 { line_count } else { 1usize })],
        Option::Some(LinesArg::Pair(p)) => seq![(p[0], p[1])],
        Option::Some(LinesArg::Object { start, end }) => seq![
            (start, match end {
                Option::Some(e) => e,
                Option::None => start,
            })],
        Option::Some(LinesArg::Ranges(rs)) => seq![(rs[0][0], rs[0][1])],
    }
}

/// The total line count of the ranges, added with saturation, as the
/// notice arithmetic counts it.
pub open spec fn sat_span_total(s: Seq<(usize, usize)>) -> usize
    decreases s.len(),
{
    if s.len() == 0 {
        0
    } else {
        crate::budget::saturating_add_spec(
            crate::budget::saturating_add_spec(
                sat_span_total(s.drop_last()),
                (s.last().1 - s.last().0) as usize,
            ),
            1,
        )
    }
}

/// The rendered header: the `path:` line and one `[notice]` line per
/// trimming that happened.
#[verifier::opaque]
pub open spec fn rendered_header(
    rel: Seq<char>,
    show_overlap: bool,
    overlap_lines: usize,
    truncated_by_lines: bool,
    max_lines: usize,
    truncated_by_bytes: bool,
    max_bytes_limit: usize,
) -> Seq<u8> {
    vstd::utf8::encode_utf8("path: "@) + vstd::utf8::encode_utf8(rel)
        + vstd::utf8::encode_utf8("\n"@)
        + (if show_overlap {
            vstd::utf8::encode_utf8("[notice] trimmed "@) + dec_rep(overlap_lines as int)
                + vstd::utf8::encode_utf8(
                " line(s) that were already served earlier in this session\n"@)
        } else {
            Seq::<u8>::empty()
        })
        + (if truncated_by_lines {
            vstd::utf8::encode_utf8("[notice] truncated to "@) + dec_rep(max_lines as int)
                + vstd::utf8::encode_utf8(
                " line(s); request /relax for a temporary increase\n"@)
        } else {
            Seq::<u8>::empty()
        })
        + (if truncated_by_bytes {
            vstd::utf8::encode_utf8("[notice] truncated to "@)
                + dec_rep(max_bytes_limit as int)
                + vstd::utf8::encode_utf8(
                " byte(s); request /relax for a temporary increase\n"@)
        } else {
            Seq::<u8>::empty()
        })
}

/// The rendered reply: the header and — when any line was built — a blank
/// line and the content.
#[verifier::opaque]
pub open spec fn rendered_output(
    rel: Seq<char>,
    show_overlap: bool,
    overlap_lines: usize,
    truncated_by_lines: bool,
    max_lines: usize,
    truncated_by_bytes: bool,
    max_bytes_limit: usize,
    content: Seq<u8>,
) -> Seq<u8> {
    let hdr = rendered_header(rel, show_overlap, overlap_lines, truncated_by_lines, max_lines,
        truncated_by_bytes, max_bytes_limit);
    if content.len() == 0 {
        hdr
    } else {
        hdr + (if hdr.len() > 0 && hdr.last() != 10 {
            seq![10u8]
        } else {
            Seq::<u8>::empty()
        }) + seq![10u8] + content
    }
}

/// The reply returned when the request was answered in full before.
pub open spec fn covered_reply(rel: Seq<char>) -> Seq<char> {
    "path: "@ + rel + "\n"@
        + "[notice] all requested lines were already provided earlier in this session; nothing new to show"@
}

/// The reply returned when the byte cap left no room for a single line.
pub open spec fn exhausted_reply(rel: Seq<char>) -> Seq<char> {
    "path: "@ + rel + "\n"@
        + "[notice] byte budget exhausted before any new lines could be served; narrow the range or request /relax"@
}

/// The reply under the turn budget's decision: unchanged when everything
/// fit; otherwise cut at a character boundary to the allowed content
/// bytes, with the allowed part of the turn notice appended, on a fresh
/// line when need be.
#[verifier::opaque]
pub open spec fn budget_cut_reply(
    ob: Seq<u8>,
    d: crate::budget::ToolBudgetDecision,
    out: Seq<char>,
) -> bool {
    if !d.truncated {
        out == crate::text::utf8_lossy_of(ob)
    } else {
        exists|cut: Seq<char>, note: Seq<char>| {
            let full = vstd::utf8::encode_utf8(crate::text::utf8_lossy_of(ob));
            let nb = TURN_OUTPUT_TRUNCATION_NOTICE.spec_bytes();
            &&& #[trigger] vstd::utf8::encode_utf8(cut) == full.subrange(0,
                vstd::utf8::encode_utf8(cut).len() as int)
            &&& vstd::utf8::encode_utf8(cut).len() <= d.allowed_content_bytes
            &&& (d.allowed_content_bytes > 0 ==> crate::text::is_boundary_cut(full,
                d.allowed_content_bytes as int, vstd::utf8::encode_utf8(cut).len() as int))
            &&& (d.allowed_content_bytes == 0 ==> cut.len() == 0)
            &&& #[trigger] vstd::utf8::encode_utf8(note) == nb.subrange(0,
                vstd::utf8::encode_utf8(note).len() as int)
            &&& (d.notice_bytes > 0 ==> crate::text::is_boundary_cut(nb,
                d.notice_bytes as int, vstd::utf8::encode_utf8(note).len() as int))
            &&& (d.notice_bytes == 0 ==> note.len() == 0)
            &&& out == (if vstd::utf8::encode_utf8(note).len() == 0 {
                cut
            } else if cut.len() > 0 && cut.last() != '\n' {
                cut + seq!['\n'] + note
            } else {
                cut + note
            })
        }
    }
}

/// The bookkeeping of a reply that served lines: the ledger of the path
/// gains exactly the served ranges, the turn budget and metrics reflect
/// one reservation of the rendered output's length, and the returned text
/// is that output under the budget's verdict.
#[verifier::opaque]
pub open spec fn served_reply_post(
    led0: crate::ledger::CodeReadIndex,
    led1: crate::ledger::CodeReadIndex,
    bud_max: usize,
    used0: usize,
    used1: int,
    m0: crate::budget::TurnMetrics,
    m1: crate::budget::TurnMetrics,
    rel: Seq<char>,
    ob: Seq<u8>,
    served: Seq<(usize, usize)>,
    out: Seq<char>,
) -> bool {
    let notice_len = TURN_OUTPUT_TRUNCATION_NOTICE.spec_bytes().len() as usize;
    let desired = ob.len() as usize;
    &&& forall|x: int| led1.serves(rel, x) <==> (led0.serves(rel, x)
        || exists|j: int| 0 <= j < served.len()
            && !crate::interval_set::range_invalid((#[trigger] served[j]).0, served[j].1)
            && served[j].0 <= x <= served[j].1)
    &&& used1 == crate::budget::reserve_used_after(bud_max, used0, desired, notice_len)
    &&& m1 == crate::budget::reserve_metrics_after(m0, bud_max, used0, desired, notice_len)
    &&& budget_cut_reply(ob, crate::budget::reserve_decision_spec(bud_max, used0, desired,
        notice_len), out)
}

/// What a successful read of a nonempty file returns and changes, for one
/// normalized request list `norm` and one widened, merged list `ctx`: the
/// unserved parts are computed against the session ledger, capped,
/// rendered, booked in the ledger, and the reply is cut to what the turn
/// budget grants.  `norm` and `ctx` are parameters because sorting fixes
/// them only up to the order of equal lower bounds; everything after them
/// is a function of the two.
#[verifier::opaque]
pub open spec fn read_code_ok_with(
    norm: Seq<(usize, usize)>,
    ctx: Seq<(usize, usize)>,
    led0: crate::ledger::CodeReadIndex,
    led1: crate::ledger::CodeReadIndex,
    bud_max: usize,
    used0: usize,
    used1: int,
    m0: crate::budget::TurnMetrics,
    m1: crate::budget::TurnMetrics,
    args: ReadCodeArgs,
    rel: Seq<char>,
    contents: Seq<u8>,
    out: Seq<char>,
) -> bool {
    let lines = split_lines_spec(contents);
    let line_count = lines.len() as usize;
    let req = requested_ranges_spec(args.lines, line_count);
    let context = (match args.context {
        Option::Some(c) => c as usize,
        Option::None => 0usize,
    });
    let small = contents.len() <= SMALL_FILE_MAX_BYTES && line_count <= SMALL_FILE_MAX_LINES;
    let max_lines = if small { SMALL_FILE_MAX_LINES } else { DEFAULT_MAX_LINES };
    let req_max = (match args.max_bytes {
        Option::Some(m) => m,
        Option::None => DEFAULT_MAX_BYTES,
    });
    let cap = if small { SMALL_FILE_MAX_BYTES } else { DEFAULT_MAX_BYTES };
    let max_bytes_limit = if req_max < cap { req_max } else { cap };
    let notice_len = TURN_OUTPUT_TRUNCATION_NOTICE.spec_bytes().len() as usize;
    {
        &&& norm.to_multiset() == swapped_seq(req).to_multiset()
        &&& norm.len() == req.len()
        &&& sorted_by_lo(norm)
        &&& forall|i: int| 0 <= i < norm.len() ==> 1 <= (#[trigger] norm[i]).0 <= norm[i].1
        &&& intervals_wf(ctx)
        &&& forall|x: int| intervals_cover(ctx, x)
            <==> expanded_cover(norm, context as int, line_count as int, x)
        &&& ctx.len() > 0
        &&& {
            let unc = if led0.has_path(rel) {
                crate::ledger::unserved_concat(led0.intervals_of(rel), ctx)
            } else {
                ctx
            };
            let ho = exists|j: int| 0 <= j < ctx.len()
                && !crate::interval_set::range_invalid((#[trigger] ctx[j]).0, ctx[j].1)
                && exists|x: int| ctx[j].0 <= x <= ctx[j].1 && led0.serves(rel, x);
            if unc.len() == 0 {
                &&& out == covered_reply(rel)
                &&& led1 == led0
                &&& used1 == used0
                &&& m1 == m0
            } else {
                let capped = line_cap_spec(unc, max_lines as int);
                let limited = capped.0;
                let built = build_content_spec(limited, lines, max_bytes_limit as int, 0,
                    true, true);
                &&& limited.len() > 0
                &&& if built.1.len() == 0 {
                    &&& out == exhausted_reply(rel)
                    &&& led1 == led0
                    &&& used1 == used0
                    &&& m1 == m0
                } else {
                    let overlap_lines = if sat_span_total(ctx) > sat_span_total(unc) {
                        (sat_span_total(ctx) - sat_span_total(unc)) as usize
                    } else {
                        0usize
                    };
                    let ob = rendered_output(rel, ho && overlap_lines > 0, overlap_lines,
                        capped.1, max_lines, built.2, max_bytes_limit, built.0);
                    served_reply_post(led0, led1, bud_max, used0, used1, m0, m1, rel, ob,
                        built.1, out)
                }
            }
        }
    }
}

/// A successful read of a nonempty file behaves as [`read_code_ok_with`]
/// describes, for some normalized and widened request lists.
pub open spec fn read_code_ok_post(
    led0: crate::ledger::CodeReadIndex,
    led1: crate::ledger::CodeReadIndex,
    bud_max: usize,
    used0: usize,
    used1: int,
    m0: crate::budget::TurnMetrics,
    m1: crate::budget::TurnMetrics,
    args: ReadCodeArgs,
    rel: Seq<char>,
    contents: Seq<u8>,
    out: Seq<char>,
) -> bool {
    exists|norm: Seq<(usize, usize)>, ctx: Seq<(usize, usize)>|
        #[trigger] read_code_ok_with(norm, ctx, led0, led1, bud_max, used0, used1, m0, m1,
            args, rel, contents, out)
}

/// Appends the bytes of `s`.
fn push_str_bytes(out: &mut Vec<u8>, s: &str)
    ensures
        final(out)@ == old(out)@ + s.spec_bytes(),
{
    out.extend_from_slice(s.as_bytes());
    proof {
        assert(out@ =~= old(out)@ + s.spec_bytes());
    }
}

/// A split produces at most one line per byte.
proof fn lemma_split_len_bound(bytes: Seq<u8>, start: int, j: int)
    requires
        0 <= start <= j <= bytes.len(),
    ensures
        split_from(bytes, start, j).len() <= bytes.len() - start,
    decreases bytes.len() - j,
{
    if j >= bytes.len() {
    } else if bytes[j] == 10 {
        lemma_split_len_bound(bytes, j + 1, j + 1);
    } else {
        lemma_split_len_bound(bytes, start, j + 1);
    }
}

/// Every range the line cap emits stays within the bounds of the ranges
/// it was given.
proof fn lemma_line_cap_bounds(ranges: Seq<(usize, usize)>, remaining: int, bound: int)
    requires
        forall|i: int| 0 <= i < ranges.len()
            ==> 1 <= (#[trigger] ranges[i]).0 <= ranges[i].1 <= bound,
    ensures
        forall|i: int| 0 <= i < line_cap_spec(ranges, remaining).0.len()
            ==> 1 <= (#[trigger] line_cap_spec(ranges, remaining).0[i]).0
                && line_cap_spec(ranges, remaining).0[i].1 <= bound,
    decreases ranges.len(),
{
    if ranges.len() == 0 || remaining <= 0 {
    } else {
        let p = ranges[0];
        let span = p.1 - p.0 + 1;
        if span <= remaining {
            assert(forall|i: int| 0 <= i < ranges.drop_first().len()
                ==> 1 <= (#[trigger] ranges.drop_first()[i]).0
                    <= ranges.drop_first()[i].1 <= bound);
            lemma_line_cap_bounds(ranges.drop_first(), remaining - span, bound);
            let rest = line_cap_spec(ranges.drop_first(), remaining - span);
            assert forall|i: int| 0 <= i < line_cap_spec(ranges, remaining).0.len()
                implies 1 <= (#[trigger] line_cap_spec(ranges, remaining).0[i]).0
                    && line_cap_spec(ranges, remaining).0[i].1 <= bound by {
                if i == 0 {
                    assert(line_cap_spec(ranges, remaining).0[0] == p);
                } else {
                    assert(line_cap_spec(ranges, remaining).0[i] == rest.0[i - 1]);
                }
            }
        }
    }
}

/// Renders the reply for the built content, books the served ranges in the
/// session ledger, reserves the output's length with the turn budget, and
/// cuts the text to what was granted.
#[verifier::rlimit(100)]
fn finish_read_reply<A, I>(
    session: &mut SessionState,
    turn: &mut TurnState<A, I>,
    rel_path: &str,
    content: Vec<u8>,
    served: Vec<(usize, usize)>,
    show_overlap: bool,
    overlap_lines: usize,
    truncated_by_lines: bool,
    max_lines: usize,
    truncated_by_bytes: bool,
    max_bytes_limit: usize,
) -> (s: String)
    requires
        old(session).wf(),
        old(turn).wf(),
        served@.len() > 0,
    ensures
        final(session).wf(),
        final(turn).wf(),
        final(session).spec_breaker() == old(session).spec_breaker(),
        final(session).spec_approved() == old(session).spec_approved(),
        final(session).spec_token_info() == old(session).spec_token_info(),
        final(session).spec_rate_limits() == old(session).spec_rate_limits(),
        final(turn).spec_pending_approvals() == old(turn).spec_pending_approvals(),
        final(turn).spec_pending_input() == old(turn).spec_pending_input(),
        final(turn).spec_ledger() == old(turn).spec_ledger(),
        final(turn).spec_budget().spec_max_bytes()
            == old(turn).spec_budget().spec_max_bytes(),
        old(turn).spec_budget().spec_used_bytes()
            <= final(turn).spec_budget().spec_used_bytes(),
        forall|p: Seq<char>|
            #![trigger final(session).spec_ledger().has_path(p)]
            #![trigger old(session).spec_ledger().has_path(p)]
            p != rel_path@ ==> (final(session).spec_ledger().has_path(p)
                == old(session).spec_ledger().has_path(p)
                && forall|x: int| #[trigger] final(session).spec_ledger().serves(p, x)
                    == old(session).spec_ledger().serves(p, x)),
        forall|x: int| old(session).spec_ledger().serves(rel_path@, x)
            ==> #[trigger] final(session).spec_ledger().serves(rel_path@, x),
        served_reply_post(old(session).spec_ledger(), final(session).spec_ledger(),
            old(turn).spec_budget().spec_max_bytes(),
            old(turn).spec_budget().spec_used_bytes(),
            final(turn).spec_budget().spec_used_bytes() as int, old(turn).spec_metrics(),
            final(turn).spec_metrics(), rel_path@,
            rendered_output(rel_path@, show_overlap, overlap_lines, truncated_by_lines,
                max_lines, truncated_by_bytes, max_bytes_limit, content@),
            served@, s@),
{
    let mut output: Vec<u8> = Vec::new();
    push_str_bytes(&mut output, "path: ");
    push_str_bytes(&mut output, rel_path);
    push_str_bytes(&mut output, "\n");
    if show_overlap {
        push_str_bytes(&mut output, "[notice] trimmed ");
        push_dec(&mut output, overlap_lines);
        push_str_bytes(&mut output,
            " line(s) that were already served earlier in this session\n");
    }
    if truncated_by_lines {
        push_str_bytes(&mut output, "[notice] truncated to ");
        push_dec(&mut output, max_lines);
        push_str_bytes(&mut output, " line(s); request /relax for a temporary increase\n");
    }
    if truncated_by_bytes {
        push_str_bytes(&mut output, "[notice] truncated to ");
        push_dec(&mut output, max_bytes_limit);
        push_str_bytes(&mut output, " byte(s); request /relax for a temporary increase\n");
    }
    proof {
        assert(output@ =~= rendered_header(rel_path@, show_overlap, overlap_lines,
            truncated_by_lines, max_lines, truncated_by_bytes, max_bytes_limit)) by {
            reveal(rendered_header);
        }
    }
    let ghost content0 = content@;
    if content.len() > 0 {
        if output.len() > 0 && output[output.len() - 1] != 10 {
            output.push(10);
        }
        output.push(10);
        let mut c = content;
        output.append(&mut c);
    }
    proof {
        assert(output@ =~= rendered_output(rel_path@, show_overlap, overlap_lines,
            truncated_by_lines, max_lines, truncated_by_bytes, max_bytes_limit, content0)) by {
            reveal(rendered_output);
        }
    }

    session.record_served_code_ranges(rel_path, &served);
    proof {
        assert(session.spec_breaker().wf());
    }

    let desired_bytes = output.len();
    let notice_len = TURN_OUTPUT_TRUNCATION_NOTICE.as_bytes().len();
    let decision = turn.reserve_tool_output(desired_bytes, notice_len);

    let mut s = bytes_to_utf8_lossy(&output);
    if decision.truncated {
        truncate_string_to_bytes(&mut s, decision.allowed_content_bytes);
        let ghost cut = s@;
        let notice = truncated_notice(TURN_OUTPUT_TRUNCATION_NOTICE, decision.notice_bytes);
        let ghost note = notice@;
        if notice.as_str().as_bytes().len() > 0 {
            let sn = s.as_str().unicode_len();
            if sn > 0 && !(s.as_str().get_char(sn - 1) == '\n') {
                s.append("\n");
                proof {
                    reveal_strlit("\n");
                    assert("\n"@ =~= seq!['\n']);
                }
            }
            s.append(notice.as_str());
        }
        proof {
            assert(s@ == (if vstd::utf8::encode_utf8(note).len() == 0 {
                cut
            } else if cut.len() > 0 && cut.last() != '\n' {
                cut + seq!['\n'] + note
            } else {
                cut + note
            })) by {}
            assert(budget_cut_reply(output@, decision, s@)) by {
                reveal(budget_cut_reply);
            }
        }
    } else {
        proof {
            assert(budget_cut_reply(output@, decision, s@)) by {
                reveal(budget_cut_reply);
            }
        }
    }
    proof {
        assert(served_reply_post(old(session).spec_ledger(), session.spec_ledger(),
            old(turn).spec_budget().spec_max_bytes(),
            old(turn).spec_budget().spec_used_bytes(),
            turn.spec_budget().spec_used_bytes() as int, old(turn).spec_metrics(),
            turn.spec_metrics(), rel_path@,
            rendered_output(rel_path@, show_overlap, overlap_lines, truncated_by_lines,
                max_lines, truncated_by_bytes, max_bytes_limit, content0),
            served@, s@)) by {
            reveal(served_reply_post);
        }
    }
    s
}

/// Serves one read request from the loaded file: splits it into lines,
/// normalizes and widens the requested ranges, drops what the session
/// ledger already served, caps lines and bytes, renders the output, books
/// the served ranges, and cuts the whole answer to what the turn budget
/// grants.  Session bookkeeping other than the ledger entry for
/// `rel_path`, and everything of the turn but its budget and metrics,
/// stay untouched; error returns change nothing at all.
#[verifier::rlimit(100)]
#[verifier::spinoff_prover]
pub fn read_code_output<A, I>(
    session: &mut SessionState,
    turn: &mut TurnState<A, I>,
    args: ReadCodeArgs,
    rel_path: &str,
    contents: &Vec<u8>,
) -> (r: Result<String, FunctionCallError>)
    requires
        old(session).wf(),
        old(turn).wf(),
        contents@.len() < usize::MAX,
    ensures
        final(session).wf(),
        final(turn).wf(),
        final(session).spec_breaker() == old(session).spec_breaker(),
        final(session).spec_approved() == old(session).spec_approved(),
        final(session).spec_token_info() == old(session).spec_token_info(),
        final(session).spec_rate_limits() == old(session).spec_rate_limits(),
        final(turn).spec_pending_approvals() == old(turn).spec_pending_approvals(),
        final(turn).spec_pending_input() == old(turn).spec_pending_input(),
        final(turn).spec_ledger() == old(turn).spec_ledger(),
        final(turn).spec_budget().spec_max_bytes()
            == old(turn).spec_budget().spec_max_bytes(),
        old(turn).spec_budget().spec_used_bytes()
            <= final(turn).spec_budget().spec_used_bytes(),
        forall|p: Seq<char>|
            #![trigger final(session).spec_ledger().has_path(p)]
            #![trigger old(session).spec_ledger().has_path(p)]
            p != rel_path@ ==> (final(session).spec_ledger().has_path(p)
                == old(session).spec_ledger().has_path(p)
                && forall|x: int| #[trigger] final(session).spec_ledger().serves(p, x)
                    == old(session).spec_ledger().serves(p, x)),
        // Served lines are never forgotten: the ledger only grows.
        forall|x: int| old(session).spec_ledger().serves(rel_path@, x)
            ==> #[trigger] final(session).spec_ledger().serves(rel_path@, x),
        r is Err ==> (final(session).spec_ledger() == old(session).spec_ledger()
            && final(turn).spec_budget() == old(turn).spec_budget()
            && final(turn).spec_metrics() == old(turn).spec_metrics()),
        contents@.len() == 0 ==> (r matches Ok(s)
            && s@ == "path: "@ + rel_path@ + "\n[notice] file is empty"@
            && final(session).spec_ledger() == old(session).spec_ledger()
            && final(turn).spec_budget() == old(turn).spec_budget()
            && final(turn).spec_metrics() == old(turn).spec_metrics()),
        // The success path, stage by stage; see `read_code_ok_with`.
        r matches Ok(s) ==> contents@.len() > 0 ==> read_code_ok_post(
            old(session).spec_ledger(),
            final(session).spec_ledger(),
            old(turn).spec_budget().spec_max_bytes(),
            old(turn).spec_budget().spec_used_bytes(),
            final(turn).spec_budget().spec_used_bytes() as int,
            old(turn).spec_metrics(),
            final(turn).spec_metrics(),
            args,
            rel_path@,
            contents@,
            s@,
        ),
{
    let ghost args0 = args;
    if contents.len() == 0 {
        let mut s = "path: ".to_owned();
        s.append(rel_path);
        s.append("\n[notice] file is empty");
        return Ok(s);
    }

    let lines = split_lines(contents);
    let line_count = lines.len();
    proof {
        lemma_split_len_bound(contents@, 0, 0);
        assert(lines@.len() == lines.deep_view().len());
    }

    let mut requested: Vec<(usize, usize)> = match args.lines {
        Option::Some(l) => match l.into_ranges() {
            Result::Ok(v) => v,
            Result::Err(e) => {
                return Err(e);
            },
        },
        Option::None => {
            let mut v: Vec<(usize, usize)> = Vec::new();
            v.push((1, if line_count > 0 { line_count } else { 1 }));
            v
        },
    };
    proof {
        assert(split_lines_spec(contents@).len() as usize == line_count);
        assert(requested@ =~= requested_ranges_spec(args0.lines, line_count)) by {}
    }
    let ghost req0 = requested@;
    match normalize_ranges(&mut requested) {
        Result::Ok(_) => {},
        Result::Err(e) => {
            return Err(e);
        },
    }

    let context: usize = match args.context {
        Option::Some(c) => c as usize,
        Option::None => 0,
    };
    let contextualized = apply_context(&requested, context, line_count);
    if contextualized.len() == 0 {
        return Err(FunctionCallError::RespondToModel(
            "requested lines are outside the file".to_owned()));
    }

    let mut requested_total: usize = 0;
    let mut q: usize = 0;
    while q < contextualized.len()
        invariant
            q <= contextualized@.len(),
            forall|i: int| 0 <= i < contextualized@.len()
                ==> 1 <= (#[trigger] contextualized@[i]).0 <= contextualized@[i].1,
            requested_total == sat_span_total(contextualized@.subrange(0, q as int)),
        decreases contextualized.len() - q,
    {
        let (s0, e0) = contextualized[q];
        requested_total = requested_total.saturating_add(e0 - s0).saturating_add(1);
        proof {
            assert(contextualized@.subrange(0, q + 1).drop_last()
                =~= contextualized@.subrange(0, q as int));
            assert(contextualized@.subrange(0, q + 1).last() == contextualized@[q as int]);
        }
        q = q + 1;
    }
    proof {
        assert(contextualized@.subrange(0, contextualized@.len() as int) =~= contextualized@);
    }

    let small = contents.len() <= SMALL_FILE_MAX_BYTES && line_count <= SMALL_FILE_MAX_LINES;
    let max_lines = if small { SMALL_FILE_MAX_LINES } else { DEFAULT_MAX_LINES };
    let requested_max_bytes = match args.max_bytes {
        Option::Some(m) => m,
        Option::None => DEFAULT_MAX_BYTES,
    };
    let max_bytes_limit = if small {
        if requested_max_bytes < SMALL_FILE_MAX_BYTES {
            requested_max_bytes
        } else {
            SMALL_FILE_MAX_BYTES
        }
    } else {
        if requested_max_bytes < DEFAULT_MAX_BYTES {
            requested_max_bytes
        } else {
            DEFAULT_MAX_BYTES
        }
    };

    let unserved = session.compute_unserved_code_ranges(rel_path, &contextualized);
    let uncovered = unserved.0;
    let had_overlap = unserved.1;
    if uncovered.len() == 0 {
        let mut s = "path: ".to_owned();
        s.append(rel_path);
        s.append("\n");
        s.append(
            "[notice] all requested lines were already provided earlier in this session; nothing new to show");
        proof {
            assert(s@ == covered_reply(rel_path@)) by {}
            assert(read_code_ok_with(requested@, contextualized@,
                old(session).spec_ledger(), session.spec_ledger(),
                old(turn).spec_budget().spec_max_bytes(),
                old(turn).spec_budget().spec_used_bytes(),
                turn.spec_budget().spec_used_bytes() as int,
                old(turn).spec_metrics(), turn.spec_metrics(),
                args0, rel_path@, contents@, s@)) by {
                reveal(read_code_ok_with);
            }
        }
        return Ok(s);
    }
    proof {
        // Every unserved range stays inside the widened requests, which
        // the file's line count bounds.
        assert forall|i: int| 0 <= i < uncovered@.len()
            implies 1 <= (#[trigger] uncovered@[i]).0 <= uncovered@[i].1
                <= line_count by {
            if session.spec_ledger().has_path(rel_path@) {
                let hi = uncovered@[i].1;
                assert(intervals_cover(uncovered@, hi as int)) by {
                    assert(uncovered@[i].0 <= hi <= uncovered@[i].1);
                }
                let j = choose|j: int| 0 <= j < contextualized@.len()
                    && !crate::interval_set::range_invalid(
                        (#[trigger] contextualized@[j]).0, contextualized@[j].1)
                    && contextualized@[j].0 <= hi as int <= contextualized@[j].1
                    && !session.spec_ledger().serves(rel_path@, hi as int);
                assert(intervals_cover(contextualized@, hi as int)) by {
                    assert(contextualized@[j].0 <= hi as int <= contextualized@[j].1);
                }
            } else {
                assert(uncovered@[i] == contextualized@[i]);
                assert(intervals_cover(contextualized@, uncovered@[i].1 as int)) by {
                    assert(contextualized@[i].0 <= uncovered@[i].1 as int
                        <= contextualized@[i].1);
                }
            }
        }
    }

    let mut uncovered_total: usize = 0;
    let mut q2: usize = 0;
    while q2 < uncovered.len()
        invariant
            q2 <= uncovered@.len(),
            forall|i: int| 0 <= i < uncovered@.len()
                ==> 1 <= (#[trigger] uncovered@[i]).0 <= uncovered@[i].1,
            uncovered_total == sat_span_total(uncovered@.subrange(0, q2 as int)),
        decreases uncovered.len() - q2,
    {
        let (s0, e0) = uncovered[q2];
        uncovered_total = uncovered_total.saturating_add(e0 - s0).saturating_add(1);
        proof {
            assert(uncovered@.subrange(0, q2 + 1).drop_last()
                =~= uncovered@.subrange(0, q2 as int));
            assert(uncovered@.subrange(0, q2 + 1).last() == uncovered@[q2 as int]);
        }
        q2 = q2 + 1;
    }
    proof {
        assert(uncovered@.subrange(0, uncovered@.len() as int) =~= uncovered@);
    }
    let overlap_lines = if requested_total > uncovered_total {
        requested_total - uncovered_total
    } else {
        0
    };

    let capped = enforce_line_cap(&uncovered, max_lines);
    let limited = capped.0;
    let truncated_by_lines = capped.1;
    if limited.len() == 0 {
        let mut msg: Vec<u8> = Vec::new();
        push_str_bytes(&mut msg, "requested slice exceeds the ");
        push_dec(&mut msg, max_lines);
        push_str_bytes(&mut msg, "-line limit; narrow the range or request /relax");
        return Err(FunctionCallError::RespondToModel(bytes_to_utf8_lossy(&msg)));
    }
    proof {
        lemma_line_cap_bounds(uncovered@, max_lines as int, line_count as int);
        assert(line_count < usize::MAX);
        assert forall|i: int| 0 <= i < limited@.len()
            implies (#[trigger] limited@[i]).1 < usize::MAX by {
            assert(limited@[i] == line_cap_spec(uncovered@, max_lines as int).0[i]);
        }
    }

    let built = build_content(&limited, &lines, max_bytes_limit);
    let content = built.0;
    let served = built.1;
    let truncated_by_bytes = built.2;
    if served.len() == 0 {
        let mut s = "path: ".to_owned();
        s.append(rel_path);
        s.append("\n");
        s.append(
            "[notice] byte budget exhausted before any new lines could be served; narrow the range or request /relax");
        proof {
            assert(s@ == exhausted_reply(rel_path@)) by {}
            assert(read_code_ok_with(requested@, contextualized@,
                old(session).spec_ledger(), session.spec_ledger(),
                old(turn).spec_budget().spec_max_bytes(),
                old(turn).spec_budget().spec_used_bytes(),
                turn.spec_budget().spec_used_bytes() as int,
                old(turn).spec_metrics(), turn.spec_metrics(),
                args0, rel_path@, contents@, s@)) by {
                reveal(read_code_ok_with);
            }
        }
        return Ok(s);
    }

    let s = finish_read_reply(session, turn, rel_path, content, served,
        had_overlap && overlap_lines > 0, overlap_lines, truncated_by_lines, max_lines,
        truncated_by_bytes, max_bytes_limit);
    proof {
        assert(read_code_ok_with(requested@, contextualized@, old(session).spec_ledger(),
            session.spec_ledger(), old(turn).spec_budget().spec_max_bytes(),
            old(turn).spec_budget().spec_used_bytes(),
            turn.spec_budget().spec_used_bytes() as int, old(turn).spec_metrics(),
            turn.spec_metrics(), args0, rel_path@, contents@, s@)) by {
            reveal(read_code_ok_with);
        }
    }
    Ok(s)
}

} // verus!

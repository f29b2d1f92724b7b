//! Turn-scoped state: output budget, metrics, pending work, and the
//! per-turn code-read ledger.
//!
//! A turn's state is created when the turn starts and drained when it
//! ends.  It is generic over the reply handle `A` used to answer a pending
//! approval and the item type `I` of pending input, which the surrounding
//! runtime supplies.

use vstd::prelude::*;
use crate::budget::PER_TURN_OUTPUT_MAX_BYTES;
use crate::budget::TURN_OUTPUT_NOTICE_RESERVE_BYTES;
use crate::budget::ToolBudgetDecision;
use crate::budget::ToolOutputBudget;
use crate::budget::TurnMetrics;
use crate::budget::reserve_decision_spec;
use crate::budget::reserve_metrics_after;
use crate::budget::reserve_used_after;
use crate::budget::saturating_add_spec;
use crate::interval_set::intervals_cover;
use crate::interval_set::range_invalid;
use crate::ledger::CodeReadIndex;
use crate::text::str_eq;

verus! {

/// Truncation message appended when the per-turn output budget runs out.
pub const TURN_OUTPUT_TRUNCATION_NOTICE: &'static str =
    "[turn output truncated after reaching 24 KiB; refine your request or use /relax]";

/// Whether a key list holds `key`.
pub open spec fn approvals_have<A>(s: Seq<(String, A)>, key: Seq<char>) -> bool {
    exists|i: int| 0 <= i < s.len() && (#[trigger] s[i]).0@ == key
}

/// The position at which a key list holds `key`.
pub open spec fn approvals_at<A>(s: Seq<(String, A)>, key: Seq<char>) -> int {
    choose|i: int| 0 <= i < s.len() && (#[trigger] s[i]).0@ == key
}

/// Mutable state for a single turn.
pub struct TurnState<A, I> {
    pending_approvals: Vec<(String, A)>,
    pending_input: Vec<I>,
    tool_output_budget: ToolOutputBudget,
    pub metrics: TurnMetrics,
    code_read_index: CodeReadIndex,
}

impl<A, I> Default for TurnState<A, I> {
    /// A fresh turn: nothing pending, the full default budget, zero
    /// metrics, and an empty ledger.
    fn default() -> (r: TurnState<A, I>)
        ensures
            r.wf(),
            r.spec_pending_approvals().len() == 0,
            r.spec_pending_input().len() == 0,
            r.spec_budget().spec_max_bytes() == PER_TURN_OUTPUT_MAX_BYTES,
            r.spec_budget().spec_used_bytes() == 0,
            r.spec_metrics().spec_is_empty(),
            r.spec_ledger().entries_seq().len() == 0,
    {
        TurnState {
            pending_approvals: Vec::new(),
            pending_input: Vec::new(),
            tool_output_budget: ToolOutputBudget::new(PER_TURN_OUTPUT_MAX_BYTES),
            metrics: TurnMetrics::default(),
            code_read_index: CodeReadIndex::default(),
        }
    }
}

impl<A, I> TurnState<A, I> {
    /// The pending approvals, in insertion order.
    pub closed spec fn spec_pending_approvals(&self) -> Seq<(String, A)> {
        self.pending_approvals@
    }

    /// The pending input items, in arrival order.
    pub closed spec fn spec_pending_input(&self) -> Seq<I> {
        self.pending_input@
    }

    /// The turn's metrics.
    pub closed spec fn spec_metrics(&self) -> TurnMetrics {
        self.metrics
    }

    /// The turn's output budget.
    pub closed spec fn spec_budget(&self) -> ToolOutputBudget {
        self.tool_output_budget
    }

    /// The turn's code-read ledger.
    pub closed spec fn spec_ledger(&self) -> CodeReadIndex {
        self.code_read_index
    }

    /// Budget and ledger invariants, and one approval per key.
    pub open spec fn wf(&self) -> bool {
        &&& self.spec_budget().wf()
        &&& self.spec_ledger().wf()
        &&& forall|i: int, j: int| 0 <= i < j < self.spec_pending_approvals().len()
            ==> (#[trigger] self.spec_pending_approvals()[i]).0@
                != (#[trigger] self.spec_pending_approvals()[j]).0@
    }

    /// Everything but the named parts is as it was.
    pub open spec fn same_but_budget_and_metrics(&self, other: &TurnState<A, I>) -> bool {
        &&& self.spec_pending_approvals() == other.spec_pending_approvals()
        &&& self.spec_pending_input() == other.spec_pending_input()
        &&& self.spec_ledger() == other.spec_ledger()
    }

    /// Reserves room for `desired_bytes` of tool output under the turn
    /// budget, exactly as [`ToolOutputBudget::reserve`] decides it, and
    /// books the outcome in the turn metrics.
    pub fn reserve_tool_output(&mut self, desired_bytes: usize, notice_len: usize)
        -> (d: ToolBudgetDecision)
        requires
            old(self).wf(),
        ensures
            final(self).wf(),
            final(self).same_but_budget_and_metrics(old(self)),
            final(self).spec_budget().spec_max_bytes()
                == old(self).spec_budget().spec_max_bytes(),
            old(self).spec_budget().spec_used_bytes()
                <= final(self).spec_budget().spec_used_bytes(),
            d == reserve_decision_spec(old(self).spec_budget().spec_max_bytes(),
                old(self).spec_budget().spec_used_bytes(), desired_bytes, notice_len),
            final(self).spec_budget().spec_used_bytes() == reserve_used_after(
                old(self).spec_budget().spec_max_bytes(),
                old(self).spec_budget().spec_used_bytes(), desired_bytes, notice_len),
            final(self).spec_metrics() == reserve_metrics_after(old(self).spec_metrics(),
                old(self).spec_budget().spec_max_bytes(),
                old(self).spec_budget().spec_used_bytes(), desired_bytes, notice_len),
            desired_bytes == 0 ==> d.allowed_content_bytes == 0 && d.notice_bytes == 0
                && !d.truncated && final(self).spec_budget() == old(self).spec_budget()
                && final(self).spec_metrics() == old(self).spec_metrics(),
            desired_bytes != 0 && desired_bytes <= old(self).spec_budget().spec_max_bytes()
                - old(self).spec_budget().spec_used_bytes() ==> {
                &&& d.allowed_content_bytes == desired_bytes
                &&& d.notice_bytes == 0
                &&& !d.truncated
                &&& final(self).spec_budget().spec_used_bytes()
                    == old(self).spec_budget().spec_used_bytes() + desired_bytes
                &&& final(self).spec_metrics() == (TurnMetrics {
                    bytes_served: saturating_add_spec(
                        old(self).spec_metrics().bytes_served, desired_bytes),
                    ..old(self).spec_metrics()
                })
            },
            desired_bytes > old(self).spec_budget().spec_max_bytes()
                - old(self).spec_budget().spec_used_bytes() ==> {
                let remaining = old(self).spec_budget().spec_max_bytes()
                    - old(self).spec_budget().spec_used_bytes();
                let notice_cap = if notice_len < TURN_OUTPUT_NOTICE_RESERVE_BYTES {
                    notice_len as int
                } else {
                    TURN_OUTPUT_NOTICE_RESERVE_BYTES as int
                };
                &&& d.truncated
                &&& remaining == 0 ==> d.allowed_content_bytes == 0
                    && d.notice_bytes == notice_cap
                &&& remaining > 0 ==> d.notice_bytes
                    == (if remaining < notice_cap { remaining } else { notice_cap })
                    && d.allowed_content_bytes == remaining - d.notice_bytes
                &&& final(self).spec_budget().spec_used_bytes() == (
                    if old(self).spec_budget().spec_used_bytes() + d.allowed_content_bytes
                        + d.notice_bytes <= old(self).spec_budget().spec_max_bytes() {
                        old(self).spec_budget().spec_used_bytes() + d.allowed_content_bytes
                            + d.notice_bytes
                    } else {
                        old(self).spec_budget().spec_max_bytes() as int
                    })
                &&& final(self).spec_metrics() == (TurnMetrics {
                    bytes_served: saturating_add_spec(
                        old(self).spec_metrics().bytes_served,
                        (d.allowed_content_bytes + d.notice_bytes) as usize,
                    ),
                    bytes_trimmed: saturating_add_spec(
                        old(self).spec_metrics().bytes_trimmed,
                        (desired_bytes - d.allowed_content_bytes) as usize,
                    ),
                    outputs_truncated: saturating_add_spec(
                        old(self).spec_metrics().outputs_truncated, 1),
                    ..old(self).spec_metrics()
                })
            },
            // Conservation: content, notice and newly booked trim account
            // exactly for the request plus the notice grant.
            old(self).spec_metrics().bytes_trimmed + desired_bytes <= usize::MAX ==> {
                d.allowed_content_bytes + d.notice_bytes
                    + (final(self).spec_metrics().bytes_trimmed - old(self).spec_metrics().bytes_trimmed)
                    == desired_bytes + d.notice_bytes
            },
    {
        let d = self.tool_output_budget.reserve(desired_bytes, notice_len, &mut self.metrics);
        proof {
            assert(self.spec_budget().wf());
            assert(self.spec_ledger().wf());
            assert(self.spec_ledger() == old(self).spec_ledger());
            assert(self.spec_pending_approvals() == old(self).spec_pending_approvals());
        }
        d
    }

    /// Books one blocked command in the metrics.
    pub fn record_command_blocked(&mut self)
        ensures
            final(self).same_but_budget_and_metrics(old(self)),
            final(self).spec_budget() == old(self).spec_budget(),
            final(self).spec_metrics() == (TurnMetrics {
                commands_blocked: saturating_add_spec(old(self).spec_metrics().commands_blocked, 1),
                ..old(self).spec_metrics()
            }),
            old(self).wf() ==> final(self).wf(),
    {
        self.metrics.commands_blocked = self.metrics.commands_blocked.saturating_add(1);
    }

    /// Books one log-tail invocation in the metrics.
    pub fn record_log_tail(&mut self)
        ensures
            final(self).same_but_budget_and_metrics(old(self)),
            final(self).spec_budget() == old(self).spec_budget(),
            final(self).spec_metrics() == (TurnMetrics {
                log_tail_invocations: saturating_add_spec(
                    old(self).spec_metrics().log_tail_invocations, 1),
                ..old(self).spec_metrics()
            }),
            old(self).wf() ==> final(self).wf(),
    {
        self.metrics.log_tail_invocations = self.metrics.log_tail_invocations.saturating_add(1);
    }

    /// Hands the current metrics out and resets them to zero: a second
    /// drain with nothing in between always returns the zero record.
    pub fn drain_metrics(&mut self) -> (r: TurnMetrics)
        ensures
            r == old(self).spec_metrics(),
            final(self).spec_metrics().spec_is_empty(),
            final(self).same_but_budget_and_metrics(old(self)),
            final(self).spec_budget() == old(self).spec_budget(),
            old(self).wf() ==> final(self).wf(),
    {
        let r = self.metrics;
        self.metrics = TurnMetrics::default();
        r
    }

    /// The unserved parts of the requested ranges of `path`, under this
    /// turn's ledger; see [`CodeReadIndex::compute_unserved`].
    pub fn compute_unserved_code_ranges(&self, path: &str, ranges: &Vec<(usize, usize)>)
        -> (r: (Vec<(usize, usize)>, bool))
        requires
            self.wf(),
        ensures
            !self.spec_ledger().has_path(path@) ==> r.0@ == ranges@ && !r.1,
            self.spec_ledger().has_path(path@) ==> {
                &&& r.0@ == crate::ledger::unserved_concat(
                    self.spec_ledger().intervals_of(path@), ranges@)
                &&& forall|i: int| 0 <= i < r.0@.len()
                    ==> 1 <= (#[trigger] r.0@[i]).0 <= r.0@[i].1
                &&& forall|x: int| intervals_cover(r.0@, x) <==> exists|j: int|
                    0 <= j < ranges@.len()
                    && !range_invalid((#[trigger] ranges@[j]).0, ranges@[j].1)
                    && ranges@[j].0 <= x <= ranges@[j].1
                    && !self.spec_ledger().serves(path@, x)
                &&& r.1 <==> exists|j: int| 0 <= j < ranges@.len()
                    && !range_invalid((#[trigger] ranges@[j]).0, ranges@[j].1)
                    && exists|x: int| ranges@[j].0 <= x <= ranges@[j].1
                        && self.spec_ledger().serves(path@, x)
            },
    {
        self.code_read_index.compute_unserved(path, ranges)
    }

    /// Marks the requested ranges of `path` as served in this turn's
    /// ledger; see [`CodeReadIndex::record_served`].
    pub fn record_served_code_ranges(&mut self, path: &str, ranges: &Vec<(usize, usize)>)
        requires
            old(self).wf(),
        ensures
            final(self).wf(),
            final(self).spec_pending_approvals() == old(self).spec_pending_approvals(),
            final(self).spec_pending_input() == old(self).spec_pending_input(),
            final(self).spec_budget() == old(self).spec_budget(),
            final(self).spec_metrics() == old(self).spec_metrics(),
            ranges@.len() == 0 ==> final(self).spec_ledger().entries_seq()
                == old(self).spec_ledger().entries_seq(),
            ranges@.len() > 0 ==> {
                &&& forall|x: int| final(self).spec_ledger().serves(path@, x)
                    <==> (old(self).spec_ledger().serves(path@, x)
                        || exists|j: int| 0 <= j < ranges@.len()
                            && !range_invalid((#[trigger] ranges@[j]).0, ranges@[j].1)
                            && ranges@[j].0 <= x <= ranges@[j].1)
                &&& forall|p: Seq<char>|
                    #![trigger final(self).spec_ledger().has_path(p)]
                    #![trigger old(self).spec_ledger().has_path(p)]
                    p != path@ ==> (final(self).spec_ledger().has_path(p)
                        == old(self).spec_ledger().has_path(p)
                        && forall|x: int| #[trigger] final(self).spec_ledger().serves(p, x)
                            == old(self).spec_ledger().serves(p, x))
            },
    {
        self.code_read_index.record_served(path, ranges);
        proof {
            assert(self.spec_budget().wf());
            assert(self.spec_ledger().wf());
            assert(self.spec_pending_approvals() == old(self).spec_pending_approvals());
        }
    }

    /// Files a reply handle for a pending approval under `key`, handing
    /// back the handle it replaces, if any.
    pub fn insert_pending_approval(&mut self, key: String, tx: A) -> (r: Option<A>)
        requires
            old(self).wf(),
        ensures
            final(self).wf(),
            final(self).spec_pending_input() == old(self).spec_pending_input(),
            final(self).spec_budget() == old(self).spec_budget(),
            final(self).spec_metrics() == old(self).spec_metrics(),
            final(self).spec_ledger() == old(self).spec_ledger(),
            approvals_have(final(self).spec_pending_approvals(), key@),
            final(self).spec_pending_approvals()[approvals_at(
                final(self).spec_pending_approvals(), key@)].1 == tx,
            r is Some <==> approvals_have(old(self).spec_pending_approvals(), key@),
            r matches Some(prev) ==> prev == old(self).spec_pending_approvals()[approvals_at(
                old(self).spec_pending_approvals(), key@)].1,
            forall|k: Seq<char>|
                #![trigger approvals_have(final(self).spec_pending_approvals(), k)]
                #![trigger approvals_have(old(self).spec_pending_approvals(), k)]
                k != key@ ==> (approvals_have(final(self).spec_pending_approvals(), k)
                    == approvals_have(old(self).spec_pending_approvals(), k)
                    && (approvals_have(old(self).spec_pending_approvals(), k)
                        ==> final(self).spec_pending_approvals()[approvals_at(
                            final(self).spec_pending_approvals(), k)].1
                            == old(self).spec_pending_approvals()[approvals_at(
                                old(self).spec_pending_approvals(), k)].1)),
    {
        let ghost o = self.pending_approvals@;
        let found = self.find_approval(&key);
        match found {
            Option::Some(i) => {
                proof {
                    lemma_approvals_at_agrees(o, key@, i as int);
                }
                let (_, prev) = self.pending_approvals.remove(i);
                self.pending_approvals.push((key, tx));
                proof {
                    lemma_approvals_replace(self.pending_approvals@, o, i as int, key@);
                }
                Some(prev)
            },
            Option::None => {
                self.pending_approvals.push((key, tx));
                proof {
                    lemma_approvals_push(self.pending_approvals@, o, key@);
                }
                None
            },
        }
    }

    /// Takes the reply handle filed under `key`, if any.
    pub fn remove_pending_approval(&mut self, key: &str) -> (r: Option<A>)
        requires
            old(self).wf(),
        ensures
            final(self).wf(),
            final(self).spec_pending_input() == old(self).spec_pending_input(),
            final(self).spec_budget() == old(self).spec_budget(),
            final(self).spec_metrics() == old(self).spec_metrics(),
            final(self).spec_ledger() == old(self).spec_ledger(),
            r is Some <==> approvals_have(old(self).spec_pending_approvals(), key@),
            r matches Some(prev) ==> prev == old(self).spec_pending_approvals()[approvals_at(
                old(self).spec_pending_approvals(), key@)].1,
            !approvals_have(final(self).spec_pending_approvals(), key@),
            forall|k: Seq<char>|
                #![trigger approvals_have(final(self).spec_pending_approvals(), k)]
                #![trigger approvals_have(old(self).spec_pending_approvals(), k)]
                k != key@ ==> (approvals_have(final(self).spec_pending_approvals(), k)
                    == approvals_have(old(self).spec_pending_approvals(), k)
                    && (approvals_have(old(self).spec_pending_approvals(), k)
                        ==> final(self).spec_pending_approvals()[approvals_at(
                            final(self).spec_pending_approvals(), k)].1
                            == old(self).spec_pending_approvals()[approvals_at(
                                old(self).spec_pending_approvals(), k)].1)),
    {
        let ghost o = self.pending_approvals@;
        let found = self.find_approval_str(key);
        match found {
            Option::Some(i) => {
                proof {
                    lemma_approvals_at_agrees(o, key@, i as int);
                }
                let (_, prev) = self.pending_approvals.remove(i);
                proof {
                    lemma_approvals_remove(self.pending_approvals@, o, i as int, key@);
                }
                Some(prev)
            },
            Option::None => None,
        }
    }

    /// Drops every pending approval and every pending input item.
    pub fn clear_pending(&mut self)
        ensures
            final(self).spec_pending_approvals().len() == 0,
            final(self).spec_pending_input().len() == 0,
            final(self).spec_budget() == old(self).spec_budget(),
            final(self).spec_metrics() == old(self).spec_metrics(),
            final(self).spec_ledger() == old(self).spec_ledger(),
            old(self).wf() ==> final(self).wf(),
    {
        self.pending_approvals.clear();
        self.pending_input.clear();
    }

    /// Queues one input item for the turn.
    pub fn push_pending_input(&mut self, input: I)
        ensures
            final(self).spec_pending_input() == old(self).spec_pending_input().push(input),
            final(self).spec_pending_approvals() == old(self).spec_pending_approvals(),
            final(self).spec_budget() == old(self).spec_budget(),
            final(self).spec_metrics() == old(self).spec_metrics(),
            final(self).spec_ledger() == old(self).spec_ledger(),
            old(self).wf() ==> final(self).wf(),
    {
        self.pending_input.push(input);
    }

    /// Hands out every queued input item, in arrival order, leaving the
    /// queue empty.
    pub fn take_pending_input(&mut self) -> (r: Vec<I>)
        ensures
            r@ == old(self).spec_pending_input(),
            final(self).spec_pending_input().len() == 0,
            final(self).spec_pending_approvals() == old(self).spec_pending_approvals(),
            final(self).spec_budget() == old(self).spec_budget(),
            final(self).spec_metrics() == old(self).spec_metrics(),
            final(self).spec_ledger() == old(self).spec_ledger(),
            old(self).wf() ==> final(self).wf(),
    {
        let mut ret: Vec<I> = Vec::new();
        core::mem::swap(&mut ret, &mut self.pending_input);
        ret
    }

    /// The position of the approval filed under `key`, if any.
    fn find_approval(&self, key: &String) -> (r: Option<usize>)
        ensures
            match r {
                Option::Some(i) => i < self.spec_pending_approvals().len()
                    && self.spec_pending_approvals()[i as int].0@ == key@,
                Option::None => !approvals_have(self.spec_pending_approvals(), key@),
            },
    {
        self.find_approval_str(key.as_str())
    }

    /// The position of the approval filed under `key`, if any.
    fn find_approval_str(&self, key: &str) -> (r: Option<usize>)
        ensures
            match r {
                Option::Some(i) => i < self.spec_pending_approvals().len()
                    && self.spec_pending_approvals()[i as int].0@ == key@,
                Option::None => !approvals_have(self.spec_pending_approvals(), key@),
            },
    {
        let mut i: usize = 0;
        while i < self.pending_approvals.len()
            invariant
                i <= self.spec_pending_approvals().len(),
                forall|k: int| 0 <= k < i
                    ==> (#[trigger] self.spec_pending_approvals()[k]).0@ != key@,
            decreases self.pending_approvals.len() - i,
        {
            if str_eq(self.pending_approvals[i].0.as_str(), key) {
                return Some(i);
            }
            i = i + 1;
        }
        None
    }
}

/// The chosen position of a present key is where it was found.
proof fn lemma_approvals_at_agrees<A>(s: Seq<(String, A)>, key: Seq<char>, i: int)
    requires
        forall|a: int, b: int| 0 <= a < b < s.len()
            ==> (#[trigger] s[a]).0@ != (#[trigger] s[b]).0@,
        0 <= i < s.len(),
        s[i].0@ == key,
    ensures
        approvals_have(s, key),
        approvals_at(s, key) == i,
{
    assert(approvals_have(s, key));
    let k = approvals_at(s, key);
    assert(0 <= k < s.len() && s[k].0@ == key);
    if k < i {
        assert(s[k].0@ != s[i].0@);
    }
    if i < k {
        assert(s[i].0@ != s[k].0@);
    }
}

/// Removing the entry at `i` (the one for `key`) and pushing a fresh entry
/// under the same key keeps keys unique, maps `key` to the new entry, and
/// leaves every other key alone.
proof fn lemma_approvals_replace<A>(f: Seq<(String, A)>, o: Seq<(String, A)>, i: int,
    key: Seq<char>)
    requires
        forall|a: int, b: int| 0 <= a < b < o.len()
            ==> (#[trigger] o[a]).0@ != (#[trigger] o[b]).0@,
        0 <= i < o.len(),
        o[i].0@ == key,
        f.len() == o.len(),
        f == o.remove(i).push(f[o.len() - 1]),
        f[o.len() - 1].0@ == key,
    ensures
        forall|a: int, b: int| 0 <= a < b < f.len()
            ==> (#[trigger] f[a]).0@ != (#[trigger] f[b]).0@,
        approvals_have(f, key),
        approvals_at(f, key) == f.len() - 1,
        forall|k: Seq<char>|
            #![trigger approvals_have(f, k)]
            #![trigger approvals_have(o, k)]
            k != key ==> (approvals_have(f, k) == approvals_have(o, k)
                && (approvals_have(o, k)
                    ==> f[approvals_at(f, k)].1 == o[approvals_at(o, k)].1)),
{
    let last = o.len() - 1;
    assert forall|a: int| 0 <= a < last implies f[a] == o[
        if a < i { a } else { a + 1 }
    ] by {
        assert(f[a] == o.remove(i)[a]);
    }
    assert forall|a: int, b: int| 0 <= a < b < f.len()
        implies (#[trigger] f[a]).0@ != (#[trigger] f[b]).0@ by {
        let a0 = if a < i { a } else { a + 1 };
        if b < last {
            let b0 = if b < i { b } else { b + 1 };
            assert(f[a] == o[a0] && f[b] == o[b0]);
        } else {
            assert(f[a] == o[a0]);
            if a0 < i {
                assert(o[a0].0@ != o[i].0@);
            } else {
                assert(o[i].0@ != o[a0].0@);
            }
        }
    }
    lemma_approvals_at_agrees(f, key, last);
    assert forall|k: Seq<char>| k != key implies (#[trigger] approvals_have(f, k)
        == approvals_have(o, k)
        && (approvals_have(o, k)
            ==> f[approvals_at(f, k)].1 == o[approvals_at(o, k)].1)) by {
        if approvals_have(o, k) {
            let j = approvals_at(o, k);
            assert(0 <= j < o.len() && o[j].0@ == k);
            assert(j != i);
            let jj = if j < i { j } else { j - 1 };
            assert(f[jj] == o[j]);
            lemma_approvals_at_agrees(f, k, jj);
            lemma_approvals_at_agrees(o, k, j);
        }
        if approvals_have(f, k) {
            let j = approvals_at(f, k);
            assert(0 <= j < f.len() && f[j].0@ == k);
            assert(j != last);
            let j0 = if j < i { j } else { j + 1 };
            assert(f[j] == o[j0]);
            assert(approvals_have(o, k));
        }
    }
}

/// Pushing an entry for an absent key keeps keys unique, maps the key to
/// the new entry, and leaves every other key alone.
proof fn lemma_approvals_push<A>(f: Seq<(String, A)>, o: Seq<(String, A)>, key: Seq<char>)
    requires
        forall|a: int, b: int| 0 <= a < b < o.len()
            ==> (#[trigger] o[a]).0@ != (#[trigger] o[b]).0@,
        forall|a: int| 0 <= a < o.len() ==> (#[trigger] o[a]).0@ != key,
        f == o.push(f[o.len() as int]),
        f[o.len() as int].0@ == key,
    ensures
        forall|a: int, b: int| 0 <= a < b < f.len()
            ==> (#[trigger] f[a]).0@ != (#[trigger] f[b]).0@,
        approvals_have(f, key),
        approvals_at(f, key) == o.len(),
        forall|k: Seq<char>|
            #![trigger approvals_have(f, k)]
            #![trigger approvals_have(o, k)]
            k != key ==> (approvals_have(f, k) == approvals_have(o, k)
                && (approvals_have(o, k)
                    ==> f[approvals_at(f, k)].1 == o[approvals_at(o, k)].1)),
{
    let last = o.len() as int;
    assert forall|a: int, b: int| 0 <= a < b < f.len()
        implies (#[trigger] f[a]).0@ != (#[trigger] f[b]).0@ by {
        if b < last {
            assert(f[a] == o[a] && f[b] == o[b]);
        } else {
            assert(f[a] == o[a]);
        }
    }
    lemma_approvals_at_agrees(f, key, last);
    assert forall|k: Seq<char>| k != key implies (#[trigger] approvals_have(f, k)
        == approvals_have(o, k)
        && (approvals_have(o, k)
            ==> f[approvals_at(f, k)].1 == o[approvals_at(o, k)].1)) by {
        if approvals_have(o, k) {
            let j = approvals_at(o, k);
            assert(0 <= j < o.len() && o[j].0@ == k);
            assert(f[j] == o[j]);
            lemma_approvals_at_agrees(f, k, j);
            lemma_approvals_at_agrees(o, k, j);
        }
        if approvals_have(f, k) {
            let j = approvals_at(f, k);
            assert(0 <= j < f.len() && f[j].0@ == k);
            assert(j != last);
            assert(f[j] == o[j]);
            assert(approvals_have(o, k));
        }
    }
}

/// Removing the entry for `key` keeps keys unique, drops the key, and
/// leaves every other key alone.
proof fn lemma_approvals_remove<A>(f: Seq<(String, A)>, o: Seq<(String, A)>, i: int,
    key: Seq<char>)
    requires
        forall|a: int, b: int| 0 <= a < b < o.len()
            ==> (#[trigger] o[a]).0@ != (#[trigger] o[b]).0@,
        0 <= i < o.len(),
        o[i].0@ == key,
        f == o.remove(i),
    ensures
        forall|a: int, b: int| 0 <= a < b < f.len()
            ==> (#[trigger] f[a]).0@ != (#[trigger] f[b]).0@,
        !approvals_have(f, key),
        forall|k: Seq<char>|
            #![trigger approvals_have(f, k)]
            #![trigger approvals_have(o, k)]
            k != key ==> (approvals_have(f, k) == approvals_have(o, k)
                && (approvals_have(o, k)
                    ==> f[approvals_at(f, k)].1 == o[approvals_at(o, k)].1)),
{
    assert forall|a: int| 0 <= a < f.len() implies f[a] == o[
        if a < i { a } else { a + 1 }
    ] by {}
    assert forall|a: int, b: int| 0 <= a < b < f.len()
        implies (#[trigger] f[a]).0@ != (#[trigger] f[b]).0@ by {
        let a0 = if a < i { a } else { a + 1 };
        let b0 = if b < i { b } else { b + 1 };
        assert(f[a] == o[a0] && f[b] == o[b0]);
    }
    assert(!approvals_have(f, key)) by {
        if approvals_have(f, key) {
            let j = approvals_at(f, key);
            assert(0 <= j < f.len() && f[j].0@ == key);
            let j0 = if j < i { j } else { j + 1 };
            assert(f[j] == o[j0]);
            assert(j0 != i);
            if j0 < i {
                assert(o[j0].0@ != o[i].0@);
            } else {
                assert(o[i].0@ != o[j0].0@);
            }
        }
    }
    assert forall|k: Seq<char>| k != key implies (#[trigger] approvals_have(f, k)
        == approvals_have(o, k)
        && (approvals_have(o, k)
            ==> f[approvals_at(f, k)].1 == o[approvals_at(o, k)].1)) by {
        if approvals_have(o, k) {
            let j = approvals_at(o, k);
            assert(0 <= j < o.len() && o[j].0@ == k);
            assert(j != i);
            let jj = if j < i { j } else { j - 1 };
            assert(f[jj] == o[j]);
            lemma_approvals_at_agrees(f, k, jj);
            lemma_approvals_at_agrees(o, k, j);
        }
        if approvals_have(f, k) {
            let j = approvals_at(f, k);
            assert(0 <= j < f.len() && f[j].0@ == k);
            let j0 = if j < i { j } else { j + 1 };
            assert(f[j] == o[j0]);
            assert(approvals_have(o, k));
        }
    }
}

} // verus!

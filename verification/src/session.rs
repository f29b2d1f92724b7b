//! Session-wide mutable state.
//!
//! A session outlives its turns.  It remembers the commands the user has
//! approved, the latest token accounting and rate limits, the repeat-
//! command breaker, and the session-scoped ledger of source lines already
//! served.

use vstd::prelude::*;
use crate::breaker::BreakerEntryModel;
use crate::breaker::RepeatCommandBlock;
use crate::breaker::RepeatCommandBreaker;
use crate::breaker::RepeatCommandConfig;
use crate::breaker::DEFAULT_REPEAT_COMMAND_REPEATS;
use crate::breaker::DEFAULT_REPEAT_COMMAND_WINDOW_MS;
use crate::breaker::elapsed_ms;
use crate::breaker::fnv1a_spec;
use crate::breaker::next_repeat_count;
use crate::breaker::preview_matches;
use crate::interval_set::intervals_cover;
use crate::interval_set::range_invalid;
use crate::ledger::CodeReadIndex;
use vstd::string::StringSliceAdditionalSpecFns;

verus! {

/// Token counts reported for one model response.
#[derive(Clone, Copy, Debug, PartialEq, Eq, Structural)]
pub struct TokenUsage {
    pub input_tokens: u64,
    pub cached_input_tokens: u64,
    pub output_tokens: u64,
    pub reasoning_output_tokens: u64,
    pub total_tokens: u64,
}

/// Running token accounting: the totals so far and the last response.
#[derive(Clone, Copy, Debug)]
pub struct TokenUsageInfo {
    pub total_token_usage: TokenUsage,
    pub last_token_usage: TokenUsage,
    pub model_context_window: Option<u64>,
}

/// One rate-limit window as last reported.
#[derive(Clone, Copy, Debug)]
pub struct RateLimitWindow {
    pub used_percent: u64,
    pub window_minutes: u64,
}

/// The most recent rate-limit report.
#[derive(Clone, Copy, Debug)]
pub struct RateLimitSnapshot {
    pub primary: Option<RateLimitWindow>,
    pub secondary: Option<RateLimitWindow>,
}

/// Element-wise saturating sum of two usage records.
pub open spec fn usage_sum(a: TokenUsage, b: TokenUsage) -> TokenUsage {
    TokenUsage {
        input_tokens: sat_add_u64(a.input_tokens, b.input_tokens),
        cached_input_tokens: sat_add_u64(a.cached_input_tokens, b.cached_input_tokens),
        output_tokens: sat_add_u64(a.output_tokens, b.output_tokens),
        reasoning_output_tokens: sat_add_u64(
            a.reasoning_output_tokens, b.reasoning_output_tokens),
        total_tokens: sat_add_u64(a.total_tokens, b.total_tokens),
    }
}

/// Addition clamped at the largest `u64`.
pub open spec fn sat_add_u64(a: u64, b: u64) -> u64 {
    if a + b <= u64::MAX {
        (a + b) as u64
    } else {
        u64::MAX
    }
}

/// Persistent, session-scoped state.
pub struct SessionState {
    approved_commands: Vec<Vec<String>>,
    token_info: Option<TokenUsageInfo>,
    latest_rate_limits: Option<RateLimitSnapshot>,
    repeat_command_breaker: RepeatCommandBreaker,
    code_read_index: CodeReadIndex,
}

impl SessionState {
    /// The approved commands, in approval order.
    pub closed spec fn spec_approved(&self) -> Seq<Vec<String>> {
        self.approved_commands@
    }

    /// The running token accounting, if any response arrived yet.
    pub closed spec fn spec_token_info(&self) -> Option<TokenUsageInfo> {
        self.token_info
    }

    /// The latest rate-limit report, if any.
    pub closed spec fn spec_rate_limits(&self) -> Option<RateLimitSnapshot> {
        self.latest_rate_limits
    }

    /// The repeat-command breaker.
    pub closed spec fn spec_breaker(&self) -> RepeatCommandBreaker {
        self.repeat_command_breaker
    }

    /// The session-scoped code-read ledger.
    pub closed spec fn spec_ledger(&self) -> CodeReadIndex {
        self.code_read_index
    }

    /// Breaker and ledger invariants, and each approved command at most
    /// once.
    pub open spec fn wf(&self) -> bool {
        &&& self.spec_breaker().wf()
        &&& self.spec_ledger().wf()
        &&& forall|i: int, j: int| 0 <= i < j < self.spec_approved().len()
            ==> (#[trigger] self.spec_approved()[i]).deep_view()
                != (#[trigger] self.spec_approved()[j]).deep_view()
    }

    /// A fresh session: nothing approved, no accounting, the default
    /// breaker, an empty ledger.
    pub fn new() -> (r: SessionState)
        ensures
            r.wf(),
            r.spec_approved().len() == 0,
            r.spec_token_info() is None,
            r.spec_rate_limits() is None,
            r.spec_breaker().entries_seq().len() == 0,
            r.spec_breaker().spec_config() == (RepeatCommandConfig {
                max_repeats: DEFAULT_REPEAT_COMMAND_REPEATS,
                window_ms: DEFAULT_REPEAT_COMMAND_WINDOW_MS,
            }),
            r.spec_ledger().entries_seq().len() == 0,
    {
        SessionState {
            approved_commands: Vec::new(),
            token_info: None,
            latest_rate_limits: None,
            repeat_command_breaker: RepeatCommandBreaker::default(),
            code_read_index: CodeReadIndex::default(),
        }
    }

    /// Whether a command with this view is approved.
    pub open spec fn spec_has_approved(&self, cmd: Seq<Seq<char>>) -> bool {
        approved_has(self.spec_approved(), cmd)
    }

    /// The position of an approved command equal to `cmd`, if any.
    fn find_approved(&self, cmd: &Vec<String>) -> (r: Option<usize>)
        ensures
            match r {
                Option::Some(i) => i < self.spec_approved().len()
                    && self.spec_approved()[i as int].deep_view() == cmd.deep_view()
                    && self.spec_has_approved(cmd.deep_view()),
                Option::None => !self.spec_has_approved(cmd.deep_view()),
            },
    {
        let mut i: usize = 0;
        while i < self.approved_commands.len()
            invariant
                i <= self.spec_approved().len(),
                forall|k: int| 0 <= k < i
                    ==> (#[trigger] self.spec_approved()[k]).deep_view() != cmd.deep_view(),
            decreases self.approved_commands.len() - i,
        {
            if crate::breaker::commands_equal(&self.approved_commands[i], cmd) {
                return Some(i);
            }
            i = i + 1;
        }
        None
    }

    /// Remembers `cmd` as approved; a command approved before stays listed
    /// once.
    pub fn add_approved_command(&mut self, cmd: Vec<String>)
        requires
            old(self).wf(),
        ensures
            final(self).wf(),
            final(self).spec_token_info() == old(self).spec_token_info(),
            final(self).spec_rate_limits() == old(self).spec_rate_limits(),
            final(self).spec_breaker() == old(self).spec_breaker(),
            final(self).spec_ledger() == old(self).spec_ledger(),
            final(self).spec_has_approved(cmd.deep_view()),
            forall|c: Seq<Seq<char>>|
                #![trigger final(self).spec_has_approved(c)]
                #![trigger old(self).spec_has_approved(c)]
                c != cmd.deep_view() ==> final(self).spec_has_approved(c)
                    == old(self).spec_has_approved(c),
    {
        let ghost o = self.approved_commands@;
        let ghost dv = cmd.deep_view();
        match self.find_approved(&cmd) {
            Option::Some(_) => {},
            Option::None => {
                self.approved_commands.push(cmd);
                proof {
                    lemma_approved_push(self.approved_commands@, o, dv);
                }
            },
        }
    }

    /// The approved commands.
    pub fn approved_commands_ref(&self) -> (r: &Vec<Vec<String>>)
        ensures
            r@ == self.spec_approved(),
    {
        &self.approved_commands
    }

    /// Folds one response's usage into the running accounting: totals grow
    /// by the response (clamped), the response becomes the last one, and
    /// the context window is replaced.
    pub fn update_token_info_from_usage(&mut self, usage: &TokenUsage,
        model_context_window: Option<u64>)
        ensures
            final(self).spec_approved() == old(self).spec_approved(),
            final(self).spec_rate_limits() == old(self).spec_rate_limits(),
            final(self).spec_breaker() == old(self).spec_breaker(),
            final(self).spec_ledger() == old(self).spec_ledger(),
            final(self).spec_token_info() == Some(TokenUsageInfo {
                total_token_usage: match old(self).spec_token_info() {
                    Option::Some(info) => usage_sum(info.total_token_usage, *usage),
                    Option::None => *usage,
                },
                last_token_usage: *usage,
                model_context_window: model_context_window,
            }),
            old(self).wf() ==> final(self).wf(),
    {
        let total = match &self.token_info {
            Option::Some(info) => TokenUsage {
                input_tokens: info.total_token_usage.input_tokens
                    .saturating_add(usage.input_tokens),
                cached_input_tokens: info.total_token_usage.cached_input_tokens
                    .saturating_add(usage.cached_input_tokens),
                output_tokens: info.total_token_usage.output_tokens
                    .saturating_add(usage.output_tokens),
                reasoning_output_tokens: info.total_token_usage.reasoning_output_tokens
                    .saturating_add(usage.reasoning_output_tokens),
                total_tokens: info.total_token_usage.total_tokens
                    .saturating_add(usage.total_tokens),
            },
            Option::None => *usage,
        };
        self.token_info = Some(TokenUsageInfo {
            total_token_usage: total,
            last_token_usage: *usage,
            model_context_window,
        });
        proof {
            if old(self).wf() {
                assert forall|i: int, j: int| 0 <= i < j < self.spec_approved().len()
                    implies (#[trigger] self.spec_approved()[i]).deep_view()
                        != (#[trigger] self.spec_approved()[j]).deep_view() by {
                    assert(self.spec_approved() == old(self).spec_approved());
                    assert(old(self).spec_approved()[i].deep_view()
                        != old(self).spec_approved()[j].deep_view());
                }
            }
        }
    }

    /// Replaces the latest rate-limit report.
    pub fn set_rate_limits(&mut self, snapshot: RateLimitSnapshot)
        ensures
            final(self).spec_rate_limits() == Some(snapshot),
            final(self).spec_approved() == old(self).spec_approved(),
            final(self).spec_token_info() == old(self).spec_token_info(),
            final(self).spec_breaker() == old(self).spec_breaker(),
            final(self).spec_ledger() == old(self).spec_ledger(),
            old(self).wf() ==> final(self).wf(),
    {
        self.latest_rate_limits = Some(snapshot);
        proof {
            if old(self).wf() {
                assert forall|i: int, j: int| 0 <= i < j < self.spec_approved().len()
                    implies (#[trigger] self.spec_approved()[i]).deep_view()
                        != (#[trigger] self.spec_approved()[j]).deep_view() by {
                    assert(self.spec_approved() == old(self).spec_approved());
                    assert(old(self).spec_approved()[i].deep_view()
                        != old(self).spec_approved()[j].deep_view());
                }
            }
        }
    }

    /// The current token accounting and rate-limit report.
    pub fn token_info_and_rate_limits(&self)
        -> (r: (Option<TokenUsageInfo>, Option<RateLimitSnapshot>))
        ensures
            r.0 == self.spec_token_info(),
            r.1 == self.spec_rate_limits(),
    {
        (self.token_info, self.latest_rate_limits)
    }

    /// Asks the breaker whether `command` should be blocked now; see
    /// [`RepeatCommandBreaker::check`].
    pub fn check_repeat_command(&mut self, command: &Vec<String>, now_ms: u64)
        -> (r: Option<RepeatCommandBlock>)
        requires
            old(self).wf(),
        ensures
            final(self).wf(),
            final(self).spec_approved() == old(self).spec_approved(),
            final(self).spec_token_info() == old(self).spec_token_info(),
            final(self).spec_rate_limits() == old(self).spec_rate_limits(),
            final(self).spec_ledger() == old(self).spec_ledger(),
            final(self).spec_breaker().spec_config() == old(self).spec_breaker().spec_config(),
            ({
                let cmd = command.deep_view();
                let cfg = old(self).spec_breaker().spec_config();
                let b0 = old(self).spec_breaker();
                let b1 = final(self).spec_breaker();
                &&& (!b0.spec_enabled() || cmd.len() == 0) ==> (r is None
                    && b1.entries_seq() == b0.entries_seq())
                &&& (b0.spec_enabled() && cmd.len() > 0 && !b0.has_entry(cmd))
                    ==> (r is None && b1.entries_seq() == b0.entries_seq())
                &&& (b0.spec_enabled() && cmd.len() > 0 && b0.has_entry(cmd)
                    && elapsed_ms(now_ms, b0.entry_of(cmd).last_seen_ms) > cfg.window_ms)
                    ==> (r is None && b1.entries_seq()
                        == b0.entries_seq().remove(b0.entry_index_of(cmd)))
                &&& (b0.spec_enabled() && cmd.len() > 0 && b0.has_entry(cmd)
                    && elapsed_ms(now_ms, b0.entry_of(cmd).last_seen_ms) <= cfg.window_ms)
                    ==> {
                    &&& b1.entries_seq() == b0.entries_seq()
                    &&& (r is Some <==> b0.entry_of(cmd).repeat_count >= cfg.max_repeats - 1)
                    &&& (r matches Some(b) ==> b.repeat_count == b0.entry_of(cmd).repeat_count
                        && b.window_ms == cfg.window_ms
                        && b.last_excerpt.deep_view() == b0.entry_of(cmd).excerpt)
                }
            }),
    {
        let r = self.repeat_command_breaker.check(command, now_ms);

        proof {
            assert forall|i: int, j: int| 0 <= i < j < self.spec_approved().len()
                implies (#[trigger] self.spec_approved()[i]).deep_view()
                    != (#[trigger] self.spec_approved()[j]).deep_view() by {
                assert(self.spec_approved() == old(self).spec_approved());
                assert(old(self).spec_approved()[i].deep_view()
                    != old(self).spec_approved()[j].deep_view());
            }
        }
        r
    }

    /// Records one more run of `command` with the breaker; see
    /// [`RepeatCommandBreaker::record`].
    pub fn record_repeat_command(&mut self, command: &Vec<String>, output: &str, now_ms: u64)
        requires
            old(self).wf(),
        ensures
            final(self).wf(),
            final(self).spec_approved() == old(self).spec_approved(),
            final(self).spec_token_info() == old(self).spec_token_info(),
            final(self).spec_rate_limits() == old(self).spec_rate_limits(),
            final(self).spec_ledger() == old(self).spec_ledger(),
            final(self).spec_breaker().spec_config() == old(self).spec_breaker().spec_config(),
            ({
                let cmd = command.deep_view();
                let cfg = old(self).spec_breaker().spec_config();
                let b0 = old(self).spec_breaker();
                let b1 = final(self).spec_breaker();
                let fp = fnv1a_spec(output.spec_bytes());
                &&& (!b0.spec_enabled() || cmd.len() == 0)
                    ==> b1.entries_seq() == b0.entries_seq()
                &&& (b0.spec_enabled() && cmd.len() > 0) ==> {
                    let prev = if b0.has_entry(cmd) {
                        Some(b0.entry_of(cmd))
                    } else {
                        None::<BreakerEntryModel>
                    };
                    &&& b1.has_entry(cmd)
                    &&& b1.entry_of(cmd).fingerprint == fp
                    &&& b1.entry_of(cmd).last_seen_ms == now_ms
                    &&& b1.entry_of(cmd).repeat_count == next_repeat_count(prev, fp, now_ms, cfg)
                    &&& preview_matches(output.spec_bytes(), b1.entry_of(cmd).excerpt)
                    &&& forall|c: Seq<Seq<char>>|
                        #![trigger b1.has_entry(c)]
                        #![trigger b0.has_entry(c)]
                        c != cmd ==> (b1.has_entry(c) == b0.has_entry(c)
                            && (b0.has_entry(c) ==> b1.entry_of(c) == b0.entry_of(c)))
                }
            }),
    {
        self.repeat_command_breaker.record(command, output, now_ms);

        proof {
            assert forall|i: int, j: int| 0 <= i < j < self.spec_approved().len()
                implies (#[trigger] self.spec_approved()[i]).deep_view()
                    != (#[trigger] self.spec_approved()[j]).deep_view() by {
                assert(self.spec_approved() == old(self).spec_approved());
                assert(old(self).spec_approved()[i].deep_view()
                    != old(self).spec_approved()[j].deep_view());
            }
        }
    }

    /// The unserved parts of the requested ranges of `path`, under the
    /// session ledger; see [`CodeReadIndex::compute_unserved`].
    pub fn compute_unserved_code_ranges(&self, path: &str, ranges: &Vec<(usize, usize)>)
        -> (r: (Vec<(usize, usize)>, bool))
        requires
            self.wf(),
        ensures
            !self.spec_ledger().has_path(path@) ==> r.0@ == ranges@ && !r.1,
            self.spec_ledger().has_path(path@) ==> {
                &&& r.0@ == crate::ledger::unserved_concat(
                    self.spec_ledger().intervals_of(path@), ranges@)
                &&& forall|i: int| 0 <= i < r.0@.len()
                    ==> 1 <= (#[trigger] r.0@[i]).0 <= r.0@[i].1
                &&& forall|x: int| intervals_cover(r.0@, x) <==> exists|j: int|
                    0 <= j < ranges@.len()
                    && !range_invalid((#[trigger] ranges@[j]).0, ranges@[j].1)
                    && ranges@[j].0 <= x <= ranges@[j].1
                    && !self.spec_ledger().serves(path@, x)
                &&& r.1 <==> exists|j: int| 0 <= j < ranges@.len()
                    && !range_invalid((#[trigger] ranges@[j]).0, ranges@[j].1)
                    && exists|x: int| ranges@[j].0 <= x <= ranges@[j].1
                        && self.spec_ledger().serves(path@, x)
            },
    {
        self.code_read_index.compute_unserved(path, ranges)
    }

    /// Marks the requested ranges of `path` as served in the session
    /// ledger; see [`CodeReadIndex::record_served`].
    pub fn record_served_code_ranges(&mut self, path: &str, ranges: &Vec<(usize, usize)>)
        requires
            old(self).wf(),
        ensures
            final(self).wf(),
            final(self).spec_approved() == old(self).spec_approved(),
            final(self).spec_token_info() == old(self).spec_token_info(),
            final(self).spec_rate_limits() == old(self).spec_rate_limits(),
            final(self).spec_breaker() == old(self).spec_breaker(),
            ranges@.len() == 0 ==> final(self).spec_ledger().entries_seq()
                == old(self).spec_ledger().entries_seq(),
            ranges@.len() > 0 ==> {
                &&& forall|x: int| final(self).spec_ledger().serves(path@, x)
                    <==> (old(self).spec_ledger().serves(path@, x)
                        || exists|j: int| 0 <= j < ranges@.len()
                            && !range_invalid((#[trigger] ranges@[j]).0, ranges@[j].1)
                            && ranges@[j].0 <= x <= ranges@[j].1)
                &&& forall|p: Seq<char>|
                    #![trigger final(self).spec_ledger().has_path(p)]
                    #![trigger old(self).spec_ledger().has_path(p)]
                    p != path@ ==> (final(self).spec_ledger().has_path(p)
                        == old(self).spec_ledger().has_path(p)
                        && forall|x: int| #[trigger] final(self).spec_ledger().serves(p, x)
                            == old(self).spec_ledger().serves(p, x))
            },
    {
        self.code_read_index.record_served(path, ranges);
        proof {
            assert(self.spec_breaker().wf());
            assert(self.spec_ledger().wf());
        }

        proof {
            assert forall|i: int, j: int| 0 <= i < j < self.spec_approved().len()
                implies (#[trigger] self.spec_approved()[i]).deep_view()
                    != (#[trigger] self.spec_approved()[j]).deep_view() by {
                assert(self.spec_approved() == old(self).spec_approved());
                assert(old(self).spec_approved()[i].deep_view()
                    != old(self).spec_approved()[j].deep_view());
            }
        }

    }
}

/// Whether a command list holds a command with this view.
pub open spec fn approved_has(s: Seq<Vec<String>>, cmd: Seq<Seq<char>>) -> bool {
    exists|i: int| 0 <= i < s.len() && (#[trigger] s[i]).deep_view() == cmd
}

/// Pushing a command not yet listed keeps the list duplicate-free, lists
/// the command, and changes nothing else.
proof fn lemma_approved_push(f: Seq<Vec<String>>, o: Seq<Vec<String>>, dv: Seq<Seq<char>>)
    requires
        forall|a: int, b: int| 0 <= a < b < o.len()
            ==> (#[trigger] o[a]).deep_view() != (#[trigger] o[b]).deep_view(),
        forall|a: int| 0 <= a < o.len() ==> (#[trigger] o[a]).deep_view() != dv,
        f == o.push(f[o.len() as int]),
        f[o.len() as int].deep_view() == dv,
    ensures
        forall|a: int, b: int| 0 <= a < b < f.len()
            ==> (#[trigger] f[a]).deep_view() != (#[trigger] f[b]).deep_view(),
        approved_has(f, dv),
        forall|c: Seq<Seq<char>>|
            #![trigger approved_has(f, c)]
            #![trigger approved_has(o, c)]
            c != dv ==> approved_has(f, c) == approved_has(o, c),
{
    let last = o.len() as int;
    assert(approved_has(f, dv));
    assert forall|a: int, b: int| 0 <= a < b < f.len()
        implies (#[trigger] f[a]).deep_view() != (#[trigger] f[b]).deep_view() by {
        if b < last {
            assert(f[a] == o[a] && f[b] == o[b]);
        } else {
            assert(f[a] == o[a]);
        }
    }
    assert forall|c: Seq<Seq<char>>| c != dv
        implies #[trigger] approved_has(f, c) == approved_has(o, c) by {
        if approved_has(o, c) {
            let k = choose|k: int| 0 <= k < o.len() && (#[trigger] o[k]).deep_view() == c;
            assert(f[k] == o[k]);
            assert(approved_has(f, c));
        }
        if approved_has(f, c) {
            let k = choose|k: int| 0 <= k < f.len() && (#[trigger] f[k]).deep_view() == c;
            assert(k != last);
            assert(f[k] == o[k]);
            assert(approved_has(o, c));
        }
    }
}

} // verus!

//! Repeat-command circuit breaker.
//!
//! The breaker watches the commands an agent runs.  When the same command
//! produces the same output (by 64-bit fingerprint) several times inside a
//! sliding window, `check` reports a block so the caller can refuse to run
//! the command yet again.  An entry expires once its last sighting falls
//! out of the window, and a change of output resets the count to one.

use vstd::prelude::*;
use vstd::string::StringSliceAdditionalSpecFns;
use vstd::string::StringExecFns;
use vstd::string::StrSliceExecFns;
use crate::text::lemma_encode_utf8_concat;
use crate::text::lemma_encode_utf8_len_bound;

verus! {

/// How many identical runs are tolerated: the breaker blocks starting with
/// the run after `max_repeats - 1` identical recordings.
pub const DEFAULT_REPEAT_COMMAND_REPEATS: usize = 3;

/// The sliding window, in milliseconds.
pub const DEFAULT_REPEAT_COMMAND_WINDOW_MS: u64 = 120 * 1000;

/// Byte bound on the stored output excerpt.
pub const REPEAT_COMMAND_OUTPUT_PREVIEW_BYTES: usize = 256;

/// The offset basis of the 64-bit FNV-1a hash.
pub const FNV64_OFFSET_BASIS: u64 = 0xcbf2_9ce4_8422_2325;

/// The prime of the 64-bit FNV-1a hash.
pub const FNV64_PRIME: u64 = 0x0000_0100_0000_01b3;

/// The 64-bit FNV-1a hash of a byte sequence: a stable fingerprint, the
/// same in every process for the same bytes.
pub open spec fn fnv1a_spec(bytes: Seq<u8>) -> u64
    decreases bytes.len(),
{
    if bytes.len() == 0 {
        FNV64_OFFSET_BASIS
    } else {
        vstd::wrapping::u64_specs::wrapping_mul(
            fnv1a_spec(bytes.drop_last()) ^ (bytes.last() as u64),
            FNV64_PRIME,
        )
    }
}

/// The 64-bit fingerprint of a command's output.
pub fn fingerprint_output(output: &str) -> (r: u64)
    ensures
        r == fnv1a_spec(output.spec_bytes()),
{
    let bytes = output.as_bytes();
    let mut hash: u64 = FNV64_OFFSET_BASIS;
    let mut i: usize = 0;
    while i < bytes.len()
        invariant
            i <= bytes.len(),
            bytes@ == output.spec_bytes(),
            hash == fnv1a_spec(bytes@.subrange(0, i as int)),
        decreases bytes.len() - i,
    {
        proof {
            assert(bytes@.subrange(0, i + 1).drop_last() =~= bytes@.subrange(0, i as int));
            assert(bytes@.subrange(0, i + 1).last() == bytes@[i as int]);
        }
        hash = (hash ^ (bytes[i] as u64)).wrapping_mul(FNV64_PRIME);
        i = i + 1;
    }
    proof {
        assert(bytes@.subrange(0, bytes@.len() as int) =~= bytes@);
    }
    hash
}

/// Milliseconds elapsed from `last` to `now`, zero when time went backwards.
pub open spec fn elapsed_ms(now: u64, last: u64) -> int {
    if now >= last {
        now - last
    } else {
        0
    }
}

/// A byte of ASCII whitespace: space, tab, line feed or carriage return.
pub open spec fn is_ws_byte(b: u8) -> bool {
    b == 32 || b == 9 || b == 10 || b == 13
}

/// Every byte is ASCII whitespace.
pub open spec fn all_ws_bytes(bytes: Seq<u8>) -> bool {
    forall|i: int| 0 <= i < bytes.len() ==> is_ws_byte(#[trigger] bytes[i])
}

/// What `output_preview` promises of its result `p` for an output whose
/// UTF-8 bytes are `bytes`: no preview exactly of all-whitespace output; a
/// preview is nonempty, bounded by
/// [`REPEAT_COMMAND_OUTPUT_PREVIEW_BYTES`], and drawn from the output with
/// only whitespace trimmed at the ends — either one contiguous slice, or a
/// head and a tail of one slice around a `...` marker; and an output that
/// is already trimmed and fits comes back verbatim.
pub open spec fn preview_matches(bytes: Seq<u8>, p: Option<Seq<char>>) -> bool {
    &&& (p is None <==> all_ws_bytes(bytes))
    &&& (p matches Some(t) ==> t.len() > 0 && vstd::utf8::encode_utf8(t).len()
        <= REPEAT_COMMAND_OUTPUT_PREVIEW_BYTES)
    &&& (p matches Some(t) ==> exists|a: int, b: int|
        #![trigger bytes.subrange(a, b)]
        0 <= a <= b <= bytes.len()
        && (forall|k: int| 0 <= k < a ==> is_ws_byte(#[trigger] bytes[k]))
        && (forall|k: int| b <= k < bytes.len() ==> is_ws_byte(#[trigger] bytes[k]))
        && (vstd::utf8::encode_utf8(t) == bytes.subrange(a, b)
            || exists|a2: int, b2: int| a <= a2 && a2 <= b2 && b2 <= b
                && vstd::utf8::encode_utf8(t) == bytes.subrange(a, a2)
                    + seq![46u8, 46u8, 46u8] + bytes.subrange(b2, b)))
    &&& (bytes.len() > 0 && !is_ws_byte(bytes[0]) && !is_ws_byte(bytes[bytes.len() - 1])
        && bytes.len() <= REPEAT_COMMAND_OUTPUT_PREVIEW_BYTES
        ==> p == Some(vstd::utf8::decode_utf8(bytes)))
}

/// A middle-truncated preview of the trimmed output, bounded by
/// [`REPEAT_COMMAND_OUTPUT_PREVIEW_BYTES`] bytes; `None` when the output is
/// all whitespace.  Trimming removes ASCII whitespace at both ends; when
/// the trimmed text does not fit, its head and tail are kept around a
/// `...` marker, cut at character boundaries.
#[verifier::rlimit(100)]
pub fn output_preview(output: &str) -> (r: Option<String>)
    ensures
        preview_matches(output.spec_bytes(), r.deep_view()),
{
    proof {
        broadcast use vstd::utf8::encode_utf8_valid_utf8;
        broadcast use vstd::utf8::encode_utf8_decode_utf8;
        broadcast use vstd::utf8::is_char_boundary_start_end_of_seq;

    }
    let bytes = output.as_bytes();
    let n = bytes.len();
    let mut i: usize = 0;
    while i < n && is_ws(bytes[i])
        invariant
            n == bytes.len(),
            i <= n,
            forall|k: int| 0 <= k < i ==> is_ws_byte(#[trigger] bytes@[k]),
        decreases n - i,
    {
        i = i + 1;
    }
    if i == n {
        return None;
    }
    let mut j: usize = n;
    while j > i + 1 && is_ws(bytes[j - 1])
        invariant
            n == bytes.len(),
            i < j <= n,
            forall|k: int| j <= k < n ==> is_ws_byte(#[trigger] bytes@[k]),
        decreases j,
    {
        j = j - 1;
    }
    proof {
        assert(!all_ws_bytes(bytes@)) by {
            assert(!is_ws_byte(bytes@[i as int]));
        }
    }
    if i == 0 && j == n && n <= REPEAT_COMMAND_OUTPUT_PREVIEW_BYTES {
        let r = output.to_owned();
        proof {
            assert(vstd::utf8::encode_utf8(r@) == output.spec_bytes());
            if r@.len() == 0 {
                assert(output.spec_bytes() =~= Seq::<u8>::empty());
            }
            assert(vstd::utf8::encode_utf8(r@)
                == output.spec_bytes().subrange(0, n as int)) by {
                assert(output.spec_bytes().subrange(0, n as int)
                    =~= output.spec_bytes());
            }
        }
        return Some(r);
    }

    // Move the cut points to character boundaries; the loops only run on
    // multi-byte characters and stop at the ends, which are boundaries.
    let mut lo = i;
    while lo > 0 && !output.is_char_boundary(lo)
        invariant
            lo <= i <= n,
            n == output.spec_bytes().len(),
        decreases lo,
    {
        lo = lo - 1;
    }
    let (_, rest) = output.split_at(lo);
    let rn = rest.len();
    let mut m: usize = j - lo;
    while m < rn && !rest.is_char_boundary(m)
        invariant
            rn == rest.spec_bytes().len(),
            1 <= m <= rn,
            j - lo <= m,
        decreases rn - m,
    {
        m = m + 1;
    }
    let (trimmed, _) = rest.split_at(m);
    proof {
        // The trimmed slice sits at `[lo, lo + m)` of the output, with only
        // whitespace on either side.
        assert(trimmed.spec_bytes()
            =~= output.spec_bytes().subrange(lo as int, lo + m)) by {
            assert(rest.spec_bytes()
                =~= output.spec_bytes().subrange(lo as int, n as int));
        }
        assert forall|k: int| lo + m <= k < n
            implies is_ws_byte(#[trigger] output.spec_bytes()[k]) by {
            assert(j <= lo + m);
        }
    }
    if trimmed.len() <= REPEAT_COMMAND_OUTPUT_PREVIEW_BYTES {
        let r = trimmed.to_owned();
        proof {
            assert(vstd::utf8::encode_utf8(r@) == trimmed.spec_bytes());
            assert(trimmed.spec_bytes().len() >= 1);
            if r@.len() == 0 {
                assert(trimmed.spec_bytes() =~= Seq::<u8>::empty());
            }
        }
        return Some(r);
    }

    // The trimmed text does not fit: keep its head and tail around `...`,
    // with slack left for the marker and the boundary cuts.
    let left_budget: usize = 120;
    let right_budget: usize = 120;
    let mut le: usize = left_budget;
    while le > 0 && !trimmed.is_char_boundary(le)
        invariant
            le <= left_budget,
        decreases le,
    {
        le = le - 1;
    }
    let tn = trimmed.len();
    let mut rs: usize = tn - right_budget;
    while rs < tn && !trimmed.is_char_boundary(rs)
        invariant
            tn == trimmed.spec_bytes().len(),
            tn - right_budget <= rs <= tn,
        decreases tn - rs,
    {
        rs = rs + 1;
    }
    let (left, _) = trimmed.split_at(le);
    let (_, right) = trimmed.split_at(rs);
    let mut r = left.to_owned();
    r.append("...");
    r.append(right);
    proof {
        lemma_encode_utf8_concat(left@ + "..."@, right@);
        lemma_encode_utf8_concat(left@, "..."@);
        assert((left@ + "..."@) + right@ =~= r@);
        reveal_strlit("...");
        assert("..."@.len() == 3);
        lemma_encode_utf8_len_bound("..."@);
        assert(vstd::utf8::encode_utf8(left@).len() == le);
        assert(vstd::utf8::encode_utf8(right@).len() == tn - rs);
        // The marker encodes to three dots, and the two kept pieces are
        // slices of the output, so the preview is drawn from the output
        // around the marker.
        assert(vstd::utf8::encode_utf8("..."@) =~= seq![46u8, 46u8, 46u8]) by {
            reveal_with_fuel(vstd::utf8::encode_utf8, 5);
            reveal_strlit("...");
            assert("..."@[0] == '.' && "..."@[1] == '.' && "..."@[2] == '.');
            let s3 = "..."@;
            assert(s3.drop_first() =~= seq!['.', '.']);
            assert(s3.drop_first().drop_first() =~= seq!['.']);
            assert(s3.drop_first().drop_first().drop_first() =~= Seq::<char>::empty());
            assert('.' as u32 == 46);
            assert((46u32 & 0x7F) == 46u32) by (bit_vector);
            assert(vstd::utf8::leading_byte_width_1(46u32) == 46u8);
            assert(vstd::utf8::has_width_1_encoding(46u32));
            assert(vstd::utf8::encode_scalar('.' as u32) =~= seq![46u8]);
        }
        let ob = output.spec_bytes();
        assert(left.spec_bytes() =~= ob.subrange(lo as int, lo + le)) by {
            assert(left.spec_bytes() =~= trimmed.spec_bytes().subrange(0, le as int));
        }
        assert(right.spec_bytes() =~= ob.subrange(lo + rs, lo + tn)) by {
            assert(right.spec_bytes()
                =~= trimmed.spec_bytes().subrange(rs as int, tn as int));
        }
        assert(vstd::utf8::encode_utf8(r@)
            == ob.subrange(lo as int, lo + le) + seq![46u8, 46u8, 46u8]
                + ob.subrange(lo + rs, lo + tn)) by {
            assert(vstd::utf8::encode_utf8(r@)
                =~= left.spec_bytes() + vstd::utf8::encode_utf8("..."@)
                    + right.spec_bytes());
        }
        assert(0 <= lo as int <= lo + tn <= ob.len());
    }
    Some(r)
}

/// One byte of ASCII whitespace.
fn is_ws(b: u8) -> (r: bool)
    ensures
        r == is_ws_byte(b),
{
    b == 32 || b == 9 || b == 10 || b == 13
}

/// The decision returned when the breaker blocks a command.
#[derive(Clone, Debug)]
pub struct RepeatCommandBlock {
    pub repeat_count: usize,
    pub window_ms: u64,
    pub last_excerpt: Option<String>,
}

/// Breaker configuration.
#[derive(Clone, Copy, Debug)]
pub struct RepeatCommandConfig {
    pub max_repeats: usize,
    pub window_ms: u64,
}

impl Default for RepeatCommandConfig {
    /// Three tolerated repeats inside a two-minute window.
    fn default() -> (r: RepeatCommandConfig)
        ensures
            r.max_repeats == DEFAULT_REPEAT_COMMAND_REPEATS,
            r.window_ms == DEFAULT_REPEAT_COMMAND_WINDOW_MS,
    {
        RepeatCommandConfig {
            max_repeats: DEFAULT_REPEAT_COMMAND_REPEATS,
            window_ms: DEFAULT_REPEAT_COMMAND_WINDOW_MS,
        }
    }
}

/// One tracked command.
pub struct RepeatCommandEntry {
    pub last_fingerprint: u64,
    pub repeat_count: usize,
    pub last_seen_ms: u64,
    pub last_excerpt: Option<String>,
}

/// The ghost image of one tracked command.
pub ghost struct BreakerEntryModel {
    pub fingerprint: u64,
    pub repeat_count: usize,
    pub last_seen_ms: u64,
    pub excerpt: Option<Seq<char>>,
}

/// The ghost image of a stored entry.
pub open spec fn entry_model(e: RepeatCommandEntry) -> BreakerEntryModel {
    BreakerEntryModel {
        fingerprint: e.last_fingerprint,
        repeat_count: e.repeat_count,
        last_seen_ms: e.last_seen_ms,
        excerpt: e.last_excerpt.deep_view(),
    }
}

/// The count an entry holds after one more recording: one on a fresh, an
/// expired or a changed-output recording, otherwise one more, capped at
/// `max_repeats`.
pub open spec fn next_repeat_count(
    old_entry: Option<BreakerEntryModel>,
    fp: u64,
    now_ms: u64,
    config: RepeatCommandConfig,
) -> usize {
    match old_entry {
        Option::None => 1,
        Option::Some(e) => {
            if elapsed_ms(now_ms, e.last_seen_ms) > config.window_ms || e.fingerprint != fp {
                1
            } else if e.repeat_count + 1 < config.max_repeats {
                (e.repeat_count + 1) as usize
            } else {
                config.max_repeats
            }
        },
    }
}

/// Whether an entry list holds a key.
pub open spec fn has_key(s: Seq<(Vec<String>, RepeatCommandEntry)>, cmd: Seq<Seq<char>>) -> bool {
    exists|i: int| 0 <= i < s.len() && (#[trigger] s[i]).0.deep_view() == cmd
}

/// The index at which an entry list holds a key.
pub open spec fn key_index(s: Seq<(Vec<String>, RepeatCommandEntry)>, cmd: Seq<Seq<char>>) -> int {
    choose|i: int| 0 <= i < s.len() && (#[trigger] s[i]).0.deep_view() == cmd
}

/// Per-command sliding-window detector of repeated identical output.
pub struct RepeatCommandBreaker {
    entries: Vec<(Vec<String>, RepeatCommandEntry)>,
    config: RepeatCommandConfig,
}

impl Default for RepeatCommandBreaker {
    /// An empty breaker with the default configuration.
    fn default() -> (r: RepeatCommandBreaker)
        ensures
            r.wf(),
            r.entries_seq().len() == 0,
            r.spec_config() == (RepeatCommandConfig {
                max_repeats: DEFAULT_REPEAT_COMMAND_REPEATS,
                window_ms: DEFAULT_REPEAT_COMMAND_WINDOW_MS,
            }),
    {
        RepeatCommandBreaker { entries: Vec::new(), config: RepeatCommandConfig::default() }
    }
}

impl RepeatCommandBreaker {
    /// The stored entries.
    pub closed spec fn entries_seq(&self) -> Seq<(Vec<String>, RepeatCommandEntry)> {
        self.entries@
    }

    /// The configuration.
    pub closed spec fn spec_config(&self) -> RepeatCommandConfig {
        self.config
    }

    /// At most one entry per command, and no count beyond the allowance.
    pub open spec fn wf(&self) -> bool {
        &&& forall|i: int, j: int| 0 <= i < j < self.entries_seq().len()
            ==> (#[trigger] self.entries_seq()[i]).0.deep_view()
                != (#[trigger] self.entries_seq()[j]).0.deep_view()
        &&& forall|i: int| 0 <= i < self.entries_seq().len()
            ==> (#[trigger] self.entries_seq()[i]).1.repeat_count
                <= self.spec_config().max_repeats
    }

    /// Whether a command is tracked.
    pub open spec fn has_entry(&self, cmd: Seq<Seq<char>>) -> bool {
        has_key(self.entries_seq(), cmd)
    }

    /// The index of a tracked command's entry.
    pub open spec fn entry_index_of(&self, cmd: Seq<Seq<char>>) -> int {
        key_index(self.entries_seq(), cmd)
    }

    /// The ghost image of a tracked command's entry.
    pub open spec fn entry_of(&self, cmd: Seq<Seq<char>>) -> BreakerEntryModel {
        entry_model(self.entries_seq()[self.entry_index_of(cmd)].1)
    }

    /// Whether the breaker does anything at all.
    pub open spec fn spec_enabled(&self) -> bool {
        self.spec_config().max_repeats > 1
    }

    /// The breaker is disabled when a single repeat already exhausts the
    /// allowance.
    pub fn is_enabled(&self) -> (r: bool)
        ensures
            r == self.spec_enabled(),
    {
        self.config.max_repeats > 1
    }

    /// Whether running `command` once more should be blocked: it is when
    /// the command is tracked, its last sighting lies inside the window,
    /// and its repeat count has reached `max_repeats - 1`.  An entry whose
    /// last sighting fell out of the window is dropped.
    pub fn check(&mut self, command: &Vec<String>, now_ms: u64) -> (r: Option<RepeatCommandBlock>)
        requires
            old(self).wf(),
        ensures
            final(self).wf(),
            final(self).spec_config() == old(self).spec_config(),
            ({
                let cmd = command.deep_view();
                let cfg = old(self).spec_config();
                &&& (!old(self).spec_enabled() || cmd.len() == 0) ==> (r is None
                    && final(self).entries_seq() == old(self).entries_seq())
                &&& (old(self).spec_enabled() && cmd.len() > 0 && !old(self).has_entry(cmd))
                    ==> (r is None && final(self).entries_seq() == old(self).entries_seq())
                &&& (old(self).spec_enabled() && cmd.len() > 0 && old(self).has_entry(cmd)
                    && elapsed_ms(now_ms, old(self).entry_of(cmd).last_seen_ms)
                        > cfg.window_ms) ==> (r is None
                    && final(self).entries_seq()
                        == old(self).entries_seq().remove(old(self).entry_index_of(cmd)))
                &&& (old(self).spec_enabled() && cmd.len() > 0 && old(self).has_entry(cmd)
                    && elapsed_ms(now_ms, old(self).entry_of(cmd).last_seen_ms)
                        <= cfg.window_ms) ==> {
                    &&& final(self).entries_seq() == old(self).entries_seq()
                    &&& (r is Some <==> old(self).entry_of(cmd).repeat_count
                        >= cfg.max_repeats - 1)
                    &&& (r matches Some(b) ==> b.repeat_count
                        == old(self).entry_of(cmd).repeat_count
                        && b.window_ms == cfg.window_ms
                        && b.last_excerpt.deep_view() == old(self).entry_of(cmd).excerpt)
                }
            }),
    {
        if !self.is_enabled() || command.len() == 0 {
            proof {
                assert(command.deep_view().len() == command@.len());
            }
            return None;
        }
        match self.find_entry(command) {
            Option::None => None,
            Option::Some(i) => {
                proof {
                    self.lemma_entry_index_agrees(command.deep_view(), i as int);
                }
                let last_seen = self.entries[i].1.last_seen_ms;
                let elapsed = if now_ms >= last_seen { now_ms - last_seen } else { 0 };
                if elapsed > self.config.window_ms {
                    let ghost o = self.entries_seq();
                    self.entries.remove(i);
                    proof {
                        assert forall|a: int, b: int|
                            0 <= a < b < self.entries_seq().len()
                            implies (#[trigger] self.entries_seq()[a]).0.deep_view()
                                != (#[trigger] self.entries_seq()[b]).0.deep_view() by {
                            let a0 = if a < i { a } else { a + 1 };
                            let b0 = if b < i { b } else { b + 1 };
                            assert(self.entries_seq()[a] == o[a0]);
                            assert(self.entries_seq()[b] == o[b0]);
                        }
                        assert forall|a: int| 0 <= a < self.entries_seq().len()
                            implies (#[trigger] self.entries_seq()[a]).1.repeat_count
                                <= self.spec_config().max_repeats by {
                            let a0 = if a < i { a } else { a + 1 };
                            assert(self.entries_seq()[a] == o[a0]);
                        }
                    }
                    None
                } else {
                    let threshold = self.config.max_repeats - 1;
                    let pair = &self.entries[i];
                    if pair.1.repeat_count >= threshold {
                        Some(RepeatCommandBlock {
                            repeat_count: pair.1.repeat_count,
                            window_ms: self.config.window_ms,
                            last_excerpt: match &pair.1.last_excerpt {
                                Option::Some(s) => Some(s.clone()),
                                Option::None => None,
                            },
                        })
                    } else {
                        None
                    }
                }
            },
        }
    }

    /// Records one more run of `command` that produced `output`.  A fresh,
    /// an expired or a changed-output recording starts the count at one;
    /// a repeat inside the window raises it, capped at `max_repeats`.  The
    /// stored excerpt becomes a preview of this output.
    #[verifier::rlimit(100)]
    pub fn record(&mut self, command: &Vec<String>, output: &str, now_ms: u64)
        requires
            old(self).wf(),
        ensures
            final(self).wf(),
            final(self).spec_config() == old(self).spec_config(),
            ({
                let cmd = command.deep_view();
                let cfg = old(self).spec_config();
                let fp = fnv1a_spec(output.spec_bytes());
                &&& (!old(self).spec_enabled() || cmd.len() == 0)
                    ==> final(self).entries_seq() == old(self).entries_seq()
                &&& (old(self).spec_enabled() && cmd.len() > 0) ==> {
                    let prev = if old(self).has_entry(cmd) {
                        Some(old(self).entry_of(cmd))
                    } else {
                        None::<BreakerEntryModel>
                    };
                    &&& final(self).has_entry(cmd)
                    &&& final(self).entry_of(cmd).fingerprint == fp
                    &&& final(self).entry_of(cmd).last_seen_ms == now_ms
                    &&& final(self).entry_of(cmd).repeat_count
                        == next_repeat_count(prev, fp, now_ms, cfg)
                    &&& preview_matches(output.spec_bytes(), final(self).entry_of(cmd).excerpt)
                    &&& forall|c: Seq<Seq<char>>|
                        #![trigger final(self).has_entry(c)]
                        #![trigger old(self).has_entry(c)]
                        c != cmd ==> (final(self).has_entry(c) == old(self).has_entry(c)
                            && (old(self).has_entry(c)
                                ==> final(self).entry_of(c) == old(self).entry_of(c)))
                }
            }),
    {
        if !self.is_enabled() || command.len() == 0 {
            proof {
                assert(command.deep_view().len() == command@.len());
            }
            return;
        }
        let fp = fingerprint_output(output);
        let excerpt = output_preview(output);
        match self.find_entry(command) {
            Option::Some(i) => {
                self.record_existing(i, fp, excerpt, now_ms);
            },
            Option::None => {
                self.record_fresh(command, fp, excerpt, now_ms);
            },
        }
    }

    /// Replaces the tracked entry at `i` after one more recording.
    #[verifier::rlimit(100)]
    fn record_existing(&mut self, i: usize, fp: u64, excerpt: Option<String>, now_ms: u64)
        requires
            old(self).wf(),
            old(self).spec_enabled(),
            i < old(self).entries_seq().len(),
        ensures
            final(self).wf(),
            final(self).spec_config() == old(self).spec_config(),
            ({
                let cmd = old(self).entries_seq()[i as int].0.deep_view();
                let prev = entry_model(old(self).entries_seq()[i as int].1);
                &&& final(self).has_entry(cmd)
                &&& final(self).entry_of(cmd) == (BreakerEntryModel {
                    fingerprint: fp,
                    repeat_count: next_repeat_count(
                        Some(prev), fp, now_ms, old(self).spec_config()),
                    last_seen_ms: now_ms,
                    excerpt: excerpt.deep_view(),
                })
                &&& forall|c: Seq<Seq<char>>|
                    #![trigger final(self).has_entry(c)]
                    #![trigger old(self).has_entry(c)]
                    c != cmd ==> (final(self).has_entry(c) == old(self).has_entry(c)
                        && (old(self).has_entry(c)
                            ==> final(self).entry_of(c) == old(self).entry_of(c)))
            }),
    {
        let ghost o = self.entries_seq();
        let ghost cmd = self.entries_seq()[i as int].0.deep_view();
        let ghost ex = excerpt.deep_view();
        let (key, old_entry) = self.entries.remove(i);
        let last_seen = old_entry.last_seen_ms;
        let elapsed = if now_ms >= last_seen { now_ms - last_seen } else { 0 };
        let repeat_count: usize = if elapsed > self.config.window_ms
            || old_entry.last_fingerprint != fp {
            1
        } else if old_entry.repeat_count < self.config.max_repeats {
            old_entry.repeat_count + 1
        } else {
            self.config.max_repeats
        };
        let entry = RepeatCommandEntry {
            last_fingerprint: fp,
            repeat_count,
            last_seen_ms: now_ms,
            last_excerpt: excerpt,
        };
        self.entries.push((key, entry));
        proof {
            self.lemma_after_replace(o, i as int, cmd);
            let prev = entry_model(o[i as int].1);
            assert(prev.repeat_count <= self.spec_config().max_repeats);
            assert(repeat_count == next_repeat_count(Some(prev), fp, now_ms,
                self.spec_config()));
            assert(self.entry_of(cmd) == (BreakerEntryModel {
                fingerprint: fp,
                repeat_count: repeat_count,
                last_seen_ms: now_ms,
                excerpt: ex,
            }));
            assert forall|c: Seq<Seq<char>>|
                #![trigger self.has_entry(c)]
                #![trigger has_key(o, c)]
                c != cmd implies (self.has_entry(c) == has_key(o, c)
                    && (has_key(o, c) ==> self.entry_of(c) == entry_model(
                        o[key_index(o, c)].1,
                    ))) by {}
        }
    }

    /// Pushes an entry for a command not tracked so far.
    fn record_fresh(&mut self, command: &Vec<String>, fp: u64, excerpt: Option<String>,
        now_ms: u64)
        requires
            old(self).wf(),
            old(self).spec_enabled(),
            !old(self).has_entry(command.deep_view()),
        ensures
            final(self).wf(),
            final(self).spec_config() == old(self).spec_config(),
            ({
                let cmd = command.deep_view();
                &&& final(self).has_entry(cmd)
                &&& final(self).entry_of(cmd) == (BreakerEntryModel {
                    fingerprint: fp,
                    repeat_count: 1,
                    last_seen_ms: now_ms,
                    excerpt: excerpt.deep_view(),
                })
                &&& forall|c: Seq<Seq<char>>|
                    #![trigger final(self).has_entry(c)]
                    #![trigger old(self).has_entry(c)]
                    c != cmd ==> (final(self).has_entry(c) == old(self).has_entry(c)
                        && (old(self).has_entry(c)
                            ==> final(self).entry_of(c) == old(self).entry_of(c)))
            }),
    {
        let ghost o = self.entries_seq();
        let ghost cmd = command.deep_view();
        let entry = RepeatCommandEntry {
            last_fingerprint: fp,
            repeat_count: 1,
            last_seen_ms: now_ms,
            last_excerpt: excerpt,
        };
        self.entries.push((command.clone(), entry));
        proof {
            assert(self.entries_seq()[o.len() as int].0.deep_view() =~~= cmd);
            self.lemma_after_push(o, cmd);
        }
    }

    /// The chosen index of a present key is the index where it was found.
    proof fn lemma_entry_index_agrees(&self, cmd: Seq<Seq<char>>, i: int)
        requires
            self.wf(),
            0 <= i < self.entries_seq().len(),
            self.entries_seq()[i].0.deep_view() == cmd,
        ensures
            self.has_entry(cmd),
            self.entry_index_of(cmd) == i,
            self.entry_of(cmd) == entry_model(self.entries_seq()[i].1),
    {
        assert(self.has_entry(cmd));
        let k = self.entry_index_of(cmd);
        assert(0 <= k < self.entries_seq().len() && self.entries_seq()[k].0.deep_view() == cmd);
        if k < i {
            assert(self.entries_seq()[k].0.deep_view() != self.entries_seq()[i].0.deep_view());
        }
        if i < k {
            assert(self.entries_seq()[i].0.deep_view() != self.entries_seq()[k].0.deep_view());
        }
    }

    /// After removing the entry at `i` (the one for `cmd`) and pushing a
    /// fresh entry under the same key, the breaker is well formed, `cmd`
    /// maps to the pushed entry, and every other key is untouched.
    proof fn lemma_after_replace(
        &self,
        o: Seq<(Vec<String>, RepeatCommandEntry)>,
        i: int,
        cmd: Seq<Seq<char>>,
    )
        requires
            0 <= i < o.len(),
            o[i].0.deep_view() == cmd,
            forall|a: int, b: int| 0 <= a < b < o.len()
                ==> (#[trigger] o[a]).0.deep_view() != (#[trigger] o[b]).0.deep_view(),
            forall|a: int| 0 <= a < o.len()
                ==> (#[trigger] o[a]).1.repeat_count <= self.spec_config().max_repeats,
            self.entries_seq().len() == o.len(),
            self.entries_seq() == o.remove(i).push(
                self.entries_seq()[o.len() - 1],
            ),
            self.entries_seq()[o.len() - 1].0.deep_view() == cmd,
            self.entries_seq()[o.len() - 1].1.repeat_count <= self.spec_config().max_repeats,
        ensures
            self.wf(),
            self.has_entry(cmd),
            self.entry_of(cmd) == entry_model(self.entries_seq()[o.len() - 1].1),
            forall|c: Seq<Seq<char>>|
                #![trigger self.has_entry(c)]
                c != cmd ==> (self.has_entry(c) == has_key(o, c)
                    && (has_key(o, c) ==> self.entry_of(c) == entry_model(
                        o[key_index(o, c)].1,
                    ))),
    {
        let f = self.entries_seq();
        let last = o.len() - 1;
        // Index map: positions before `i` are unchanged, positions from `i`
        // up to the end shifted down by one, and the new entry sits last.
        assert forall|a: int| 0 <= a < last implies f[a] == o[
            if a < i { a } else { a + 1 }
        ] by {
            assert(f[a] == o.remove(i)[a]);
        }
        assert forall|a: int, b: int| 0 <= a < b < f.len()
            implies (#[trigger] f[a]).0.deep_view() != (#[trigger] f[b]).0.deep_view() by {
            let a0 = if a < i { a } else { a + 1 };
            if b < last {
                let b0 = if b < i { b } else { b + 1 };
                assert(f[a] == o[a0] && f[b] == o[b0]);
            } else {
                assert(f[a] == o[a0]);
                if a0 < i {
                    assert(o[a0].0.deep_view() != o[i].0.deep_view());
                } else {
                    assert(o[i].0.deep_view() != o[a0].0.deep_view());
                }
            }
        }
        assert forall|a: int| 0 <= a < f.len()
            implies (#[trigger] f[a]).1.repeat_count <= self.spec_config().max_repeats by {
            if a < last {
                assert(f[a] == o[if a < i { a } else { a + 1 }]);
            }
        }
        self.lemma_entry_index_agrees(cmd, last);
        assert forall|c: Seq<Seq<char>>| #![trigger self.has_entry(c)] c != cmd
            implies (self.has_entry(c) == has_key(o, c)
                && (has_key(o, c) ==> self.entry_of(c) == entry_model(
                    o[key_index(o, c)].1,
                ))) by {
            if has_key(o, c) {
                let j = key_index(o, c);
                assert(0 <= j < o.len() && o[j].0.deep_view() == c);
                assert(j != i);
                let jj = if j < i { j } else { j - 1 };
                assert(f[jj] == o[j]);
                self.lemma_entry_index_agrees(c, jj);
            }
            if self.has_entry(c) {
                let k = self.entry_index_of(c);
                assert(0 <= k < f.len() && f[k].0.deep_view() == c);
                assert(k != last);
                let k0 = if k < i { k } else { k + 1 };
                assert(f[k] == o[k0]);
                assert(has_key(o, c));
            }
        }
    }

    /// After pushing a fresh entry for a key that was absent, the breaker
    /// is well formed, the key maps to the pushed entry, and every other
    /// key is untouched.
    proof fn lemma_after_push(
        &self,
        o: Seq<(Vec<String>, RepeatCommandEntry)>,
        cmd: Seq<Seq<char>>,
    )
        requires
            forall|a: int, b: int| 0 <= a < b < o.len()
                ==> (#[trigger] o[a]).0.deep_view() != (#[trigger] o[b]).0.deep_view(),
            forall|a: int| 0 <= a < o.len()
                ==> (#[trigger] o[a]).1.repeat_count <= self.spec_config().max_repeats,
            forall|a: int| 0 <= a < o.len() ==> (#[trigger] o[a]).0.deep_view() != cmd,
            self.entries_seq() == o.push(self.entries_seq()[o.len() as int]),
            self.entries_seq()[o.len() as int].0.deep_view() == cmd,
            self.entries_seq()[o.len() as int].1.repeat_count
                <= self.spec_config().max_repeats,
        ensures
            self.wf(),
            self.has_entry(cmd),
            self.entry_of(cmd) == entry_model(self.entries_seq()[o.len() as int].1),
            forall|c: Seq<Seq<char>>|
                #![trigger self.has_entry(c)]
                c != cmd ==> (self.has_entry(c) == has_key(o, c)
                    && (has_key(o, c) ==> self.entry_of(c) == entry_model(
                        o[key_index(o, c)].1,
                    ))),
    {
        let f = self.entries_seq();
        let last = o.len() as int;
        assert forall|a: int, b: int| 0 <= a < b < f.len()
            implies (#[trigger] f[a]).0.deep_view() != (#[trigger] f[b]).0.deep_view() by {
            if b < last {
                assert(f[a] == o[a] && f[b] == o[b]);
            } else {
                assert(f[a] == o[a]);
            }
        }
        assert forall|a: int| 0 <= a < f.len()
            implies (#[trigger] f[a]).1.repeat_count <= self.spec_config().max_repeats by {
            if a < last {
                assert(f[a] == o[a]);
            }
        }
        self.lemma_entry_index_agrees(cmd, last);
        assert forall|c: Seq<Seq<char>>| #![trigger self.has_entry(c)] c != cmd
            implies (self.has_entry(c) == has_key(o, c)
                && (has_key(o, c) ==> self.entry_of(c) == entry_model(
                    o[key_index(o, c)].1,
                ))) by {
            if has_key(o, c) {
                let j = key_index(o, c);
                assert(0 <= j < o.len() && o[j].0.deep_view() == c);
                assert(f[j] == o[j]);
                self.lemma_entry_index_agrees(c, j);
            }
            if self.has_entry(c) {
                let k = self.entry_index_of(c);
                assert(0 <= k < f.len() && f[k].0.deep_view() == c);
                assert(k != last);
                assert(f[k] == o[k]);
                assert(has_key(o, c));
            }
        }
    }

    /// The index of the entry for `command`, if one exists.
    fn find_entry(&self, command: &Vec<String>) -> (r: Option<usize>)
        requires
            self.wf(),
        ensures
            match r {
                Option::Some(i) => i < self.entries_seq().len()
                    && self.entries_seq()[i as int].0.deep_view() == command.deep_view()
                    && self.has_entry(command.deep_view()),
                Option::None => !self.has_entry(command.deep_view()),
            },
    {
        let mut i: usize = 0;
        while i < self.entries.len()
            invariant
                i <= self.entries_seq().len(),
                forall|k: int| 0 <= k < i
                    ==> (#[trigger] self.entries_seq()[k]).0.deep_view() != command.deep_view(),
            decreases self.entries.len() - i,
        {
            if commands_equal(&self.entries[i].0, command) {
                return Some(i);
            }
            i = i + 1;
        }
        None
    }
}

/// Recording the same command with the same output fingerprint over and
/// over, each sighting within the window of the one before, leaves the
/// stored repeat count after the `k`-th recording (counting from zero) at
/// `k + 1`, capped at `max_repeats`.  A `check` inside the window therefore
/// blocks exactly once the number of recordings reaches `max_repeats - 1`.
#[verifier::rlimit(100)]
pub proof fn lemma_identical_records_count(
    counts: Seq<usize>,
    times: Seq<u64>,
    excerpts: Seq<Option<Seq<char>>>,
    fp: u64,
    config: RepeatCommandConfig,
    k: int,
)
    requires
        config.max_repeats > 1,
        counts.len() == times.len(),
        counts.len() == excerpts.len(),
        0 <= k < counts.len(),
        counts[0] == next_repeat_count(None::<BreakerEntryModel>, fp, times[0], config),
        forall|j: int| 1 <= j < counts.len()
            ==> elapsed_ms(times[j], #[trigger] times[j - 1]) <= config.window_ms,
        forall|j: int| 1 <= j < counts.len() ==> #[trigger] counts[j] == next_repeat_count(
            Some(BreakerEntryModel {
                fingerprint: fp,
                repeat_count: counts[j - 1],
                last_seen_ms: times[j - 1],
                excerpt: excerpts[j - 1],
            }),
            fp,
            times[j],
            config,
        ),
    ensures
        counts[k] == (if k + 1 < config.max_repeats {
            (k + 1) as usize
        } else {
            config.max_repeats
        }),
        (counts[k] >= config.max_repeats - 1) <==> (k + 1 >= config.max_repeats - 1),
    decreases k,
{
    if k > 0 {
        lemma_identical_records_count(counts, times, excerpts, fp, config, k - 1);
    }
}

/// Element-wise equality of two commands.
pub fn commands_equal(a: &Vec<String>, b: &Vec<String>) -> (r: bool)
    ensures
        r == (a.deep_view() == b.deep_view()),
{
    if a.len() != b.len() {
        proof {
            assert(a.deep_view().len() != b.deep_view().len());
        }
        return false;
    }
    let mut i: usize = 0;
    while i < a.len()
        invariant
            a@.len() == b@.len(),
            i <= a@.len(),
            forall|k: int| 0 <= k < i ==> a.deep_view()[k] == b.deep_view()[k],
        decreases a.len() - i,
    {
        if !(a[i] == b[i]) {
            proof {
                assert(a.deep_view()[i as int] != b.deep_view()[i as int]);
            }
            return false;
        }
        i = i + 1;
    }
    proof {
        assert(a.deep_view() =~= b.deep_view());
    }
    true
}

} // verus!

//! Bounded subprocess execution: output limits and outcome classification.
//!
//! An exec tool call runs a child command, captures its output under
//! per-stream byte caps, and maps the raw outcome — exit code, signal,
//! timeout — onto conventional exit-code semantics.  The caps depend on
//! the command: ripgrep gets a larger allowance than everything else,
//! recognized directly or through a `bash -lc` wrapper.

use vstd::prelude::*;
use vstd::string::StringSliceAdditionalSpecFns;
use vstd::string::StringExecFns;
use vstd::string::StrSliceExecFns;
use crate::text::str_eq;
use crate::text::bytes_to_utf8_lossy;
use crate::text::utf8_lossy_of;

verus! {

/// Timeout applied when the caller gives none (milliseconds).
pub const DEFAULT_TIMEOUT_MS: u64 = 10_000;

/// Conventional kill signal number.
pub const SIGKILL_CODE: i32 = 9;

/// Sentinel signal number that marks a timeout.
pub const TIMEOUT_CODE: i32 = 64;

/// Conventional shell base for signal exits: `128 + signal`.
pub const EXIT_CODE_SIGNAL_BASE: i32 = 128;

/// Conventional exit code reported for a timed-out command.
pub const EXEC_TIMEOUT_EXIT_CODE: i32 = 124;

/// Output allowance for most commands (6 KiB).
pub const GENERIC_EXEC_OUTPUT_MAX_BYTES: usize = 6 * 1024;

/// Output allowance for ripgrep (8 KiB).
pub const RG_EXEC_OUTPUT_MAX_BYTES: usize = 8 * 1024;

/// Cap on incremental output events per exec call; capture is unaffected.
pub const MAX_EXEC_OUTPUT_DELTAS_PER_CALL: usize = 10_000;

/// Notice appended to output truncated under the generic allowance.
pub const GENERIC_EXEC_TRUNCATION_NOTICE: &'static str =
    "[output truncated to 6 KiB; refine the command or request /relax for a temporary increase]";

/// Notice appended to ripgrep output truncated under its allowance.
pub const RG_EXEC_TRUNCATION_NOTICE: &'static str =
    "[rg output truncated to 8 KiB; narrow the search (e.g., add filters) or request /relax]";

/// Byte caps for one exec call, with the notice appended on truncation.
#[derive(Clone, Copy, Debug)]
pub struct ExecOutputLimit {
    pub stream_max_bytes: usize,
    pub aggregated_max_bytes: usize,
    pub truncation_notice: &'static str,
}

impl ExecOutputLimit {
    /// The 6 KiB allowance for ordinary commands.
    pub fn generic() -> (r: ExecOutputLimit)
        ensures
            r.stream_max_bytes == GENERIC_EXEC_OUTPUT_MAX_BYTES,
            r.aggregated_max_bytes == GENERIC_EXEC_OUTPUT_MAX_BYTES,
            r.truncation_notice@ == GENERIC_EXEC_TRUNCATION_NOTICE@,
    {
        ExecOutputLimit {
            stream_max_bytes: GENERIC_EXEC_OUTPUT_MAX_BYTES,
            aggregated_max_bytes: GENERIC_EXEC_OUTPUT_MAX_BYTES,
            truncation_notice: GENERIC_EXEC_TRUNCATION_NOTICE,
        }
    }

    /// The 8 KiB allowance for ripgrep.
    pub fn ripgrep() -> (r: ExecOutputLimit)
        ensures
            r.stream_max_bytes == RG_EXEC_OUTPUT_MAX_BYTES,
            r.aggregated_max_bytes == RG_EXEC_OUTPUT_MAX_BYTES,
            r.truncation_notice@ == RG_EXEC_TRUNCATION_NOTICE@,
    {
        ExecOutputLimit {
            stream_max_bytes: RG_EXEC_OUTPUT_MAX_BYTES,
            aggregated_max_bytes: RG_EXEC_OUTPUT_MAX_BYTES,
            truncation_notice: RG_EXEC_TRUNCATION_NOTICE,
        }
    }
}

/// The part of a path after its last `/`; empty for a trailing slash.
pub open spec fn basename(s: Seq<char>) -> Seq<char>
    decreases s.len(),
{
    if s.len() == 0 {
        s
    } else if s.last() == '/' {
        Seq::empty()
    } else {
        basename(s.drop_last()).push(s.last())
    }
}

/// A character that ends the first token of a shell script.
pub open spec fn is_token_sep(c: char) -> bool {
    c == ' ' || c == '\t'
}

/// The first whitespace-delimited token of a script.
pub open spec fn first_token(s: Seq<char>) -> Seq<char>
    decreases s.len(),
{
    if s.len() == 0 || is_token_sep(s[0]) {
        Seq::empty()
    } else {
        seq![s[0]] + first_token(s.drop_first())
    }
}

/// A shell control character: a script holding one is more than a single
/// plain command.
pub open spec fn is_shell_op_char(c: char) -> bool {
    c == ';' || c == '|' || c == '&' || c == '\n' || c == '(' || c == ')' || c == '`'
        || c == '<' || c == '>'
}

/// Whether a script holds any shell control character.
pub open spec fn has_shell_operator(s: Seq<char>) -> bool {
    exists|i: int| 0 <= i < s.len() && is_shell_op_char(#[trigger] s[i])
}

/// A `bash -lc <script>` invocation.
pub open spec fn is_shell_wrapper(cmd: Seq<Seq<char>>) -> bool {
    cmd.len() == 3 && basename(cmd[0]) == "bash"@ && cmd[1] == "-lc"@
}

/// A script that is one plain command whose program is ripgrep.
pub open spec fn script_is_single_rg(script: Seq<char>) -> bool {
    !has_shell_operator(script) && basename(first_token(script)) == "rg"@
}

/// Whether a command runs ripgrep: directly, or as the single plain
/// command of a `bash -lc` wrapper.
pub open spec fn invokes_ripgrep(cmd: Seq<Seq<char>>) -> bool {
    if is_shell_wrapper(cmd) {
        script_is_single_rg(cmd[2])
    } else {
        cmd.len() > 0 && basename(cmd[0]) == "rg"@
    }
}

/// When no character from `k` on is a slash and the character before `k`
/// (if any) is one, the basename is the suffix from `k`.
proof fn lemma_basename_suffix(s: Seq<char>, k: int)
    requires
        0 <= k <= s.len(),
        forall|i: int| k <= i < s.len() ==> s[i] != '/',
        k > 0 ==> s[k - 1] == '/',
    ensures
        basename(s) == s.subrange(k, s.len() as int),
    decreases s.len(),
{
    if s.len() == k {
        if k == 0 {
            assert(basename(s) =~= s.subrange(0, 0));
        } else {
            assert(s.last() == s[k - 1]);
            assert(basename(s) =~= s.subrange(k, k));
        }
    } else {
        assert(s.last() != '/');
        lemma_basename_suffix(s.drop_last(), k);
        assert(s.drop_last().subrange(k, s.len() - 1) =~= s.subrange(k, s.len() - 1));
        assert(s.subrange(k, s.len() - 1).push(s.last()) =~= s.subrange(k, s.len() as int));
    }
}

/// When no character before `t` separates tokens and the character at `t`
/// (if any) does, the first token is the prefix up to `t`.
proof fn lemma_first_token_prefix(s: Seq<char>, t: int)
    requires
        0 <= t <= s.len(),
        forall|i: int| 0 <= i < t ==> !is_token_sep(s[i]),
        t < s.len() ==> is_token_sep(s[t]),
    ensures
        first_token(s) == s.subrange(0, t),
    decreases s.len(),
{
    if s.len() == 0 {
        assert(first_token(s) =~= s.subrange(0, 0));
    } else if is_token_sep(s[0]) {
        assert(t == 0);
        assert(first_token(s) =~= s.subrange(0, 0));
    } else {
        assert(t >= 1);
        lemma_first_token_prefix(s.drop_first(), t - 1);
        assert(s.drop_first().subrange(0, t - 1) =~= s.subrange(1, t));
        assert(seq![s[0]] + s.subrange(1, t) =~= s.subrange(0, t));
    }
}

/// The index where the suffix after the last `/` begins.
fn find_base_start(s: &str) -> (k: usize)
    ensures
        k <= s@.len(),
        forall|i: int| k <= i < s@.len() ==> s@[i] != '/',
        k > 0 ==> s@[k - 1] == '/',
{
    let n = s.unicode_len();
    let mut k: usize = 0;
    let mut i: usize = 0;
    while i < n
        invariant
            n == s@.len(),
            k <= i <= n,
            forall|j: int| k <= j < i ==> s@[j] != '/',
            k > 0 ==> s@[k - 1] == '/',
        decreases n - i,
    {
        if s.get_char(i) == '/' {
            k = i + 1;
        }
        i = i + 1;
    }
    k
}

/// Whether the basename of `s` spells exactly `expected`.
fn basename_eq(s: &str, expected: &str) -> (r: bool)
    ensures
        r == (basename(s@) == expected@),
{
    let k = find_base_start(s);
    proof {
        lemma_basename_suffix(s@, k as int);
    }
    let n = s.unicode_len();
    let m = expected.unicode_len();
    if n - k != m {
        proof {
            assert(s@.subrange(k as int, n as int).len() != expected@.len());
        }
        return false;
    }
    let mut i: usize = 0;
    while i < m
        invariant
            n == s@.len(),
            m == expected@.len(),
            k + m == n,
            i <= m,
            basename(s@) == s@.subrange(k as int, n as int),
            forall|j: int| 0 <= j < i ==> s@[k + j] == expected@[j],
        decreases m - i,
    {
        if s.get_char(k + i) != expected.get_char(i) {
            proof {
                assert(s@.subrange(k as int, n as int)[i as int] != expected@[i as int]);
            }
            return false;
        }
        i = i + 1;
    }
    proof {
        assert(s@.subrange(k as int, n as int) =~= expected@);
    }
    true
}

/// Whether the script holds a shell control character.
fn has_shell_operator_exec(s: &str) -> (r: bool)
    ensures
        r == has_shell_operator(s@),
{
    let n = s.unicode_len();
    let mut i: usize = 0;
    while i < n
        invariant
            n == s@.len(),
            i <= n,
            forall|j: int| 0 <= j < i ==> !is_shell_op_char(#[trigger] s@[j]),
        decreases n - i,
    {
        let c = s.get_char(i);
        if c == ';' || c == '|' || c == '&' || c == '\n' || c == '(' || c == ')' || c == '`'
            || c == '<' || c == '>' {
            return true;
        }
        i = i + 1;
    }
    false
}

/// The index one past the first token of the script.
fn find_token_end(s: &str) -> (t: usize)
    ensures
        t <= s@.len(),
        forall|i: int| 0 <= i < t ==> !is_token_sep(#[trigger] s@[i]),
        t < s@.len() ==> is_token_sep(s@[t as int]),
{
    let n = s.unicode_len();
    let mut i: usize = 0;
    while i < n
        invariant
            n == s@.len(),
            i <= n,
            forall|j: int| 0 <= j < i ==> !is_token_sep(#[trigger] s@[j]),
        decreases n - i,
    {
        let c = s.get_char(i);
        if c == ' ' || c == '\t' {
            return i;
        }
        i = i + 1;
    }
    n
}

/// Whether the command runs ripgrep, directly or through `bash -lc`.
pub fn command_invokes_ripgrep(command: &Vec<String>) -> (r: bool)
    ensures
        r == invokes_ripgrep(command.deep_view()),
{
    proof {
        assert(command.deep_view().len() == command@.len());
        assert forall|i: int| 0 <= i < command@.len()
            implies #[trigger] command.deep_view()[i] == command@[i]@ by {}
    }
    if command.len() == 3 {
        let is_shell = basename_eq(command[0].as_str(), "bash");
        let is_flag = str_eq(command[1].as_str(), "-lc");
        if is_shell && is_flag {
            let script = command[2].as_str();
            if has_shell_operator_exec(script) {
                return false;
            }
            let t = find_token_end(script);
            proof {
                lemma_first_token_prefix(script@, t as int);
            }
            let token = script.substring_char(0, t);
            return basename_eq(token, "rg");
        }
    }
    if command.len() == 0 {
        return false;
    }
    basename_eq(command[0].as_str(), "rg")
}

/// The byte caps for this command: ripgrep's allowance where the command
/// runs ripgrep, the generic allowance otherwise.
pub fn exec_output_limit_for_command(command: &Vec<String>) -> (r: ExecOutputLimit)
    ensures
        invokes_ripgrep(command.deep_view()) ==> {
            &&& r.stream_max_bytes == RG_EXEC_OUTPUT_MAX_BYTES
            &&& r.aggregated_max_bytes == RG_EXEC_OUTPUT_MAX_BYTES
            &&& r.truncation_notice@ == RG_EXEC_TRUNCATION_NOTICE@
        },
        !invokes_ripgrep(command.deep_view()) ==> {
            &&& r.stream_max_bytes == GENERIC_EXEC_OUTPUT_MAX_BYTES
            &&& r.aggregated_max_bytes == GENERIC_EXEC_OUTPUT_MAX_BYTES
            &&& r.truncation_notice@ == GENERIC_EXEC_TRUNCATION_NOTICE@
        },
{
    if command_invokes_ripgrep(command) {
        ExecOutputLimit::ripgrep()
    } else {
        ExecOutputLimit::generic()
    }
}

/// One exec request: the command, where to run it, its environment, and
/// an optional timeout in milliseconds.
#[derive(Clone, Debug)]
pub struct ExecParams {
    pub command: Vec<String>,
    pub cwd: String,
    pub timeout_ms: Option<u64>,
    pub env: Vec<(String, String)>,
    pub with_escalated_permissions: Option<bool>,
    pub justification: Option<String>,
}

impl ExecParams {
    /// The timeout to enforce, in milliseconds: the caller's, or the
    /// default.
    pub fn timeout_duration(&self) -> (r: u64)
        ensures
            r == (match self.timeout_ms {
                Option::Some(t) => t,
                Option::None => DEFAULT_TIMEOUT_MS,
            }),
    {
        match self.timeout_ms {
            Option::Some(t) => t,
            Option::None => DEFAULT_TIMEOUT_MS,
        }
    }
}

/// Where the child runs: unconfined, or inside one of the OS sandboxes.
#[derive(Clone, Copy, Debug, PartialEq, Eq, Structural)]
pub enum SandboxType {
    /// Unconfined.
    NoSandbox,

    /// Only available on macOS.
    MacosSeatbelt,

    /// Only available on Linux.
    LinuxSeccomp,
}

/// Whether a nonzero exit under a sandbox is attributed to the sandbox:
/// every one is, except 127 (command not found), which a missing program
/// explains on its own.
pub fn is_likely_sandbox_denied(sandbox_type: SandboxType, exit_code: i32) -> (r: bool)
    ensures
        r == (sandbox_type != SandboxType::NoSandbox && exit_code != 127),
{
    if sandbox_type == SandboxType::NoSandbox {
        return false;
    }
    if exit_code == 127 {
        return false;
    }
    true
}

/// One captured stream: its text, and how it was truncated, if at all.
#[derive(Debug)]
pub struct StreamOutput<T> {
    pub text: T,
    pub truncated_after_lines: Option<u32>,
    pub truncated_by_bytes: bool,
}

impl StreamOutput<String> {
    /// A stream holding `text`, not truncated.
    pub fn new(text: String) -> (r: StreamOutput<String>)
        ensures
            r.text == text,
            r.truncated_after_lines is None,
            !r.truncated_by_bytes,
    {
        StreamOutput { text, truncated_after_lines: None, truncated_by_bytes: false }
    }
}

impl StreamOutput<Vec<u8>> {
    /// The same stream with its bytes decoded as UTF-8, lossily.
    pub fn from_utf8_lossy(&self) -> (r: StreamOutput<String>)
        ensures
            r.text@ == utf8_lossy_of(self.text@),
            vstd::utf8::valid_utf8(self.text@) ==> r.text@ == vstd::utf8::decode_utf8(
                self.text@),
            r.truncated_after_lines == self.truncated_after_lines,
            r.truncated_by_bytes == self.truncated_by_bytes,
    {
        StreamOutput {
            text: bytes_to_utf8_lossy(&self.text),
            truncated_after_lines: self.truncated_after_lines,
            truncated_by_bytes: self.truncated_by_bytes,
        }
    }
}

/// Appends all of `src` to `dst`.
#[inline]
pub fn append_all(dst: &mut Vec<u8>, src: &[u8])
    ensures
        final(dst)@ == old(dst)@ + src@,
{
    dst.extend_from_slice(src);
    proof {
        assert(dst@ =~= old(dst)@ + src@);
    }
}

/// Splits a command into its program and arguments; an empty command is
/// rejected, as the spawner has nothing to run.
pub fn command_program_and_args(command: &Vec<String>) -> (r: Result<(String, Vec<String>),
    ExecError>)
    ensures
        r is Err <==> command@.len() == 0,
        r matches Ok(pa) ==> {
            &&& pa.0@ == command.deep_view()[0]
            &&& pa.1.deep_view() == command.deep_view().skip(1)
        },
        r matches Err(e) ==> e matches ExecError::Io(_),
{
    if command.len() == 0 {
        return Err(ExecError::Io("command args are empty".to_owned()));
    }
    let program = command[0].clone();
    let mut args: Vec<String> = Vec::new();
    let mut i: usize = 1;
    while i < command.len()
        invariant
            1 <= i <= command@.len(),
            args.deep_view() =~= command.deep_view().subrange(1, i as int),
        decreases command.len() - i,
    {
        let a = command[i].clone();
        let ghost d0 = args.deep_view();
        proof {
            assert(a@ == command.deep_view()[i as int]);
        }
        args.push(a);
        proof {
            assert(args.deep_view() =~= d0.push(command.deep_view()[i as int]));
            assert(d0.push(command.deep_view()[i as int])
                =~= command.deep_view().subrange(1, i + 1));
        }
        i = i + 1;
    }
    proof {
        assert(args.deep_view() =~= command.deep_view().skip(1));
        assert(program@ == command.deep_view()[0]);
    }
    Ok((program, args))
}

/// How a child ended: an exit code, a signal, or neither when the status
/// carries no code (reported as -1).
#[derive(Clone, Copy, Debug)]
pub struct RawExitStatus {
    pub code: Option<i32>,
    pub signal: Option<i32>,
}

/// A synthesized exit status carrying only a code, as used when the
/// supervisor kills the child itself on timeout or interrupt.
pub fn synthetic_exit_status(code: i32) -> (r: RawExitStatus)
    ensures
        r.code == Some(code),
        r.signal is None,
{
    RawExitStatus { code: Some(code), signal: None }
}

/// The captured but not yet classified outcome of one exec call.
#[derive(Debug)]
pub struct RawExecToolCallOutput {
    pub exit_status: RawExitStatus,
    pub stdout: StreamOutput<Vec<u8>>,
    pub stderr: StreamOutput<Vec<u8>>,
    pub aggregated_output: StreamOutput<Vec<u8>>,
    pub timed_out: bool,
}

/// The classified outcome of one exec call.
#[derive(Debug)]
pub struct ExecToolCallOutput {
    pub exit_code: i32,
    pub stdout: StreamOutput<String>,
    pub stderr: StreamOutput<String>,
    pub aggregated_output: StreamOutput<String>,
    pub duration_ms: u64,
    pub timed_out: bool,
}

/// What an exec call can fail with.
#[derive(Debug)]
pub enum ExecError {
    /// The child died of an unexpected signal.
    Signal(i32),
    /// The timeout fired; the captured output is preserved.
    Timeout { output: Box<ExecToolCallOutput> },
    /// A nonzero exit under a sandbox, attributed to the sandbox.
    Denied { output: Box<ExecToolCallOutput> },
    /// A Linux sandbox was requested without its helper executable.
    SandboxExecutableNotProvided,
    /// Spawning or reading the child failed.
    Io(String),
}

/// Appends the truncation notice to a stream that was cut, on a fresh
/// line when the text does not already end in one.
pub fn append_truncation_notice(output: &mut StreamOutput<String>, notice: &str)
    ensures
        !old(output).truncated_by_bytes ==> *final(output) == *old(output),
        final(output).truncated_by_bytes == old(output).truncated_by_bytes,
        final(output).truncated_after_lines == old(output).truncated_after_lines,
        old(output).truncated_by_bytes ==> final(output).text@ == with_notice(
            old(output).text@, true, notice@),
{
    if !output.truncated_by_bytes {
        return;
    }
    let n = output.text.as_str().unicode_len();
    if n > 0 && !(output.text.as_str().get_char(n - 1) == '\n') {
        output.text.append("\n");
        proof {
            reveal_strlit("\n");
            assert("\n"@ =~= seq!['\n']);
        }
    }
    output.text.append(notice);
}

/// The text of a stream after classification: unchanged when whole, and
/// with the notice appended — on a fresh line if need be — when cut.
pub open spec fn with_notice(text: Seq<char>, truncated: bool, notice: Seq<char>) -> Seq<char> {
    if !truncated {
        text
    } else if text.len() > 0 && text.last() != '\n' {
        text + seq!['\n'] + notice
    } else {
        text + notice
    }
}

/// Whether the raw outcome counts as timed out: the supervisor said so,
/// or the child died of the timeout sentinel signal.
pub open spec fn spec_timed_out(raw: RawExecToolCallOutput) -> bool {
    raw.timed_out || raw.exit_status.signal == Some(TIMEOUT_CODE)
}

/// The signal that makes the outcome fatal, if any: every signal but the
/// timeout sentinel.
pub open spec fn spec_fatal_signal(raw: RawExecToolCallOutput) -> Option<i32> {
    match raw.exit_status.signal {
        Option::Some(s) => if s == TIMEOUT_CODE {
            Option::None
        } else {
            Option::Some(s)
        },
        Option::None => Option::None,
    }
}

/// The exit code reported to the caller: 124 on timeout, the child's code
/// otherwise, or -1 when the status carries none.
pub open spec fn spec_exit_code(raw: RawExecToolCallOutput) -> int {
    if spec_timed_out(raw) {
        EXEC_TIMEOUT_EXIT_CODE as int
    } else {
        match raw.exit_status.code {
            Option::Some(c) => c as int,
            Option::None => -1,
        }
    }
}

/// Whether the aggregate counts as truncated: its own capture was cut, or
/// either per-stream capture was.
pub open spec fn spec_aggregated_truncated(raw: RawExecToolCallOutput) -> bool {
    raw.aggregated_output.truncated_by_bytes || raw.stdout.truncated_by_bytes
        || raw.stderr.truncated_by_bytes
}

/// The classified output expected for a raw outcome: exit code mapped,
/// streams decoded lossily, and notices appended to whatever was cut.
pub open spec fn output_matches(
    out: ExecToolCallOutput,
    raw: RawExecToolCallOutput,
    limit: ExecOutputLimit,
    duration_ms: u64,
) -> bool {
    &&& out.exit_code == spec_exit_code(raw)
    &&& out.timed_out == spec_timed_out(raw)
    &&& out.duration_ms == duration_ms
    &&& out.stdout.text@ == with_notice(
        utf8_lossy_of(raw.stdout.text@),
        raw.stdout.truncated_by_bytes,
        limit.truncation_notice@,
    )
    &&& out.stdout.truncated_by_bytes == raw.stdout.truncated_by_bytes
    &&& out.stdout.truncated_after_lines == raw.stdout.truncated_after_lines
    &&& out.stderr.text@ == with_notice(
        utf8_lossy_of(raw.stderr.text@),
        raw.stderr.truncated_by_bytes,
        limit.truncation_notice@,
    )
    &&& out.stderr.truncated_by_bytes == raw.stderr.truncated_by_bytes
    &&& out.stderr.truncated_after_lines == raw.stderr.truncated_after_lines
    &&& out.aggregated_output.text@ == with_notice(
        utf8_lossy_of(raw.aggregated_output.text@),
        spec_aggregated_truncated(raw),
        limit.truncation_notice@,
    )
    &&& out.aggregated_output.truncated_by_bytes == spec_aggregated_truncated(raw)
    &&& out.aggregated_output.truncated_after_lines
        == raw.aggregated_output.truncated_after_lines
}

/// Classifies a raw outcome.  An unexpected signal is fatal.  A timeout
/// maps to exit code 124 and comes back as the timeout error, output
/// preserved.  A nonzero exit under a sandbox — except 127 — comes back
/// as a denial, output preserved.  Everything else succeeds, with the
/// truncation notice appended to every stream that was cut.
pub fn finalize_exec_result(
    raw: RawExecToolCallOutput,
    sandbox_type: SandboxType,
    output_limit: ExecOutputLimit,
    duration_ms: u64,
) -> (r: Result<ExecToolCallOutput, ExecError>)
    ensures
        match r {
            Result::Ok(out) => {
                &&& spec_fatal_signal(raw) is None
                &&& !spec_timed_out(raw)
                &&& !(spec_exit_code(raw) != 0 && sandbox_type != SandboxType::NoSandbox
                    && spec_exit_code(raw) != 127)
                &&& output_matches(out, raw, output_limit, duration_ms)
            },
            Result::Err(e) => match e {
                ExecError::Signal(s) => spec_fatal_signal(raw) == Some(s),
                ExecError::Timeout { output } => {
                    &&& spec_fatal_signal(raw) is None
                    &&& spec_timed_out(raw)
                    &&& output.exit_code == EXEC_TIMEOUT_EXIT_CODE
                    &&& output.timed_out
                    &&& output_matches(*output, raw, output_limit, duration_ms)
                },
                ExecError::Denied { output } => {
                    &&& spec_fatal_signal(raw) is None
                    &&& !spec_timed_out(raw)
                    &&& spec_exit_code(raw) != 0 && sandbox_type != SandboxType::NoSandbox
                        && spec_exit_code(raw) != 127
                    &&& output_matches(*output, raw, output_limit, duration_ms)
                },
                ExecError::SandboxExecutableNotProvided => false,
                ExecError::Io(_) => false,
            },
        },
{
    let mut timed_out = raw.timed_out;
    match raw.exit_status.signal {
        Option::Some(signal) => {
            if signal == TIMEOUT_CODE {
                timed_out = true;
            } else {
                return Err(ExecError::Signal(signal));
            }
        },
        Option::None => {},
    }

    let mut exit_code: i32 = match raw.exit_status.code {
        Option::Some(c) => c,
        Option::None => -1,
    };
    if timed_out {
        exit_code = EXEC_TIMEOUT_EXIT_CODE;
    }

    let mut stdout = raw.stdout.from_utf8_lossy();
    let mut stderr = raw.stderr.from_utf8_lossy();
    let mut aggregated_output = raw.aggregated_output.from_utf8_lossy();

    if stdout.truncated_by_bytes || stderr.truncated_by_bytes {
        aggregated_output.truncated_by_bytes = true;
    }

    append_truncation_notice(&mut stdout, output_limit.truncation_notice);
    append_truncation_notice(&mut stderr, output_limit.truncation_notice);
    append_truncation_notice(&mut aggregated_output, output_limit.truncation_notice);

    let exec_output = ExecToolCallOutput {
        exit_code,
        stdout,
        stderr,
        aggregated_output,
        duration_ms,
        timed_out,
    };

    if timed_out {
        return Err(ExecError::Timeout { output: Box::new(exec_output) });
    }

    if exit_code != 0 && is_likely_sandbox_denied(sandbox_type, exit_code) {
        return Err(ExecError::Denied { output: Box::new(exec_output) });
    }

    Ok(exec_output)
}

} // verus!

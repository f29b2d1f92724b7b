use agent_core::exec::exec_output_limit_for_command;
use agent_core::exec::finalize_exec_result;
use agent_core::exec::synthetic_exit_status;
use agent_core::exec::ExecError;
use agent_core::exec::ExecParams;
use agent_core::exec::RawExecToolCallOutput;
use agent_core::exec::RawExitStatus;
use agent_core::exec::SandboxType;
use agent_core::exec::StreamOutput;
use agent_core::exec::DEFAULT_TIMEOUT_MS;
use agent_core::exec::EXEC_TIMEOUT_EXIT_CODE;
use agent_core::exec::EXIT_CODE_SIGNAL_BASE;
use agent_core::exec::GENERIC_EXEC_OUTPUT_MAX_BYTES;
use agent_core::exec::GENERIC_EXEC_TRUNCATION_NOTICE;
use agent_core::exec::RG_EXEC_OUTPUT_MAX_BYTES;
use agent_core::exec::RG_EXEC_TRUNCATION_NOTICE;
use agent_core::exec::SIGKILL_CODE;
use agent_core::exec::TIMEOUT_CODE;

fn command(parts: &[&str]) -> Vec<String> {
    parts.iter().map(|s| s.to_string()).collect()
}

#[test]
fn detects_ripgrep_plain_command() {
    let command = command(&["rg", "needle"]);
    let limits = exec_output_limit_for_command(&command);
    assert_eq!(limits.aggregated_max_bytes, RG_EXEC_OUTPUT_MAX_BYTES);
    assert_eq!(limits.stream_max_bytes, RG_EXEC_OUTPUT_MAX_BYTES);
    assert_eq!(limits.truncation_notice, RG_EXEC_TRUNCATION_NOTICE);
}

#[test]
fn detects_ripgrep_via_bash() {
    let command = command(&["bash", "-lc", "rg --json term"]);
    let limits = exec_output_limit_for_command(&command);
    assert_eq!(limits.aggregated_max_bytes, RG_EXEC_OUTPUT_MAX_BYTES);
}

#[test]
fn defaults_to_generic_for_other_commands() {
    let command = command(&["python", "script.py"]);
    let limits = exec_output_limit_for_command(&command);
    assert_eq!(limits.aggregated_max_bytes, GENERIC_EXEC_OUTPUT_MAX_BYTES);
    assert_eq!(limits.truncation_notice, GENERIC_EXEC_TRUNCATION_NOTICE);
}

#[test]
fn detects_ripgrep_by_basename_and_rejects_operators() {
    let limits = exec_output_limit_for_command(&command(&["/usr/bin/rg", "x"]));
    assert_eq!(limits.aggregated_max_bytes, RG_EXEC_OUTPUT_MAX_BYTES);
    let limits = exec_output_limit_for_command(&command(&["bash", "-lc", "rg x | head"]));
    assert_eq!(limits.aggregated_max_bytes, GENERIC_EXEC_OUTPUT_MAX_BYTES);
}

#[test]
fn truncation_notices_are_exact() {
    assert_eq!(
        GENERIC_EXEC_TRUNCATION_NOTICE,
        "[output truncated to 6 KiB; refine the command or request /relax for a temporary increase]"
    );
    assert_eq!(
        RG_EXEC_TRUNCATION_NOTICE,
        "[rg output truncated to 8 KiB; narrow the search (e.g., add filters) or request /relax]"
    );
}

#[test]
fn timeout_duration_defaults_to_ten_seconds() {
    let params = ExecParams {
        command: command(&["true"]),
        cwd: "/tmp".to_string(),
        timeout_ms: None,
        env: Vec::new(),
        with_escalated_permissions: None,
        justification: None,
    };
    assert_eq!(params.timeout_duration(), DEFAULT_TIMEOUT_MS);
    let params = ExecParams { timeout_ms: Some(250), ..params };
    assert_eq!(params.timeout_duration(), 250);
}

fn raw(code: Option<i32>, signal: Option<i32>, timed_out: bool) -> RawExecToolCallOutput {
    RawExecToolCallOutput {
        exit_status: RawExitStatus { code, signal },
        stdout: StreamOutput {
            text: b"out".to_vec(),
            truncated_after_lines: None,
            truncated_by_bytes: false,
        },
        stderr: StreamOutput {
            text: b"err".to_vec(),
            truncated_after_lines: None,
            truncated_by_bytes: false,
        },
        aggregated_output: StreamOutput {
            text: b"outerr".to_vec(),
            truncated_after_lines: None,
            truncated_by_bytes: false,
        },
        timed_out,
    }
}

#[test]
fn natural_zero_exit_stays_zero() {
    let r = finalize_exec_result(
        raw(Some(0), None, false),
        SandboxType::NoSandbox,
        agent_core::exec::ExecOutputLimit::generic(),
        5,
    );
    let out = r.expect("zero exit succeeds");
    assert_eq!(out.exit_code, 0);
    assert!(!out.timed_out);
    assert_eq!(out.stdout.text, "out");
    assert_eq!(out.aggregated_output.text, "outerr");
}

#[test]
fn timeout_maps_to_124() {
    let r = finalize_exec_result(
        raw(Some(0), None, true),
        SandboxType::NoSandbox,
        agent_core::exec::ExecOutputLimit::generic(),
        5,
    );
    match r {
        Err(ExecError::Timeout { output }) => {
            assert_eq!(output.exit_code, EXEC_TIMEOUT_EXIT_CODE);
            assert!(output.timed_out);
        }
        _ => panic!("expected the timeout error"),
    }
}

#[test]
fn interrupt_synthesizes_sigkill_exit() {
    let status = synthetic_exit_status(EXIT_CODE_SIGNAL_BASE + SIGKILL_CODE);
    assert_eq!(status.code, Some(137));
    assert_eq!(status.signal, None);
    let r = finalize_exec_result(
        raw(Some(EXIT_CODE_SIGNAL_BASE + SIGKILL_CODE), None, false),
        SandboxType::NoSandbox,
        agent_core::exec::ExecOutputLimit::generic(),
        5,
    );
    let out = r.expect("an interrupt is not itself an error");
    assert_eq!(out.exit_code, 137);
    assert!(!out.timed_out);
}

#[test]
fn timeout_sentinel_signal_counts_as_timeout() {
    let r = finalize_exec_result(
        raw(None, Some(TIMEOUT_CODE), false),
        SandboxType::NoSandbox,
        agent_core::exec::ExecOutputLimit::generic(),
        5,
    );
    match r {
        Err(ExecError::Timeout { output }) => assert_eq!(output.exit_code, 124),
        _ => panic!("expected the timeout error"),
    }
}

#[test]
fn unexpected_signal_is_fatal() {
    let r = finalize_exec_result(
        raw(None, Some(11), false),
        SandboxType::NoSandbox,
        agent_core::exec::ExecOutputLimit::generic(),
        5,
    );
    match r {
        Err(ExecError::Signal(s)) => assert_eq!(s, 11),
        _ => panic!("expected the signal error"),
    }
}

#[test]
fn nonzero_exit_under_sandbox_counts_as_denied_except_127() {
    let r = finalize_exec_result(
        raw(Some(1), None, false),
        SandboxType::LinuxSeccomp,
        agent_core::exec::ExecOutputLimit::generic(),
        5,
    );
    assert!(matches!(r, Err(ExecError::Denied { .. })));
    let r = finalize_exec_result(
        raw(Some(127), None, false),
        SandboxType::LinuxSeccomp,
        agent_core::exec::ExecOutputLimit::generic(),
        5,
    );
    let out = r.expect("127 is command-not-found, not a denial");
    assert_eq!(out.exit_code, 127);
}

#[test]
fn truncation_notice_is_appended_on_a_fresh_line() {
    let mut raw = raw(Some(0), None, false);
    raw.stdout.truncated_by_bytes = true;
    let r = finalize_exec_result(
        raw,
        SandboxType::NoSandbox,
        agent_core::exec::ExecOutputLimit::generic(),
        5,
    );
    let out = r.expect("zero exit succeeds");
    assert_eq!(out.stdout.text, format!("out\n{GENERIC_EXEC_TRUNCATION_NOTICE}"));
    assert!(out.aggregated_output.truncated_by_bytes);
    assert_eq!(
        out.aggregated_output.text,
        format!("outerr\n{GENERIC_EXEC_TRUNCATION_NOTICE}")
    );
}

use agent_core::budget::PER_TURN_OUTPUT_MAX_BYTES;
use agent_core::interval_set::IntervalSet;
use agent_core::turn::TurnState;
use agent_core::turn::TURN_OUTPUT_TRUNCATION_NOTICE;

type TestTurn = TurnState<u32, String>;

#[test]
fn turn_interval_set_records_and_subtracts() {
    let mut set = IntervalSet::default();
    assert_eq!(set.subtract(5, 10), vec![(5, 10)]);
    set.insert(5, 10);
    assert!(set.subtract(5, 10).is_empty());
    assert_eq!(set.subtract(8, 15), vec![(11, 15)]);
}

#[test]
fn turn_state_tracks_code_ranges() {
    let mut state: TestTurn = TurnState::default();
    let (unserved, overlap) = state.compute_unserved_code_ranges("file.rs", &vec![(1, 5)]);
    assert_eq!(unserved, vec![(1, 5)]);
    assert!(!overlap);

    state.record_served_code_ranges("file.rs", &vec![(1, 3)]);
    let (unserved, overlap) = state.compute_unserved_code_ranges("file.rs", &vec![(1, 5)]);
    assert_eq!(unserved, vec![(4, 5)]);
    assert!(overlap);
}

#[test]
fn reserves_full_output_when_under_budget() {
    let mut state: TestTurn = TurnState::default();
    let decision = state.reserve_tool_output(1024, TURN_OUTPUT_TRUNCATION_NOTICE.len());

    assert!(!decision.truncated);
    assert_eq!(decision.allowed_content_bytes, 1024);
    assert_eq!(state.metrics.bytes_served, 1024);
    assert_eq!(state.metrics.bytes_trimmed, 0);
    assert_eq!(state.metrics.outputs_truncated, 0);
}

#[test]
fn reserves_with_truncation_and_notice() {
    let mut state: TestTurn = TurnState::default();
    let _ = state.reserve_tool_output(PER_TURN_OUTPUT_MAX_BYTES - 100, 0);
    state.drain_metrics();

    let decision = state.reserve_tool_output(200, 80);
    assert!(decision.truncated);
    assert_eq!(decision.allowed_content_bytes, 20);
    assert_eq!(decision.notice_bytes, 80);
    assert_eq!(state.metrics.bytes_served, 100);
    assert_eq!(state.metrics.bytes_trimmed, 180);
    assert_eq!(state.metrics.outputs_truncated, 1);
}

#[test]
fn reserves_notice_even_when_budget_exhausted() {
    let mut state: TestTurn = TurnState::default();
    let _ = state.reserve_tool_output(PER_TURN_OUTPUT_MAX_BYTES, 0);
    state.drain_metrics();

    let decision = state.reserve_tool_output(512, 64);
    assert!(decision.truncated);
    assert_eq!(decision.allowed_content_bytes, 0);
    assert_eq!(decision.notice_bytes, 64);
    assert_eq!(state.metrics.bytes_served, 64);
    assert_eq!(state.metrics.bytes_trimmed, 512);
    assert_eq!(state.metrics.outputs_truncated, 1);
}

#[test]
fn draining_metrics_resets_counters() {
    let mut state: TestTurn = TurnState::default();
    let _ = state.reserve_tool_output(128, 0);
    let metrics = state.drain_metrics();
    assert_eq!(metrics.bytes_served, 128);
    assert!(state.metrics.is_empty());
}

#[test]
fn recording_log_tail_increments_metric() {
    let mut state: TestTurn = TurnState::default();
    state.record_log_tail();
    assert_eq!(state.metrics.log_tail_invocations, 1);
}

#[test]
fn second_drain_returns_the_zero_record() {
    let mut state: TestTurn = TurnState::default();
    let _ = state.reserve_tool_output(64, 0);
    state.record_command_blocked();
    let first = state.drain_metrics();
    assert_eq!(first.bytes_served, 64);
    assert_eq!(first.commands_blocked, 1);
    let second = state.drain_metrics();
    assert!(second.is_empty());
}

#[test]
fn turn_notice_is_exact() {
    assert_eq!(
        TURN_OUTPUT_TRUNCATION_NOTICE,
        "[turn output truncated after reaching 24 KiB; refine your request or use /relax]"
    );
    assert_eq!(PER_TURN_OUTPUT_MAX_BYTES, 24 * 1024);
}

#[test]
fn pending_approvals_replace_and_remove() {
    let mut state: TestTurn = TurnState::default();
    assert_eq!(state.insert_pending_approval("call-1".to_string(), 7), None);
    assert_eq!(state.insert_pending_approval("call-1".to_string(), 9), Some(7));
    assert_eq!(state.remove_pending_approval("call-1"), Some(9));
    assert_eq!(state.remove_pending_approval("call-1"), None);
}

#[test]
fn pending_input_is_taken_in_order() {
    let mut state: TestTurn = TurnState::default();
    state.push_pending_input("first".to_string());
    state.push_pending_input("second".to_string());
    let taken = state.take_pending_input();
    assert_eq!(taken, vec!["first".to_string(), "second".to_string()]);
    assert!(state.take_pending_input().is_empty());
}

#[test]
fn clear_pending_drops_both_queues() {
    let mut state: TestTurn = TurnState::default();
    state.push_pending_input("x".to_string());
    let _ = state.insert_pending_approval("k".to_string(), 1);
    state.clear_pending();
    assert!(state.take_pending_input().is_empty());
    assert_eq!(state.remove_pending_approval("k"), None);
}

#[test]
fn budget_is_monotone_over_many_reserves() {
    let mut state: TestTurn = TurnState::default();
    let mut content_total: usize = 0;
    for desired in [100usize, 0, 23_000, 5_000, 9_000] {
        let d = state.reserve_tool_output(desired, 80);
        content_total += d.allowed_content_bytes;
        assert!(d.allowed_content_bytes <= desired);
        assert!(d.notice_bytes <= 128);
    }
    // Content grants never exceed the budget; only the reserved notice
    // suffix may run past it once the budget is exhausted.
    assert!(content_total <= PER_TURN_OUTPUT_MAX_BYTES);
}

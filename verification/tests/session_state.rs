use agent_core::breaker::fingerprint_output;
use agent_core::breaker::output_preview;
use agent_core::breaker::RepeatCommandBreaker;
use agent_core::breaker::DEFAULT_REPEAT_COMMAND_WINDOW_MS;
use agent_core::interval_set::IntervalSet;
use agent_core::session::RateLimitSnapshot;
use agent_core::session::RateLimitWindow;
use agent_core::session::SessionState;
use agent_core::session::TokenUsage;

fn command(cmd: &[&str]) -> Vec<String> {
    cmd.iter().map(|s| s.to_string()).collect()
}

#[test]
fn session_interval_set_records_and_subtracts() {
    let mut set = IntervalSet::default();
    assert_eq!(set.subtract(5, 10), vec![(5, 10)]);
    set.insert(5, 10);
    assert!(set.subtract(5, 10).is_empty());
    assert_eq!(set.subtract(8, 15), vec![(11, 15)]);
}

#[test]
fn session_state_tracks_code_ranges() {
    let mut state = SessionState::new();
    let (unserved, overlap) = state.compute_unserved_code_ranges("file.rs", &vec![(1, 5)]);
    assert_eq!(unserved, vec![(1, 5)]);
    assert!(!overlap);

    state.record_served_code_ranges("file.rs", &vec![(1, 3)]);
    let (unserved, overlap) = state.compute_unserved_code_ranges("file.rs", &vec![(1, 5)]);
    assert_eq!(unserved, vec![(4, 5)]);
    assert!(overlap);
}

#[test]
fn breaker_blocks_after_repeated_identical_output() {
    let mut breaker = RepeatCommandBreaker::default();
    let cmd = command(&["ls", "-l"]);
    let now: u64 = 1_000;

    assert!(breaker.check(&cmd, now).is_none());

    breaker.record(&cmd, "alpha", now);
    assert!(breaker.check(&cmd, now + 1_000).is_none());

    breaker.record(&cmd, "alpha", now + 2_000);
    let block = breaker.check(&cmd, now + 3_000).expect("should block third run");
    assert_eq!(block.repeat_count, 2);
    assert_eq!(block.window_ms, DEFAULT_REPEAT_COMMAND_WINDOW_MS);
    assert_eq!(block.last_excerpt.as_deref(), Some("alpha"));
}

#[test]
fn breaker_resets_when_output_changes() {
    let mut breaker = RepeatCommandBreaker::default();
    let cmd = command(&["git", "status"]);
    let now: u64 = 1_000;

    breaker.record(&cmd, "one", now);
    breaker.record(&cmd, "one", now + 1_000);
    assert!(breaker.check(&cmd, now + 2_000).is_some());

    breaker.record(&cmd, "two", now + 3_000);
    assert!(breaker.check(&cmd, now + 4_000).is_none());
}

#[test]
fn breaker_expires_after_window() {
    let mut breaker = RepeatCommandBreaker::default();
    let cmd = command(&["rg", "foo"]);
    let now: u64 = 1_000;

    breaker.record(&cmd, "same", now);
    breaker.record(&cmd, "same", now + 1_000);
    assert!(breaker.check(&cmd, now + 2_000).is_some());

    assert!(breaker
        .check(&cmd, now + DEFAULT_REPEAT_COMMAND_WINDOW_MS + 5_000)
        .is_none());
}

#[test]
fn fingerprint_is_stable_and_separates_outputs() {
    assert_eq!(fingerprint_output("alpha"), fingerprint_output("alpha"));
    assert_ne!(fingerprint_output("one"), fingerprint_output("two"));
    assert_ne!(fingerprint_output(""), fingerprint_output("a"));
}

#[test]
fn output_preview_trims_and_bounds() {
    assert_eq!(output_preview("alpha").as_deref(), Some("alpha"));
    assert_eq!(output_preview("  alpha\n").as_deref(), Some("alpha"));
    assert_eq!(output_preview("   \n\t "), None);
    let long = format!("{}{}", "a".repeat(4_000), "z");
    let preview = output_preview(&long).expect("long output still previews");
    assert!(preview.len() <= 256);
    assert!(preview.contains("..."));
    assert!(preview.starts_with("aaa"));
    assert!(preview.ends_with('z'));
}

#[test]
fn approved_commands_are_kept_once() {
    let mut state = SessionState::new();
    state.add_approved_command(command(&["ls", "-l"]));
    state.add_approved_command(command(&["ls", "-l"]));
    state.add_approved_command(command(&["git", "status"]));
    assert_eq!(state.approved_commands_ref().len(), 2);
}

#[test]
fn token_info_accumulates_and_rate_limits_replace() {
    let mut state = SessionState::new();
    let usage = TokenUsage {
        input_tokens: 10,
        cached_input_tokens: 2,
        output_tokens: 5,
        reasoning_output_tokens: 1,
        total_tokens: 16,
    };
    state.update_token_info_from_usage(&usage, Some(128_000));
    state.update_token_info_from_usage(&usage, Some(128_000));
    let (info, limits) = state.token_info_and_rate_limits();
    let info = info.expect("usage was recorded");
    assert_eq!(info.total_token_usage.total_tokens, 32);
    assert_eq!(info.last_token_usage.total_tokens, 16);
    assert_eq!(info.model_context_window, Some(128_000));
    assert!(limits.is_none());

    state.set_rate_limits(RateLimitSnapshot {
        primary: Some(RateLimitWindow { used_percent: 40, window_minutes: 60 }),
        secondary: None,
    });
    let (_, limits) = state.token_info_and_rate_limits();
    assert_eq!(limits.expect("limits were set").primary.unwrap().used_percent, 40);
}

#[test]
fn session_breaker_is_reachable_through_the_state() {
    let mut state = SessionState::new();
    let cmd = command(&["make"]);
    let now: u64 = 500;
    state.record_repeat_command(&cmd, "boom", now);
    state.record_repeat_command(&cmd, "boom", now + 10);
    let block = state
        .check_repeat_command(&cmd, now + 20)
        .expect("two identical records block the third run");
    assert_eq!(block.repeat_count, 2);
}

#[test]
fn insert_is_idempotent_on_the_stored_ranges() {
    let mut a = IntervalSet::default();
    a.insert(3, 9);
    a.insert(20, 22);
    let once = a.ranges();
    a.insert(3, 9);
    assert_eq!(a.ranges(), once);
}

#[test]
fn insert_then_subtract_is_empty() {
    let mut set = IntervalSet::default();
    set.insert(7, 42);
    assert!(set.subtract(7, 42).is_empty());
    set.insert(50, 60);
    set.insert(45, 55);
    assert!(set.subtract(45, 60).is_empty());
    assert_eq!(set.ranges(), vec![(7, 42), (45, 60)]);
}

#[test]
fn interval_set_merges_touching_ranges() {
    let mut set = IntervalSet::default();
    set.insert(1, 2);
    set.insert(3, 4);
    set.insert(10, 12);
    assert_eq!(set.ranges(), vec![(1, 4), (10, 12)]);
    assert_eq!(set.subtract(1, 12), vec![(5, 9)]);
}

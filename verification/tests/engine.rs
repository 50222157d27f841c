//! The transfer state machine, retry controller, scheduler and selection
//! logic on concrete values.

use batch_fetch::models::{DownloadState, LinkEntry};
use batch_fetch::retry::{backoff_delay_secs, RetryController, RetryDecision};
use batch_fetch::scheduler::{initial_state, merge_state, BatchScheduler};
use batch_fetch::selection::{find_entry, select_range, validate_range};
use batch_fetch::transfer::{
    accept_status, finalize_state, mark_skipped, plan_attempt, record_progress, set_total,
    AttemptPlan, FetchSession, PlanAction,
};

fn entry(name: &str, url: &str) -> LinkEntry {
    LinkEntry { file_name: name.to_string(), url: url.to_string() }
}

#[test]
fn fresh_state_is_empty() {
    let st = DownloadState::new("a.bin".to_string());
    assert_eq!(st.file_name, "a.bin");
    assert_eq!(st.downloaded_bytes, 0);
    assert_eq!(st.total_bytes, None);
    assert!(!st.completed);
}

#[test]
fn skip_when_existing_matches_expected_size() {
    // Skip correctness: a completed file of exactly the probed size is
    // kept without any fetch.
    let p = plan_attempt(true, Some(100), Some(100), None);
    assert_eq!(p, AttemptPlan { remove_existing: false, action: PlanAction::SkipValid });
}

#[test]
fn skip_when_size_unknown_and_file_nonempty() {
    let p = plan_attempt(true, None, Some(17), None);
    assert_eq!(p.action, PlanAction::SkipValid);
    assert!(!p.remove_existing);
}

#[test]
fn corrupt_existing_file_is_removed_and_refetched() {
    // Corruption recovery: a completed file of the wrong size is deleted
    // and the transfer restarts from zero.
    let p = plan_attempt(true, Some(100), Some(90), None);
    assert_eq!(p, AttemptPlan { remove_existing: true, action: PlanAction::Fetch { offset: 0 } });
}

#[test]
fn empty_existing_file_with_unknown_size_is_removed() {
    let p = plan_attempt(true, None, Some(0), None);
    assert!(p.remove_existing);
    assert_eq!(p.action, PlanAction::Fetch { offset: 0 });
}

#[test]
fn resume_starts_at_partial_length() {
    let p = plan_attempt(true, Some(100), None, Some(40));
    assert_eq!(p, AttemptPlan { remove_existing: false, action: PlanAction::Fetch { offset: 40 } });
}

#[test]
fn resume_disabled_ignores_partial() {
    let p = plan_attempt(false, Some(100), None, Some(40));
    assert_eq!(p.action, PlanAction::Fetch { offset: 0 });
}

#[test]
fn partial_exceeding_total_fails_without_fetch() {
    // Partial-exceeds-total guard: an oversized partial file is an
    // immediate failure, never a fetch.
    let p = plan_attempt(true, Some(100), None, Some(101));
    assert_eq!(p.action, PlanAction::FailPartialExceedsTotal);
}

#[test]
fn staged_partial_of_full_size_goes_straight_to_finalize() {
    let p = plan_attempt(true, Some(100), None, Some(100));
    assert_eq!(p.action, PlanAction::FinalizeStaged { offset: 100 });
}

#[test]
fn status_codes_accepted_and_rejected() {
    assert!(accept_status(200));
    assert!(accept_status(206));
    assert!(accept_status(299));
    assert!(!accept_status(199));
    assert!(!accept_status(300));
    assert!(!accept_status(404));
    assert!(!accept_status(500));
}

#[test]
fn chunk_accounting_tracks_offset_plus_appended() {
    let mut session = FetchSession::begin(40);
    let mut st = DownloadState::new("a.bin".to_string());
    set_total(&mut st, Some(100));
    assert_eq!(st.total_bytes, Some(100));
    let d1 = session.on_chunk(10);
    record_progress(&mut st, d1);
    assert_eq!(st.downloaded_bytes, 50);
    let d2 = session.on_chunk(50);
    record_progress(&mut st, d2);
    assert_eq!(st.downloaded_bytes, 100);
}

#[test]
fn known_total_is_never_cleared_back_to_unknown() {
    let mut st = DownloadState::new("a.bin".to_string());
    set_total(&mut st, Some(100));
    set_total(&mut st, None);
    assert_eq!(st.total_bytes, Some(100));
}

#[test]
fn finalize_validates_exact_size() {
    let mut st = DownloadState::new("a.bin".to_string());
    set_total(&mut st, Some(100));
    assert!(finalize_state(&mut st, Some(100), 100));
    assert!(st.completed);
    assert_eq!(st.downloaded_bytes, 100);

    let mut st2 = DownloadState::new("b.bin".to_string());
    assert!(!finalize_state(&mut st2, Some(100), 90));
    assert!(!st2.completed);
    assert_eq!(st2.downloaded_bytes, 90);
}

#[test]
fn finalize_with_unknown_size_uses_sanity_threshold() {
    let mut st = DownloadState::new("a.bin".to_string());
    assert!(!finalize_state(&mut st, None, 1024));
    let mut st2 = DownloadState::new("b.bin".to_string());
    assert!(finalize_state(&mut st2, None, 1025));
}

#[test]
fn mark_skipped_records_completion() {
    let mut st = DownloadState::new("a.bin".to_string());
    mark_skipped(&mut st, 77);
    assert!(st.completed);
    assert_eq!(st.downloaded_bytes, 77);
}

#[test]
fn backoff_doubles_and_caps_at_thirty_seconds() {
    assert_eq!(backoff_delay_secs(1), 1);
    assert_eq!(backoff_delay_secs(2), 2);
    assert_eq!(backoff_delay_secs(3), 4);
    assert_eq!(backoff_delay_secs(4), 8);
    assert_eq!(backoff_delay_secs(5), 16);
    assert_eq!(backoff_delay_secs(6), 30);
    assert_eq!(backoff_delay_secs(7), 30);
    assert_eq!(backoff_delay_secs(100), 30);
}

#[test]
fn retry_controller_retries_below_limit_then_gives_up() {
    let mut c = RetryController::new(3);
    assert_eq!(c.attempt, 1);
    assert_eq!(c.on_failure(), RetryDecision::RetryAfterSecs(1));
    assert_eq!(c.attempt, 2);
    assert_eq!(c.on_failure(), RetryDecision::RetryAfterSecs(2));
    assert_eq!(c.attempt, 3);
    assert_eq!(c.on_failure(), RetryDecision::GiveUp);
    assert_eq!(c.attempt, 3);
}

#[test]
fn scheduler_never_admits_more_than_the_limit() {
    // Concurrency bound: with a limit of 2, a third admission fails until
    // a slot is released.
    let mut sched = BatchScheduler::new(4, 2);
    assert!(sched.try_admit(0));
    assert!(sched.try_admit(1));
    assert!(!sched.try_admit(2));
    assert_eq!(sched.active, 2);
    sched.finish(0, true);
    assert_eq!(sched.active, 1);
    assert!(sched.try_admit(2));
    sched.finish(1, false);
    sched.finish(2, true);
    let (succeeded, failed) = sched.summary();
    assert_eq!(succeeded, 2);
    assert_eq!(failed, 1);
}

#[test]
fn initial_state_prefers_loaded_progress() {
    let loaded = vec![
        DownloadState {
            file_name: "a.bin".to_string(),
            downloaded_bytes: 40,
            total_bytes: Some(100),
            completed: false,
        },
    ];
    let st = initial_state(&loaded, &"a.bin".to_string());
    assert_eq!(st.downloaded_bytes, 40);
    assert_eq!(st.total_bytes, Some(100));
    let fresh = initial_state(&loaded, &"b.bin".to_string());
    assert_eq!(fresh.file_name, "b.bin");
    assert_eq!(fresh.downloaded_bytes, 0);
    assert_eq!(fresh.total_bytes, None);
    assert!(!fresh.completed);
}

#[test]
fn merge_replaces_by_name_or_appends() {
    let mut states = vec![DownloadState::new("a.bin".to_string())];
    merge_state(
        &mut states,
        DownloadState {
            file_name: "a.bin".to_string(),
            downloaded_bytes: 100,
            total_bytes: Some(100),
            completed: true,
        },
    );
    assert_eq!(states.len(), 1);
    assert_eq!(states[0].downloaded_bytes, 100);
    assert!(states[0].completed);
    merge_state(&mut states, DownloadState::new("b.bin".to_string()));
    assert_eq!(states.len(), 2);
    assert_eq!(states[1].file_name, "b.bin");
}

#[test]
fn inverted_range_is_rejected_before_any_work() {
    // A selection of start=5, end=2 over ten entries must be rejected.
    assert!(!validate_range(10, 5, 2));
    let entries: Vec<LinkEntry> =
        (0..10).map(|i| entry(&format!("f{}.bin", i), "http://x/f")).collect();
    assert!(select_range(&entries, 5, 2).is_none());
}

#[test]
fn out_of_bounds_range_is_rejected() {
    assert!(!validate_range(10, 0, 10));
    assert!(!validate_range(10, 10, 10));
    assert!(validate_range(10, 0, 9));
}

#[test]
fn valid_range_selects_inclusive_slice() {
    let entries: Vec<LinkEntry> =
        (0..10).map(|i| entry(&format!("f{}.bin", i), "http://x/f")).collect();
    let picked = select_range(&entries, 2, 4).unwrap();
    assert_eq!(picked.len(), 3);
    assert_eq!(picked[0].file_name, "f2.bin");
    assert_eq!(picked[2].file_name, "f4.bin");
}

#[test]
fn find_entry_matches_by_name() {
    let entries = vec![entry("a.bin", "http://x/a"), entry("b.bin", "http://x/b")];
    let found = find_entry(&entries, &"b.bin".to_string()).unwrap();
    assert_eq!(found.url, "http://x/b");
    assert!(find_entry(&entries, &"c.bin".to_string()).is_none());
}

#[test]
fn two_entry_batch_with_retries_ends_with_two_successes() {
    // Scenario: two entries, limit 2, retry limit 3; `a` is 100 bytes and
    // succeeds at once, `b` fails twice and then succeeds with 200 bytes.
    let catalog = vec![entry("a.bin", "http://x/a"), entry("b.bin", "http://x/b")];
    let mut store: Vec<DownloadState> = Vec::new();
    let mut sched = BatchScheduler::new(2, 2);

    // entry a: one clean attempt
    assert!(sched.try_admit(0));
    let mut st_a = initial_state(&store, &catalog[0].file_name);
    set_total(&mut st_a, Some(100));
    let plan_a = plan_attempt(true, Some(100), None, None);
    assert_eq!(plan_a.action, PlanAction::Fetch { offset: 0 });
    assert!(finalize_state(&mut st_a, Some(100), 100));
    merge_state(&mut store, st_a);
    sched.finish(0, true);

    // entry b: two failed attempts, then success
    assert!(sched.try_admit(1));
    let mut ctl = RetryController::new(3);
    assert_eq!(ctl.on_failure(), RetryDecision::RetryAfterSecs(1));
    assert_eq!(ctl.on_failure(), RetryDecision::RetryAfterSecs(2));
    let mut st_b = initial_state(&store, &catalog[1].file_name);
    set_total(&mut st_b, Some(200));
    assert!(finalize_state(&mut st_b, Some(200), 200));
    merge_state(&mut store, st_b);
    sched.finish(1, true);

    let (succeeded, failed) = sched.summary();
    assert_eq!(succeeded, 2);
    assert_eq!(failed, 0);
    assert_eq!(store.len(), 2);
    assert_eq!(store[0].file_name, "a.bin");
    assert_eq!(store[0].downloaded_bytes, 100);
    assert_eq!(store[0].total_bytes, Some(100));
    assert!(store[0].completed);
    assert_eq!(store[1].file_name, "b.bin");
    assert_eq!(store[1].downloaded_bytes, 200);
    assert_eq!(store[1].total_bytes, Some(200));
    assert!(store[1].completed);
}

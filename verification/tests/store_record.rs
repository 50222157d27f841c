//! The progress store and its record codec on concrete values.

use batch_fetch::codec::{parse_states, serialize_states};
use batch_fetch::models::DownloadState;
use batch_fetch::store::StateManager;

fn sample() -> Vec<DownloadState> {
    vec![
        DownloadState {
            file_name: "a.bin".to_string(),
            downloaded_bytes: 100,
            total_bytes: Some(100),
            completed: true,
        },
        DownloadState {
            file_name: "b.bin".to_string(),
            downloaded_bytes: 40,
            total_bytes: None,
            completed: false,
        },
    ]
}

fn assert_same(a: &[DownloadState], b: &[DownloadState]) {
    assert_eq!(a.len(), b.len());
    for (x, y) in a.iter().zip(b.iter()) {
        assert_eq!(x.file_name, y.file_name);
        assert_eq!(x.downloaded_bytes, y.downloaded_bytes);
        assert_eq!(x.total_bytes, y.total_bytes);
        assert_eq!(x.completed, y.completed);
    }
}

#[test]
fn record_bytes_are_exactly_the_documented_json() {
    let states = vec![DownloadState {
        file_name: "a.bin".to_string(),
        downloaded_bytes: 12345,
        total_bytes: Some(67890),
        completed: true,
    }];
    let bytes = serialize_states(&states);
    let expected = "[{\"file_name\":\"a.bin\",\"downloaded_bytes\":12345,\"total_bytes\":67890,\"completed\":true}]";
    assert_eq!(String::from_utf8(bytes).unwrap(), expected);
}

#[test]
fn unknown_total_is_stored_as_null() {
    let states = vec![DownloadState {
        file_name: "b.bin".to_string(),
        downloaded_bytes: 0,
        total_bytes: None,
        completed: false,
    }];
    let bytes = serialize_states(&states);
    let expected = "[{\"file_name\":\"b.bin\",\"downloaded_bytes\":0,\"total_bytes\":null,\"completed\":false}]";
    assert_eq!(String::from_utf8(bytes).unwrap(), expected);
}

#[test]
fn saving_and_loading_round_trips_field_for_field() {
    // Store round trip: a saved mapping loads back identically.
    let states = sample();
    let manager = StateManager::new("/tmp/out");
    let bytes = manager.save_state(&states);
    let loaded = manager.load_state(true, &Some(bytes));
    assert_same(&states, &loaded);
}

#[test]
fn round_trip_keeps_extreme_values() {
    let states = vec![
        DownloadState {
            file_name: "x".to_string(),
            downloaded_bytes: u64::MAX,
            total_bytes: Some(u64::MAX),
            completed: false,
        },
        DownloadState {
            file_name: "y y.tar".to_string(),
            downloaded_bytes: 0,
            total_bytes: Some(0),
            completed: true,
        },
    ];
    let parsed = parse_states(&serialize_states(&states)).unwrap();
    assert_eq!(parsed.len(), 2);
    assert_eq!(parsed[0].file_name, "x");
    assert_eq!(parsed[0].downloaded_bytes, u64::MAX);
    assert_eq!(parsed[0].total_bytes, Some(u64::MAX));
    assert!(!parsed[0].completed);
    assert_eq!(parsed[1].file_name, "y y.tar");
    assert_eq!(parsed[1].total_bytes, Some(0));
}

#[test]
fn empty_mapping_round_trips() {
    let states: Vec<DownloadState> = Vec::new();
    let bytes = serialize_states(&states);
    assert_eq!(String::from_utf8(bytes.clone()).unwrap(), "[]");
    let loaded = parse_states(&bytes).unwrap();
    assert!(loaded.is_empty());
}

#[test]
fn unreadable_record_means_no_prior_progress() {
    let manager = StateManager::new("/tmp/out");
    let garbage = "not a record".as_bytes().to_vec();
    let loaded = manager.load_state(true, &Some(garbage));
    assert!(loaded.is_empty());
}

#[test]
fn missing_record_means_no_prior_progress() {
    let manager = StateManager::new("/tmp/out");
    let loaded = manager.load_state(true, &None);
    assert!(loaded.is_empty());
}

#[test]
fn resume_disabled_ignores_any_record() {
    let manager = StateManager::new("/tmp/out");
    let bytes = manager.save_state(&sample());
    let loaded = manager.load_state(false, &Some(bytes));
    assert!(loaded.is_empty());
}

#[test]
fn state_file_sits_inside_the_output_directory() {
    let manager = StateManager::new("downloads");
    assert_eq!(manager.state_file, "downloads/.download_state.json");
}

#[test]
fn parser_rejects_truncated_records() {
    let states = sample();
    let mut bytes = serialize_states(&states);
    bytes.pop();
    assert!(parse_states(&bytes).is_none());
}

//! The fork status log and the fork copy rule.

use oxen_core::fork::{
    encode_fork_status, fork_copy_plan, fork_status_name, get_fork_status, is_workspaces_path,
    replay_fork_log, ForkStatus,
};

#[test]
fn replay_returns_the_last_record() {
    let mut log: Vec<u8> = Vec::new();
    log.extend(encode_fork_status(&ForkStatus::Started));
    log.extend(encode_fork_status(&ForkStatus::Counting(42)));
    log.extend(encode_fork_status(&ForkStatus::InProgress(50)));
    log.extend(encode_fork_status(&ForkStatus::Complete));
    let last = replay_fork_log(&log).unwrap().expect("a record");
    assert!(matches!(last, ForkStatus::Complete));
}

#[test]
fn replay_of_an_empty_log_finds_nothing() {
    let log: Vec<u8> = Vec::new();
    assert!(replay_fork_log(&log).unwrap().is_none());
}

#[test]
fn replay_tolerates_a_truncated_tail() {
    let mut log: Vec<u8> = Vec::new();
    log.extend(encode_fork_status(&ForkStatus::Counting(7)));
    let mut partial = encode_fork_status(&ForkStatus::Failed("boom".to_string()));
    partial.truncate(partial.len() - 2);
    log.extend(partial);
    // the half-written record is a writer still in flight
    let last = replay_fork_log(&log).unwrap().expect("a record");
    assert!(matches!(last, ForkStatus::Counting(7)));
}

#[test]
fn replay_rejects_an_unknown_tag() {
    let log: Vec<u8> = vec![99];
    let err = replay_fork_log(&log).unwrap_err();
    assert_eq!(err.kind(), oxen_core::error::OxenErrorKind::Corrupted);
}

#[test]
fn failed_record_round_trips_its_message() {
    let mut log: Vec<u8> = Vec::new();
    log.extend(encode_fork_status(&ForkStatus::Started));
    log.extend(encode_fork_status(&ForkStatus::Failed("out of disk".to_string())));
    match replay_fork_log(&log).unwrap().expect("a record") {
        ForkStatus::Failed(m) => assert_eq!(m, "out of disk"),
        other => panic!("expected a failure record, got {:?}", other),
    }
}

#[test]
fn status_report_names_the_state() {
    let mut log: Vec<u8> = Vec::new();
    log.extend(encode_fork_status(&ForkStatus::InProgress(80)));
    let resp = get_fork_status("dst_repo", &log).unwrap();
    assert_eq!(resp.repository, "dst_repo");
    assert_eq!(resp.status, "in_progress");
    assert_eq!(resp.progress, Some(80));
    assert!(resp.error.is_none());

    assert_eq!(fork_status_name(&ForkStatus::Started), "started");
    assert_eq!(fork_status_name(&ForkStatus::Complete), "complete");

    let empty: Vec<u8> = Vec::new();
    assert!(get_fork_status("dst_repo", &empty).is_err());
}

#[test]
fn fork_excludes_workspaces() {
    assert!(is_workspaces_path(".oxen/workspaces"));
    assert!(is_workspaces_path(".oxen/workspaces/session/a.txt"));
    assert!(!is_workspaces_path(".oxen/workspaces2"));
    assert!(!is_workspaces_path(".oxen/refs/heads/main"));
    assert!(!is_workspaces_path("data/file.txt"));

    let paths = vec![
        ".oxen/config.toml".to_string(),
        ".oxen/workspaces/w1/scratch.txt".to_string(),
        "dir/test_file.txt".to_string(),
        ".oxen/workspaces".to_string(),
    ];
    let keep = fork_copy_plan(&paths);
    assert_eq!(
        keep,
        vec![
            ".oxen/config.toml".to_string(),
            "dir/test_file.txt".to_string(),
        ]
    );
}

#[test]
fn fork_progress_percent_rounds_down() {
    assert_eq!(oxen_core::fork::fork_progress_percent(0, 0), 100);
    assert_eq!(oxen_core::fork::fork_progress_percent(0, 3), 0);
    assert_eq!(oxen_core::fork::fork_progress_percent(1, 3), 33);
    assert_eq!(oxen_core::fork::fork_progress_percent(2, 3), 66);
    assert_eq!(oxen_core::fork::fork_progress_percent(3, 3), 100);
    assert_eq!(oxen_core::fork::fork_progress_percent(5, 3), 100);
    assert_eq!(oxen_core::fork::fork_progress_percent(1, u64::MAX), 0);
}

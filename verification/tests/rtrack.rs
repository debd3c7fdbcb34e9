use rtrack::diff::Difference;
use rtrack::store::{first_free_seq, latest_seq, latest_snapshot, plan_commit, snapshot_name};
use rtrack::{basename_of, handle_track, track_dir_name, Cli, TrackCommand, TrackError, TrackPlan};

#[test]
fn test_snapshot_name() {
    assert_eq!(snapshot_name(&"f".to_string(), 1), "f.001");
    assert_eq!(snapshot_name(&"f".to_string(), 999), "f.999");
    assert_eq!(snapshot_name(&"a.txt".to_string(), 42), "a.txt.042");
}

#[test]
fn test_first_commit_gets_seq_one() {
    let entries: Vec<String> = Vec::new();
    let plan = plan_commit(true, false, &entries, &"f".to_string()).unwrap();
    assert!(plan.create_repo);
    assert_eq!(plan.seq, 1);
    assert_eq!(plan.name, "f.001");
}

#[test]
fn test_second_commit_gets_seq_two() {
    let entries = vec!["f.001".to_string()];
    let plan = plan_commit(true, true, &entries, &"f".to_string()).unwrap();
    assert!(!plan.create_repo);
    assert_eq!(plan.seq, 2);
    assert_eq!(plan.name, "f.002");
}

#[test]
fn test_commit_fills_lowest_gap() {
    let entries = vec!["f.001".to_string(), "f.003".to_string()];
    let plan = plan_commit(true, true, &entries, &"f".to_string()).unwrap();
    assert_eq!(plan.seq, 2);
    assert_eq!(plan.name, "f.002");
}

#[test]
fn test_commit_missing_file() {
    let entries: Vec<String> = Vec::new();
    let r = plan_commit(false, false, &entries, &"f".to_string());
    assert_eq!(r, Err(TrackError::NotFound));
}

#[test]
fn test_store_exhausted() {
    let base = "f".to_string();
    let mut entries: Vec<String> = Vec::new();
    let mut n: u32 = 1;
    while n <= 999 {
        entries.push(snapshot_name(&base, n));
        n += 1;
    }
    assert_eq!(first_free_seq(&entries, &base), None);
    let r = plan_commit(true, true, &entries, &base);
    assert_eq!(r, Err(TrackError::StoreExhausted));
}

#[test]
fn test_sequence_numbers_increase_gap_free() {
    let base = "f".to_string();
    let mut entries: Vec<String> = Vec::new();
    let mut n: u32 = 1;
    while n <= 5 {
        let plan = plan_commit(true, n > 1, &entries, &base).unwrap();
        assert_eq!(plan.seq, n);
        entries.push(plan.name.clone());
        n += 1;
    }
}

#[test]
fn test_latest_sorts_by_suffix() {
    let entries = vec![
        "f.002".to_string(),
        "g.005".to_string(),
        "f.001".to_string(),
        "f.01".to_string(),
    ];
    assert_eq!(latest_seq(&entries, &"f".to_string()), Some(2));
    assert_eq!(
        latest_snapshot(true, &entries, &"f".to_string()),
        Ok("f.002".to_string())
    );
}

#[test]
fn test_diff_without_repo() {
    let entries: Vec<String> = Vec::new();
    assert_eq!(
        latest_snapshot(false, &entries, &"f".to_string()),
        Err(TrackError::NoTrackRepo)
    );
}

#[test]
fn test_diff_untracked_file() {
    let entries = vec!["g.001".to_string()];
    assert_eq!(
        latest_snapshot(true, &entries, &"f".to_string()),
        Err(TrackError::NotFound)
    );
}

#[test]
fn test_scenario_commit_then_diff() {
    let content = "0123456789\n".to_string();
    let base = "f".to_string();
    let mut entries: Vec<String> = Vec::new();
    let plan = plan_commit(true, false, &entries, &base).unwrap();
    assert_eq!(plan.name, "f.001");
    entries.push(plan.name.clone());
    let snap = latest_snapshot(true, &entries, &base).unwrap();
    assert_eq!(snap, "f.001");
    let (d, script) = rtrack::diff::compute_diff(&content, &content);
    assert_eq!(d, 0);
    assert!(script.iter().all(|c| matches!(c, Difference::Same(_))));
}

#[test]
fn test_handle_track_commit() {
    let entries: Vec<String> = Vec::new();
    let cmd = TrackCommand::Commit("dir/f".to_string());
    match handle_track(&cmd, true, false, &entries).unwrap() {
        TrackPlan::DoCommit(plan) => {
            assert!(plan.create_repo);
            assert_eq!(plan.seq, 1);
            assert_eq!(plan.name, "f.001");
        }
        TrackPlan::DoDiff(_) => panic!("commit must not plan a diff"),
    }
}

#[test]
fn test_handle_track_commit_missing_file() {
    let entries: Vec<String> = Vec::new();
    let cmd = TrackCommand::Commit("f".to_string());
    assert_eq!(
        handle_track(&cmd, false, false, &entries),
        Err(TrackError::NotFound)
    );
}

#[test]
fn test_handle_track_diff() {
    let entries = vec!["f.001".to_string(), "f.002".to_string()];
    let cmd = TrackCommand::Diff("f".to_string());
    assert_eq!(
        handle_track(&cmd, true, true, &entries),
        Ok(TrackPlan::DoDiff("f.002".to_string()))
    );
}

#[test]
fn test_handle_track_diff_without_repo() {
    let entries: Vec<String> = Vec::new();
    let cmd = TrackCommand::Diff("f".to_string());
    assert_eq!(
        handle_track(&cmd, true, false, &entries),
        Err(TrackError::NoTrackRepo)
    );
}

#[test]
fn test_get_local_cli() {
    let commit = Cli {
        diff: false,
        file_name: "f".to_string(),
    };
    assert_eq!(
        commit.get_local_cli(),
        TrackCommand::Commit("f".to_string())
    );
    let diff = Cli {
        diff: true,
        file_name: "f".to_string(),
    };
    assert_eq!(diff.get_local_cli(), TrackCommand::Diff("f".to_string()));
}

#[test]
fn test_basename_of() {
    assert_eq!(
        basename_of(&"dir/sub/f.txt".to_string()),
        Some("f.txt".to_string())
    );
    assert_eq!(basename_of(&"f".to_string()), Some("f".to_string()));
    assert_eq!(basename_of(&"dir/".to_string()), None);
    assert_eq!(basename_of(&"".to_string()), None);
}

#[test]
fn test_track_dir_name() {
    assert_eq!(track_dir_name(), ".track");
}

#[test]
fn test_error_messages() {
    assert_eq!(TrackError::NotFound.message(), "File doesn't exist.");
    assert_eq!(TrackError::NoTrackRepo.message(), "No track repository");
    assert_eq!(TrackError::StoreUnavailable.message(), "error creating dir");
    assert_eq!(TrackError::StoreExhausted.message(), "Unable to copy file.");
    assert_eq!(TrackError::CopyFailed.message(), "copy failed");
    assert_eq!(TrackError::ReadFailed.message(), "unable to read file");
}

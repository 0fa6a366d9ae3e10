use claude_code_sync::config_sync::{find_latest_device_config, should_auto_apply, DeviceSyncInfo};
use claude_code_sync::discovery::{
    check_directory_structure_consistency, extract_project_name, find_colliding_projects,
    find_local_project_by_cwd, find_local_project_by_name, locate_local_project,
};
use claude_code_sync::push::{
    advance_phase, build_local_index, classify_sessions, compute_relative_path,
    default_commit_message, group_conversations_by_project, plan_deletions, ConversationSummary,
    ProjectFiles, PushEvent, PushPhase, SyncOperation,
};
use claude_code_sync::session::ConversationSession;
use claude_code_sync::update::{
    check_for_update, check_for_update_silent, current_version, get_asset_name, is_newer,
    parse_tag_name,
};

fn session(path: &str, sid: &str, cwd: &str, text: &str) -> ConversationSession {
    let line = format!(
        "{{\"type\":\"user\",\"sessionId\":\"{}\",\"cwd\":\"{}\",\"message\":{{\"content\":\"{}\"}}}}",
        sid, cwd, text
    );
    ConversationSession::from_content(path, &line).unwrap()
}

#[test]
fn test_extract_project_name_basic() {
    assert_eq!(
        extract_project_name("-Users-abc-Documents-GitHub-myproject"),
        "myproject"
    );
}

#[test]
fn test_extract_project_name_simple() {
    assert_eq!(extract_project_name("myproject"), "myproject");
}

#[test]
fn test_extract_project_name_short_path() {
    assert_eq!(extract_project_name("-root-project"), "project");
}

#[test]
fn test_extract_project_name_empty() {
    assert_eq!(extract_project_name(""), "");
}

#[test]
fn test_extract_project_name_single_segment() {
    assert_eq!(extract_project_name("-myproject"), "myproject");
}

#[test]
fn test_find_local_project_by_name_single_match() {
    let dirs = vec!["-Users-abc-Documents-myproject".to_string()];
    let result = find_local_project_by_name(&dirs, "myproject");
    assert_eq!(result.unwrap(), "-Users-abc-Documents-myproject");
}

#[test]
fn test_find_local_project_by_name_no_match() {
    let dirs = vec!["-Users-abc-Documents-otherproject".to_string()];
    assert!(find_local_project_by_name(&dirs, "myproject").is_none());
}

#[test]
fn test_find_local_project_by_name_multiple_matches() {
    let dirs = vec![
        "-Users-abc-work-myproject".to_string(),
        "-Users-abc-personal-myproject".to_string(),
    ];
    assert!(find_local_project_by_name(&dirs, "myproject").is_none());
}

#[test]
fn test_find_colliding_projects_no_collisions() {
    let dirs = vec![
        "-Users-abc-project1".to_string(),
        "-Users-abc-project2".to_string(),
    ];
    assert!(find_colliding_projects(&dirs).is_empty());
}

#[test]
fn test_find_colliding_projects_with_collisions() {
    let dirs = vec![
        "-Users-abc-work-myapp".to_string(),
        "-Users-abc-personal-myapp".to_string(),
        "-Users-abc-unique".to_string(),
    ];
    let collisions = find_colliding_projects(&dirs);
    assert_eq!(collisions.len(), 1);
    assert_eq!(collisions[0].0, "myapp");
    assert_eq!(collisions[0].1.len(), 2);
}

#[test]
fn test_directory_structure_consistency() {
    let mixed = vec!["-Users-a-b-proj".to_string(), "myapp".to_string()];
    let check = check_directory_structure_consistency(&mixed, true);
    assert!(!check.is_consistent);
    assert!(check.warning.is_some());
    assert_eq!(check.full_path_dirs, vec!["-Users-a-b-proj"]);
    assert_eq!(check.project_name_dirs, vec!["myapp"]);

    let clean = vec!["myapp".to_string(), "other".to_string(), ".git".to_string()];
    let check2 = check_directory_structure_consistency(&clean, true);
    assert!(check2.is_consistent);
    assert!(check2.warning.is_none());
    // hidden directories are not classified
    assert_eq!(check2.project_name_dirs.len(), 2);

    let check3 = check_directory_structure_consistency(&clean, false);
    assert!(!check3.is_consistent);
}

#[test]
fn test_classify_sessions() {
    let local_a = session("/l/a.jsonl", "A", "/home/u/app", "first question");
    let local_b = session("/l/b.jsonl", "B", "/home/u/app", "second question");
    let synced_a = session("/r/a.jsonl", "A", "/home/u/app", "first question");
    let synced_b = session("/r/b.jsonl", "B", "/home/u/app", "older text");

    let local = vec![local_a, local_b];
    let synced = vec![synced_a, synced_b];
    let (ops, counts) = classify_sessions(&local, &synced);
    assert_eq!(ops, vec![SyncOperation::Unchanged, SyncOperation::Modified]);
    assert_eq!(counts.added, 0);
    assert_eq!(counts.modified, 1);
    assert_eq!(counts.unchanged, 1);

    let (ops2, counts2) = classify_sessions(&local, &Vec::new());
    assert_eq!(ops2, vec![SyncOperation::Added, SyncOperation::Added]);
    assert_eq!(counts2.added, 2);
}

#[test]
fn test_push_idempotent_second_run() {
    // after a push the synced tree holds exactly the local sessions:
    // a second classification finds everything unchanged and plans no
    // deletions
    let local = vec![
        session("/l/a.jsonl", "A", "/home/u/app", "one"),
        session("/l/b.jsonl", "B", "/home/u/app", "two"),
    ];
    let synced = vec![
        session("/r/a.jsonl", "A", "/home/u/app", "one"),
        session("/r/b.jsonl", "B", "/home/u/app", "two"),
    ];
    let (ops, counts) = classify_sessions(&local, &synced);
    assert!(ops.iter().all(|o| *o == SyncOperation::Unchanged));
    assert_eq!(counts.added, 0);
    assert_eq!(counts.modified, 0);

    let index = build_local_index(&local);
    let synced_tree = vec![ProjectFiles {
        name: "app".to_string(),
        files: vec!["a.jsonl".to_string(), "b.jsonl".to_string()],
    }];
    assert!(plan_deletions(&index, &synced_tree, true).is_empty());
}

#[test]
fn test_deletion_of_locally_removed_file() {
    // the local project still exists but x.jsonl is gone locally:
    // exactly that file is removed from the synced tree
    let local = vec![session("/a/myapp/y.jsonl", "Y", "/a/myapp", "kept")];
    let index = build_local_index(&local);
    let synced = vec![ProjectFiles {
        name: "myapp".to_string(),
        files: vec!["x.jsonl".to_string(), "y.jsonl".to_string()],
    }];
    let plan = plan_deletions(&index, &synced, true);
    assert_eq!(plan.len(), 1);
    assert_eq!(plan[0], ("myapp".to_string(), "x.jsonl".to_string()));
}

#[test]
fn test_deletion_scoping_protects_other_devices() {
    // a project with no local directory is never touched, so another
    // device's sessions survive a local deletion
    let local = vec![session("/a/myapp/y.jsonl", "Y", "/a/myapp", "kept")];
    let index = build_local_index(&local);
    let synced = vec![
        ProjectFiles {
            name: "otherdevice-project".to_string(),
            files: vec!["z.jsonl".to_string()],
        },
        ProjectFiles { name: "myapp".to_string(), files: vec!["y.jsonl".to_string()] },
    ];
    assert!(plan_deletions(&index, &synced, true).is_empty());
}

#[test]
fn test_memory_deletions_consider_all_files() {
    let index = vec![ProjectFiles { name: "app".to_string(), files: vec!["keep.md".to_string()] }];
    let synced = vec![ProjectFiles {
        name: "app".to_string(),
        files: vec!["keep.md".to_string(), "stale.md".to_string()],
    }];
    let plan = plan_deletions(&index, &synced, false);
    assert_eq!(plan, vec![("app".to_string(), "stale.md".to_string())]);
    // the transcript-only plan ignores non-transcript files entirely
    assert!(plan_deletions(&index, &synced, true).is_empty());
}

#[test]
fn test_compute_relative_path() {
    let s = session(
        "/home/u/.sessions/projects/-home-u-myapp/abc.jsonl",
        "S",
        "/home/u/myapp",
        "hi",
    );
    // project-name-only mode: the file lands under the project name
    let p = compute_relative_path(&s, "/home/u/.sessions/projects", true).unwrap();
    assert_eq!(p, "myapp/abc.jsonl");
    // full-path mode: the local layout is kept
    let q = compute_relative_path(&s, "/home/u/.sessions/projects", false).unwrap();
    assert_eq!(q, "-home-u-myapp/abc.jsonl");

    // no recorded working directory: skipped in project-name-only mode
    let line = "{\"type\":\"user\",\"sessionId\":\"T\"}";
    let t = ConversationSession::from_content("/home/u/.sessions/projects/x/t.jsonl", line).unwrap();
    assert!(compute_relative_path(&t, "/home/u/.sessions/projects", true).is_none());
}

#[test]
fn test_push_phases() {
    let mut p = PushPhase::Initializing;
    let order = [
        PushPhase::DiscoveringLocal,
        PushPhase::CheckingLayout,
        PushPhase::DiscoveringSynced,
        PushPhase::Diffing,
        PushPhase::Writing,
        PushPhase::SyncingMemory,
        PushPhase::Committing,
        PushPhase::RecordingHistory,
        PushPhase::Done,
    ];
    for next in order {
        p = advance_phase(p, PushEvent::Proceed, false, false);
        assert_eq!(p, next);
    }
    // interactive mode inserts the confirmation gate
    let gated = advance_phase(PushPhase::Diffing, PushEvent::Proceed, true, false);
    assert_eq!(gated, PushPhase::ConfirmPending);
    // declining it is a clean no-op exit
    assert_eq!(
        advance_phase(PushPhase::ConfirmPending, PushEvent::Declined, true, false),
        PushPhase::Done
    );
    // a requested remote push adds the pushing stage
    assert_eq!(
        advance_phase(PushPhase::Committing, PushEvent::Proceed, false, true),
        PushPhase::Pushing
    );
    assert_eq!(
        advance_phase(PushPhase::Writing, PushEvent::Failure, false, false),
        PushPhase::Failed
    );
}

#[test]
fn test_default_commit_message() {
    assert_eq!(
        default_commit_message(12, "2025-06-07 08:09:10 UTC"),
        "Sync 12 sessions at 2025-06-07 08:09:10 UTC"
    );
}

#[test]
fn test_find_latest_device_config() {
    let devices = vec![
        DeviceSyncInfo {
            device: "laptop".to_string(),
            platform: "macos".to_string(),
            last_sync: "2025-01-01T00:00:00Z".to_string(),
        },
        DeviceSyncInfo {
            device: "desktop".to_string(),
            platform: "linux".to_string(),
            last_sync: "2025-02-01T00:00:00Z".to_string(),
        },
        DeviceSyncInfo {
            device: "broken".to_string(),
            platform: "linux".to_string(),
            last_sync: "garbage".to_string(),
        },
    ];
    assert_eq!(
        find_latest_device_config(&devices, "laptop").unwrap(),
        "desktop"
    );
    // the current device itself is never chosen
    assert_eq!(
        find_latest_device_config(&devices, "desktop").unwrap(),
        "laptop"
    );
    let only_broken = vec![DeviceSyncInfo {
        device: "broken".to_string(),
        platform: "linux".to_string(),
        last_sync: "garbage".to_string(),
    }];
    assert!(find_latest_device_config(&only_broken, "other").is_none());
}

#[test]
fn test_device_recency_subsecond() {
    // records less than a second apart are still ordered
    let devices = vec![
        DeviceSyncInfo {
            device: "slow".to_string(),
            platform: "linux".to_string(),
            last_sync: "2025-02-01T00:00:00.100Z".to_string(),
        },
        DeviceSyncInfo {
            device: "fast".to_string(),
            platform: "linux".to_string(),
            last_sync: "2025-02-01T00:00:00.900Z".to_string(),
        },
    ];
    assert_eq!(find_latest_device_config(&devices, "me").unwrap(), "fast");
}

#[test]
fn test_should_auto_apply() {
    assert!(should_auto_apply(100, None));
    assert!(should_auto_apply(100, Some(99)));
    assert!(!should_auto_apply(100, Some(100)));
    assert!(!should_auto_apply(100, Some(101)));
}

#[test]
fn test_is_newer() {
    assert!(is_newer("v0.2.0", "0.1.0"));
    assert!(is_newer("v0.1.2", "0.1.1"));
    assert!(is_newer("1.0.0", "0.9.9"));
    assert!(is_newer("v0.1.10", "v0.1.9"));

    assert!(!is_newer("v0.1.0", "0.1.0"));
    assert!(!is_newer("v0.1.0", "0.2.0"));
    assert!(!is_newer("0.1.1", "0.1.2"));
}

#[test]
fn test_is_newer_with_prerelease() {
    assert!(is_newer("v0.2.0-beta", "0.1.0"));
    assert!(!is_newer("v0.1.0-beta", "0.1.0"));
}

#[test]
fn test_get_asset_name() {
    let name = get_asset_name("session-sync", "linux", "x86_64").unwrap();
    assert!(name.contains("linux"));
    assert!(name.contains("x86_64"));
    assert!(name.ends_with(".tar.gz"));
    assert_eq!(name, "session-sync-linux-x86_64.tar.gz");
    let win = get_asset_name("session-sync", "windows", "aarch64").unwrap();
    assert!(win.ends_with(".zip"));
    assert!(get_asset_name("session-sync", "plan9", "x86_64").is_none());
}

#[test]
fn test_current_version() {
    let version = current_version();
    assert!(version.split('.').count() >= 2);
}

#[test]
fn test_parse_tag_name_and_update_check() {
    let compact = "{\"tag_name\":\"v9.9.9\",\"name\":\"release\"}";
    assert_eq!(parse_tag_name(compact).unwrap(), "v9.9.9");
    let pretty = "{\n  \"tag_name\": \"v0.0.1\"\n}";
    assert_eq!(parse_tag_name(pretty).unwrap(), "v0.0.1");
    assert!(parse_tag_name("{}").is_none());

    assert_eq!(check_for_update("v9.9.9").unwrap(), "v9.9.9");
    assert!(check_for_update("v0.0.1").is_none());
    assert_eq!(check_for_update_silent(Some(compact)).unwrap(), "v9.9.9");
    assert!(check_for_update_silent(None).is_none());
}

fn conv(project_path: &str, op: SyncOperation) -> ConversationSummary {
    ConversationSummary {
        session_id: "s".to_string(),
        project_path: project_path.to_string(),
        timestamp: None,
        message_count: 1,
        operation: op,
    }
}

#[test]
fn test_group_conversations_by_project() {
    let convs = vec![
        conv("alpha/a.jsonl", SyncOperation::Added),
        conv("beta/b.jsonl", SyncOperation::Modified),
        conv("alpha/c.jsonl", SyncOperation::Unchanged),
        conv("alpha/d.jsonl", SyncOperation::Modified),
    ];
    let groups = group_conversations_by_project(&convs);
    assert_eq!(groups.len(), 2);
    assert_eq!(groups[0].0, "alpha");
    // the unchanged conversation is left out of the report
    assert_eq!(groups[0].1.len(), 2);
    assert_eq!(groups[0].1[0].project_path, "alpha/a.jsonl");
    assert_eq!(groups[0].1[1].project_path, "alpha/d.jsonl");
    assert_eq!(groups[1].0, "beta");
    assert_eq!(groups[1].1.len(), 1);
}

#[test]
fn test_plan_deletions_has_no_duplicates() {
    // a double listing of one synced project still plans each file once
    let local = vec![session("/a/myapp/y.jsonl", "Y", "/a/myapp", "kept")];
    let index = build_local_index(&local);
    let synced = vec![
        ProjectFiles { name: "myapp".to_string(), files: vec!["x.jsonl".to_string()] },
        ProjectFiles { name: "myapp".to_string(), files: vec!["x.jsonl".to_string()] },
    ];
    let plan = plan_deletions(&index, &synced, true);
    assert_eq!(plan, vec![("myapp".to_string(), "x.jsonl".to_string())]);
}

#[test]
fn test_find_local_project_by_cwd() {
    // the first session that records a working directory decides for
    // its whole directory; a mismatch skips the directory entirely
    let decided_other = session("/p/-x/a.jsonl", "A", "/work/otherproject", "hello");
    let also_mine = session("/p/-x/b.jsonl", "B", "/work/myproject", "hello");
    let mine = session("/p/-y/c.jsonl", "C", "/work/myproject", "hello");
    let dirs = vec![
        ("-x".to_string(), vec![decided_other, also_mine]),
        ("-y".to_string(), vec![mine]),
    ];
    assert_eq!(find_local_project_by_cwd(&dirs, "myproject").unwrap(), "-y");
    assert!(find_local_project_by_cwd(&dirs, "absent").is_none());
}

#[test]
fn test_locate_local_project_composes_both_passes() {
    // one encoded match: the name pass settles it
    let dirs = vec!["-Users-abc-myproject".to_string(), "-Users-abc-other".to_string()];
    let none_parsed: Vec<(String, Vec<ConversationSession>)> = Vec::new();
    assert_eq!(
        locate_local_project(&dirs, &none_parsed, "myproject").unwrap(),
        "-Users-abc-myproject"
    );
    // an ambiguous encoded name falls back to the transcripts' own cwd
    let ambiguous = vec![
        "-Users-a-myproject".to_string(),
        "-Users-b-myproject".to_string(),
    ];
    let parsed = vec![
        (
            "-Users-a-myproject".to_string(),
            vec![session("/p/-a/x.jsonl", "X", "/Users/a/otherthing", "hi")],
        ),
        (
            "-Users-b-myproject".to_string(),
            vec![session("/p/-b/y.jsonl", "Y", "/Users/b/myproject", "hi")],
        ),
    ];
    assert_eq!(
        locate_local_project(&ambiguous, &parsed, "myproject").unwrap(),
        "-Users-b-myproject"
    );
    assert!(locate_local_project(&ambiguous, &parsed, "absent").is_none());
}

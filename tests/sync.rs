use fish_sync::{
    fish_follow_up, get_last_synced_timestamp, get_synced_uuids, select_unsynced, sync_entries,
    trim_fish_history, Cmd, FishSync, History,
};

fn settings(enabled: bool, max_entries: usize) -> FishSync {
    FishSync {
        enabled,
        history_path: "fish_history".to_string(),
        max_entries,
        sync_on_startup: false,
        sync_all_on_cli: false,
    }
}

fn history(id: &str, timestamp: i64, command: &str) -> History {
    History::new(id.to_string(), timestamp, command.to_string())
}

fn test_history() -> History {
    history("00000000-0000-0000-0000-000000000001", 0, "git status")
}

/// Does to `log` what appending `entries` to the file does: each entry is
/// appended, then the log is trimmed to the bound.
fn append(log: &mut String, entries: &[History], settings: &FishSync) {
    for entry in sync_entries(entries, settings) {
        log.push_str(&entry);
        if let Some(trimmed) = trim_fish_history(log, settings.max_entries) {
            *log = trimmed;
        }
    }
}

fn count_entries(log: &str) -> usize {
    log.matches("- cmd:").count()
}

#[test]
fn test_sync_entry_appends_to_existing_file() {
    let settings = settings(true, 1000);
    let mut log = "- cmd:initial\n  when:1000\n  # atuin-uuid:00000000-0000-0000-0000-000000000001\n"
        .to_string();
    let history1 = test_history();
    let history2 = history("00000000-0000-0000-0000-000000000002", 0, "git status");
    append(&mut log, &[history1.duplicate()], &settings);
    append(&mut log, &[history2.duplicate()], &settings);
    assert!(log.contains("initial"));
    assert!(log.contains(&history1.command));
    assert!(log.contains(&history2.id));
}

#[test]
fn test_sync_entry_with_disabled_setting() {
    let settings = settings(false, 1000);
    assert!(sync_entries(&[test_history()], &settings).is_empty());
}

#[test]
fn test_sync_entry_triggers_trim() {
    let settings = settings(true, 3);
    let mut log = String::new();
    for i in 1..=5 {
        log.push_str(&format!(
            "- cmd:test{}\n  when:{}\n  # atuin-uuid:00000000-0000-0000-0000-00000000000{}\n",
            i,
            i * 1000,
            i
        ));
    }
    let h = history("00000000-0000-0000-0000-000000000006", 0, "git status");
    append(&mut log, &[h], &settings);
    assert_eq!(count_entries(&log), 3);
}

#[test]
fn test_sync_entries_multiple() {
    let settings = settings(true, 1000);
    let entries = vec![
        test_history(),
        history("00000000-0000-0000-0000-000000000002", 0, "git status"),
        history("00000000-0000-0000-0000-000000000003", 0, "git status"),
    ];
    let mut log = String::new();
    append(&mut log, &entries, &settings);
    assert_eq!(count_entries(&log), 3);
}

#[test]
fn test_sync_entries_empty_list() {
    let settings = settings(true, 1000);
    assert!(sync_entries(&[], &settings).is_empty());
}

#[test]
fn test_sync_entries_with_disabled_setting() {
    let settings = settings(false, 1000);
    let entries = vec![test_history()];
    assert!(sync_entries(&entries, &settings).is_empty());
}

#[test]
fn test_bootstrap_fish_history_filters_synced_uuids() {
    let log = "- cmd:test1\n  when:1000\n  # atuin-uuid:00000000-0000-0000-0000-000000000001\n\
               - cmd:test2\n  when:2000\n  # atuin-uuid:00000000-0000-0000-0000-000000000002\n";
    let synced = get_synced_uuids(log);
    assert_eq!(synced.len(), 2);
    assert!(synced.iter().any(|s| s == "00000000-0000-0000-0000-000000000001"));
    assert!(synced.iter().any(|s| s == "00000000-0000-0000-0000-000000000002"));
}

#[test]
fn test_bootstrap_fish_history_empty_fish_history() {
    assert_eq!(get_synced_uuids("").len(), 0);
}

#[test]
fn test_bootstrap_fish_history_with_disabled_setting() {
    let settings = settings(false, 1000);
    let mut log = String::new();
    append(&mut log, &[test_history()], &settings);
    assert!(log.is_empty());
}

#[test]
fn test_sync_entry_with_settings() {
    let settings = settings(true, 1000);
    let mut log = String::new();
    append(&mut log, &[history("00000000-0000-0000-0000-000000000001", 1000, "git status")], &settings);
    assert!(!log.is_empty());
    assert!(log.contains("git status"));
    assert!(log.contains("00000000-0000-0000-0000-000000000001"));
}

#[test]
fn test_sync_multiple_entries_sequential() {
    let settings = settings(true, 1000);
    let entries = vec![
        history("00000000-0000-0000-0000-000000000001", 1000, "git status"),
        history("00000000-0000-0000-0000-000000000002", 2000, "ls -la"),
        history("00000000-0000-0000-0000-000000000003", 3000, "cargo test"),
    ];
    let mut log = String::new();
    for entry in &entries {
        append(&mut log, &[entry.duplicate()], &settings);
    }
    assert_eq!(count_entries(&log), 3);
    assert_eq!(get_synced_uuids(&log).len(), 3);
}

#[test]
fn test_sync_entry_disabled_does_not_create_file() {
    let settings = settings(false, 1000);
    let h = history("00000000-0000-0000-0000-000000000001", 1000, "git status");
    assert!(sync_entries(&[h], &settings).is_empty());
}

#[test]
fn test_trim_fish_history_integration() {
    let settings = settings(true, 1000);
    let mut log = String::new();
    for i in 1..=20_i64 {
        let id = format!("00000000-0000-0000-0000-00000000000{:02}", i);
        append(&mut log, &[history(&id, i * 1000, &format!("test command {}", i))], &settings);
    }
    assert_eq!(count_entries(&log), 20);
    let settings_with_trim = self::settings(true, 10);
    let new_history = history("00000000-0000-0000-0000-000000000021", 21000, "new command");
    append(&mut log, &[new_history], &settings_with_trim);
    assert_eq!(count_entries(&log), 10);
}

#[test]
fn test_get_synced_uuids_integration() {
    let settings = settings(true, 1000);
    let entries = vec![
        history("00000000-0000-0000-0000-000000000001", 1000, "cmd1"),
        history("00000000-0000-0000-0000-000000000002", 2000, "cmd2"),
        history("00000000-0000-0000-0000-000000000003", 3000, "cmd3"),
    ];
    let mut log = String::new();
    append(&mut log, &entries, &settings);
    let synced = get_synced_uuids(&log);
    assert_eq!(synced.len(), 3);
    assert!(synced.iter().any(|s| s == "00000000-0000-0000-0000-000000000001"));
    assert!(synced.iter().any(|s| s == "00000000-0000-0000-0000-000000000002"));
    assert!(synced.iter().any(|s| s == "00000000-0000-0000-0000-000000000003"));
}

#[test]
fn test_no_duplicate_entries_on_re_sync() {
    let settings = settings(true, 1000);
    let h = history("00000000-0000-0000-0000-000000000001", 1000, "git status");
    let mut log = String::new();
    append(&mut log, &[h.duplicate()], &settings);
    append(&mut log, &[h.duplicate()], &settings);
    append(&mut log, &[h.duplicate()], &settings);
    // A single append does not look for the record in the log.
    assert_eq!(count_entries(&log), 3);
}

#[test]
fn test_get_last_synced_timestamp_integration() {
    let settings = settings(true, 1000);
    let entries = vec![
        history("00000000-0000-0000-0000-000000000001", 1000, "cmd1"),
        history("00000000-0000-0000-0000-000000000002", 2000, "cmd2"),
        history("00000000-0000-0000-0000-000000000003", 5000, "cmd3"),
    ];
    let mut log = String::new();
    append(&mut log, &entries, &settings);
    assert_eq!(get_last_synced_timestamp(&log), Some(5000));
}

#[test]
fn test_special_characters_in_commands() {
    let settings = settings(true, 1000);
    let cases = vec![
        ("echo 'hello world'", "00000000-0000-0000-0000-000000000001", 1000),
        ("echo \"hello\\nworld\"", "00000000-0000-0000-0000-000000000002", 2000),
        ("ls path\\to\\file", "00000000-0000-0000-0000-000000000003", 3000),
        ("cargo build --release", "00000000-0000-0000-0000-000000000004", 4000),
    ];
    let mut log = String::new();
    for (cmd, id, ts) in &cases {
        append(&mut log, &[history(id, *ts, cmd)], &settings);
    }
    assert!(log.contains("echo 'hello world'"));
    assert!(log.contains("echo"));
    assert!(log.contains("hello"));
    assert!(log.contains("world"));
    assert!(log.contains("cargo build --release"));
}

#[test]
fn test_trim_with_max_entries_zero() {
    let settings = settings(true, 0);
    let mut log = String::new();
    for i in 1..=100_i64 {
        let id = format!("00000000-0000-0000-0000-00000000000{:02}", i % 100 + 1);
        append(&mut log, &[history(&id, i * 1000, &format!("cmd{}", i))], &settings);
    }
    assert_eq!(count_entries(&log), 100);
}

#[test]
fn appending_to_an_empty_log_gives_one_entry() {
    let settings = settings(true, 1000);
    let mut log = String::new();
    append(&mut log, &[history("A", 1000, "git status")], &settings);
    let lines: Vec<&str> = log.lines().collect();
    assert_eq!(lines, vec!["- cmd:git status", "  when:1000", "  # atuin-uuid:A"]);
}

#[test]
fn ten_appends_give_thirty_well_formed_lines() {
    let settings = settings(true, 0);
    let entries: Vec<History> = (0..10)
        .map(|i| history(&format!("{:032}", i), i, &format!("test command {}", i)))
        .collect();
    let mut log = String::new();
    append(&mut log, &entries, &settings);
    let lines: Vec<&str> = log.lines().collect();
    assert_eq!(lines.len(), 30);
    for i in 0..10 {
        assert_eq!(lines[3 * i], format!("- cmd:test command {}", i));
        assert_eq!(lines[3 * i + 1], format!("  when:{}", i));
        assert_eq!(lines[3 * i + 2], format!("  # atuin-uuid:{:032}", i));
    }
}

#[test]
fn select_unsynced_keeps_order_and_drops_synced() {
    let records = vec![history("1", 1, "a"), history("2", 2, "b"), history("3", 3, "c")];
    let synced = vec!["2".to_string(), "9".to_string()];
    let fresh = select_unsynced(&records, &synced);
    let ids: Vec<&str> = fresh.iter().map(|h| h.id.as_str()).collect();
    assert_eq!(ids, vec!["1", "3"]);
    assert_eq!(fresh[1].command, "c");
    assert_eq!(fresh[1].timestamp, 3);
}

#[test]
fn reconciling_twice_appends_nothing_the_second_time() {
    let settings = settings(true, 0);
    let records = vec![
        history("00000000-0000-0000-0000-000000000001", 1000, "cmd1"),
        history("00000000-0000-0000-0000-000000000002", 2000, "cmd2"),
        history("00000000-0000-0000-0000-000000000003", 3000, "cmd3"),
    ];
    let mut log = "- cmd:native\n  when:10\n  # atuin-uuid:00000000-0000-0000-0000-000000000002\n"
        .to_string();
    let first = select_unsynced(&records, &get_synced_uuids(&log));
    assert_eq!(first.len(), 2);
    append(&mut log, &first, &settings);
    let second = select_unsynced(&records, &get_synced_uuids(&log));
    assert!(second.is_empty());
    assert_eq!(count_entries(&log), 3);
}

#[test]
fn startup_check_answers_only_for_the_check() {
    let mut s = settings(true, 0);
    let check = Cmd::Sync { force: false, should_fish_sync: true };
    assert_eq!(check.fish_sync_check(&s), Some(false));
    s.sync_on_startup = true;
    assert_eq!(check.fish_sync_check(&s), Some(true));
    let plain = Cmd::Sync { force: true, should_fish_sync: false };
    assert_eq!(plain.fish_sync_check(&s), None);
    assert_eq!(Cmd::Status.fish_sync_check(&s), None);
}

#[test]
fn follow_up_after_a_sync() {
    let mut s = settings(true, 0);
    let r = fish_follow_up(&s, 3);
    assert!(r.sync_downloaded);
    assert!(!r.sync_all);
    assert!(!fish_follow_up(&s, 0).sync_downloaded);
    s.enabled = false;
    s.sync_all_on_cli = true;
    let r = fish_follow_up(&s, 3);
    assert!(!r.sync_downloaded);
    assert!(r.sync_all);
}

#[test]
fn no_bound_fetches_every_record() {
    assert_eq!(fish_sync::fetch_limit(&settings(true, 0)), None);
    assert_eq!(fish_sync::fetch_limit(&settings(true, 25)), Some(25));
}

#[test]
fn a_marker_inside_a_command_splits_its_entry() {
    // The entry holds a second marker, so a bound of one cuts it.
    let settings = settings(true, 1);
    let mut log = String::new();
    append(&mut log, &[history("A", 1, "echo - cmd:x")], &settings);
    assert_eq!(log, "- cmd:x\n  when:1\n  # atuin-uuid:A\n");
}

#[test]
fn reconciling_twice_under_a_bound_that_drops_only_native_entries() {
    let settings = settings(true, 2);
    let records = vec![history("R1", 10, "one"), history("R2", 20, "two")];
    let mut log = "- cmd:native\n  when:5\n".to_string();
    let first = select_unsynced(&records, &get_synced_uuids(&log));
    assert_eq!(first.len(), 2);
    append(&mut log, &first, &settings);
    assert!(!log.contains("native"));
    let second = select_unsynced(&records, &get_synced_uuids(&log));
    assert!(second.is_empty());
}

use fish_sync::{decode_id, decode_timestamp, escape_command, format_fish_entry, History};

fn history(id: &str, timestamp: i64, command: &str) -> History {
    History::new(id.to_string(), timestamp, command.to_string())
}

#[test]
fn test_format_fish_entry() {
    let h = history("00000000-0000-0000-0000-000000000001", 0, "git status");
    let formatted = format_fish_entry(&h);
    assert!(formatted.contains("- cmd:git status"));
    assert!(formatted.contains("  when:0"));
    assert!(formatted.contains("  # atuin-uuid:"));
    assert!(formatted.contains("00000000-0000-0000-0000-000000000001"));
}

#[test]
fn fish_sync_test_format_fish_entry() {
    let h = history("00000000-0000-0000-000000000000001", 0, "git status");
    let formatted = format_fish_entry(&h);
    assert!(formatted.contains("- cmd:git status"));
    assert!(formatted.contains("  when:0"));
    assert!(formatted.contains("  # atuin-uuid:"));
}

#[test]
fn test_format_fish_entry_with_special_chars() {
    let h = history("00000000-0000-0000-0000-000000000002", 0, "echo \"hello\\nworld\"");
    let formatted = format_fish_entry(&h);
    assert!(formatted.contains("echo"));
    assert!(formatted.contains("hello"));
    assert!(formatted.contains("world"));
    assert!(formatted.contains("  # atuin-uuid:"));
}

#[test]
fn test_format_fish_entry_with_newlines() {
    let h = history("00000000-0000-0000-0000-000000000003", 0, "echo 'line1\nline2'");
    let formatted = format_fish_entry(&h);
    assert!(formatted.contains("echo 'line1\\nline2'"));
}

#[test]
fn test_format_fish_entry_with_backslashes() {
    let h = history("00000000-0000-0000-0000-000000000004", 0, "echo 'path\\to\\file'");
    let formatted = format_fish_entry(&h);
    assert!(formatted.contains("echo 'path\\\\to\\\\file'"));
}

#[test]
fn entry_is_exactly_three_lines() {
    let h = history("A", 1000, "git status");
    assert_eq!(
        format_fish_entry(&h),
        "- cmd:git status\n  when:1000\n  # atuin-uuid:A\n"
    );
}

#[test]
fn newline_in_command_is_written_as_backslash_n() {
    let h = history("B", 5, "a\nb");
    let formatted = format_fish_entry(&h);
    let first = formatted.lines().next().unwrap();
    assert_eq!(first, "- cmd:a\\nb");
    assert_eq!(formatted.lines().count(), 3);
}

#[test]
fn escaping_doubles_backslashes_before_newlines() {
    assert_eq!(escape_command("a\\\nb"), "a\\\\\\nb");
    assert_eq!(escape_command("tab\there \"q\" é"), "tab\there \"q\" é");
    assert_eq!(escape_command(""), "");
}

#[test]
fn negative_and_extreme_timestamps_are_written_in_decimal() {
    let h = history("C", -42, "ls");
    assert!(format_fish_entry(&h).contains("  when:-42\n"));
    let h = history("D", i64::MIN, "ls");
    assert!(format_fish_entry(&h).contains("  when:-9223372036854775808\n"));
    let h = history("E", i64::MAX, "ls");
    assert!(format_fish_entry(&h).contains("  when:9223372036854775807\n"));
}

#[test]
fn decoding_fields_of_an_entry_gives_them_back() {
    for (id, ts, cmd) in [
        ("00000000-0000-0000-0000-000000000001", 1000_i64, "git status"),
        ("x", -7, "a\nb\\c"),
        ("y", i64::MIN, ""),
    ] {
        let formatted = format_fish_entry(&history(id, ts, cmd));
        let lines: Vec<&str> = formatted.lines().collect();
        assert_eq!(lines.len(), 3);
        assert_eq!(decode_timestamp(lines[1]), Some(ts));
        assert_eq!(decode_id(lines[2]), Some(id.to_string()));
    }
}

#[test]
fn decode_timestamp_rejects_other_lines() {
    assert_eq!(decode_timestamp("  when:42"), Some(42));
    assert_eq!(decode_timestamp("  when:+42"), Some(42));
    assert_eq!(decode_timestamp("  when:"), None);
    assert_eq!(decode_timestamp("  when:-"), None);
    assert_eq!(decode_timestamp("  when:12x"), None);
    assert_eq!(decode_timestamp("  when: 12"), None);
    assert_eq!(decode_timestamp("  when:9223372036854775808"), None);
    assert_eq!(decode_timestamp("when:12"), None);
    assert_eq!(decode_timestamp("- cmd:12"), None);
}

#[test]
fn decode_id_takes_what_follows_the_prefix() {
    assert_eq!(decode_id("  # atuin-uuid:abc"), Some("abc".to_string()));
    assert_eq!(decode_id("  # atuin-uuid:"), Some(String::new()));
    assert_eq!(decode_id("  # atuin-uuid"), None);
    assert_eq!(decode_id("# atuin-uuid:abc"), None);
}

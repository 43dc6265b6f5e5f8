use fish_sync::{get_last_synced_timestamp, get_synced_uuids};

fn has(ids: &[String], id: &str) -> bool {
    ids.iter().any(|s| s == id)
}

#[test]
fn test_get_synced_uuids() {
    let content = "- cmd:test1\n  when:1000\n  # atuin-uuid:00000000-0000-0000-0000-000000000001\n\
                    - cmd:test2\n  when:2000\n  # atuin-uuid:00000000-0000-0000-0000-000000000002\n\
                    - cmd:test3\n  when:3000\n  # atuin-uuid:00000000-0000-0000-0000-000000000003\n";
    let uuids = get_synced_uuids(content);
    assert_eq!(uuids.len(), 3);
    assert!(has(&uuids, "00000000-0000-0000-0000-000000000001"));
    assert!(has(&uuids, "00000000-0000-0000-0000-000000000002"));
    assert!(has(&uuids, "00000000-0000-0000-0000-000000000003"));
}

#[test]
fn test_get_synced_uuids_empty_file() {
    let uuids = get_synced_uuids("");
    assert_eq!(uuids.len(), 0);
}

#[test]
fn test_get_synced_uuids_no_uuids() {
    let content = "- cmd:test1\n  when:1000\n- cmd:test2\n  when:2000\n";
    let uuids = get_synced_uuids(content);
    assert_eq!(uuids.len(), 0);
}

#[test]
fn test_get_last_synced_timestamp() {
    let content = "- cmd:test1\n  when:1000\n- cmd:test2\n  when:2000\n- cmd:test3\n  when:3000\n";
    assert_eq!(get_last_synced_timestamp(content), Some(3000));
}

#[test]
fn test_get_last_synced_timestamp_empty_file() {
    assert_eq!(get_last_synced_timestamp(""), None);
}

#[test]
fn test_empty_fish_history_file() {
    let uuids = get_synced_uuids("");
    assert_eq!(uuids.len(), 0);
    assert_eq!(get_last_synced_timestamp(""), None);
}

#[test]
fn test_uuid_extraction_with_malformed_entries() {
    let content = "- cmd:cmd1\n  when:1000\n  # atuin-uuid:00000000-0000-0000-0000-000000000001\n\
                    - cmd:cmd2\n  when:2000\n\
                    - cmd:cmd3\n  when:3000\n  # atuin-uuid:00000000-0000-0000-0000-000000000003\n\
                    - cmd:cmd4\n  when:4000\n";
    let uuids = get_synced_uuids(content);
    assert_eq!(uuids.len(), 2);
    assert!(has(&uuids, "00000000-0000-0000-0000-000000000001"));
    assert!(has(&uuids, "00000000-0000-0000-0000-000000000003"));
}

#[test]
fn duplicate_identifiers_collapse() {
    let content = "- cmd:a\n  when:1\n  # atuin-uuid:X\n- cmd:b\n  when:2\n  # atuin-uuid:X\n";
    assert_eq!(get_synced_uuids(content), vec!["X".to_string()]);
}

#[test]
fn scanning_is_repeatable_and_ignores_order() {
    let a = "- cmd:a\n  when:1\n  # atuin-uuid:A\n";
    let b = "- cmd:b\n  when:2\n  # atuin-uuid:B\n";
    let ab = format!("{a}{b}");
    let ba = format!("{b}{a}");
    let mut first = get_synced_uuids(&ab);
    let second = get_synced_uuids(&ab);
    assert_eq!(first, second);
    let mut other = get_synced_uuids(&ba);
    first.sort();
    other.sort();
    assert_eq!(first, other);
}

#[test]
fn last_timestamp_skips_malformed_lines() {
    let content = "- cmd:a\n  when:1000\n- cmd:b\n  when:oops\n- cmd:c\n";
    assert_eq!(get_last_synced_timestamp(content), Some(1000));
    assert_eq!(get_last_synced_timestamp("- cmd:a\n"), None);
    assert_eq!(get_last_synced_timestamp("  when:-5"), Some(-5));
}

#[test]
fn crlf_metadata_lines_give_the_bare_id() {
    let content = "- cmd:a\r\n  when:1\r\n  # atuin-uuid:X\r\n";
    assert_eq!(get_synced_uuids(content), vec!["X".to_string()]);
}

#[test]
fn crlf_and_lf_endings_give_the_same_ids() {
    let crlf = "- cmd:a\r\n  when:1\r\n  # atuin-uuid:X\r\n- cmd:b\n  when:2\n  # atuin-uuid:Y\n";
    let lf = "- cmd:b\n  when:2\n  # atuin-uuid:Y\n- cmd:a\n  when:1\n  # atuin-uuid:X\n";
    let mut a = get_synced_uuids(crlf);
    let mut b = get_synced_uuids(lf);
    a.sort();
    b.sort();
    assert_eq!(a, b);
    assert_eq!(a, vec!["X".to_string(), "Y".to_string()]);
}

#[test]
fn crlf_timestamp_line_is_read() {
    assert_eq!(get_last_synced_timestamp("  when:1000\r\n"), Some(1000));
    assert_eq!(get_last_synced_timestamp("- cmd:a\r\n  when:7\r\n  # atuin-uuid:X\r\n"), Some(7));
}

#[test]
fn only_the_carriage_return_before_a_newline_is_dropped() {
    // As `str::lines` reads it: a last line without a newline keeps its `\r`,
    // and only one `\r` goes before each newline.
    assert_eq!(get_synced_uuids("  # atuin-uuid:X\r"), vec!["X\r".to_string()]);
    assert_eq!(get_synced_uuids("  # atuin-uuid:X\r\r\n"), vec!["X\r".to_string()]);
    assert_eq!(get_last_synced_timestamp("  when:5\r"), None);
}

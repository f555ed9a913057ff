use hostsguard::history::{
    cleanup_old_history, count_entries, find_history_entry, free_snapshot_name, list_history_entries,
    snapshot_filename, verify_host_file, write_history_snapshot_name, HistoryEntry, VerifyError,
};
use hostsguard::hosts::ParseError;

fn entry(name: &str, timestamp: u64) -> HistoryEntry {
    HistoryEntry {
        filename: name.to_string(),
        path: format!("/h/{}", name),
        timestamp,
        entry_count: 1,
        file_size: 20,
    }
}

#[test]
fn test_verify_valid_host_file() {
    assert!(verify_host_file("127.0.0.1 localhost\n").is_ok());
}

#[test]
fn test_verify_empty_file() {
    assert!(verify_host_file("").is_err());
}

#[test]
fn verify_reports_each_failure() {
    assert!(matches!(verify_host_file(" \n\t\n"), Err(VerifyError::Empty)));
    assert!(matches!(verify_host_file("# x\nalone\n"), Err(VerifyError::Parse(ParseError { line: 2 }))));
    let long = format!("127.0.0.1 {}.com\n", "a".repeat(250));
    assert!(matches!(verify_host_file(&long), Err(VerifyError::InvalidHostname(h)) if h.len() == 254));
}

#[test]
fn entries_are_counted() {
    assert_eq!(count_entries("127.0.0.1 localhost\n"), 1);
    assert_eq!(count_entries("# c\n\n  \n1.2.3.4 a\n  # d\n::1 b c\n"), 2);
    assert_eq!(count_entries(""), 0);
}

#[test]
fn snapshot_names_follow_the_pattern() {
    assert_eq!(
        snapshot_filename("2024-01-02-03-04-05", 123, 0),
        "hosts-backup-2024-01-02-03-04-05-123-0.txt"
    );
    let taken = vec![
        "hosts-backup-S-7-0.txt".to_string(),
        "hosts-backup-S-7-1.txt".to_string(),
        "other.txt".to_string(),
    ];
    assert_eq!(free_snapshot_name(&taken, "S", 7), Some("hosts-backup-S-7-2.txt".to_string()));
    assert_eq!(free_snapshot_name(&vec![], "S", 7), Some("hosts-backup-S-7-0.txt".to_string()));
    let name = write_history_snapshot_name(&vec![], 1_700_000_000, 5).unwrap();
    assert!(name.starts_with("hosts-backup-"));
    assert!(name.ends_with("-5-0.txt"));
    assert_eq!(name.len(), "hosts-backup-".len() + 19 + "-5-0.txt".len());
}

#[test]
fn listing_is_newest_first() {
    let listed = list_history_entries(vec![entry("a", 5), entry("b", 9), entry("c", 1), entry("d", 7)]);
    let names: Vec<&str> = listed.iter().map(|e| e.filename.as_str()).collect();
    assert_eq!(names, vec!["b", "d", "a", "c"]);
}

#[test]
fn cleanup_keeps_the_newest() {
    let all: Vec<HistoryEntry> = (1..=5u64).map(|t| entry(&format!("s{}", t), t * 10)).collect();
    let plan = cleanup_old_history(all, 3);
    let keep: Vec<&str> = plan.keep.iter().map(|e| e.filename.as_str()).collect();
    let remove: Vec<&str> = plan.remove.iter().map(|e| e.filename.as_str()).collect();
    assert_eq!(keep, vec!["s5", "s4", "s3"]);
    assert_eq!(remove.len(), 2);
    assert!(remove.contains(&"s1") && remove.contains(&"s2"));
    let few = cleanup_old_history(vec![entry("x", 1)], 3);
    assert_eq!(few.keep.len(), 1);
    assert!(few.remove.is_empty());
}

#[test]
fn entries_are_found_by_name() {
    let all = vec![entry("a", 1), entry("b", 2)];
    assert_eq!(find_history_entry(&all, "b"), Some(1));
    assert_eq!(find_history_entry(&all, "zz"), None);
}

#[test]
fn test_write_history_snapshot() {
    let content = "127.0.0.1 localhost\n";
    let name = write_history_snapshot_name(&vec![], 1_700_000_000, 0);
    assert!(name.is_some());
    assert!(count_entries(content) > 0);
}

#[test]
fn test_list_history_entries() {
    let entries = list_history_entries(vec![entry("a", 1), entry("b", 2)]);
    assert_eq!(entries.len(), 2);
}

#[test]
fn test_cleanup_old_history() {
    let all: Vec<HistoryEntry> = (0..5u64).map(|t| entry(&format!("e{}", t), t)).collect();
    let plan = cleanup_old_history(all, 3);
    assert_eq!(plan.keep.len(), 3);
}

#[test]
fn unicode_white_space_counts_as_empty() {
    assert!(matches!(verify_host_file("\u{b} \u{b}"), Err(VerifyError::Empty)));
    assert!(matches!(verify_host_file("\u{3000}\n\u{a0}\u{85}\u{c}"), Err(VerifyError::Empty)));
    assert!(verify_host_file("\u{b}127.0.0.1 localhost\n").is_ok());
}

use ctrlrs::history::HistoryManager;
use ctrlrs::shell::{HistoryFormat, ShellType};

fn lines(raw: &[&str]) -> Vec<String> {
    raw.iter().map(|s| s.to_string()).collect()
}

#[test]
fn test_parse_bash_history() {
    let line = "ls -la";
    let entry = HistoryManager::parse_history_line(line, HistoryFormat::Plain).unwrap();

    assert_eq!(entry.command, "ls -la");
    assert_eq!(entry.timestamp, None);
    assert_eq!(entry.original_line, "ls -la");
}

#[test]
fn test_parse_zsh_history() {
    let line = ": 1738093190:0;ls -la";
    let entry = HistoryManager::parse_history_line(line, HistoryFormat::ZshExtended).unwrap();

    assert_eq!(entry.command, "ls -la");
    assert_eq!(entry.timestamp, Some(1738093190));
    assert_eq!(entry.original_line, ": 1738093190:0;ls -la");
}

#[test]
fn test_parse_zsh_fallback_is_plain() {
    let entry = HistoryManager::parse_history_line("git status", HistoryFormat::ZshExtended)
        .unwrap();
    assert_eq!(entry.command, "git status");
    assert_eq!(entry.timestamp, None);
}

#[test]
fn test_parse_zsh_oversized_timestamp_is_skipped() {
    let line = ": 99999999999999999999999:0;ls";
    assert!(HistoryManager::parse_history_line(line, HistoryFormat::ZshExtended).is_none());
}

#[test]
fn test_parse_blank_line_is_skipped() {
    assert!(HistoryManager::parse_history_line("   \t", HistoryFormat::Plain).is_none());
}

#[test]
fn test_parse_fish_line() {
    let entry =
        HistoryManager::parse_history_line("- cmd: echo hi when:1700000000", HistoryFormat::Fish)
            .unwrap();
    assert_eq!(entry.command, "echo hi");
    assert_eq!(entry.timestamp, Some(1700000000));
}

#[test]
fn test_parse_fish_line_quotes_trimmed() {
    let entry = HistoryManager::parse_history_line("- cmd: \"ls -la\" when:5", HistoryFormat::Fish)
        .unwrap();
    assert_eq!(entry.command, "ls -la");
    assert_eq!(entry.timestamp, Some(5));
}

#[test]
fn test_parse_fish_line_without_markers() {
    assert!(HistoryManager::parse_history_line("- cmd: ls", HistoryFormat::Fish).is_none());
    assert!(HistoryManager::parse_history_line("when:12", HistoryFormat::Fish).is_none());
}

#[test]
fn test_plain_file_dedup_and_order() {
    let raw = lines(&["ls -la", "cd /tmp", "ls -la", "git status"]);
    let manager = HistoryManager::new(&raw, ShellType::Bash);
    let entries = manager.entries();

    assert_eq!(entries.len(), 3);
    assert_eq!(entries[0].command, "ls -la");
    assert_eq!(entries[1].command, "cd /tmp");
    assert_eq!(entries[2].command, "git status");
    assert!(entries.iter().all(|e| e.timestamp.is_none()));
}

#[test]
fn test_zsh_file_sorted_by_recency() {
    let raw = lines(&[": 100:0;ls -la", ": 200:0;cd /tmp"]);
    let manager = HistoryManager::new(&raw, ShellType::Zsh);
    let entries = manager.entries();

    assert_eq!(entries.len(), 2);
    assert_eq!(entries[0].command, "cd /tmp");
    assert_eq!(entries[0].timestamp, Some(200));
    assert_eq!(entries[1].command, "ls -la");
    assert_eq!(entries[1].timestamp, Some(100));
}

#[test]
fn test_zsh_duplicate_keeps_most_recent() {
    let raw = lines(&[": 100:0;ls", ": 300:0;ls", ": 200:0;pwd"]);
    let manager = HistoryManager::new(&raw, ShellType::Zsh);
    let entries = manager.entries();

    assert_eq!(entries.len(), 2);
    assert_eq!(entries[0].command, "ls");
    assert_eq!(entries[0].timestamp, Some(300));
    assert_eq!(entries[1].command, "pwd");
}

#[test]
fn test_zsh_timestamped_before_untimestamped() {
    let raw = lines(&["plain one", ": 50:0;stamped"]);
    let manager = HistoryManager::new(&raw, ShellType::Zsh);
    let entries = manager.entries();

    assert_eq!(entries.len(), 2);
    assert_eq!(entries[0].command, "stamped");
    assert_eq!(entries[1].command, "plain one");
}

#[test]
fn test_zsh_continuation_lines_joined() {
    let raw = lines(&[": 100:0;echo a \\", "b", ": 200:0;pwd"]);
    let manager = HistoryManager::new(&raw, ShellType::Zsh);
    let entries = manager.entries();

    assert_eq!(entries.len(), 2);
    assert_eq!(entries[0].command, "pwd");
    assert_eq!(entries[1].command, "echo a b");
    assert_eq!(entries[1].timestamp, Some(100));
}

#[test]
fn test_zsh_blank_finalized_command_discarded() {
    let raw = lines(&[": 100:0;", ": 200:0;pwd"]);
    let manager = HistoryManager::new(&raw, ShellType::Zsh);
    let entries = manager.entries();

    assert_eq!(entries.len(), 1);
    assert_eq!(entries[0].command, "pwd");
}

#[test]
fn test_parsing_is_idempotent() {
    let raw = lines(&[": 100:0;ls -la", "free form", ": 200:0;cd /tmp"]);
    let a = HistoryManager::new(&raw, ShellType::Zsh);
    let b = HistoryManager::new(&raw, ShellType::Zsh);
    let ea = a.entries();
    let eb = b.entries();

    assert_eq!(ea.len(), eb.len());
    for (x, y) in ea.iter().zip(eb.iter()) {
        assert_eq!(x.command, y.command);
        assert_eq!(x.timestamp, y.timestamp);
        assert_eq!(x.original_line, y.original_line);
    }
}

#[test]
fn test_empty_file_empty_history() {
    let manager = HistoryManager::new(&Vec::new(), ShellType::Bash);
    assert_eq!(manager.entries().len(), 0);
}

use ctrlrs::app::{App, InputEvent};
use ctrlrs::history::HistoryManager;
use ctrlrs::shell::ShellType;

fn lines(raw: &[&str]) -> Vec<String> {
    raw.iter().map(|s| s.to_string()).collect()
}

fn manager(raw: &[&str]) -> HistoryManager {
    HistoryManager::new(&lines(raw), ShellType::Bash)
}

fn type_str(app: &mut App, text: &str) {
    for c in text.chars() {
        app.handle_key_event(InputEvent::Char(c)).unwrap();
    }
}

#[test]
fn test_filter_history() {
    let manager = manager(&["ls -la", "cd /tmp", "ls -l /tmp"]);

    let filtered = manager.filter("ls", "").unwrap();
    assert_eq!(filtered.len(), 2);
    assert_eq!(filtered[0].command, "ls -la");
    assert_eq!(filtered[1].command, "ls -l /tmp");

    let filtered = manager.filter("ls", "tmp").unwrap();
    assert_eq!(filtered.len(), 1);
    assert_eq!(filtered[0].command, "ls -l /tmp");
}

#[test]
fn test_filter_multiple_empty_first_keeps_all() {
    let manager = manager(&["ls -la", "cd /tmp"]);
    let filtered = manager.filter_multiple(&Vec::new()).unwrap();
    assert_eq!(filtered.len(), 2);

    let filtered = manager.filter_multiple(&lines(&["", "ls"])).unwrap();
    assert_eq!(filtered.len(), 2);
}

#[test]
fn test_filter_is_case_insensitive() {
    let manager = manager(&["ls -la", "cd /tmp"]);
    let filtered = manager.filter("LS", "").unwrap();
    assert_eq!(filtered.len(), 1);
    assert_eq!(filtered[0].command, "ls -la");
}

#[test]
fn test_filter_metacharacters_are_literal() {
    let manager = manager(&["a.b one", "axb two"]);
    let filtered = manager.filter("a.b", "").unwrap();
    assert_eq!(filtered.len(), 1);
    assert_eq!(filtered[0].command, "a.b one");
}

#[test]
fn test_session_two_dimensions() {
    let mut app = App::new(manager(&["ls -la", "cd /tmp", "ls -l /tmp"]));
    app.update_filters().unwrap();
    assert_eq!(app.filtered_entries().len(), 3);

    type_str(&mut app, "ls");
    assert_eq!(app.current_dimension(), 0);
    assert_eq!(app.filter(0), "ls");
    let view: Vec<&str> = app.filtered_entries().iter().map(|e| e.command.as_str()).collect();
    assert_eq!(view, vec!["ls -la", "ls -l /tmp"]);

    app.handle_key_event(InputEvent::CtrlR).unwrap();
    assert_eq!(app.current_dimension(), 1);
    type_str(&mut app, "tmp");
    let view: Vec<&str> = app.filtered_entries().iter().map(|e| e.command.as_str()).collect();
    assert_eq!(view, vec!["ls -l /tmp"]);
}

#[test]
fn test_enter_on_empty_view_is_noop() {
    let mut app = App::new(manager(&[]));
    app.update_filters().unwrap();
    assert_eq!(app.filtered_entries().len(), 0);

    app.handle_key_event(InputEvent::Enter).unwrap();
    assert!(!app.should_quit());
    assert!(app.selected_command().is_none());
}

#[test]
fn test_backspace_retreats_dimension() {
    let mut app = App::new(manager(&["ls -la", "cd /tmp", "ls -l /tmp"]));
    app.update_filters().unwrap();

    type_str(&mut app, "ls");
    app.handle_key_event(InputEvent::CtrlR).unwrap();
    type_str(&mut app, "l");
    app.handle_key_event(InputEvent::CtrlR).unwrap();
    assert_eq!(app.current_dimension(), 2);
    let before: Vec<String> =
        app.filtered_entries().iter().map(|e| e.command.clone()).collect();

    app.handle_key_event(InputEvent::Backspace).unwrap();
    assert_eq!(app.current_dimension(), 1);
    let after: Vec<String> = app.filtered_entries().iter().map(|e| e.command.clone()).collect();
    assert_eq!(before, after);
}

#[test]
fn test_backspace_edits_current_buffer() {
    let mut app = App::new(manager(&["ls -la", "lsof"]));
    app.update_filters().unwrap();

    type_str(&mut app, "lso");
    assert_eq!(app.filtered_entries().len(), 1);
    app.handle_key_event(InputEvent::Backspace).unwrap();
    assert_eq!(app.filter(0), "ls");
    assert_eq!(app.filtered_entries().len(), 2);
}

#[test]
fn test_ctrl_r_requires_nonempty_buffer() {
    let mut app = App::new(manager(&["ls -la"]));
    app.update_filters().unwrap();

    app.handle_key_event(InputEvent::CtrlR).unwrap();
    assert_eq!(app.current_dimension(), 0);
}

#[test]
fn test_navigation_and_selection() {
    let mut app = App::new(manager(&["one", "two", "three"]));
    app.update_filters().unwrap();
    assert_eq!(app.selected_index(), 0);

    app.handle_key_event(InputEvent::Up).unwrap();
    assert_eq!(app.selected_index(), 0);

    app.handle_key_event(InputEvent::Down).unwrap();
    app.handle_key_event(InputEvent::Down).unwrap();
    app.handle_key_event(InputEvent::Down).unwrap();
    assert_eq!(app.selected_index(), 2);

    app.handle_key_event(InputEvent::Enter).unwrap();
    assert!(app.should_quit());
    assert_eq!(app.selected_command(), Some("three"));
}

#[test]
fn test_escape_cancels_without_selection() {
    let mut app = App::new(manager(&["one", "two"]));
    app.update_filters().unwrap();

    app.handle_key_event(InputEvent::Escape).unwrap();
    assert!(app.should_quit());
    assert!(app.selected_command().is_none());
}

#[test]
fn test_selection_clamped_when_view_narrows() {
    let mut app = App::new(manager(&["alpha", "beta", "alps"]));
    app.update_filters().unwrap();
    app.handle_key_event(InputEvent::Down).unwrap();
    app.handle_key_event(InputEvent::Down).unwrap();
    assert_eq!(app.selected_index(), 2);

    type_str(&mut app, "al");
    assert_eq!(app.filtered_entries().len(), 2);
    assert_eq!(app.selected_index(), 1);
}

#[test]
fn test_max_dimensions_is_five() {
    let app = App::new(manager(&["x"]));
    assert_eq!(app.max_dimensions(), 5);
}

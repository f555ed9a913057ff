use hostsguard::hosts::PreservedLine;
use hostsguard::store::{AppState, Config};

fn blocked(state: &AppState) -> Vec<String> {
    state.get_all_blocks()
}

#[test]
fn test_add_block() {
    let mut state = AppState::new(Config::new());
    assert!(state.add_block("example.com"));
    assert!(blocked(&state).contains(&"example.com".to_string()));
}

#[test]
fn test_remove_block() {
    let mut state = AppState::new(Config::new());
    state.add_block("example.com");
    state.remove_block("example.com");
    assert!(blocked(&state).is_empty());
}

#[test]
fn test_get_all_blocks() {
    let mut state = AppState::new(Config::new());
    state.add_block("example.com");
    state.add_block("test.com");
    let blocks = state.get_all_blocks();
    assert_eq!(blocks.len(), 2);
}

#[test]
fn test_get_statistics() {
    let mut state = AppState::new(Config::new());
    state.add_block("example.com");
    state.add_block("test.com");
    state.add_block("blocked.com");
    assert_eq!(state.get_statistics(), 3);
}

#[test]
fn add_twice_is_add_once() {
    let mut state = AppState::new(Config::new());
    state.add_block("b.com");
    state.add_block("a.com");
    let once = blocked(&state);
    state.add_block("a.com");
    assert_eq!(blocked(&state), once);
    assert_eq!(once, vec!["a.com".to_string(), "b.com".to_string()]);
}

#[test]
fn remove_absent_changes_nothing() {
    let mut state = AppState::new(Config::new());
    state.add_block("a.com");
    state.remove_block("zzz.com");
    assert_eq!(blocked(&state), vec!["a.com".to_string()]);
}

#[test]
fn local_names_are_never_added() {
    let mut state = AppState::new(Config::new());
    for name in ["localhost", "localhost.localdomain", "foo.localhost", "device", ""] {
        assert!(!state.add_block(name));
    }
    assert!(blocked(&state).is_empty());
    state.load_from_text("127.0.0.1 localhost foo.localhost device x.org\n").unwrap();
    assert_eq!(blocked(&state), vec!["x.org".to_string()]);
    assert_eq!(state.preserved_lines.len(), 3);
}

#[test]
fn failed_load_keeps_state() {
    let mut state = AppState::new(Config::new());
    state.load_from_text("# keep\n127.0.0.1 a.com\n").unwrap();
    assert!(state.load_from_text("lonely\n").is_err());
    assert_eq!(blocked(&state), vec!["a.com".to_string()]);
    assert!(matches!(&state.preserved_lines[0], PreservedLine::Comment(c) if c == "# keep"));
}

#[test]
fn store_serializes_its_state() {
    let mut state = AppState::new(Config::new());
    state.load_from_text("# hosts\n127.0.0.1 localhost\n").unwrap();
    state.add_block("ads.example.com");
    assert_eq!(state.serialize(), "# hosts\n127.0.0.1 localhost\n127.0.0.1 ads.example.com\n");
}

#[test]
fn config_round_trips() {
    let mut state = AppState::new(Config::new());
    let mut c = state.get_config();
    assert_eq!(c.max_history_entries, 10);
    c.history_dir = Some("/var/lib/h".to_string());
    state.update_config(c);
    assert_eq!(state.get_config().history_dir.as_deref(), Some("/var/lib/h"));
}

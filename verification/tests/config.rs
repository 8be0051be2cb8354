use deep_dive::config::{Config, KeyCode, KeyInput};
use deep_dive::utils::expand_tilde;

fn key(code: KeyCode, ctrl: bool) -> KeyInput {
    KeyInput { code, ctrl }
}

#[test]
fn test_default_key_matches() {
    let config = Config::default();
    assert!(config.key_matches("quit", key(KeyCode::Char('q'), false)));
    assert!(config.key_matches("quit", key(KeyCode::Char('c'), true)));
    assert!(config.key_matches("filter", key(KeyCode::Char('f'), true)));
    assert!(config.key_matches("collapse", key(KeyCode::Enter, false)));
    assert!(config.key_matches("collapse", key(KeyCode::Char(' '), false)));
    assert!(config.key_matches("next_layer", key(KeyCode::Down, false)));
    assert!(config.key_matches("prev_layer", key(KeyCode::Char('k'), false)));
    assert!(config.key_matches("extract", key(KeyCode::Char('e'), true)));
    assert!(!config.key_matches("quit", key(KeyCode::Char('Q'), false)));
}

#[test]
fn test_custom_keybinding_override() {
    let mut config = Config::default();
    config.set_keybinding("quit", "x");
    assert!(config.key_matches("quit", key(KeyCode::Char('x'), false)));
    assert!(!config.key_matches("quit", key(KeyCode::Char('q'), false)));
}

#[test]
fn test_extract_default_directory_missing() {
    let config = Config::default();
    assert!(config.extract_default_directory(Some("/home/user")).is_none());
}

#[test]
fn test_extract_default_directory_expands_tilde() {
    let home = "/home/tester";
    let mut config = Config::default();
    config.extract.default_directory = Some("~/Downloads".to_string());
    assert_eq!(
        config.extract_default_directory(Some(home)),
        Some("/home/tester/Downloads".to_string())
    );
}

#[test]
fn test_expand_tilde() {
    let home = "/home/tester";
    assert_eq!(expand_tilde("~", Some(home)).unwrap(), "/home/tester/");
    assert_eq!(expand_tilde("~/foo", Some(home)).unwrap(), "/home/tester/foo");
    assert_eq!(expand_tilde("/abs/path", Some(home)).unwrap(), "/abs/path");
}

#[test]
fn tilde_without_home_is_unknown() {
    assert!(expand_tilde("~/x", None).is_none());
    assert_eq!(expand_tilde("~user/x", None).unwrap(), "~user/x");
}

#[test]
fn bindings_with_ctrl_and_names() {
    let mut config = Config::default();
    config.set_keybinding("quit", " Ctrl + Q ");
    config.set_keybinding("filter", "space");
    config.set_keybinding("focus_next", "TAB");
    assert!(config.key_matches("quit", key(KeyCode::Char('q'), true)));
    assert!(!config.key_matches("quit", key(KeyCode::Char('q'), false)));
    assert!(config.key_matches("filter", key(KeyCode::Char(' '), false)));
    assert!(config.key_matches("focus_next", key(KeyCode::Tab, false)));
    assert!(!config.key_matches("focus_next", key(KeyCode::BackTab, false)));
    assert!(config.key_matches("extract", key(KeyCode::Char('e'), true)));
}

#[test]
fn rebinding_replaces_the_earlier_binding() {
    let mut config = Config::default();
    config.set_keybinding("quit", "x");
    config.set_keybinding("quit", "y");
    assert_eq!(config.keybindings.len(), 1);
    assert!(config.key_matches("quit", key(KeyCode::Char('y'), false)));
    assert!(!config.key_matches("quit", key(KeyCode::Char('x'), false)));
}

#[test]
fn unknown_actions_match_nothing() {
    let config = Config::default();
    assert!(!config.key_matches("open_image", key(KeyCode::Char('o'), false)));
    assert!(!config.key_matches("nothing", key(KeyCode::Enter, false)));
}

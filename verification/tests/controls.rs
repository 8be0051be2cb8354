use deep_dive::comparer::Comparer;
use deep_dive::config::{KeyCode, KeyInput};
use deep_dive::controls::{
    handle_filter_key, handle_key, handle_layer_details_keys, handle_layer_list_keys,
    handle_modal_key, AppAction, KeyOutcome,
};
use deep_dive::filetree::{FileInfo, FileTree, TarEntryType};
use deep_dive::image::{Image, Layer};
use deep_dive::state::{AppState, ExtractContent, FocusPane, ModalState};

fn test_state() -> AppState {
    let image = Image {
        reference: "test".into(),
        layers: vec![
            Layer::new(0, "FROM scratch", 0, FileTree::new()),
            Layer::new(1, "ADD file", 100, FileTree::new()),
        ],
    };
    AppState::new(image)
}

fn key(code: KeyCode, ctrl: bool) -> KeyInput {
    KeyInput { code, ctrl }
}

fn layers_of(state: &AppState) -> Vec<Layer> {
    state
        .image
        .layers
        .iter()
        .map(|l| Layer::new(l.index, &l.command, l.size, l.tree.clone_tree()))
        .collect()
}

#[test]
fn test_quit_binding() {
    let state = test_state();
    assert!(state.config.key_matches("quit", key(KeyCode::Char('q'), false)));
    assert!(state.config.key_matches("quit", key(KeyCode::Char('c'), true)));
}

#[test]
fn test_focus_next_binding() {
    let mut state = test_state();
    assert_eq!(state.focus, FocusPane::LayerList);
    state.cycle_focus();
    assert_eq!(state.focus, FocusPane::FileTree);
    state.cycle_focus();
    assert_eq!(state.focus, FocusPane::LayerDetails);
}

#[test]
fn test_layer_list_page_keys_move_selection() {
    let image = Image {
        reference: "test".into(),
        layers: (0..20)
            .map(|i| Layer::new(i, &format!("layer {}", i), 100, FileTree::new()))
            .collect(),
    };
    let mut state = AppState::new(image);
    state.focus = FocusPane::LayerList;
    state.selected_layer = 10;

    let page = 24 - 3;
    let mut comparer = Comparer::new(layers_of(&state));
    handle_layer_list_keys(&mut state, key(KeyCode::PageUp, false), page, &mut comparer);
    assert!(state.selected_layer < 10);

    state.selected_layer = 5;
    let mut comparer = Comparer::new(layers_of(&state));
    handle_layer_list_keys(&mut state, key(KeyCode::PageDown, false), page, &mut comparer);
    assert!(state.selected_layer > 5);
}

#[test]
fn test_layer_details_keys_select_and_open_modal() {
    let mut state = test_state();
    state.focus = FocusPane::LayerDetails;
    state.selected_layer = 1;

    assert_eq!(state.selected_detail_field, 0);
    handle_layer_details_keys(&mut state, key(KeyCode::Down, false));
    assert_eq!(state.selected_detail_field, 1);

    handle_layer_details_keys(&mut state, key(KeyCode::Enter, false));
    assert!(state.is_modal_active());
    assert!(state.detail_field_label().is_some());
}

#[test]
fn detail_dialog_copies_the_full_value() {
    let mut state = test_state();
    state.focus = FocusPane::LayerDetails;
    state.selected_detail_field = 3;
    handle_layer_details_keys(&mut state, key(KeyCode::Enter, false));
    assert_eq!(state.detail_field_label(), Some("Command"));
    let mut comparer = Comparer::new(layers_of(&state));
    match handle_modal_key(&mut state, key(KeyCode::Char('c'), true), &mut comparer, None) {
        KeyOutcome::Copy(v) => assert_eq!(v, "ADD file"),
        other => panic!("unexpected outcome {:?}", other),
    }
    handle_modal_key(&mut state, key(KeyCode::Esc, false), &mut comparer, None);
    assert!(!state.is_modal_active());
}

#[test]
fn main_keys_quit_focus_and_filter() {
    let mut state = test_state();
    let mut comparer = Comparer::new(layers_of(&state));
    assert!(matches!(
        handle_key(&mut state, key(KeyCode::Tab, false), &mut comparer, 10, None, None),
        KeyOutcome::Continue
    ));
    assert_eq!(state.focus, FocusPane::FileTree);
    handle_key(&mut state, key(KeyCode::Char('f'), true), &mut comparer, 10, None, None);
    assert!(state.is_filter_active);
    handle_key(&mut state, key(KeyCode::Char('q'), false), &mut comparer, 10, None, None);
    assert_eq!(state.filter_text, "q");
    handle_filter_key(&mut state, key(KeyCode::Esc, false));
    assert!(!state.is_filter_active);
    assert!(matches!(
        handle_key(&mut state, key(KeyCode::Char('q'), false), &mut comparer, 10, None, None),
        KeyOutcome::Action(AppAction::Quit)
    ));
}

#[test]
fn file_tree_keys_move_and_collapse() {
    let mut tree = FileTree::new();
    tree.add_path(
        "bin/bash",
        FileInfo { entry_type: TarEntryType::Regular, size: 10, ..Default::default() },
    );
    let image = Image {
        reference: "img".into(),
        layers: vec![Layer::new(0, "ADD", 10, tree)],
    };
    let mut state = AppState::new(image);
    state.focus = FocusPane::FileTree;
    let mut comparer = Comparer::new(layers_of(&state));
    handle_key(&mut state, key(KeyCode::Down, false), &mut comparer, 10, None, None);
    assert_eq!(state.selected_tree_path.as_deref(), Some("bin"));
    handle_key(&mut state, key(KeyCode::Left, false), &mut comparer, 10, None, None);
    assert!(state.is_collapsed("bin"));
    handle_key(&mut state, key(KeyCode::Right, false), &mut comparer, 10, None, None);
    assert!(!state.is_collapsed("bin"));
    handle_key(&mut state, key(KeyCode::Char('e'), true), &mut comparer, 10, None, None);
    assert_eq!(
        state.status_message.as_deref(),
        Some("Extract failed: cannot extract bin: selected node is not a file or symlink")
    );
}

#[test]
fn open_image_dialog_returns_the_typed_reference() {
    let mut state = test_state();
    state.open_image_modal("alpine");
    let mut comparer = Comparer::new(layers_of(&state));
    handle_key(&mut state, key(KeyCode::Char('3'), false), &mut comparer, 10, None, None);
    match handle_key(&mut state, key(KeyCode::Enter, false), &mut comparer, 10, None, None) {
        KeyOutcome::Action(AppAction::OpenImage(url)) => assert_eq!(url, "alpine3"),
        other => panic!("unexpected outcome {:?}", other),
    }
    assert!(!state.is_modal_active());
}

#[test]
fn enter_in_extract_dialog_hands_back_the_extraction_and_waits() {
    let mut tree = FileTree::new();
    tree.add_path(
        "etc/hosts",
        FileInfo {
            entry_type: TarEntryType::Regular,
            size: 5,
            content: b"hosts".to_vec(),
            ..Default::default()
        },
    );
    let image = Image {
        reference: "test".into(),
        layers: vec![Layer::new(0, "ADD hosts", 5, tree)],
    };
    let mut state = AppState::new(image);
    state.focus = FocusPane::FileTree;
    state.selected_tree_path = Some("etc/hosts".to_string());
    let mut comparer = Comparer::new(layers_of(&state));
    handle_key(&mut state, key(KeyCode::Char('e'), true), &mut comparer, 10, Some("/home/u"), Some("/work"));
    assert_eq!(state.modal_destination(), Some("/work"));
    handle_key(&mut state, key(KeyCode::Char('/'), false), &mut comparer, 10, None, None);
    match handle_key(&mut state, key(KeyCode::Enter, false), &mut comparer, 10, Some("/home/u"), None) {
        KeyOutcome::Extract(job) => {
            assert_eq!(job.destination, "/work/");
            assert_eq!(job.image_path, "etc/hosts");
            match job.content {
                ExtractContent::File(bytes) => assert_eq!(bytes, b"hosts"),
                ExtractContent::Symlink(_) => panic!("expected a file"),
            }
        }
        other => panic!("unexpected outcome {:?}", other),
    }
    assert!(state.is_modal_active());
}

#[test]
fn enter_in_extract_dialog_keeps_it_open_on_failure() {
    let mut state = test_state();
    state.modal = ModalState::ExtractTo {
        destination: "/out".to_string(),
        original_path: "missing".to_string(),
    };
    let mut comparer = Comparer::new(layers_of(&state));
    match handle_key(&mut state, key(KeyCode::Enter, false), &mut comparer, 10, None, None) {
        KeyOutcome::Continue => {}
        other => panic!("unexpected outcome {:?}", other),
    }
    assert!(state.is_modal_active());
    assert_eq!(state.status_message.as_deref(), Some("Extract failed: no file selected"));
}

use deep_dive::config::Config;
use deep_dive::filetree::{DiffType, FileInfo, FileTree, SortMode, TarEntryType};
use deep_dive::image::{Image, Layer};
use deep_dive::state::{
    resolve_extract_destination, AppState, ExtractContent, FocusPane, ModalState,
};

fn empty_image() -> Image {
    Image {
        reference: String::new(),
        layers: Vec::new(),
    }
}

fn image_with_layers(count: usize) -> Image {
    let layers = (0..count)
        .map(|i| Layer::new(i, &format!("layer {}", i), i as u64 * 100, FileTree::new()))
        .collect();
    Image {
        reference: "test".into(),
        layers,
    }
}

fn tree_with_nodes() -> FileTree {
    let mut tree = FileTree::new();
    tree.add_path(
        "bin/bash",
        FileInfo {
            entry_type: TarEntryType::Regular,
            size: 100,
            content_hash: 1,
            ..Default::default()
        },
    );
    tree.add_path(
        "bin/ls",
        FileInfo {
            entry_type: TarEntryType::Regular,
            size: 50,
            content_hash: 2,
            ..Default::default()
        },
    );
    tree.add_path(
        "etc/passwd",
        FileInfo {
            entry_type: TarEntryType::Regular,
            size: 10,
            content_hash: 3,
            ..Default::default()
        },
    );
    tree
}

fn file_info(size: u64, content_hash: u64) -> FileInfo {
    FileInfo {
        size,
        content_hash,
        entry_type: TarEntryType::Regular,
        ..Default::default()
    }
}

fn dir_info() -> FileInfo {
    FileInfo {
        entry_type: TarEntryType::Directory,
        ..Default::default()
    }
}

#[test]
fn test_new_selects_last_layer() {
    let image = image_with_layers(3);
    let state = AppState::new(image);
    assert_eq!(state.selected_layer, 2);
}

#[test]
fn test_select_next_layer() {
    let image = image_with_layers(3);
    let mut state = AppState::new(image);
    state.selected_layer = 0;
    state.select_next_layer();
    assert_eq!(state.selected_layer, 1);
    state.select_next_layer();
    assert_eq!(state.selected_layer, 2);
    state.select_next_layer();
    assert_eq!(state.selected_layer, 2);
}

#[test]
fn test_select_prev_layer() {
    let image = image_with_layers(3);
    let mut state = AppState::new(image);
    state.select_prev_layer();
    assert_eq!(state.selected_layer, 1);
    state.select_prev_layer();
    assert_eq!(state.selected_layer, 0);
    state.select_prev_layer();
    assert_eq!(state.selected_layer, 0);
}

#[test]
fn test_cycle_focus() {
    let mut state = AppState::new(empty_image());
    assert_eq!(state.focus, FocusPane::LayerList);
    state.cycle_focus();
    assert_eq!(state.focus, FocusPane::FileTree);
    state.cycle_focus();
    assert_eq!(state.focus, FocusPane::LayerDetails);
    state.cycle_focus();
    assert_eq!(state.focus, FocusPane::ImageDetails);
    state.cycle_focus();
    assert_eq!(state.focus, FocusPane::LayerList);
}

#[test]
fn test_cycle_focus_reverse() {
    let mut state = AppState::new(empty_image());
    state.cycle_focus_reverse();
    assert_eq!(state.focus, FocusPane::ImageDetails);
    state.cycle_focus_reverse();
    assert_eq!(state.focus, FocusPane::LayerDetails);
}

#[test]
fn test_tree_navigation() {
    let mut state = AppState::new(empty_image());
    let tree = tree_with_nodes();

    state.select_next_tree_node(&tree);
    assert!(state.selected_tree_path.is_some());

    let first = state.selected_tree_path.clone().unwrap();
    state.select_next_tree_node(&tree);
    let second = state.selected_tree_path.clone().unwrap();
    assert_ne!(first, second);

    state.select_prev_tree_node(&tree);
    assert_eq!(state.selected_tree_path, Some(first));
}

#[test]
fn test_toggle_collapse() {
    let mut state = AppState::new(empty_image());
    state.selected_tree_path = Some("bin".into());

    assert!(!state.is_collapsed("bin"));
    state.toggle_collapse_selected();
    assert!(state.is_collapsed("bin"));
    state.toggle_collapse_selected();
    assert!(!state.is_collapsed("bin"));
}

#[test]
fn test_apply_collapsed_to_tree() {
    let mut state = AppState::new(empty_image());
    state.selected_tree_path = Some("bin".into());
    state.toggle_collapse_selected();

    let mut tree = tree_with_nodes();
    state.apply_collapsed_to_tree(&mut tree);
    assert!(tree.get_node("bin").unwrap().collapsed);
}

#[test]
fn test_toggle_sort_mode() {
    let mut state = AppState::new(empty_image());
    assert_eq!(state.sort_mode, SortMode::Name);
    state.toggle_sort_mode();
    assert_eq!(state.sort_mode, SortMode::Size);
    state.toggle_sort_mode();
    assert_eq!(state.sort_mode, SortMode::Name);
}

#[test]
fn test_toggle_show_attributes() {
    let mut state = AppState::new(empty_image());
    assert!(!state.show_attributes);
    state.toggle_show_attributes();
    assert!(state.show_attributes);
}

#[test]
fn test_toggle_wrap_tree() {
    let mut state = AppState::new(empty_image());
    assert!(!state.wrap_tree);
    state.toggle_wrap_tree();
    assert!(state.wrap_tree);
}

#[test]
fn test_toggle_diff_type() {
    let mut state = AppState::new(empty_image());
    assert!(!state.hidden_diff_types.contains(&DiffType::Added));
    state.toggle_diff_type(DiffType::Added);
    assert!(state.hidden_diff_types.contains(&DiffType::Added));
    state.toggle_diff_type(DiffType::Added);
    assert!(!state.hidden_diff_types.contains(&DiffType::Added));
}

#[test]
fn test_filter_regex() {
    let mut state = AppState::new(empty_image());
    assert!(state.filter_regex().is_none());
    state.is_filter_active = true;
    state.filter_text = "bin.*".to_string();
    assert!(state.filter_regex().is_some());
    state.filter_text = "[".to_string();
    assert!(state.filter_regex().is_none());
}

#[test]
fn test_filter_text_typing() {
    let mut state = AppState::new(empty_image());
    state.toggle_filter_active();
    state.push_filter_char('a');
    state.push_filter_char('b');
    assert_eq!(state.filter_text, "ab");
    state.pop_filter_char();
    assert_eq!(state.filter_text, "a");
}

#[test]
fn test_collapse_expand_all() {
    let mut state = AppState::new(empty_image());
    let mut tree = tree_with_nodes();
    state.collapse_all(&mut tree);
    assert!(state.is_collapsed("bin"));
    assert!(state.is_collapsed("etc"));
    state.expand_all(&mut tree);
    assert!(state.collapsed_paths.is_empty());
}

#[test]
fn test_extract_selected_requires_regular_file() {
    let mut tree = FileTree::new();
    tree.add_path("dir", dir_info());

    let mut state = AppState::new(empty_image());
    state.selected_tree_path = Some("dir".to_string());
    assert!(state.prepare_extract(&tree, "/tmp/out").is_err());
}

#[test]
fn test_resolve_extract_destination_directory() {
    let dir = "/tmp/extract-dir";
    let dest = resolve_extract_destination(dir, "a/b.txt", true);
    assert_eq!(dest, "/tmp/extract-dir/a/b.txt");
}

#[test]
fn test_resolve_extract_destination_trailing_separator() {
    let dest = resolve_extract_destination("/tmp/extract-dir/out", "a/b.txt", false);
    assert_eq!(dest, "/tmp/extract-dir/out");
}

#[test]
fn test_resolve_extract_destination_exact_file() {
    let file = "/tmp/extract-dir/renamed.txt";
    let dest = resolve_extract_destination(file, "a/b.txt", false);
    assert_eq!(dest, file);
}

#[test]
fn test_modal_open_and_cancel() {
    let mut tree = FileTree::new();
    let mut info = file_info(0, 1);
    info.content = b"hello".to_vec();
    tree.add_path("file.txt", info);

    let mut state = AppState::new(empty_image());
    state.selected_tree_path = Some("file.txt".to_string());
    state.open_extract_modal(&tree, Some("/home/u"), Some("/work")).unwrap();
    assert!(state.is_modal_active());
    assert!(state.modal_destination().is_some());

    state.cancel_modal();
    assert!(!state.is_modal_active());
}

#[test]
fn test_modal_typing() {
    let mut tree = FileTree::new();
    let mut info = file_info(0, 1);
    info.content = b"hello".to_vec();
    tree.add_path("file.txt", info);

    let mut state = AppState::new(empty_image());
    state.selected_tree_path = Some("file.txt".to_string());
    state.open_extract_modal(&tree, Some("/home/u"), Some("/work")).unwrap();
    state.push_modal_char('/');
    state.push_modal_char('t');
    state.push_modal_char('o');
    state.pop_modal_char();
    assert!(state.modal_destination().unwrap().contains("/t"));
}

#[test]
fn test_extract_modal_defaults_to_config_directory() {
    let mut config = Config::default();
    let dir = "/srv/extracted";
    config.extract.default_directory = Some(dir.to_string());

    let mut tree = FileTree::new();
    let mut info = file_info(0, 1);
    info.content = b"x".to_vec();
    tree.add_path("file.txt", info);

    let mut state = AppState::with_config(empty_image(), config);
    state.selected_tree_path = Some("file.txt".to_string());
    state.open_extract_modal(&tree, Some("/home/u"), Some("/work")).unwrap();

    assert_eq!(state.modal_destination().unwrap(), dir);
}

#[test]
fn confirm_extract_modal_hands_back_the_job() {
    let mut tree = FileTree::new();
    let mut info = file_info(11, 1);
    info.content = b"hello world".to_vec();
    tree.add_path("dir/file.txt", info);

    let mut state = AppState::new(empty_image());
    state.selected_tree_path = Some("dir/file.txt".to_string());
    state.open_extract_modal(&tree, None, Some("/work")).unwrap();
    state.modal = ModalState::ExtractTo {
        destination: "~/out".to_string(),
        original_path: "dir/file.txt".to_string(),
    };
    let job = state.confirm_extract_modal(&tree, Some("/home/u")).unwrap().unwrap();
    assert_eq!(job.destination, "/home/u/out");
    assert_eq!(job.image_path, "dir/file.txt");
    match job.content {
        ExtractContent::File(bytes) => assert_eq!(bytes, b"hello world"),
        ExtractContent::Symlink(_) => panic!("expected a file"),
    }
    assert!(state.is_modal_active());
    state.finish_extract(Ok(("/home/u/out".to_string(), false)));
    assert!(!state.is_modal_active());
    assert_eq!(state.status_message.as_deref(), Some("Extracted /home/u/out"));
}

#[test]
fn extract_errors_name_the_problem() {
    let mut tree = FileTree::new();
    tree.add_path("dir", dir_info());
    let mut state = AppState::new(empty_image());
    assert_eq!(
        state.prepare_extract(&tree, "/x").err().unwrap().message(),
        "no file selected"
    );
    state.selected_tree_path = Some("missing".to_string());
    assert_eq!(
        state.prepare_extract(&tree, "/x").err().unwrap().message(),
        "selected node not found"
    );
    state.selected_tree_path = Some("dir".to_string());
    assert_eq!(
        state.prepare_extract(&tree, "/x").err().unwrap().message(),
        "cannot extract dir: selected node is a directory (not a file or symlink)"
    );
    assert_eq!(
        state.open_extract_modal(&tree, None, None).err().unwrap().message(),
        "cannot extract dir: selected node is not a file or symlink"
    );
}

#[test]
fn with_config_reads_modes_ignoring_case() {
    let mut config = Config::default();
    config.compare_mode = Some("AGGREGATED".to_string());
    config.sort_mode = Some("Size".to_string());
    config.show_attributes = Some(true);
    let state = AppState::with_config(image_with_layers(2), config);
    assert_eq!(state.compare_mode, deep_dive::state::CompareMode::Aggregated);
    assert_eq!(state.sort_mode, SortMode::Size);
    assert!(state.show_attributes);
    assert!(!state.wrap_tree);
    assert_eq!(state.selected_layer, 1);
}

#[test]
fn page_keys_stay_within_the_list() {
    let mut state = AppState::new(empty_image());
    let tree = tree_with_nodes();
    state.page_down(&tree, 3);
    assert_eq!(state.tree_scroll_offset, 2);
    state.page_down(&tree, 3);
    assert_eq!(state.tree_scroll_offset, 2);
    state.page_up(10);
    assert_eq!(state.tree_scroll_offset, 0);
}

#[test]
fn hidden_marks_and_filter_limit_the_listing() {
    let mut state = AppState::new(empty_image());
    let tree = tree_with_nodes();
    assert_eq!(state.filtered_visible_paths(&tree).len(), 5);
    state.toggle_filter_active();
    state.filter_text = "passwd".to_string();
    assert_eq!(state.filtered_visible_paths(&tree), vec!["etc".to_string(), "etc/passwd".to_string()]);
    state.toggle_diff_type(DiffType::Unmodified);
    assert!(state.filtered_visible_paths(&tree).is_empty());
}

#[test]
fn failed_extraction_keeps_the_dialog_open() {
    let mut state = AppState::new(empty_image());
    state.modal = ModalState::ExtractTo {
        destination: "/readonly".to_string(),
        original_path: "file.txt".to_string(),
    };
    state.finish_extract(Err("failed to write /readonly/file.txt".to_string()));
    assert!(state.is_modal_active());
    assert_eq!(state.modal_destination(), Some("/readonly"));
    assert_eq!(
        state.status_message.as_deref(),
        Some("Extract failed: failed to write /readonly/file.txt")
    );
    state.finish_extract(Ok(("/tmp/link".to_string(), true)));
    assert!(!state.is_modal_active());
    assert_eq!(state.status_message.as_deref(), Some("Extracted symlink /tmp/link"));
}

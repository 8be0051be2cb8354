use deep_dive::comparer::Comparer;
use deep_dive::controls::current_tree;
use deep_dive::filetree::{DiffType, FileInfo, FileTree, TarEntryType};
use deep_dive::image::{copy_layers, Image, Layer};
use deep_dive::state::{AppState, CompareMode, FocusPane, LayerData};
use deep_dive::widgets::{
    centered_offsets, estimate_wrapped_lines, DetailField, FileTreeWidget, FilterWidget,
    ImageDetailsWidget, LayerDetailsWidget, LayerListWidget, LoadingWidget, ModalWidget,
    StatusBarWidget,
};

fn image_with_layers(count: usize) -> Image {
    let layers = (0..count)
        .map(|i| Layer::new(i, &format!("layer {}", i), i as u64 * 100, FileTree::new()))
        .collect();
    Image {
        reference: "test".into(),
        layers,
    }
}

#[test]
fn titles_show_mode_focus_and_flags() {
    let mut state = AppState::new(image_with_layers(2));
    assert_eq!(LayerListWidget::title(&state), "Layers [layer] [*]");
    state.compare_mode = CompareMode::Aggregated;
    state.focus = FocusPane::FileTree;
    assert_eq!(LayerListWidget::title(&state), "Layers [all]");
    assert_eq!(FileTreeWidget::title(&state), "File Tree [all] [*]");
    state.show_attributes = true;
    state.wrap_tree = true;
    state.is_filter_active = true;
    state.filter_text = "bin".to_string();
    assert_eq!(
        FileTreeWidget::title(&state),
        "File Tree [all] [*] [attrs] [wrap] [filter: bin]"
    );
}

#[test]
fn status_text_prefers_message_then_filter_help() {
    let mut state = AppState::new(image_with_layers(1));
    assert!(StatusBarWidget::text(&state).contains("Tab focus"));
    assert!(StatusBarWidget::text(&state).starts_with("\u{2191}\u{2193}/kj layer"));
    state.focus = FocusPane::ImageDetails;
    assert_eq!(StatusBarWidget::text(&state), "Tab focus  \u{2190}\u{2192} pane  Ctrl+O open  q quit");
    state.is_filter_active = true;
    assert_eq!(StatusBarWidget::text(&state), "Filter: type pattern, Esc close");
    state.status_message = Some("Copied".to_string());
    assert_eq!(StatusBarWidget::text(&state), "Copied");
}

#[test]
fn layer_row_truncates_command_to_remaining_width() {
    let layer = LayerData {
        index: 3,
        command: "RUN apt-get install -y something-long".to_string(),
        size: 2048,
    };
    assert_eq!(LayerListWidget::row(&layer, 20), "3: [2.0 KB] RUN a...");
    assert_eq!(LayerListWidget::row(&layer, 5), "3: [2.0 KB] ");
    let short = LayerData {
        index: 0,
        command: "ADD file\nsecond line".to_string(),
        size: 10,
    };
    assert_eq!(LayerListWidget::row(&short, 40), "0: [10 B] ADD file...");
}

#[test]
fn detail_line_cuts_value_after_label() {
    let field = DetailField {
        label: "Command",
        value: "x".repeat(200),
    };
    let (label, value) = LayerDetailsWidget::detail_line(&field, 20);
    assert_eq!(label, "Command: ");
    assert_eq!(value, format!("{}...", "x".repeat(8)));
}

#[test]
fn modal_value_keeps_line_breaks_only() {
    assert_eq!(ModalWidget::sanitize_value("\x1B[1ma\tb\nc\x07"), "a b\nc");
}

#[test]
fn follow_selection_scrolls_down_and_up() {
    let paths: Vec<String> = (0..50).map(|i| format!("file{}.txt", i)).collect();
    let mut state = AppState::new(image_with_layers(1));
    state.selected_tree_path = Some("file40.txt".to_string());
    state.follow_selection(&paths, 8);
    assert_eq!(state.tree_scroll_offset, 33);
    state.selected_tree_path = Some("file0.txt".to_string());
    state.tree_scroll_offset = 40;
    state.follow_selection(&paths, 8);
    assert_eq!(state.tree_scroll_offset, 0);
    state.selected_tree_path = None;
    state.tree_scroll_offset = 49;
    state.follow_selection(&paths, 8);
    assert_eq!(state.tree_scroll_offset, 42);
}

#[test]
fn wrapped_rows_and_details_scroll_clamp() {
    assert_eq!(estimate_wrapped_lines(&vec![0, 10, 11, 30], 10), 1 + 1 + 2 + 3);
    assert_eq!(estimate_wrapped_lines(&vec![5, 5], 0), 2);
    let mut state = AppState::new(image_with_layers(1));
    state.image_details_scroll = 100;
    state.clamp_details_scroll(30, 10);
    assert_eq!(state.image_details_scroll, 20);
    state.clamp_details_scroll(5, 10);
    assert_eq!(state.image_details_scroll, 0);
}

#[test]
fn layer_details_fields_for_selected_layer() {
    let state = AppState::new(image_with_layers(2));
    let fields = LayerDetailsWidget::fields(&state);
    assert_eq!(fields[0].label, "Index");
    assert_eq!(fields[0].value, "1");
    assert_eq!(fields[2].value, "100 B");
    assert_eq!(fields[5].value, "n/a");
}

#[test]
fn tree_rows_indent_and_mark_entries() {
    let mut tree = FileTree::new();
    tree.add_path(
        "usr/bin/env",
        FileInfo {
            entry_type: TarEntryType::Regular,
            size: 2048,
            uid: 0,
            gid: 10,
            ..Default::default()
        },
    );
    tree.add_path(
        "usr/lib64",
        FileInfo {
            entry_type: TarEntryType::Symlink,
            linkname: "lib".to_string(),
            ..Default::default()
        },
    );
    let env = tree.get_node("usr/bin/env").unwrap();
    assert_eq!(FileTreeWidget::row("usr/bin/env", env, false), "    env");
    assert_eq!(FileTreeWidget::row("usr/bin/env", env, true), "[0:10] 2.0 KB     env");
    let bin = tree.get_node("usr/bin").unwrap();
    assert_eq!(FileTreeWidget::row("usr/bin", bin, false), "  bin/");
    let link = tree.get_node("usr/lib64").unwrap();
    assert_eq!(FileTreeWidget::row("usr/lib64", link, false), "  lib64 -> lib");
}

/// The rows the file-tree pane shows in an area `height` rows high
/// (borders included), after scrolling to keep the selection in view.
fn tree_pane_rows(state: &mut AppState, height: usize) -> Vec<String> {
    let mut comparer = Comparer::new(copy_layers(&state.image.layers));
    let tree = current_tree(state, &mut comparer);
    let visible = state.filtered_visible_paths(&tree);
    let rows = height - 2;
    state.follow_selection(&visible, rows);
    let end = (state.tree_scroll_offset + rows).min(visible.len());
    visible[state.tree_scroll_offset.min(end)..end]
        .iter()
        .map(|path| FileTreeWidget::row(path, tree.get_node(path).unwrap(), state.show_attributes))
        .collect()
}

fn regular(size: u64, content_hash: u64) -> FileInfo {
    FileInfo {
        entry_type: TarEntryType::Regular,
        size,
        content_hash,
        ..Default::default()
    }
}

fn fifty_files_image() -> Image {
    let mut tree = FileTree::new();
    for i in 0..50 {
        let path = format!("file{}.txt", i);
        tree.add_path(&path, regular(10, i as u64));
    }
    tree.mark_all(DiffType::Added);
    Image {
        reference: "test".into(),
        layers: vec![Layer::new(0, "ADD files", 500, tree)],
    }
}

#[test]
fn test_file_tree_renders() {
    let mut tree = FileTree::new();
    tree.add_path("bin/bash", regular(100, 1));
    tree.mark_all(DiffType::Added);
    let image = Image {
        reference: "test".into(),
        layers: vec![Layer::new(0, "ADD files", 100, tree)],
    };
    let mut state = AppState::new(image);
    let content = tree_pane_rows(&mut state, 10).join("\n");
    assert!(content.contains("bin"));
    assert!(content.contains("bash"));
}

#[test]
fn test_file_tree_scrolls_to_keep_selection_visible() {
    let mut state = AppState::new(fifty_files_image());
    state.focus = FocusPane::FileTree;
    state.selected_tree_path = Some("file40.txt".into());
    tree_pane_rows(&mut state, 10);
    assert!(
        state.tree_scroll_offset > 0,
        "scroll offset should move to keep selection visible"
    );
}

#[test]
fn test_file_tree_scrolls_up_to_keep_selection_visible() {
    let mut state = AppState::new(fifty_files_image());
    state.focus = FocusPane::FileTree;
    state.selected_tree_path = Some("file0.txt".into());
    state.tree_scroll_offset = 40;
    tree_pane_rows(&mut state, 10);
    assert_eq!(
        state.tree_scroll_offset, 0,
        "scroll offset should snap back to top when selection is above viewport"
    );
}

#[test]
fn test_file_tree_filter_works_regardless_of_focus() {
    let mut tree = FileTree::new();
    tree.add_path("bin/bash", regular(100, 1));
    tree.add_path("etc/passwd", regular(10, 2));
    tree.mark_all(DiffType::Added);
    let image = Image {
        reference: "test".into(),
        layers: vec![Layer::new(0, "ADD files", 110, tree)],
    };
    let mut state = AppState::new(image);
    state.focus = FocusPane::LayerList;
    state.is_filter_active = true;
    state.filter_text = "bash".to_string();
    let content = tree_pane_rows(&mut state, 10).join("\n");
    assert!(content.contains("bash"));
    assert!(!content.contains("passwd"));
}

fn two_layer_image() -> Image {
    Image {
        reference: "test".into(),
        layers: vec![
            Layer::new(0, "FROM scratch", 0, FileTree::new()),
            Layer::new(1, "ADD file", 1024, FileTree::new()),
        ],
    }
}

/// The rows of the layer list in an area `width` columns wide.
fn layer_list_rows(state: &AppState, width: usize) -> String {
    state
        .layers()
        .iter()
        .map(|l| LayerListWidget::row(l, width - 2))
        .collect::<Vec<_>>()
        .join("\n")
}

#[test]
fn test_layer_list_renders() {
    let state = AppState::new(two_layer_image());
    let content = layer_list_rows(&state, 40);
    assert!(content.contains("FROM scratch"));
    assert!(content.contains("ADD file"));
}

#[test]
fn test_layer_list_truncates_long_command() {
    let mut image = two_layer_image();
    image.layers[1].command = "RUN ".to_string() + &"x".repeat(200);
    let state = AppState::new(image);
    let content = layer_list_rows(&state, 20);
    assert!(content.contains("..."));
    assert!(!content.contains("xxxxxxxxx"));
}

fn detailed_layer_image() -> Image {
    Image {
        reference: "test-image:latest".into(),
        layers: vec![Layer {
            index: 0,
            command: "ADD file".into(),
            size: 1024,
            tree: FileTree::new(),
            id: Some("abc123".into()),
            digest: Some("sha256:abc123".into()),
            tags: vec!["test-image:latest".into()],
        }],
    }
}

/// The title and lines of the layer-details pane in an area `width`
/// columns wide.
fn layer_details_text(state: &AppState, width: usize) -> String {
    let mut out = LayerDetailsWidget::title(state);
    for field in LayerDetailsWidget::fields(state) {
        let (label, value) = LayerDetailsWidget::detail_line(&field, width - 2);
        out.push('\n');
        out.push_str(&label);
        out.push_str(&value);
    }
    out
}

#[test]
fn test_layer_details_renders() {
    let state = AppState::new(detailed_layer_image());
    let content = layer_details_text(&state, 40);
    assert!(content.contains("Layer Details"));
    assert!(content.contains("abc123"));
    assert!(content.contains("ADD file"));
    assert!(content.contains("1.0 KB"));
    assert!(content.contains("test-image:latest"));
}

#[test]
fn test_layer_details_truncates_long_value() {
    let mut image = detailed_layer_image();
    image.layers[0].command = "RUN ".to_string() + &"x".repeat(200);
    let state = AppState::new(image);
    let content = layer_details_text(&state, 20);
    assert!(content.contains("..."));
}

#[test]
fn test_status_bar_renders() {
    let state = AppState::new(Image {
        reference: "test".into(),
        layers: Vec::new(),
    });
    let content = StatusBarWidget::text(&state);
    assert!(content.contains("layer") || content.contains("q quit"));
}

#[test]
fn test_status_bar_shows_message() {
    let mut state = AppState::new(Image {
        reference: "test".into(),
        layers: Vec::new(),
    });
    state.status_message = Some("saved".into());
    assert!(StatusBarWidget::text(&state).contains("saved"));
}

#[test]
fn pane_titles_mark_focus() {
    let mut state = AppState::new(image_with_layers(1));
    state.focus = FocusPane::ImageDetails;
    assert_eq!(ImageDetailsWidget::title(&state), "Image Details [*]");
    assert_eq!(LayerDetailsWidget::title(&state), "Layer Details");
    state.focus = FocusPane::LayerDetails;
    assert_eq!(ImageDetailsWidget::title(&state), "Image Details");
    assert_eq!(LayerDetailsWidget::title(&state), "Layer Details [*]");
}

#[test]
fn filter_line_shows_pattern_or_placeholder() {
    let mut state = AppState::new(image_with_layers(1));
    assert_eq!(FilterWidget::shown_text(&state), "<empty>");
    state.filter_text = "bin/.*".to_string();
    assert_eq!(FilterWidget::shown_text(&state), "bin/.*");
}

#[test]
fn dialog_sizes_and_centering() {
    assert_eq!(ModalWidget::small_modal_width(100), 60);
    assert_eq!(ModalWidget::small_modal_width(30), 26);
    assert_eq!(ModalWidget::small_modal_width(10), 20);
    assert_eq!(ModalWidget::large_modal_size(80, 24), (60, 18));
    assert_eq!(LoadingWidget::popup_size(40, 10), (32, 7));
    assert_eq!(LoadingWidget::popup_size(10, 5), (8, 3));
    assert_eq!(LoadingWidget::popup_size(200, 60), (160, 18));
    assert_eq!(centered_offsets(100, 40, 60, 3), (20, 18));
    assert_eq!(centered_offsets(10, 5, 20, 10), (0, 0));
}

use deep_dive::comparer::Comparer;
use deep_dive::config::Config;
use deep_dive::filetree::{DiffType, FileInfo, FileTree, TarEntryType};
use deep_dive::image::{Image, Layer};
use deep_dive::state::{AppState, FocusPane};

fn regular(size: u64, hash: u64) -> FileInfo {
    FileInfo {
        size,
        content_hash: hash,
        entry_type: TarEntryType::Regular,
        ..Default::default()
    }
}

fn image_with_layers(count: usize) -> Image {
    let layers = (0..count)
        .map(|i| Layer::new(i, &format!("layer {}", i), 10, FileTree::new()))
        .collect();
    Image {
        reference: "test".into(),
        layers,
    }
}

#[test]
fn added_path_reads_back_with_its_parents() {
    let mut tree = FileTree::new();
    tree.add_path("/usr/local/bin/tool", regular(42, 7));
    let node = tree.get_node("usr/local/bin/tool").unwrap();
    assert_eq!(node.info.size, 42);
    assert_eq!(node.diff_type, DiffType::Unmodified);
    assert_eq!(
        tree.get_node("usr/local").unwrap().info.entry_type,
        TarEntryType::Directory
    );
    tree.add_path("etc/hosts", regular(1, 1));
    assert_eq!(tree.get_node("usr/local/bin/tool").unwrap().info.size, 42);
}

#[test]
fn comparing_a_tree_with_itself_marks_nothing() {
    let mut tree = FileTree::new();
    tree.add_path("a/b", regular(3, 3));
    let reference = tree.clone_tree();
    tree.compare_and_mark(&reference);
    assert_eq!(tree.get_node("a/b").unwrap().diff_type, DiffType::Unmodified);
    assert_eq!(tree.get_node("a").unwrap().diff_type, DiffType::Unmodified);
}

#[test]
fn whiteout_hides_the_lower_file() {
    let mut lower = FileTree::new();
    lower.add_path("etc/config", regular(5, 1));
    lower.add_path("etc/keep", regular(5, 2));
    let mut upper = FileTree::new();
    upper.add_path("etc/.wh.config", regular(0, 0));
    let stacked = lower.stack(&upper);
    assert!(stacked.get_node("etc/config").is_none());
    assert!(stacked.get_node("etc/.wh.config").is_none());
    assert!(stacked.get_node("etc/keep").is_some());
}

#[test]
fn first_layer_is_all_added() {
    let mut tree = FileTree::new();
    tree.add_path("bin/sh", regular(9, 9));
    let mut comparer = Comparer::new(vec![Layer::new(0, "add", 9, tree)]);
    let merged = comparer.get_tree(0, 0, 0, 0);
    assert_eq!(merged.get_node("bin/sh").unwrap().diff_type, DiffType::Added);
    assert_eq!(merged.get_node("bin").unwrap().diff_type, DiffType::Added);
}

#[test]
fn focus_cycles_back_and_round() {
    let p = FocusPane::LayerDetails;
    assert_eq!(p.next().prev(), p);
    assert_eq!(p.next().next().next().next(), p);
}

#[test]
fn toggling_twice_restores_state() {
    let mut state = AppState::new(image_with_layers(2));
    let (sort, attrs, wrap) = (state.sort_mode, state.show_attributes, state.wrap_tree);
    state.toggle_sort_mode();
    state.toggle_sort_mode();
    state.toggle_show_attributes();
    state.toggle_show_attributes();
    state.toggle_wrap_tree();
    state.toggle_wrap_tree();
    assert_eq!((state.sort_mode, state.show_attributes, state.wrap_tree), (sort, attrs, wrap));
    state.toggle_diff_type(DiffType::Added);
    state.toggle_diff_type(DiffType::Added);
    assert!(!state.hidden_diff_types.contains(&DiffType::Added));
    state.selected_tree_path = Some("bin".to_string());
    state.toggle_collapse_selected();
    state.toggle_collapse_selected();
    assert!(!state.is_collapsed("bin"));
}

#[test]
fn layer_selection_round_trip_and_filter_round_trip() {
    let mut state = AppState::new(image_with_layers(3));
    state.selected_layer = 0;
    state.select_next_layer();
    state.select_prev_layer();
    assert_eq!(state.selected_layer, 0);
    state.selected_layer = 2;
    state.select_next_layer();
    assert_eq!(state.selected_layer, 2);
    state.push_filter_char('x');
    state.pop_filter_char();
    assert_eq!(state.filter_text, "");
}

#[test]
fn configured_binding_reads_back() {
    let mut config = Config::default();
    config.set_keybinding("quit", "ctrl+q");
    assert_eq!(config.keybinding("quit").map(|s| s.as_str()), Some("ctrl+q"));
    assert!(config.keybinding("filter").is_none());
}

#[test]
fn tree_selection_down_then_up_returns() {
    let mut tree = FileTree::new();
    tree.add_path("a.txt", regular(1, 1));
    tree.add_path("b.txt", regular(1, 2));
    tree.add_path("c.txt", regular(1, 3));
    let mut state = AppState::new(image_with_layers(1));
    let listed = state.filtered_visible_paths(&tree);
    assert_eq!(listed, vec!["a.txt", "b.txt", "c.txt"]);
    state.selected_tree_path = Some("b.txt".to_string());
    state.select_next_tree_node(&tree);
    assert_eq!(state.selected_tree_path.as_deref(), Some("c.txt"));
    state.select_prev_tree_node(&tree);
    assert_eq!(state.selected_tree_path.as_deref(), Some("b.txt"));
    state.selected_tree_path = Some("a.txt".to_string());
    state.select_prev_tree_node(&tree);
    assert_eq!(state.selected_tree_path.as_deref(), Some("a.txt"));
}

use deep_dive::comparer::Comparer;
use deep_dive::filetree::{DiffType, FileInfo, FileTree, TarEntryType};
use deep_dive::image::Layer;

fn layer_with_file(index: usize, path: &str, size: u64, hash: u64) -> Layer {
    let mut tree = FileTree::new();
    tree.add_path(
        path,
        FileInfo {
            size,
            content_hash: hash,
            entry_type: TarEntryType::Regular,
            ..Default::default()
        },
    );
    Layer::new(index, &format!("layer {}", index), size, tree)
}

fn empty_layer(index: usize) -> Layer {
    Layer::new(index, &format!("empty {}", index), 0, FileTree::new())
}

#[test]
fn test_natural_indexes() {
    let layers = vec![empty_layer(0), empty_layer(1), empty_layer(2)];
    let comparer = Comparer::new(layers);

    assert_eq!(
        comparer.natural_indexes(),
        vec![(0, 0, 0, 0), (0, 0, 1, 1), (0, 1, 2, 2)]
    );
}

#[test]
fn test_aggregated_indexes() {
    let layers = vec![empty_layer(0), empty_layer(1), empty_layer(2)];
    let comparer = Comparer::new(layers);

    assert_eq!(
        comparer.aggregated_indexes(),
        vec![(0, 0, 0, 0), (0, 0, 0, 1), (0, 0, 0, 2)]
    );
}

#[test]
fn test_get_tree_layer_zero_marked_added() {
    let layers = vec![layer_with_file(0, "bin/bash", 100, 1)];
    let mut comparer = Comparer::new(layers);

    let tree = comparer.get_tree(0, 0, 0, 0);
    assert_eq!(tree.get_node("bin/bash").unwrap().diff_type, DiffType::Added);
}

#[test]
fn test_get_tree_natural_addition() {
    let layers = vec![
        layer_with_file(0, "bin/bash", 100, 1),
        layer_with_file(1, "bin/ls", 50, 2),
    ];
    let mut comparer = Comparer::new(layers);

    let tree = comparer.get_tree(0, 0, 1, 1);
    assert_eq!(tree.get_node("bin/ls").unwrap().diff_type, DiffType::Added);
    assert_eq!(
        tree.get_node("bin/bash").unwrap().diff_type,
        DiffType::Unmodified
    );
}

#[test]
fn test_get_tree_natural_whiteout_removed() {
    let mut layer0 = FileTree::new();
    layer0.add_path(
        "etc/config",
        FileInfo {
            size: 100,
            content_hash: 1,
            entry_type: TarEntryType::Regular,
            ..Default::default()
        },
    );

    let mut layer1 = FileTree::new();
    layer1.add_path(
        "etc/.wh.config",
        FileInfo {
            size: 0,
            content_hash: 0,
            entry_type: TarEntryType::Regular,
            ..Default::default()
        },
    );

    let layers = vec![
        Layer::new(0, "add config", 100, layer0),
        Layer::new(1, "remove config", 0, layer1),
    ];
    let mut comparer = Comparer::new(layers);

    let tree = comparer.get_tree(0, 0, 1, 1);
    assert_eq!(
        tree.get_node("etc/config").unwrap().diff_type,
        DiffType::Removed
    );
}

#[test]
fn test_caching_returns_same_tree() {
    let layers = vec![
        layer_with_file(0, "bin/bash", 100, 1),
        layer_with_file(1, "bin/ls", 50, 2),
    ];
    let mut comparer = Comparer::new(layers);

    let first_size = comparer.get_tree(0, 0, 1, 1).get_node("bin/ls").unwrap().info.size;
    assert!(comparer.is_cached((0, 0, 1, 1)));
    let second = comparer.get_tree(0, 0, 1, 1);
    assert_eq!(second.get_node("bin/ls").unwrap().info.size, first_size);
    assert!(second.get_node("bin/bash").is_some());
}

#[test]
fn test_build_cache_populates_all_natural_trees() {
    let layers = vec![
        layer_with_file(0, "bin/bash", 100, 1),
        layer_with_file(1, "bin/ls", 50, 2),
        layer_with_file(2, "bin/cat", 30, 3),
    ];
    let mut comparer = Comparer::new(layers);
    comparer.build_cache();

    let indexes = comparer.natural_indexes();
    for key in indexes {
        assert!(comparer.is_cached(key));
    }
}

#[test]
fn aggregated_tree_marks_everything_against_the_base() {
    let layers = vec![
        layer_with_file(0, "bin/bash", 100, 1),
        layer_with_file(1, "bin/ls", 50, 2),
    ];
    let mut comparer = Comparer::new(layers);
    let tree = comparer.get_tree(0, 0, 0, 1);
    assert_eq!(tree.get_node("bin/ls").unwrap().diff_type, DiffType::Added);
    assert_eq!(tree.get_node("bin/bash").unwrap().diff_type, DiffType::Unmodified);
    assert!(!comparer.is_cached((0, 1, 2, 2)));
}

#[test]
fn build_cache_keeps_trees_cached_before() {
    let layers = vec![
        layer_with_file(0, "bin/bash", 100, 1),
        layer_with_file(1, "bin/ls", 50, 2),
        layer_with_file(2, "bin/cat", 30, 3),
    ];
    let mut comparer = Comparer::new(layers);
    comparer.get_tree(0, 0, 1, 2);
    comparer.build_cache();
    assert!(comparer.is_cached((0, 0, 1, 2)));
    for key in comparer.natural_indexes() {
        assert!(comparer.is_cached(key));
    }
}

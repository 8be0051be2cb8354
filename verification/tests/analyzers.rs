use deep_dive::analyzers::efficiency::EfficiencyAnalyzer;
use deep_dive::analyzers::layer_stats::LayerStatsAnalyzer;
use deep_dive::filetree::{FileInfo, FileTree, TarEntryType};
use deep_dive::image::{Image, Layer};

fn file_info(size: u64) -> FileInfo {
    FileInfo {
        size,
        entry_type: TarEntryType::Regular,
        ..Default::default()
    }
}

fn dir_info() -> FileInfo {
    FileInfo {
        entry_type: TarEntryType::Directory,
        ..Default::default()
    }
}

fn symlink_info() -> FileInfo {
    FileInfo {
        entry_type: TarEntryType::Symlink,
        ..Default::default()
    }
}

fn whiteout_info() -> FileInfo {
    FileInfo {
        entry_type: TarEntryType::Regular,
        ..Default::default()
    }
}

fn score(total: u64, min: u64) -> f64 {
    if total == 0 {
        1.0
    } else {
        min as f64 / total as f64
    }
}

#[test]
fn test_efficiency_perfect_score() {
    let mut tree = FileTree::new();
    tree.add_path("a", file_info(100));

    let image = Image {
        reference: "test".into(),
        layers: vec![Layer::new(0, "add a", 100, tree)],
    };

    let eff = EfficiencyAnalyzer.analyze_image(&image);
    assert_eq!(score(eff.total_bytes, eff.min_total_bytes), 1.0);
    assert_eq!(eff.wasted_bytes, 0);
}

#[test]
fn test_efficiency_duplicate_file() {
    let mut layer0 = FileTree::new();
    layer0.add_path("a", file_info(100));

    let mut layer1 = FileTree::new();
    layer1.add_path("a", file_info(100));

    let image = Image {
        reference: "test".into(),
        layers: vec![
            Layer::new(0, "add a", 100, layer0),
            Layer::new(1, "add a", 100, layer1),
        ],
    };

    let eff = EfficiencyAnalyzer.analyze_image(&image);
    assert!(score(eff.total_bytes, eff.min_total_bytes) < 1.0);
    assert_eq!(eff.wasted_bytes, 200);
    assert_eq!(eff.inefficiencies.len(), 1);
}

#[test]
fn test_efficiency_whiteout() {
    let mut layer0 = FileTree::new();
    layer0.add_path("a", file_info(100));

    let mut layer1 = FileTree::new();
    layer1.add_path(".wh.a", whiteout_info());

    let image = Image {
        reference: "test".into(),
        layers: vec![
            Layer::new(0, "add a", 100, layer0),
            Layer::new(1, "remove a", 0, layer1),
        ],
    };

    let eff = EfficiencyAnalyzer.analyze_image(&image);
    assert!(score(eff.total_bytes, eff.min_total_bytes) < 1.0);
    assert_eq!(eff.wasted_bytes, 100);
}

#[test]
fn efficiency_counts_a_removed_directory_by_its_contents() {
    let mut layer0 = FileTree::new();
    layer0.add_path("d/x", file_info(30));
    layer0.add_path("d/y", file_info(20));
    let mut layer1 = FileTree::new();
    layer1.add_path(".wh.d", whiteout_info());
    let image = Image {
        reference: "test".into(),
        layers: vec![
            Layer::new(0, "add d", 50, layer0),
            Layer::new(1, "remove d", 7, layer1),
        ],
    };
    let eff = EfficiencyAnalyzer.analyze_image(&image);
    assert_eq!(eff.total_bytes, 100);
    assert_eq!(eff.min_total_bytes, 100);
    assert_eq!(eff.wasted_bytes, 0);
    assert_eq!(eff.user_bytes, 7);
    assert_eq!(eff.top_inefficiencies(3).len(), 0);
}

#[test]
fn test_single_layer() {
    let mut tree = FileTree::new();
    tree.add_path("a", file_info(100));
    tree.add_path("b", dir_info());

    let image = Image {
        reference: "test".into(),
        layers: vec![Layer::new(0, "add files", 100, tree)],
    };

    let stats = LayerStatsAnalyzer.analyze_image(&image);
    assert_eq!(stats.layers.len(), 1);
    assert_eq!(stats.layers[0].file_count, 1);
    assert_eq!(stats.layers[0].dir_count, 1);
    assert_eq!(stats.layers[0].whiteout_count, 0);
    assert_eq!(stats.layers[0].unique_size, 100);
    assert_eq!(stats.layers[0].wasted_size, 0);
}

#[test]
fn test_duplicate_across_layers() {
    let mut layer0 = FileTree::new();
    layer0.add_path("a", file_info(100));
    let mut layer1 = FileTree::new();
    layer1.add_path("a", file_info(100));

    let image = Image {
        reference: "test".into(),
        layers: vec![
            Layer::new(0, "add a", 100, layer0),
            Layer::new(1, "add a again", 100, layer1),
        ],
    };

    let stats = LayerStatsAnalyzer.analyze_image(&image);
    assert_eq!(stats.layers.len(), 2);
    assert_eq!(stats.layers[0].unique_size, 100);
    assert_eq!(stats.layers[0].wasted_size, 0);
    assert_eq!(stats.layers[1].unique_size, 0);
    assert_eq!(stats.layers[1].wasted_size, 100);
}

#[test]
fn test_whiteout_count_and_bytes() {
    let mut layer0 = FileTree::new();
    layer0.add_path("a", file_info(100));
    let mut layer1 = FileTree::new();
    layer1.add_path(".wh.a", whiteout_info());

    let image = Image {
        reference: "test".into(),
        layers: vec![
            Layer::new(0, "add a", 100, layer0),
            Layer::new(1, "remove a", 0, layer1),
        ],
    };

    let stats = LayerStatsAnalyzer.analyze_image(&image);
    assert_eq!(stats.layers[1].whiteout_count, 1);
    assert_eq!(stats.layers[1].whiteout_bytes, 100);
}

#[test]
fn layer_stats_count_links_and_totals() {
    let mut layer0 = FileTree::new();
    layer0.add_path("a", file_info(100));
    layer0.add_path("l", symlink_info());
    let mut layer1 = FileTree::new();
    layer1.add_path("b", file_info(40));
    let image = Image {
        reference: "test".into(),
        layers: vec![
            Layer::new(0, "zero", 100, layer0),
            Layer::new(1, "one", 40, layer1),
        ],
    };
    let stats = LayerStatsAnalyzer.analyze_image(&image);
    assert_eq!(stats.layers[0].symlink_count, 1);
    assert_eq!(stats.layers[0].file_count, 1);
    assert_eq!(stats.layers[1].cumulative_unique_size, 140);
    assert_eq!(stats.layers[1].image_total_bytes, 140);
    assert_eq!(stats.layers[1].command, "one");
}

#[test]
fn efficiency_text_uses_given_percentages() {
    let mut layer0 = FileTree::new();
    layer0.add_path("a", file_info(2048));
    let mut layer1 = FileTree::new();
    layer1.add_path("a", file_info(2048));
    let image = Image {
        reference: "test".into(),
        layers: vec![
            Layer::new(0, "add a", 2048, layer0),
            Layer::new(1, "copy a", 2048, layer1),
        ],
    };
    let result = EfficiencyAnalyzer.analyze_image(&image);
    assert_eq!(result.summary_with("50.00"), "Efficiency: 50.00%  Wasted: 4.0 KB");
    let details = result.details_with("50.00", "200.00");
    assert_eq!(details.len(), 2);
    assert_eq!(details[0].items[0].value, "50.00%");
    assert_eq!(details[0].items[1].value, "4.0 KB");
    assert_eq!(details[0].items[4].value, "200.00%");
    assert_eq!(details[1].title, "Top inefficient files");
    assert_eq!(details[1].items[0].label, "a");
    assert_eq!(details[1].items[0].value, "4.0 KB wasted (4.0 KB cumulative)");
}

#[test]
fn layer_stats_text_lists_each_layer() {
    let mut layer0 = FileTree::new();
    layer0.add_path("a", file_info(1024));
    let image = Image {
        reference: "test".into(),
        layers: vec![Layer::new(0, "add a", 1024, layer0)],
    };
    let result = LayerStatsAnalyzer.analyze_image(&image);
    assert_eq!(result.summary_line(), "Layer Stats: 1 layers, 1.0 KB unique");
    let details = result.details_with(&vec![("100.0".to_string(), "100.0".to_string())]);
    assert_eq!(details[0].title, "Per-layer metrics");
    assert_eq!(details[0].items[0].label, "#0: add a");
    assert_eq!(
        details[0].items[0].value,
        "raw=1.0 KB unique=1.0 KB wasted=0 B files=1 dirs=0 wh=0 100.0% of image (100.0% cumulative)"
    );
}

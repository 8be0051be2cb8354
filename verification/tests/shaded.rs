use deep_dive::report::AnalysisResult;
use deep_dive::analyzers::shaded::ShadedFileAnalyzer;
use deep_dive::filetree::{FileInfo, FileTree, TarEntryType};
use deep_dive::image::{Image, Layer};

fn file_info(size: u64, content_hash: u64) -> FileInfo {
    FileInfo {
        size,
        content_hash,
        entry_type: TarEntryType::Regular,
        ..Default::default()
    }
}

fn whiteout_info() -> FileInfo {
    FileInfo {
        entry_type: TarEntryType::Regular,
        ..Default::default()
    }
}

#[test]
fn test_no_shaded_files_single_layer() {
    let mut tree = FileTree::new();
    tree.add_path("a", file_info(100, 1));

    let image = Image {
        reference: "test".into(),
        layers: vec![Layer::new(0, "add a", 100, tree)],
    };

    let shaded = ShadedFileAnalyzer.analyze_image(&image);
    assert_eq!(shaded.shaded_file_count, 0);
    assert_eq!(shaded.total_shaded_bytes, 0);
}

#[test]
fn test_simple_shading() {
    let mut layer0 = FileTree::new();
    layer0.add_path("a", file_info(100, 1));
    let mut layer1 = FileTree::new();
    layer1.add_path("a", file_info(200, 2));

    let image = Image {
        reference: "test".into(),
        layers: vec![
            Layer::new(0, "add a", 100, layer0),
            Layer::new(1, "overwrite a", 200, layer1),
        ],
    };

    let shaded = ShadedFileAnalyzer.analyze_image(&image);
    assert_eq!(shaded.shaded_file_count, 1);
    assert_eq!(shaded.total_shaded_bytes, 100);

    let sf = &shaded.shaded_files[0];
    assert_eq!(sf.path, "a");
    assert_eq!(sf.occurrences.len(), 2);
    assert!(sf.occurrences[0].is_shaded);
    assert!(!sf.occurrences[1].is_shaded);
    assert!(!sf.content_identical);
}

#[test]
fn test_identical_content_across_layers() {
    let mut layer0 = FileTree::new();
    layer0.add_path("a", file_info(100, 1));
    let mut layer1 = FileTree::new();
    layer1.add_path("a", file_info(100, 1));

    let image = Image {
        reference: "test".into(),
        layers: vec![
            Layer::new(0, "add a", 100, layer0),
            Layer::new(1, "copy a", 100, layer1),
        ],
    };

    let shaded = ShadedFileAnalyzer.analyze_image(&image);
    assert_eq!(shaded.shaded_file_count, 1);
    assert_eq!(shaded.total_shaded_bytes, 100);
    assert!(shaded.shaded_files[0].content_identical);
}

#[test]
fn test_three_layers_with_shading() {
    let mut layer0 = FileTree::new();
    layer0.add_path("a", file_info(100, 1));
    let mut layer1 = FileTree::new();
    layer1.add_path("a", file_info(150, 2));
    let mut layer2 = FileTree::new();
    layer2.add_path("a", file_info(200, 3));

    let image = Image {
        reference: "test".into(),
        layers: vec![
            Layer::new(0, "add a", 100, layer0),
            Layer::new(1, "update a", 150, layer1),
            Layer::new(2, "final a", 200, layer2),
        ],
    };

    let shaded = ShadedFileAnalyzer.analyze_image(&image);
    assert_eq!(shaded.shaded_file_count, 1);
    assert_eq!(shaded.total_shaded_bytes, 250);

    let sf = &shaded.shaded_files[0];
    assert_eq!(sf.occurrences.len(), 3);
    assert!(sf.occurrences[0].is_shaded);
    assert!(sf.occurrences[1].is_shaded);
    assert!(!sf.occurrences[2].is_shaded);
}

#[test]
fn test_shaded_then_whited_out() {
    let mut layer0 = FileTree::new();
    layer0.add_path("a", file_info(100, 1));
    let mut layer1 = FileTree::new();
    layer1.add_path("a", file_info(200, 2));
    let mut layer2 = FileTree::new();
    layer2.add_path(".wh.a", whiteout_info());

    let image = Image {
        reference: "test".into(),
        layers: vec![
            Layer::new(0, "add a", 100, layer0),
            Layer::new(1, "update a", 200, layer1),
            Layer::new(2, "remove a", 0, layer2),
        ],
    };

    let shaded = ShadedFileAnalyzer.analyze_image(&image);
    assert_eq!(shaded.shaded_file_count, 1);
    assert_eq!(shaded.total_shaded_bytes, 100);

    let sf = &shaded.shaded_files[0];
    assert_eq!(sf.path, "a");
    assert!(sf.deleted_by_whiteout);
    assert!(sf.occurrences[0].is_shaded);
    assert!(!sf.occurrences[1].is_shaded);
}

#[test]
fn test_multiple_files_with_different_shading() {
    let mut layer0 = FileTree::new();
    layer0.add_path("shared", file_info(100, 1));
    layer0.add_path("unique", file_info(50, 2));

    let mut layer1 = FileTree::new();
    layer1.add_path("shared", file_info(200, 3));

    let image = Image {
        reference: "test".into(),
        layers: vec![
            Layer::new(0, "layer 0", 150, layer0),
            Layer::new(1, "layer 1", 200, layer1),
        ],
    };

    let shaded = ShadedFileAnalyzer.analyze_image(&image);
    assert_eq!(shaded.shaded_file_count, 1);
    assert_eq!(shaded.shaded_files[0].path, "shared");
}

#[test]
fn shaded_files_come_most_wasteful_first() {
    let mut layer0 = FileTree::new();
    layer0.add_path("small", file_info(10, 1));
    layer0.add_path("big", file_info(500, 2));
    let mut layer1 = FileTree::new();
    layer1.add_path("small", file_info(10, 1));
    layer1.add_path("big", file_info(5, 3));

    let image = Image {
        reference: "test".into(),
        layers: vec![
            Layer::new(0, "layer 0", 510, layer0),
            Layer::new(1, "layer 1", 15, layer1),
        ],
    };

    let shaded = ShadedFileAnalyzer.analyze_image(&image);
    assert_eq!(shaded.shaded_file_count, 2);
    assert_eq!(shaded.shaded_files[0].path, "big");
    assert_eq!(shaded.shaded_files[0].total_wasted, 500);
    assert_eq!(shaded.shaded_files[1].path, "small");
    assert_eq!(shaded.total_shaded_bytes, 510);
}

#[test]
fn shaded_result_summary_and_details() {
    let mut layer0 = FileTree::new();
    layer0.add_path("a", file_info(2048, 1));
    let mut layer1 = FileTree::new();
    layer1.add_path("a", file_info(2048, 1));
    let image = Image {
        reference: "test".into(),
        layers: vec![
            Layer::new(0, "add a", 2048, layer0),
            Layer::new(1, "copy a", 2048, layer1),
        ],
    };
    let shaded = ShadedFileAnalyzer.analyze_image(&image);
    assert_eq!(shaded.analyzer_name(), "Shaded Files");
    assert_eq!(shaded.summary(), "Shaded Files: 1 files, 2.0 KB wasted");
    let details = shaded.details();
    assert_eq!(details.len(), 2);
    assert_eq!(details[0].title, "Summary");
    assert_eq!(details[0].items[0].label, "Total shaded files");
    assert_eq!(details[0].items[0].value, "1");
    assert_eq!(details[0].items[1].value, "2.0 KB");
    assert_eq!(details[1].title, "Shaded files by waste (descending)");
    assert_eq!(details[1].items[0].label, "a");
    assert_eq!(
        details[1].items[0].value,
        "  Layer 0: 2.0 KB (shaded)\n  Layer 1: 2.0 KB \u{2190} visible\n  (content identical across layers)"
    );
}

#[test]
fn shaded_result_details_when_nothing_is_shaded() {
    let mut tree = FileTree::new();
    tree.add_path("a", file_info(1, 1));
    let image = Image {
        reference: "test".into(),
        layers: vec![Layer::new(0, "add a", 1, tree)],
    };
    let details = ShadedFileAnalyzer.analyze_image(&image).details();
    assert_eq!(details.len(), 1);
    assert_eq!(details[0].title, "Shaded Files");
    assert_eq!(details[0].items[0].label, "Status");
    assert_eq!(details[0].items[0].value, "No shaded files found");
}

use deep_dive::image::Image;
use deep_dive::report::{AnalysisItem, AnalysisResult, AnalysisSection, Analyzer, Report};
use deep_dive::state::AppState;
use deep_dive::widgets::{ImageDetailsWidget, LineKind};

struct MockAnalyzer;

impl Analyzer for MockAnalyzer {
    fn name(&self) -> &'static str {
        "Mock"
    }

    fn description(&self) -> &'static str {
        "A test analyzer"
    }

    fn analyze(&self, _image: &Image) -> anyhow::Result<Box<dyn AnalysisResult>> {
        Ok(Box::new(MockResult))
    }
}

struct MockResult;

impl AnalysisResult for MockResult {
    fn analyzer_name(&self) -> &'static str {
        "Mock"
    }

    fn summary(&self) -> String {
        "mock summary".to_string()
    }

    fn details(&self) -> Vec<AnalysisSection> {
        vec![AnalysisSection {
            title: "Section".to_string(),
            items: vec![AnalysisItem {
                label: "Key".to_string(),
                value: "Value".to_string(),
            }],
        }]
    }
}

struct FailingAnalyzer;

impl Analyzer for FailingAnalyzer {
    fn name(&self) -> &'static str {
        "Failing"
    }

    fn description(&self) -> &'static str {
        "Always fails"
    }

    fn analyze(&self, _image: &Image) -> anyhow::Result<Box<dyn AnalysisResult>> {
        Err(anyhow::Error::msg("boom"))
    }
}

fn empty_image() -> Image {
    Image {
        reference: "test".to_string(),
        layers: Vec::new(),
    }
}

#[test]
fn test_generate_with_empty_analyzers() {
    let image = empty_image();
    let report = Report::generate(&image, &[]).unwrap();
    assert!(report.results.is_empty());
    assert_eq!(report.image_ref, "test");
}

#[test]
fn test_generate_with_mock_analyzer() {
    let image = empty_image();
    let analyzers: Vec<Box<dyn Analyzer>> = vec![Box::new(MockAnalyzer)];
    let report = Report::generate(&image, &analyzers).unwrap();
    assert_eq!(report.results.len(), 1);
    assert_eq!(report.results[0].analyzer_name(), "Mock");
    assert_eq!(report.results[0].summary(), "mock summary");
    let details = report.results[0].details();
    assert_eq!(details.len(), 1);
    assert_eq!(details[0].title, "Section");
    assert_eq!(details[0].items[0].label, "Key");
    assert_eq!(details[0].items[0].value, "Value");
}

#[test]
fn a_failing_analyzer_fails_the_report() {
    let image = empty_image();
    let analyzers: Vec<Box<dyn Analyzer>> = vec![Box::new(MockAnalyzer), Box::new(FailingAnalyzer)];
    let err = Report::generate(&image, &analyzers).err().unwrap();
    assert!(err.to_string().contains("boom"));
}

#[test]
fn image_details_lines_show_each_result() {
    let image = empty_image();
    let analyzers: Vec<Box<dyn Analyzer>> = vec![Box::new(MockAnalyzer)];
    let report = Report::generate(&image, &analyzers).unwrap();
    let mut state = AppState::new(empty_image());
    let none = ImageDetailsWidget::lines(&state);
    assert_eq!(none.len(), 1);
    assert_eq!(none[0].kind, LineKind::Text);
    assert_eq!(none[0].text, "No analysis report available.");
    state.report = Some(report);
    let lines: Vec<(LineKind, String, String)> = ImageDetailsWidget::lines(&state)
        .into_iter()
        .map(|l| (l.kind, l.text, l.value))
        .collect();
    let s = |t: &str| t.to_string();
    assert_eq!(
        lines,
        vec![
            (LineKind::Text, s("Image: test"), s("")),
            (LineKind::Blank, s(""), s("")),
            (LineKind::Summary, s("[Mock] mock summary"), s("")),
            (LineKind::Section, s("Section:"), s("")),
            (LineKind::Item, s("  Key: "), s("Value")),
            (LineKind::Blank, s(""), s("")),
        ]
    );
}

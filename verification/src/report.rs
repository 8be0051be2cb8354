//! Analyzers, their results, and the report that collects them.
use vstd::prelude::*;
use crate::image::Image;

verus! {

#[verifier::external_type_specification]
#[verifier::external_body]
pub struct ExAnyhowError(anyhow::Error);

/// A single analysis that can be run against an image.
pub trait Analyzer: Send + Sync {
    /// Human-readable name (e.g. "Efficiency", "Layer Stats").
    fn name(&self) -> &'static str;

    /// Brief description of what this analyzer does.
    fn description(&self) -> &'static str;

    /// Run the analysis against the image.
    fn analyze(&self, image: &Image) -> Result<Box<dyn AnalysisResult>, anyhow::Error>;
}

/// The result of running a single analyzer.
pub trait AnalysisResult: Send + Sync {
    /// The analyzer name this result came from.
    fn analyzer_name(&self) -> &'static str;

    /// One-line summary for display in the status bar.
    fn summary(&self) -> String;

    /// Detailed results: sections of labeled values.
    fn details(&self) -> Vec<AnalysisSection>;
}

/// A labeled section within analysis results.
#[derive(Debug)]
pub struct AnalysisSection {
    pub title: String,
    pub items: Vec<AnalysisItem>,
}

/// A single labeled value inside an analysis section.
#[derive(Debug)]
pub struct AnalysisItem {
    pub label: String,
    pub value: String,
}

/// A report collecting results from all registered analyzers.
pub struct Report {
    pub image_ref: String,
    pub results: Vec<Box<dyn AnalysisResult>>,
}

impl Report {
    /// Runs every analyzer against the image, in order; the first failure
    /// is the report's failure.
    pub fn generate(image: &Image, analyzers: &[Box<dyn Analyzer>]) -> (r: Result<Report, anyhow::Error>)
        ensures
            match r {
                Ok(report) => report.image_ref@ == image.reference@ && report.results@.len()
                    == analyzers@.len(),
                Err(_) => analyzers@.len() > 0,
            },
    {
        let mut results: Vec<Box<dyn AnalysisResult>> = Vec::new();
        let mut i: usize = 0;
        while i < analyzers.len()
            invariant
                i <= analyzers@.len(),
                results@.len() == i,
            decreases analyzers@.len() - i,
        {
            let res = match analyzers[i].analyze(image) {
                Ok(res) => res,
                Err(e) => return Err(e),
            };
            let ghost before = results@;
            let ghost pushed = res;
            results.push(res);
            proof {
                vstd::seq::axiom_seq_push_len(before, pushed);
            }
            i = i + 1;
        }
        Ok(Report { image_ref: image.reference.clone(), results })
    }
}


/// A section as plain text: its title and its (label, value) items.
pub open spec fn section_view(s: AnalysisSection) -> (Seq<char>, Seq<(Seq<char>, Seq<char>)>) {
    (s.title@, s.items@.map_values(|i: AnalysisItem| (i.label@, i.value@)))
}

/// Sections as plain text.
pub open spec fn sections_view(v: Seq<AnalysisSection>) -> Seq<(Seq<char>, Seq<(Seq<char>, Seq<char>)>)> {
    v.map_values(|s: AnalysisSection| section_view(s))
}

/// `parts` joined with line breaks.
pub open spec fn join_lines(parts: Seq<Seq<char>>) -> Seq<char>
    decreases parts.len(),
{
    if parts.len() == 0 {
        Seq::empty()
    } else if parts.len() == 1 {
        parts[0]
    } else {
        join_lines(parts.drop_last()) + seq!['\n'] + parts.last()
    }
}

/// The characters of each vector.
pub open spec fn lines_view(v: Seq<Vec<char>>) -> Seq<Seq<char>> {
    v.map_values(|l: Vec<char>| l@)
}

/// The lines joined with line breaks.
pub fn join_with_newlines(lines: &Vec<Vec<char>>) -> (r: Vec<char>)
    ensures
        r@ == join_lines(lines_view(lines@)),
{
    let ghost ls = lines_view(lines@);
    let mut out: Vec<char> = Vec::new();
    let mut i: usize = 0;
    proof {
        assert(ls.take(0) =~= Seq::<Seq<char>>::empty());
    }
    while i < lines.len()
        invariant
            ls == lines_view(lines@),
            i <= lines@.len(),
            out@ == join_lines(ls.take(i as int)),
        decreases lines@.len() - i,
    {
        let ghost before = out@;
        if i > 0 {
            out.push('\n');
        }
        crate::text::append_chars(&mut out, &lines[i]);
        proof {
            let t = ls.take(i + 1);
            assert(t.drop_last() =~= ls.take(i as int));
            assert(t.last() == lines@[i as int]@);
            if i == 0 {
                assert(out@ =~= t[0]);
            } else {
                assert(out@ =~= before + seq!['\n'] + t.last());
            }
        }
        i = i + 1;
    }
    proof {
        assert(ls.take(lines@.len() as int) =~= ls);
    }
    out
}

/// A section with the given title and items.
pub fn section(title: &str, items: Vec<AnalysisItem>) -> (r: AnalysisSection)
    ensures
        r.title@ == title@,
        r.items@ == items@,
{
    AnalysisSection { title: crate::text::vec_to_string(&crate::text::str_to_chars(title)), items }
}

/// An item with the given label and value.
pub fn item(label: &str, value: String) -> (r: AnalysisItem)
    ensures
        r.label@ == label@,
        r.value@ == value@,
{
    AnalysisItem { label: crate::text::vec_to_string(&crate::text::str_to_chars(label)), value }
}

} // verus!

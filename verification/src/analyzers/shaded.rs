//! Files whose content is hidden by a newer version in a higher layer.
use vstd::prelude::*;
use crate::filetree::{is_leaf, is_whiteout_key, whiteout_target, NodeView, TarEntryType};
use crate::image::{Image, Layer, layers_wf};
use crate::paths::{PathKey, join_path};
use crate::report::{
    AnalysisItem, AnalysisResult, AnalysisSection, item, join_lines, join_with_newlines, lines_view, section,
    section_view, sections_view,
};
use crate::text::{append_chars, chars_eq, decimal, decimal_chars, str_to_chars, string_chars, vec_to_string};
use crate::utils::{format_size, size_text};

verus! {

/// One copy of a file in one layer.
#[derive(Debug, Clone, Copy, PartialEq, Eq, Structural)]
pub struct ShadedOccurrence {
    pub layer_index: usize,
    pub size: u64,
    pub content_hash: u64,
    pub is_shaded: bool,
}

/// A path present in two or more layers: every copy but the top one is shaded.
#[derive(Debug)]
pub struct ShadedFile {
    pub path: String,
    pub occurrences: Vec<ShadedOccurrence>,
    pub total_wasted: u64,
    pub content_identical: bool,
    pub deleted_by_whiteout: bool,
}

/// The mathematical value of a [`ShadedFile`].
pub struct ShadedFileView {
    pub path: Seq<char>,
    pub occurrences: Seq<ShadedOccurrence>,
    pub total_wasted: int,
    pub content_identical: bool,
    pub deleted_by_whiteout: bool,
}

impl View for ShadedFile {
    type V = ShadedFileView;

    open spec fn view(&self) -> ShadedFileView {
        ShadedFileView {
            path: self.path@,
            occurrences: self.occurrences@,
            total_wasted: self.total_wasted as int,
            content_identical: self.content_identical,
            deleted_by_whiteout: self.deleted_by_whiteout,
        }
    }
}

/// The shaded files of an image, most wasteful first.
#[derive(Debug)]
pub struct ShadedFileResult {
    pub shaded_files: Vec<ShadedFile>,
    pub total_shaded_bytes: u64,
    pub shaded_file_count: usize,
}

/// Finds files whose content is hidden by a newer version in a higher layer.
pub struct ShadedFileAnalyzer;

/// The copies of one path met so far, in the order met.
pub struct OccGroup {
    pub path: Seq<char>,
    pub occs: Seq<ShadedOccurrence>,
}

/// What a scan of the layers has collected: copies grouped by path, in order of
/// first appearance, and every whiteout with the layer index it sits in.
pub struct ShadedScan {
    pub groups: Seq<OccGroup>,
    pub whiteouts: Seq<(Seq<char>, usize)>,
}

/// Position of the group for path `p` (`-1` when there is none).
pub open spec fn find_group(gs: Seq<OccGroup>, p: Seq<char>) -> int
    decreases gs.len(),
{
    if gs.len() == 0 {
        -1
    } else if gs.last().path == p {
        gs.len() - 1
    } else {
        find_group(gs.drop_last(), p)
    }
}

/// `find_group` gives `-1` or the position of a group for `p`.
pub proof fn lemma_find_group(gs: Seq<OccGroup>, p: Seq<char>)
    ensures
        -1 <= find_group(gs, p) < gs.len(),
        find_group(gs, p) >= 0 ==> gs[find_group(gs, p)].path == p,
    decreases gs.len(),
{
    if gs.len() > 0 && gs.last().path != p {
        lemma_find_group(gs.drop_last(), p);
        let i = find_group(gs.drop_last(), p);
        if i >= 0 {
            assert(gs.drop_last()[i] == gs[i]);
        }
    }
}

/// Records a copy of path `p`.
pub open spec fn add_occ(gs: Seq<OccGroup>, p: Seq<char>, o: ShadedOccurrence) -> Seq<OccGroup> {
    let i = find_group(gs, p);
    if i < 0 {
        gs.push(OccGroup { path: p, occs: seq![o] })
    } else {
        gs.update(i, OccGroup { path: p, occs: gs[i].occs.push(o) })
    }
}

/// One leaf visited: a whiteout is noted with the path it removes, a file is
/// recorded as a copy of its path; directories and non-leaves are passed over.
pub open spec fn shaded_step(st: ShadedScan, index: usize, m: Map<PathKey, NodeView>, q: PathKey) -> ShadedScan {
    if !is_leaf(m, q) {
        st
    } else if is_whiteout_key(q) {
        let t = join_path(whiteout_target(q));
        if t.len() == 0 {
            st
        } else {
            ShadedScan { whiteouts: st.whiteouts.push((t, index)), ..st }
        }
    } else if m[q].info.entry_type == TarEntryType::Directory {
        st
    } else {
        ShadedScan {
            groups: add_occ(
                st.groups,
                join_path(q),
                ShadedOccurrence {
                    layer_index: index,
                    size: m[q].info.size,
                    content_hash: m[q].info.content_hash,
                    is_shaded: false,
                },
            ),
            ..st
        }
    }
}

/// The scan over the keys of one layer, in tree order.
pub open spec fn scan_keys(st: ShadedScan, index: usize, m: Map<PathKey, NodeView>, ks: Seq<PathKey>) -> ShadedScan
    decreases ks.len(),
{
    if ks.len() == 0 {
        st
    } else {
        shaded_step(scan_keys(st, index, m, ks.drop_last()), index, m, ks.last())
    }
}

/// The scan over the layers, bottom first.
pub open spec fn scan_layers(layers: Seq<Layer>) -> ShadedScan
    decreases layers.len(),
{
    if layers.len() == 0 {
        ShadedScan { groups: Seq::empty(), whiteouts: Seq::empty() }
    } else {
        let l = layers.last();
        scan_keys(scan_layers(layers.drop_last()), l.index, l.tree.nodes(), l.tree.ordered_keys())
    }
}

/// Inserts `x` after the last element whose layer index is at most its own.
pub open spec fn ins_by_layer(s: Seq<ShadedOccurrence>, x: ShadedOccurrence) -> Seq<ShadedOccurrence>
    decreases s.len(),
{
    if s.len() == 0 || s.last().layer_index <= x.layer_index {
        s.push(x)
    } else {
        ins_by_layer(s.drop_last(), x).push(s.last())
    }
}

/// Stable sort by layer index.
pub open spec fn sort_by_layer(s: Seq<ShadedOccurrence>) -> Seq<ShadedOccurrence>
    decreases s.len(),
{
    if s.len() == 0 {
        s
    } else {
        ins_by_layer(sort_by_layer(s.drop_last()), s.last())
    }
}

/// The sum of the sizes.
pub open spec fn sum_sizes(s: Seq<ShadedOccurrence>) -> int
    decreases s.len(),
{
    if s.len() == 0 {
        0
    } else {
        sum_sizes(s.drop_last()) + s.last().size
    }
}

/// Every copy but the last marked shaded.
pub open spec fn mark_shaded(files: Seq<ShadedOccurrence>) -> Seq<ShadedOccurrence> {
    Seq::new(
        files.len(),
        |i: int| ShadedOccurrence { is_shaded: i < files.len() - 1, ..files[i] },
    )
}

/// The shaded file for a group of two or more copies.
pub open spec fn record_of(g: OccGroup, wos: Seq<(Seq<char>, usize)>) -> ShadedFileView {
    let files = sort_by_layer(g.occs);
    let n = files.len();
    let top = files[n - 1];
    ShadedFileView {
        path: g.path,
        occurrences: mark_shaded(files),
        total_wasted: sum_sizes(files.take(n - 1)),
        content_identical: forall|i: int| 0 <= i < n ==> (#[trigger] files[i]).content_hash == top.content_hash,
        deleted_by_whiteout: exists|j: int|
            0 <= j < wos.len() && (#[trigger] wos[j]).0 == g.path && wos[j].1 > top.layer_index,
    }
}

/// The shaded files, in order of first appearance.
pub open spec fn records(gs: Seq<OccGroup>, wos: Seq<(Seq<char>, usize)>) -> Seq<ShadedFileView>
    decreases gs.len(),
{
    if gs.len() == 0 {
        Seq::empty()
    } else if gs.last().occs.len() >= 2 {
        records(gs.drop_last(), wos).push(record_of(gs.last(), wos))
    } else {
        records(gs.drop_last(), wos)
    }
}

/// The sum of the wasted bytes.
pub open spec fn sum_wasted(s: Seq<ShadedFileView>) -> int
    decreases s.len(),
{
    if s.len() == 0 {
        0
    } else {
        sum_wasted(s.drop_last()) + s.last().total_wasted
    }
}

/// Inserts `x` after the last element wasting at least as much.
pub open spec fn ins_by_waste(s: Seq<ShadedFileView>, x: ShadedFileView) -> Seq<ShadedFileView>
    decreases s.len(),
{
    if s.len() == 0 || s.last().total_wasted >= x.total_wasted {
        s.push(x)
    } else {
        ins_by_waste(s.drop_last(), x).push(s.last())
    }
}

/// Stable sort by wasted bytes, largest first.
pub open spec fn sort_by_waste(s: Seq<ShadedFileView>) -> Seq<ShadedFileView>
    decreases s.len(),
{
    if s.len() == 0 {
        s
    } else {
        ins_by_waste(sort_by_waste(s.drop_last()), s.last())
    }
}

/// The shaded files of an image in order of first appearance.
pub open spec fn shaded_records(layers: Seq<Layer>) -> Seq<ShadedFileView> {
    let scan = scan_layers(layers);
    records(scan.groups, scan.whiteouts)
}

/// The views of a sequence of shaded files.
pub open spec fn files_view(v: Seq<ShadedFile>) -> Seq<ShadedFileView> {
    v.map_values(|f: ShadedFile| f@)
}

pub proof fn lemma_ins_by_layer(s: Seq<ShadedOccurrence>, x: ShadedOccurrence, j: int)
    requires
        0 <= j <= s.len(),
        j == 0 || s[j - 1].layer_index <= x.layer_index,
        forall|t: int| j <= t < s.len() ==> (#[trigger] s[t]).layer_index > x.layer_index,
    ensures
        ins_by_layer(s, x) == s.take(j).push(x) + s.skip(j),
    decreases s.len() - j,
{
    if j == s.len() {
        assert(s.take(j) =~= s);
        assert(s.take(j).push(x) + s.skip(j) =~= s.push(x));
    } else {
        let d = s.drop_last();
        assert forall|t: int| j <= t < d.len() implies (#[trigger] d[t]).layer_index > x.layer_index by {
            assert(d[t] == s[t]);
        }
        if j > 0 {
            assert(d[j - 1] == s[j - 1]);
        }
        lemma_ins_by_layer(d, x, j);
        assert(s.last() == s[s.len() - 1]);
        assert((d.take(j).push(x) + d.skip(j)).push(s.last()) =~= s.take(j).push(x) + s.skip(j));
    }
}

pub proof fn lemma_ins_by_waste(s: Seq<ShadedFileView>, x: ShadedFileView, j: int)
    requires
        0 <= j <= s.len(),
        j == 0 || s[j - 1].total_wasted >= x.total_wasted,
        forall|t: int| j <= t < s.len() ==> (#[trigger] s[t]).total_wasted < x.total_wasted,
    ensures
        ins_by_waste(s, x) == s.take(j).push(x) + s.skip(j),
    decreases s.len() - j,
{
    if j == s.len() {
        assert(s.take(j) =~= s);
        assert(s.take(j).push(x) + s.skip(j) =~= s.push(x));
    } else {
        let d = s.drop_last();
        assert forall|t: int| j <= t < d.len() implies (#[trigger] d[t]).total_wasted < x.total_wasted by {
            assert(d[t] == s[t]);
        }
        if j > 0 {
            assert(d[j - 1] == s[j - 1]);
        }
        lemma_ins_by_waste(d, x, j);
        assert(s.last() == s[s.len() - 1]);
        assert((d.take(j).push(x) + d.skip(j)).push(s.last()) =~= s.take(j).push(x) + s.skip(j));
    }
}

pub proof fn lemma_sum_sizes_nonneg(s: Seq<ShadedOccurrence>)
    ensures
        sum_sizes(s) >= 0,
    decreases s.len(),
{
    if s.len() > 0 {
        lemma_sum_sizes_nonneg(s.drop_last());
    }
}

pub proof fn lemma_sum_sizes_prefix(s: Seq<ShadedOccurrence>, i: int)
    requires
        0 <= i <= s.len(),
    ensures
        sum_sizes(s.take(i)) <= sum_sizes(s),
    decreases s.len() - i,
{
    if i == s.len() {
        assert(s.take(i) =~= s);
    } else {
        lemma_sum_sizes_prefix(s, i + 1);
        assert(s.take(i + 1).drop_last() =~= s.take(i));
    }
}

pub proof fn lemma_sum_wasted_prefix(s: Seq<ShadedFileView>, i: int)
    requires
        0 <= i <= s.len(),
        forall|t: int| 0 <= t < s.len() ==> (#[trigger] s[t]).total_wasted >= 0,
    ensures
        sum_wasted(s.take(i)) <= sum_wasted(s),
        0 <= sum_wasted(s.take(i)),
    decreases s.len() - i,
{
    let p = s.take(i);
    assert forall|t: int| 0 <= t < p.len() implies (#[trigger] p[t]).total_wasted >= 0 by {
        assert(p[t] == s[t]);
    }
    lemma_sum_wasted_nonneg(p);
    if i == s.len() {
        assert(s.take(i) =~= s);
    } else {
        lemma_sum_wasted_prefix(s, i + 1);
        assert(s.take(i + 1).drop_last() =~= s.take(i));
    }
}

pub proof fn lemma_sum_wasted_nonneg(s: Seq<ShadedFileView>)
    requires
        forall|t: int| 0 <= t < s.len() ==> (#[trigger] s[t]).total_wasted >= 0,
    ensures
        sum_wasted(s) >= 0,
    decreases s.len(),
{
    if s.len() > 0 {
        assert forall|t: int| 0 <= t < s.drop_last().len() implies (#[trigger] s.drop_last()[t]).total_wasted >= 0 by {
            assert(s.drop_last()[t] == s[t]);
        }
        lemma_sum_wasted_nonneg(s.drop_last());
    }
}

/// Exec form of a group.
struct Group {
    path: Vec<char>,
    occs: Vec<ShadedOccurrence>,
}

spec fn group_view(g: Group) -> OccGroup {
    OccGroup { path: g.path@, occs: g.occs@ }
}

spec fn groups_view(v: Seq<Group>) -> Seq<OccGroup> {
    v.map_values(|g: Group| group_view(g))
}

spec fn wos_view(v: Seq<(Vec<char>, usize)>) -> Seq<(Seq<char>, usize)> {
    v.map_values(|w: (Vec<char>, usize)| (w.0@, w.1))
}

/// Position of the group for `p`, scanning from the end.
fn find_group_exec(gs: &Vec<Group>, p: &Vec<char>) -> (r: Option<usize>)
    ensures
        match r {
            Some(i) => i < gs@.len() && find_group(groups_view(gs@), p@) == i,
            None => find_group(groups_view(gs@), p@) == -1,
        },
{
    let ghost gv = groups_view(gs@);
    let mut j: usize = gs.len();
    proof {
        assert(gv.take(j as int) =~= gv);
    }
    while j > 0
        invariant
            gv == groups_view(gs@),
            j <= gs@.len(),
            find_group(gv, p@) == find_group(gv.take(j as int), p@),
        decreases j,
    {
        let ghost t = gv.take(j as int);
        assert(t.last() == gv[j - 1]);
        assert(t.drop_last() =~= gv.take(j - 1));
        if chars_eq(&gs[j - 1].path, p) {
            return Some(j - 1);
        }
        j = j - 1;
    }
    None
}

/// Inserts into a list already sorted by layer index.
fn insert_by_layer(v: &mut Vec<ShadedOccurrence>, x: ShadedOccurrence)
    ensures
        final(v)@ == ins_by_layer(old(v)@, x),
{
    let mut j: usize = v.len();
    while j > 0 && v[j - 1].layer_index > x.layer_index
        invariant
            j <= v@.len(),
            forall|t: int| j <= t < v@.len() ==> (#[trigger] v@[t]).layer_index > x.layer_index,
        decreases j,
    {
        j = j - 1;
    }
    proof {
        lemma_ins_by_layer(v@, x, j as int);
        assert(v@.insert(j as int, x) =~= v@.take(j as int).push(x) + v@.skip(j as int));
    }
    v.insert(j, x);
}

impl ShadedFileAnalyzer {
    pub fn name(&self) -> (r: &'static str)
        ensures
            r@ == "Shaded Files"@,
    {
        "Shaded Files"
    }

    pub fn description(&self) -> (r: &'static str)
        ensures
            r@ == "Files whose content is hidden by a newer version in a higher layer"@,
    {
        "Files whose content is hidden by a newer version in a higher layer"
    }

    /// Finds every path that two or more layers hold as a file. Copies are
    /// listed by layer index; all but the top copy are shaded, and their sizes
    /// make the wasted bytes. Results come most wasteful first.
    pub fn analyze_image(&self, image: &Image) -> (r: ShadedFileResult)
        requires
            image.wf(),
            sum_wasted(shaded_records(image.layers@)) <= u64::MAX,
        ensures
            files_view(r.shaded_files@) == sort_by_waste(shaded_records(image.layers@)),
            r.total_shaded_bytes == sum_wasted(shaded_records(image.layers@)),
            r.shaded_file_count == r.shaded_files@.len(),
    {
        let ghost layers = image.layers@;
        let mut groups: Vec<Group> = Vec::new();
        let mut wos: Vec<(Vec<char>, usize)> = Vec::new();
        let nl = image.layers.len();
        let mut li: usize = 0;
        proof {
            assert(layers.take(0) =~= Seq::<Layer>::empty());
            assert(groups_view(groups@) =~= Seq::<OccGroup>::empty());
            assert(wos_view(wos@) =~= Seq::<(Seq<char>, usize)>::empty());
        }
        while li < nl
            invariant
                layers == image.layers@,
                layers_wf(layers),
                nl == layers.len(),
                li <= nl,
                scan_layers(layers.take(li as int)) == (ShadedScan {
                    groups: groups_view(groups@),
                    whiteouts: wos_view(wos@),
                }),
            decreases nl - li,
        {
            let layer = &image.layers[li];
            let tree = &layer.tree;
            assert(layers[li as int].tree.wf());
            let ghost m = tree.nodes();
            let ghost ks = tree.ordered_keys();
            let ghost start = scan_layers(layers.take(li as int));
            let ne = tree.entry_count();
            let mut ei: usize = 0;
            proof {
                assert(ks.take(0) =~= Seq::<PathKey>::empty());
            }
            while ei < ne
                invariant
                    tree.wf(),
                    m == tree.nodes(),
                    ks == tree.ordered_keys(),
                    ne == ks.len(),
                    ei <= ne,
                    scan_keys(start, layer.index, m, ks.take(ei as int)) == (ShadedScan {
                        groups: groups_view(groups@),
                        whiteouts: wos_view(wos@),
                    }),
                decreases ne - ei,
            {
                let ghost q = ks[ei as int];
                let ghost before = ShadedScan { groups: groups_view(groups@), whiteouts: wos_view(wos@) };
                proof {
                    assert(ks.take(ei + 1).drop_last() =~= ks.take(ei as int));
                    assert(ks.take(ei + 1).last() == q);
                }
                if tree.entry_is_leaf(ei) {
                    if tree.entry_is_whiteout(ei) {
                        let t = tree.entry_whiteout_target(ei);
                        if t.len() > 0 {
                            wos.push((t, layer.index));
                            proof {
                                assert(wos_view(wos@) =~= before.whiteouts.push((t@, layer.index)));
                            }
                        }
                    } else {
                        let node = tree.entry_node(ei);
                        if node.info.entry_type != TarEntryType::Directory {
                            let occ = ShadedOccurrence {
                                layer_index: layer.index,
                                size: node.info.size,
                                content_hash: node.info.content_hash,
                                is_shaded: false,
                            };
                            let path = tree.entry_path(ei);
                            match find_group_exec(&groups, &path) {
                                Some(gi) => {
                                    proof {
                                        lemma_find_group(before.groups, path@);
                                        assert(before.groups[gi as int] == group_view(groups@[gi as int]));
                                    }
                                    let mut g = groups.remove(gi);
                                    let ghost gold = g.occs@;
                                    g.occs.push(occ);
                                    let ghost gv = group_view(g);
                                    groups.insert(gi, g);
                                    proof {
                                        assert(groups_view(groups@) =~= before.groups.update(gi as int, gv));
                                    }
                                },
                                None => {
                                    let mut occs: Vec<ShadedOccurrence> = Vec::new();
                                    occs.push(occ);
                                    groups.push(Group { path, occs });
                                    proof {
                                        assert(groups_view(groups@) =~= before.groups.push(
                                            OccGroup { path: path@, occs: seq![occ] },
                                        ));
                                    }
                                },
                            }
                        }
                    }
                }
                ei = ei + 1;
            }
            proof {
                assert(ks.take(ne as int) =~= ks);
                assert(layers.take(li + 1).drop_last() =~= layers.take(li as int));
                assert(layers.take(li + 1).last() == layers[li as int]);
            }
            li = li + 1;
        }
        proof {
            assert(layers.take(nl as int) =~= layers);
        }
        let ghost gsv = groups_view(groups@);
        let ghost wsv = wos_view(wos@);
        let ghost recs = records(gsv, wsv);
        // Build the records in order of first appearance.
        let mut out: Vec<ShadedFile> = Vec::new();
        let mut total: u64 = 0;
        let ng = groups.len();
        let mut gi: usize = 0;
        proof {
            assert(gsv.take(0) =~= Seq::<OccGroup>::empty());
            assert(files_view(out@) =~= Seq::<ShadedFileView>::empty());
            lemma_records_nonneg(gsv, wsv);
        }
        while gi < ng
            invariant
                gsv == groups_view(groups@),
                wsv == wos_view(wos@),
                recs == records(gsv, wsv),
                sum_wasted(recs) <= u64::MAX,
                forall|t: int| 0 <= t < recs.len() ==> (#[trigger] recs[t]).total_wasted >= 0,
                ng == groups@.len(),
                gi <= ng,
                files_view(out@) == records(gsv.take(gi as int), wsv),
                total == sum_wasted(files_view(out@)),
            decreases ng - gi,
        {
            proof {
                assert(gsv.take(gi + 1).drop_last() =~= gsv.take(gi as int));
                assert(gsv.take(gi + 1).last() == gsv[gi as int]);
                lemma_records_prefix(gsv, wsv, gi + 1);
            }
            if groups[gi].occs.len() >= 2 {
                let ghost pre = records(gsv.take(gi + 1), wsv);
                proof {
                    assert(gsv[gi as int] == group_view(groups@[gi as int]));
                    assert(pre == files_view(out@).push(record_of(gsv[gi as int], wsv)));
                    lemma_sum_wasted_prefix(recs, pre.len() as int);
                    assert forall|t: int| 0 <= t < pre.len() implies (#[trigger] pre[t]).total_wasted >= 0 by {
                        assert(pre[t] == recs[t]);
                    }
                    lemma_sum_wasted_last(pre);
                }
                let rec = make_record(&groups[gi], &wos);
                proof {
                    assert(pre.last() == rec@);
                    assert(pre.drop_last() == files_view(out@));
                }
                total = total + rec.total_wasted;
                let ghost before = files_view(out@);
                out.push(rec);
                proof {
                    assert(files_view(out@) =~= before.push(rec@));
                }
            }
            gi = gi + 1;
        }
        proof {
            assert(gsv.take(ng as int) =~= gsv);
        }
        // Sort most wasteful first, keeping the order of equals.
        let mut sorted: Vec<ShadedFile> = Vec::new();
        let ghost all = files_view(out@);
        let mut k: usize = 0;
        let n = out.len();
        proof {
            assert(all.take(0) =~= Seq::<ShadedFileView>::empty());
            assert(files_view(sorted@) =~= Seq::<ShadedFileView>::empty());
        }
        while k < n
            invariant
                n == all.len(),
                k <= n,
                out@.len() == n - k,
                files_view(out@) == all.skip(k as int),
                files_view(sorted@) == sort_by_waste(all.take(k as int)),
            decreases n - k,
        {
            let ghost outv = files_view(out@);
            let ghost oldout = out@;
            let x = out.remove(0);
            proof {
                assert(outv[0] == x@);
                assert(out@ =~= oldout.subrange(1, oldout.len() as int));
                assert forall|t: int| 0 <= t < out@.len() implies #[trigger] files_view(out@)[t] == all.skip(k + 1)[t] by {
                    assert(out@[t] == oldout[t + 1]);
                    assert(outv[t + 1] == oldout[t + 1]@);
                    assert(outv[t + 1] == all[k + 1 + t]);
                }
                assert(files_view(out@) =~= all.skip(k + 1));
                assert(all.take(k + 1).drop_last() =~= all.take(k as int));
                assert(all.take(k + 1).last() == x@);
            }
            let mut j: usize = sorted.len();
            while j > 0 && sorted[j - 1].total_wasted < x.total_wasted
                invariant
                    j <= sorted@.len(),
                    forall|t: int| j <= t < sorted@.len() ==> (#[trigger] sorted@[t]).total_wasted < x.total_wasted,
                decreases j,
            {
                j = j - 1;
            }
            let ghost sv = files_view(sorted@);
            proof {
                assert forall|t: int| j <= t < sv.len() implies (#[trigger] sv[t]).total_wasted < x@.total_wasted by {
                    assert(sv[t] == sorted@[t]@);
                }
                if j > 0 {
                    assert(sv[j - 1] == sorted@[j - 1]@);
                }
                lemma_ins_by_waste(sv, x@, j as int);
            }
            sorted.insert(j, x);
            proof {
                assert(files_view(sorted@) =~= sv.take(j as int).push(x@) + sv.skip(j as int));
            }
            k = k + 1;
        }
        proof {
            assert(all.take(n as int) =~= all);
        }
        let count = sorted.len();
        ShadedFileResult { shaded_files: sorted, total_shaded_bytes: total, shaded_file_count: count }
    }
}

/// The shaded file for a group of two or more copies.
fn make_record(g: &Group, wos: &Vec<(Vec<char>, usize)>) -> (r: ShadedFile)
    requires
        g.occs@.len() >= 2,
        record_of(group_view(*g), wos_view(wos@)).total_wasted <= u64::MAX,
    ensures
        r@ == record_of(group_view(*g), wos_view(wos@)),
    {
        let ghost wsv = wos_view(wos@);
        let ghost rec = record_of(group_view(*g), wsv);
        // Sort the copies by layer index.
        let mut files: Vec<ShadedOccurrence> = Vec::new();
        let m = g.occs.len();
        let mut i: usize = 0;
        proof {
            assert(g.occs@.take(0) =~= Seq::<ShadedOccurrence>::empty());
        }
        while i < m
            invariant
                m == g.occs@.len(),
                i <= m,
                files@ == sort_by_layer(g.occs@.take(i as int)),
            decreases m - i,
        {
            proof {
                assert(g.occs@.take(i + 1).drop_last() =~= g.occs@.take(i as int));
                assert(g.occs@.take(i + 1).last() == g.occs@[i as int]);
            }
            insert_by_layer(&mut files, g.occs[i]);
            i = i + 1;
        }
        proof {
            assert(g.occs@.take(m as int) =~= g.occs@);
            lemma_sort_by_layer_len(g.occs@);
        }
        let n = files.len();
        let top = files[n - 1];
        // Wasted bytes: every copy but the top one.
        proof {
            lemma_sum_sizes_nonneg(files@.take(n - 1));
        }
        let mut wasted: u64 = 0;
        let mut t: usize = 0;
        proof {
            assert(files@.take(0) =~= Seq::<ShadedOccurrence>::empty());
        }
        while t < n - 1
            invariant
                n == files@.len(),
                n >= 2,
                t <= n - 1,
                sum_sizes(files@.take(n - 1)) <= u64::MAX,
                wasted == sum_sizes(files@.take(t as int)),
            decreases n - 1 - t,
        {
            proof {
                assert(files@.take(t + 1).drop_last() =~= files@.take(t as int));
                lemma_sum_sizes_prefix(files@.take(n - 1), t + 1);
                assert(files@.take(n - 1).take(t + 1) =~= files@.take(t + 1));
            }
            wasted = wasted + files[t].size;
            t = t + 1;
        }
        // Identical content and later whiteouts.
        let mut identical = true;
        let mut a: usize = 0;
        while a < n
            invariant
                n == files@.len(),
                a <= n,
                top == files@[n - 1],
                identical == forall|b: int| 0 <= b < a ==> (#[trigger] files@[b]).content_hash == top.content_hash,
            decreases n - a,
        {
            if files[a].content_hash != top.content_hash {
                identical = false;
            }
            a = a + 1;
        }
        let mut deleted = false;
        let mut w: usize = 0;
        while w < wos.len()
            invariant
                w <= wos@.len(),
                wsv == wos_view(wos@),
                deleted == exists|j: int| 0 <= j < w && (#[trigger] wsv[j]).0 == g.path@ && wsv[j].1 > top.layer_index,
            decreases wos@.len() - w,
        {
            assert(wsv[w as int] == (wos@[w as int].0@, wos@[w as int].1));
            if chars_eq(&wos[w].0, &g.path) && wos[w].1 > top.layer_index {
                deleted = true;
            }
            w = w + 1;
        }
        // Mark every copy but the top one as shaded.
        let mut occs: Vec<ShadedOccurrence> = Vec::new();
        let mut c: usize = 0;
        while c < n
            invariant
                n == files@.len(),
                c <= n,
                occs@.len() == c,
                forall|b: int| 0 <= b < c ==> #[trigger] occs@[b] == mark_shaded(files@)[b],
            decreases n - c,
        {
            let f = files[c];
            occs.push(ShadedOccurrence { is_shaded: c < n - 1, ..f });
            c = c + 1;
        }
        proof {
            assert(occs@ =~= mark_shaded(files@));
        }
        let path = vec_to_string(&g.path);
        ShadedFile {
            path,
            occurrences: occs,
            total_wasted: wasted,
            content_identical: identical,
            deleted_by_whiteout: deleted,
        }
    }

pub proof fn lemma_ins_by_layer_len(s: Seq<ShadedOccurrence>, x: ShadedOccurrence)
    ensures
        ins_by_layer(s, x).len() == s.len() + 1,
    decreases s.len(),
{
    if s.len() > 0 && s.last().layer_index > x.layer_index {
        lemma_ins_by_layer_len(s.drop_last(), x);
    }
}

pub proof fn lemma_sort_by_layer_len(s: Seq<ShadedOccurrence>)
    ensures
        sort_by_layer(s).len() == s.len(),
    decreases s.len(),
{
    if s.len() > 0 {
        lemma_sort_by_layer_len(s.drop_last());
        lemma_ins_by_layer_len(sort_by_layer(s.drop_last()), s.last());
    }
}

pub proof fn lemma_sum_wasted_last(s: Seq<ShadedFileView>)
    requires
        s.len() > 0,
        forall|t: int| 0 <= t < s.len() ==> (#[trigger] s[t]).total_wasted >= 0,
    ensures
        s.last().total_wasted <= sum_wasted(s),
{
    assert forall|t: int| 0 <= t < s.drop_last().len() implies (#[trigger] s.drop_last()[t]).total_wasted >= 0 by {
        assert(s.drop_last()[t] == s[t]);
    }
    lemma_sum_wasted_nonneg(s.drop_last());
}

pub proof fn lemma_records_nonneg(gs: Seq<OccGroup>, wos: Seq<(Seq<char>, usize)>)
    ensures
        forall|t: int| 0 <= t < records(gs, wos).len() ==> (#[trigger] records(gs, wos)[t]).total_wasted >= 0,
    decreases gs.len(),
{
    if gs.len() > 0 {
        lemma_records_nonneg(gs.drop_last(), wos);
        let prev = records(gs.drop_last(), wos);
        if gs.last().occs.len() >= 2 {
            let files = sort_by_layer(gs.last().occs);
            lemma_sum_sizes_nonneg(files.take(files.len() - 1));
            let all = records(gs, wos);
            assert(all == prev.push(record_of(gs.last(), wos)));
            assert forall|t: int| 0 <= t < all.len() implies (#[trigger] all[t]).total_wasted >= 0 by {
                if t < prev.len() {
                    assert(all[t] == prev[t]);
                }
            }
        }
    }
}

/// The records of a prefix of the groups are a prefix of the records.
pub proof fn lemma_records_prefix(gs: Seq<OccGroup>, wos: Seq<(Seq<char>, usize)>, i: int)
    requires
        0 <= i <= gs.len(),
    ensures
        records(gs.take(i), wos).len() <= records(gs, wos).len(),
        records(gs.take(i), wos) == records(gs, wos).take(records(gs.take(i), wos).len() as int),
    decreases gs.len() - i,
{
    if i == gs.len() {
        assert(gs.take(i) =~= gs);
        assert(records(gs, wos).take(records(gs, wos).len() as int) =~= records(gs, wos));
    } else {
        lemma_records_prefix(gs, wos, i + 1);
        let a = gs.take(i + 1);
        assert(a.drop_last() =~= gs.take(i));
        let ra = records(a, wos);
        let rb = records(gs.take(i), wos);
        let full = records(gs, wos);
        if a.last().occs.len() >= 2 {
            assert(rb =~= ra.drop_last());
            assert(rb =~= full.take(rb.len() as int));
        } else {
            assert(rb == ra);
        }
    }
}


/// The line of the details that describes one copy of a file.
pub open spec fn occurrence_line(o: ShadedOccurrence) -> Seq<char> {
    "  Layer "@ + decimal(o.layer_index as nat) + ": "@ + size_text(o.size as nat) + if o.is_shaded {
        " (shaded)"@
    } else {
        " \u{2190} visible"@
    }
}

/// The lines of the details that describe a shaded file: one per copy, then
/// notes on identical content and on a whiteout that deletes it.
pub open spec fn shaded_lines(f: ShadedFileView) -> Seq<Seq<char>> {
    let occ = f.occurrences.map_values(|o: ShadedOccurrence| occurrence_line(o));
    let a = if f.content_identical {
        occ.push("  (content identical across layers)"@)
    } else {
        occ
    };
    if f.deleted_by_whiteout {
        a.push("  (deleted by whiteout in final layer)"@)
    } else {
        a
    }
}

/// The one-line summary of a shaded-file result.
pub open spec fn shaded_summary(count: nat, wasted: nat) -> Seq<char> {
    "Shaded Files: "@ + decimal(count) + " files, "@ + size_text(wasted) + " wasted"@
}

/// The detail sections of a shaded-file result.
pub open spec fn shaded_details(files: Seq<ShadedFileView>, count: nat, wasted: nat) -> Seq<
    (Seq<char>, Seq<(Seq<char>, Seq<char>)>),
> {
    if files.len() == 0 {
        seq![("Shaded Files"@, seq![("Status"@, "No shaded files found"@)])]
    } else {
        seq![
            ("Summary"@, seq![("Total shaded files"@, decimal(count)), ("Total wasted bytes"@, size_text(wasted))]),
            (
                "Shaded files by waste (descending)"@,
                files.map_values(|f: ShadedFileView| (f.path, join_lines(shaded_lines(f)))),
            ),
        ]
    }
}

fn occurrence_text(o: &ShadedOccurrence) -> (r: Vec<char>)
    ensures
        r@ == occurrence_line(*o),
{
    let mut v = str_to_chars("  Layer ");
    append_chars(&mut v, &decimal_chars(o.layer_index as u64));
    append_chars(&mut v, &str_to_chars(": "));
    append_chars(&mut v, &string_chars(&format_size(o.size)));
    if o.is_shaded {
        append_chars(&mut v, &str_to_chars(" (shaded)"));
    } else {
        append_chars(&mut v, &str_to_chars(" \u{2190} visible"));
    }
    v
}

fn file_lines(f: &ShadedFile) -> (r: Vec<Vec<char>>)
    ensures
        lines_view(r@) == shaded_lines(f@),
{
    let ghost occ = f.occurrences@.map_values(|o: ShadedOccurrence| occurrence_line(o));
    let mut out: Vec<Vec<char>> = Vec::new();
    let mut i: usize = 0;
    while i < f.occurrences.len()
        invariant
            i <= f.occurrences@.len(),
            occ == f.occurrences@.map_values(|o: ShadedOccurrence| occurrence_line(o)),
            out@.len() == i,
            lines_view(out@) == occ.take(i as int),
        decreases f.occurrences@.len() - i,
    {
        let line = occurrence_text(&f.occurrences[i]);
        let ghost before = out@;
        out.push(line);
        proof {
            assert forall|j: int| 0 <= j < i + 1 implies lines_view(out@)[j] == occ.take(i + 1)[j] by {
                if j < i {
                    assert(out@[j] == before[j]);
                    assert(lines_view(before)[j] == occ.take(i as int)[j]);
                }
            }
            assert(lines_view(out@) =~= occ.take(i + 1));
        }
        i = i + 1;
    }
    assert(occ.take(i as int) =~= occ);
    if f.content_identical {
        let ghost b0 = lines_view(out@);
        out.push(str_to_chars("  (content identical across layers)"));
        assert(lines_view(out@) =~= b0.push("  (content identical across layers)"@));
    }
    let ghost a = lines_view(out@);
    if f.deleted_by_whiteout {
        out.push(str_to_chars("  (deleted by whiteout in final layer)"));
        assert(lines_view(out@) =~= a.push("  (deleted by whiteout in final layer)"@));
    }
    out
}

impl AnalysisResult for ShadedFileResult {
    fn analyzer_name(&self) -> (r: &'static str)
        ensures
            r@ == "Shaded Files"@,
    {
        "Shaded Files"
    }

    fn summary(&self) -> (r: String)
        ensures
            r@ == shaded_summary(self.shaded_file_count as nat, self.total_shaded_bytes as nat),
    {
        let mut v = str_to_chars("Shaded Files: ");
        append_chars(&mut v, &decimal_chars(self.shaded_file_count as u64));
        append_chars(&mut v, &str_to_chars(" files, "));
        append_chars(&mut v, &string_chars(&format_size(self.total_shaded_bytes)));
        append_chars(&mut v, &str_to_chars(" wasted"));
        vec_to_string(&v)
    }

    fn details(&self) -> (r: Vec<AnalysisSection>)
        ensures
            sections_view(r@) == shaded_details(
                files_view(self.shaded_files@),
                self.shaded_file_count as nat,
                self.total_shaded_bytes as nat,
            ),
    {
        if self.shaded_files.len() == 0 {
            let status = vec![item("Status", vec_to_string(&str_to_chars("No shaded files found")))];
            let r = vec![section("Shaded Files", status)];
            assert(status@.map_values(|it: AnalysisItem| (it.label@, it.value@)) =~= seq![
                ("Status"@, "No shaded files found"@),
            ]);
            assert(sections_view(r@) =~= seq![section_view(r@[0])]);
            assert(sections_view(r@) =~= shaded_details(
                files_view(self.shaded_files@),
                self.shaded_file_count as nat,
                self.total_shaded_bytes as nat,
            ));
            return r;
        }
        let summary_items = vec![
            item("Total shaded files", vec_to_string(&decimal_chars(self.shaded_file_count as u64))),
            item("Total wasted bytes", format_size(self.total_shaded_bytes)),
        ];
        let ghost fv = files_view(self.shaded_files@);
        let mut items: Vec<AnalysisItem> = Vec::new();
        let mut i: usize = 0;
        while i < self.shaded_files.len()
            invariant
                i <= self.shaded_files@.len(),
                fv == files_view(self.shaded_files@),
                items@.len() == i,
                items@.map_values(|it: AnalysisItem| (it.label@, it.value@)) == fv.take(i as int).map_values(
                    |f: ShadedFileView| (f.path, join_lines(shaded_lines(f))),
                ),
            decreases self.shaded_files@.len() - i,
        {
            let f = &self.shaded_files[i];
            let lines = file_lines(f);
            let value = vec_to_string(&join_with_newlines(&lines));
            let ghost before = items@;
            items.push(AnalysisItem { label: f.path.clone(), value });
            proof {
                let g = |it: AnalysisItem| (it.label@, it.value@);
                let h = |f: ShadedFileView| (f.path, join_lines(shaded_lines(f)));
                assert forall|j: int| 0 <= j < i + 1 implies items@.map_values(g)[j] == fv.take(i + 1).map_values(h)[j] by {
                    if j < i {
                        assert(items@[j] == before[j]);
                        assert(before.map_values(g)[j] == fv.take(i as int).map_values(h)[j]);
                    } else {
                        assert(fv[j] == self.shaded_files@[j]@);
                    }
                }
            }
            assert(items@.map_values(|it: AnalysisItem| (it.label@, it.value@)) =~= fv.take(i + 1).map_values(
                |f: ShadedFileView| (f.path, join_lines(shaded_lines(f))),
            ));
            i = i + 1;
        }
        assert(fv.take(i as int) =~= fv);
        let r = vec![
            section("Summary", summary_items),
            section("Shaded files by waste (descending)", items),
        ];
        assert(summary_items@.map_values(|it: AnalysisItem| (it.label@, it.value@)) =~= seq![
            ("Total shaded files"@, decimal(self.shaded_file_count as nat)),
            ("Total wasted bytes"@, size_text(self.total_shaded_bytes as nat)),
        ]);
        assert(sections_view(r@) =~= seq![section_view(r@[0]), section_view(r@[1])]);
        assert(sections_view(r@) =~= shaded_details(fv, self.shaded_file_count as nat, self.total_shaded_bytes as nat));
        r
    }
}


/// A shaded file is held by two or more layers, and every copy but the top
/// one is shaded.
pub open spec fn well_shaded(f: ShadedFileView) -> bool {
    &&& f.occurrences.len() >= 2
    &&& forall|j: int|
        0 <= j < f.occurrences.len() ==> ((#[trigger] f.occurrences[j]).is_shaded <==> j < f.occurrences.len() - 1)
}

proof fn lemma_records_well_shaded(gs: Seq<OccGroup>, wos: Seq<(Seq<char>, usize)>)
    ensures
        forall|i: int| 0 <= i < records(gs, wos).len() ==> well_shaded(#[trigger] records(gs, wos)[i]),
    decreases gs.len(),
{
    if gs.len() > 0 {
        lemma_records_well_shaded(gs.drop_last(), wos);
        let r = records(gs, wos);
        let d = records(gs.drop_last(), wos);
        if gs.last().occs.len() >= 2 {
            lemma_sort_by_layer_len(gs.last().occs);
            assert forall|i: int| 0 <= i < r.len() implies well_shaded(#[trigger] r[i]) by {
                if i < d.len() {
                    assert(r[i] == d[i]);
                }
            }
        }
    }
}

proof fn lemma_ins_by_waste_keeps(s: Seq<ShadedFileView>, x: ShadedFileView)
    requires
        forall|i: int| 0 <= i < s.len() ==> well_shaded(#[trigger] s[i]),
        well_shaded(x),
    ensures
        ins_by_waste(s, x).len() == s.len() + 1,
        forall|i: int| 0 <= i < ins_by_waste(s, x).len() ==> well_shaded(#[trigger] ins_by_waste(s, x)[i]),
    decreases s.len(),
{
    if !(s.len() == 0 || s.last().total_wasted >= x.total_wasted) {
        let d = s.drop_last();
        assert forall|i: int| 0 <= i < d.len() implies well_shaded(#[trigger] d[i]) by {
            assert(d[i] == s[i]);
        }
        lemma_ins_by_waste_keeps(d, x);
        let r = ins_by_waste(s, x);
        assert forall|i: int| 0 <= i < r.len() implies well_shaded(#[trigger] r[i]) by {
            if i < r.len() - 1 {
                assert(r[i] == ins_by_waste(d, x)[i]);
            } else {
                assert(r[i] == s.last());
            }
        }
    } else {
        let r = ins_by_waste(s, x);
        assert forall|i: int| 0 <= i < r.len() implies well_shaded(#[trigger] r[i]) by {
            if i < s.len() {
                assert(r[i] == s[i]);
            }
        }
    }
}

proof fn lemma_sort_keeps(s: Seq<ShadedFileView>)
    requires
        forall|i: int| 0 <= i < s.len() ==> well_shaded(#[trigger] s[i]),
    ensures
        sort_by_waste(s).len() == s.len(),
        forall|i: int| 0 <= i < sort_by_waste(s).len() ==> well_shaded(#[trigger] sort_by_waste(s)[i]),
    decreases s.len(),
{
    if s.len() > 0 {
        let d = s.drop_last();
        assert forall|i: int| 0 <= i < d.len() implies well_shaded(#[trigger] d[i]) by {
            assert(d[i] == s[i]);
        }
        lemma_sort_keeps(d);
        assert(well_shaded(s[s.len() - 1]));
        lemma_ins_by_waste_keeps(sort_by_waste(d), s.last());
    }
}

/// Every file the analysis reports is held by two or more layers, and all
/// its copies but the top one are shaded.
pub proof fn law_reported_files_are_shaded(layers: Seq<Layer>, i: int)
    requires
        0 <= i < sort_by_waste(shaded_records(layers)).len(),
    ensures
        well_shaded(sort_by_waste(shaded_records(layers))[i]),
{
    let scan = scan_layers(layers);
    lemma_records_well_shaded(scan.groups, scan.whiteouts);
    lemma_sort_keeps(shaded_records(layers));
}

proof fn lemma_ins_by_waste_sorted(s: Seq<ShadedFileView>, x: ShadedFileView)
    requires
        forall|i: int, j: int| 0 <= i < j < s.len() ==> (#[trigger] s[i]).total_wasted >= (#[trigger] s[j]).total_wasted,
    ensures
        ins_by_waste(s, x).len() == s.len() + 1,
        forall|i: int, j: int|
            0 <= i < j < ins_by_waste(s, x).len() ==> (#[trigger] ins_by_waste(s, x)[i]).total_wasted
                >= (#[trigger] ins_by_waste(s, x)[j]).total_wasted,
        forall|i: int|
            0 <= i < ins_by_waste(s, x).len() ==> (#[trigger] ins_by_waste(s, x)[i]) == x || s.contains(
                ins_by_waste(s, x)[i],
            ),
    decreases s.len(),
{
    let r = ins_by_waste(s, x);
    if s.len() == 0 || s.last().total_wasted >= x.total_wasted {
        assert forall|i: int| 0 <= i < r.len() implies (#[trigger] r[i]) == x || s.contains(r[i]) by {
            if i < s.len() {
                assert(r[i] == s[i]);
            }
        }
    } else {
        let d = s.drop_last();
        assert forall|i: int, j: int| 0 <= i < j < d.len() implies (#[trigger] d[i]).total_wasted
            >= (#[trigger] d[j]).total_wasted by {
            assert(d[i] == s[i] && d[j] == s[j]);
        }
        lemma_ins_by_waste_sorted(d, x);
        let e = ins_by_waste(d, x);
        assert forall|i: int| 0 <= i < r.len() implies (#[trigger] r[i]) == x || s.contains(r[i]) by {
            if i < e.len() {
                assert(r[i] == e[i]);
                if r[i] != x {
                    let k = choose|k: int| 0 <= k < d.len() && d[k] == e[i];
                    assert(s[k] == d[k]);
                }
            } else {
                assert(r[i] == s[s.len() - 1]);
            }
        }
        assert forall|i: int, j: int| 0 <= i < j < r.len() implies (#[trigger] r[i]).total_wasted
            >= (#[trigger] r[j]).total_wasted by {
            if j < e.len() {
                assert(r[i] == e[i] && r[j] == e[j]);
            } else {
                assert(r[j] == s.last());
                assert(r[i] == e[i]);
                if e[i] == x {
                } else {
                    let k = choose|k: int| 0 <= k < d.len() && d[k] == e[i];
                    assert(s[k] == d[k]);
                    assert(s[k].total_wasted >= s[s.len() - 1].total_wasted);
                }
            }
        }
    }
}

/// The reported files come most wasteful first.
pub proof fn law_sorted_by_waste(s: Seq<ShadedFileView>)
    ensures
        forall|i: int, j: int|
            0 <= i < j < sort_by_waste(s).len() ==> (#[trigger] sort_by_waste(s)[i]).total_wasted
                >= (#[trigger] sort_by_waste(s)[j]).total_wasted,
    decreases s.len(),
{
    if s.len() > 0 {
        law_sorted_by_waste(s.drop_last());
        lemma_ins_by_waste_sorted(sort_by_waste(s.drop_last()), s.last());
    }
}


/// The layer at position `li` holds a whiteout that removes `path`.
pub open spec fn whiteout_in_layer(layers: Seq<Layer>, li: int, path: Seq<char>) -> bool {
    exists|q: PathKey|
        is_leaf(layers[li].tree.nodes(), q) && is_whiteout_key(q) && #[trigger] join_path(whiteout_target(q))
            == path
}

/// A noted whiteout names a path that a whiteout of some layer removes,
/// with that layer's index.
spec fn whiteout_from(layers: Seq<Layer>, w: (Seq<char>, usize)) -> bool {
    exists|li: int| 0 <= li < layers.len() && layers[li].index == w.1 && #[trigger] whiteout_in_layer(layers, li, w.0)
}

/// Every noted whiteout comes from a layer.
spec fn whiteouts_from(layers: Seq<Layer>, wos: Seq<(Seq<char>, usize)>) -> bool {
    forall|j: int| 0 <= j < wos.len() ==> whiteout_from(layers, #[trigger] wos[j])
}

proof fn lemma_scan_keys_whiteouts(
    layers: Seq<Layer>,
    li: int,
    st: ShadedScan,
    ks: Seq<PathKey>,
)
    requires
        0 <= li < layers.len(),
        whiteouts_from(layers, st.whiteouts),
    ensures
        whiteouts_from(
            layers,
            scan_keys(st, layers[li].index, layers[li].tree.nodes(), ks).whiteouts,
        ),
    decreases ks.len(),
{
    if ks.len() > 0 {
        let l = layers[li];
        let m = l.tree.nodes();
        lemma_scan_keys_whiteouts(layers, li, st, ks.drop_last());
        let prev = scan_keys(st, l.index, m, ks.drop_last());
        let q = ks.last();
        let next = shaded_step(prev, l.index, m, q);
        if is_leaf(m, q) && is_whiteout_key(q) && join_path(whiteout_target(q)).len() > 0 {
            let w = next.whiteouts;
            assert forall|j: int| 0 <= j < w.len() implies whiteout_from(layers, #[trigger] w[j]) by {
                if j < prev.whiteouts.len() {
                    assert(w[j] == prev.whiteouts[j]);
                } else {
                    assert(w[j] == (join_path(whiteout_target(q)), l.index));
                    assert(whiteout_in_layer(layers, li, w[j].0));
                }
            }
            assert(whiteouts_from(layers, w));
        } else {
            assert(next.whiteouts == prev.whiteouts);
        }
        assert(scan_keys(st, l.index, m, ks) == next);
    }
}

proof fn lemma_scan_layers_whiteouts(layers: Seq<Layer>)
    ensures
        whiteouts_from(layers, scan_layers(layers).whiteouts),
    decreases layers.len(),
{
    if layers.len() > 0 {
        let init = layers.drop_last();
        lemma_scan_layers_whiteouts(init);
        let w0 = scan_layers(init).whiteouts;
        assert forall|j: int| 0 <= j < w0.len() implies whiteout_from(layers, #[trigger] w0[j]) by {
            assert(whiteout_from(init, w0[j]));
            let li = choose|li: int|
                0 <= li < init.len() && init[li].index == w0[j].1 && #[trigger] whiteout_in_layer(init, li, w0[j].0);
            assert(init[li] == layers[li]);
            let q = choose|q: PathKey|
                is_leaf(init[li].tree.nodes(), q) && is_whiteout_key(q) && #[trigger] join_path(
                    whiteout_target(q),
                ) == w0[j].0;
            assert(whiteout_in_layer(layers, li, w0[j].0));
        }
        assert(whiteouts_from(layers, w0));
        let n = layers.len() - 1;
        assert(layers.last() == layers[n]);
        lemma_scan_keys_whiteouts(layers, n, scan_layers(init), layers[n].tree.ordered_keys());
    }
}

proof fn lemma_records_from(gs: Seq<OccGroup>, wos: Seq<(Seq<char>, usize)>, k: int)
    requires
        0 <= k < records(gs, wos).len(),
    ensures
        exists|g: int|
            0 <= g < gs.len() && (#[trigger] gs[g]).occs.len() >= 2 && records(gs, wos)[k] == record_of(
                gs[g],
                wos,
            ),
    decreases gs.len(),
{
    let prev = records(gs.drop_last(), wos);
    if gs.last().occs.len() >= 2 && k == prev.len() {
        assert(gs[gs.len() - 1] == gs.last());
    } else {
        lemma_records_from(gs.drop_last(), wos, k);
        let g = choose|g: int|
            0 <= g < gs.drop_last().len() && (#[trigger] gs.drop_last()[g]).occs.len() >= 2 && prev[k]
                == record_of(gs.drop_last()[g], wos);
        assert(gs.drop_last()[g] == gs[g]);
    }
}

/// A shaded file is reported as deleted by a whiteout only where some layer
/// above its top copy holds a whiteout of that very path.
pub proof fn law_deleted_only_by_own_whiteout(layers: Seq<Layer>, k: int)
    requires
        0 <= k < shaded_records(layers).len(),
        shaded_records(layers)[k].deleted_by_whiteout,
    ensures
        ({
            let f = shaded_records(layers)[k];
            &&& f.occurrences.len() >= 2
            &&& exists|li: int|
                0 <= li < layers.len() && layers[li].index > f.occurrences.last().layer_index
                    && whiteout_in_layer(layers, li, f.path)
        }),
{
    let scan = scan_layers(layers);
    let gs = scan.groups;
    let wos = scan.whiteouts;
    let f = shaded_records(layers)[k];
    lemma_records_from(gs, wos, k);
    let g = choose|g: int|
        0 <= g < gs.len() && (#[trigger] gs[g]).occs.len() >= 2 && records(gs, wos)[k] == record_of(gs[g], wos);
    let files = sort_by_layer(gs[g].occs);
    lemma_sort_by_layer_len(gs[g].occs);
    let n = files.len();
    let top = files[n - 1];
    assert(f.occurrences.len() == n);
    assert(f.occurrences.last() == f.occurrences[n - 1]);
    assert(f.occurrences[n - 1].layer_index == top.layer_index);
    let j = choose|j: int| 0 <= j < wos.len() && (#[trigger] wos[j]).0 == gs[g].path && wos[j].1 > top.layer_index;
    lemma_scan_layers_whiteouts(layers);
    assert(wos[j] == wos[j]);
    assert(whiteout_from(layers, wos[j]));
    let li = choose|li: int|
        0 <= li < layers.len() && layers[li].index == wos[j].1 && #[trigger] whiteout_in_layer(layers, li, wos[j].0);
    assert(f.path == gs[g].path);
}

} // verus!

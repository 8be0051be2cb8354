//! Space wasted by files that several layers hold, and by deletions.
//!
//! Every leaf that is not a directory (nor an opaque-whiteout marker) is
//! counted under its path; a whiteout is counted under the path it removes,
//! weighing the bytes of the directory it removes from the layers below, or
//! nothing when it removes a file. A path counted more than once is an
//! inefficiency, and all its bytes are wasted.
use vstd::prelude::*;
use crate::analyzers::{prior_map, prior_root, stack_prior};
use crate::filetree::{
    NodeView, TarEntryType, is_leaf, is_whiteout_key, lookup, map_subtree, opaque_marker,
    opaque_marker_chars, subtree_key, whiteout_target, lemma_map_subtree_nonneg,
};
use crate::image::{Image, Layer, layers_wf};
use crate::paths::{PathKey, join_path};
use crate::report::{AnalysisItem, AnalysisSection, item, section, section_view, sections_view};
use crate::text::{append_chars, chars_eq, ends_with, has_suffix, str_to_chars, string_chars, vec_to_string};
use crate::utils::{format_size, size_text};

verus! {

/// A path that contributes to wasted space.
#[derive(Debug)]
pub struct Inefficiency {
    pub path: String,
    pub cumulative_size: u64,
    pub wasted_bytes: u64,
}

/// The mathematical value of an [`Inefficiency`].
pub struct InefficiencyView {
    pub path: Seq<char>,
    pub cumulative_size: int,
    pub wasted_bytes: int,
}

impl View for Inefficiency {
    type V = InefficiencyView;

    open spec fn view(&self) -> InefficiencyView {
        InefficiencyView {
            path: self.path@,
            cumulative_size: self.cumulative_size as int,
            wasted_bytes: self.wasted_bytes as int,
        }
    }
}

/// What the efficiency analysis finds. The score is `min_total_bytes /
/// total_bytes` (1 when nothing is counted), the wasted share of the user
/// layers `wasted_bytes / user_bytes` (0 when there are no user bytes).
#[derive(Debug)]
pub struct EfficiencyResult {
    /// Bytes counted over all paths and layers.
    pub total_bytes: u64,
    /// For each path, its smallest copy, summed over the paths.
    pub min_total_bytes: u64,
    /// Raw bytes of every layer but the base one.
    pub user_bytes: u64,
    /// Bytes of the inefficiencies.
    pub wasted_bytes: u64,
    /// Paths counted more than once, most wasteful first.
    pub inefficiencies: Vec<Inefficiency>,
}

/// Measures space wasted by file duplication and deletions across layers.
pub struct EfficiencyAnalyzer;

/// What is known of one path so far.
pub struct EffEntry {
    pub key: Seq<char>,
    /// The path of the leaf that first counted it.
    pub path: Seq<char>,
    pub cumulative: int,
    pub min_size: int,
    /// Counted more than once.
    pub repeated: bool,
}

/// Position of the entry for `key` (`-1` when there is none).
pub open spec fn find_entry(es: Seq<EffEntry>, key: Seq<char>) -> int
    decreases es.len(),
{
    if es.len() == 0 {
        -1
    } else if es.last().key == key {
        es.len() - 1
    } else {
        find_entry(es.drop_last(), key)
    }
}

/// What a whiteout at `q` weighs: the bytes below the directory it removes.
pub open spec fn whiteout_weight(q: PathKey, proot: NodeView, prior: Map<PathKey, NodeView>) -> int {
    let t = join_path(whiteout_target(q));
    match lookup(proot, prior, t) {
        Some(n) => if n.info.entry_type == TarEntryType::Directory {
            map_subtree(prior, subtree_key(t))
        } else {
            0
        },
        None => 0,
    }
}

/// The smaller of two sizes.
pub open spec fn min_int(a: int, b: int) -> int {
    if a <= b {
        a
    } else {
        b
    }
}

/// `size` counted under `key`, first met at `path`.
pub open spec fn count_under(es: Seq<EffEntry>, key: Seq<char>, path: Seq<char>, size: int) -> Seq<EffEntry> {
    let i = find_entry(es, key);
    if i < 0 {
        es.push(
            EffEntry {
                key,
                path,
                cumulative: size,
                min_size: min_int(u64::MAX as int, size),
                repeated: false,
            },
        )
    } else {
        es.update(
            i,
            EffEntry {
                cumulative: es[i].cumulative + size,
                min_size: min_int(es[i].min_size, size),
                repeated: true,
                ..es[i]
            },
        )
    }
}

/// One key of a layer (entries `m`) visited.
pub open spec fn eff_step(
    es: Seq<EffEntry>,
    m: Map<PathKey, NodeView>,
    q: PathKey,
    proot: NodeView,
    prior: Map<PathKey, NodeView>,
) -> Seq<EffEntry> {
    if !is_leaf(m, q) || has_suffix(join_path(q), opaque_marker()) || m[q].info.entry_type
        == TarEntryType::Directory {
        es
    } else if is_whiteout_key(q) {
        let key = join_path(whiteout_target(q));
        if key.len() == 0 {
            es
        } else {
            count_under(es, key, join_path(q), whiteout_weight(q, proot, prior))
        }
    } else {
        let key = join_path(q);
        if key.len() == 0 {
            es
        } else {
            count_under(es, key, key, m[q].info.size as int)
        }
    }
}

/// The keys `ks` visited in order.
pub open spec fn eff_keys(
    es: Seq<EffEntry>,
    m: Map<PathKey, NodeView>,
    ks: Seq<PathKey>,
    proot: NodeView,
    prior: Map<PathKey, NodeView>,
) -> Seq<EffEntry>
    decreases ks.len(),
{
    if ks.len() == 0 {
        es
    } else {
        eff_step(eff_keys(es, m, ks.drop_last(), proot, prior), m, ks.last(), proot, prior)
    }
}

/// The entries after the first `n` layers, in order of first appearance.
pub open spec fn eff_upto(layers: Seq<Layer>, n: int) -> Seq<EffEntry>
    decreases n,
{
    if n <= 0 {
        Seq::empty()
    } else {
        eff_keys(
            eff_upto(layers, n - 1),
            layers[n - 1].tree.nodes(),
            layers[n - 1].tree.ordered_keys(),
            prior_root(layers, n - 1),
            prior_map(layers, n - 1),
        )
    }
}

/// The entries after all layers.
pub open spec fn eff_entries(layers: Seq<Layer>) -> Seq<EffEntry> {
    eff_upto(layers, layers.len() as int)
}

/// Sum of the cumulative sizes.
pub open spec fn cumulative_sum(es: Seq<EffEntry>) -> int
    decreases es.len(),
{
    if es.len() == 0 {
        0
    } else {
        cumulative_sum(es.drop_last()) + es.last().cumulative
    }
}

/// Sum of the smallest copies.
pub open spec fn min_sum(es: Seq<EffEntry>) -> int
    decreases es.len(),
{
    if es.len() == 0 {
        0
    } else {
        min_sum(es.drop_last()) + es.last().min_size
    }
}

/// The inefficiencies: entries counted more than once, in order of first appearance.
pub open spec fn ineff_of(es: Seq<EffEntry>) -> Seq<InefficiencyView>
    decreases es.len(),
{
    if es.len() == 0 {
        Seq::empty()
    } else if es.last().repeated {
        ineff_of(es.drop_last()).push(
            InefficiencyView {
                path: es.last().path,
                cumulative_size: es.last().cumulative,
                wasted_bytes: es.last().cumulative,
            },
        )
    } else {
        ineff_of(es.drop_last())
    }
}

/// Sum of the wasted bytes.
pub open spec fn waste_sum(s: Seq<InefficiencyView>) -> int
    decreases s.len(),
{
    if s.len() == 0 {
        0
    } else {
        waste_sum(s.drop_last()) + s.last().cumulative_size
    }
}

/// Inserts `x` after the last element wasting at least as much.
pub open spec fn ins_by_waste(s: Seq<InefficiencyView>, x: InefficiencyView) -> Seq<InefficiencyView>
    decreases s.len(),
{
    if s.len() == 0 || s.last().wasted_bytes >= x.wasted_bytes {
        s.push(x)
    } else {
        ins_by_waste(s.drop_last(), x).push(s.last())
    }
}

/// Stable sort by wasted bytes, largest first.
pub open spec fn sort_by_waste(s: Seq<InefficiencyView>) -> Seq<InefficiencyView>
    decreases s.len(),
{
    if s.len() == 0 {
        s
    } else {
        ins_by_waste(sort_by_waste(s.drop_last()), s.last())
    }
}

/// Raw bytes of layers `1..n`.
pub open spec fn user_upto(layers: Seq<Layer>, n: int) -> int
    decreases n,
{
    if n <= 1 {
        0
    } else {
        user_upto(layers, n - 1) + layers[n - 1].size
    }
}

/// The byte sums of the analysis fit in 64 bits.
pub open spec fn efficiency_fits(layers: Seq<Layer>) -> bool {
    &&& cumulative_sum(eff_entries(layers)) <= u64::MAX
    &&& user_upto(layers, layers.len() as int) <= u64::MAX
}

/// The views of a sequence of inefficiencies.
pub open spec fn ineffs_view(v: Seq<Inefficiency>) -> Seq<InefficiencyView> {
    v.map_values(|i: Inefficiency| i@)
}

/// Every entry's smallest copy is between 0 and its cumulative size.
pub open spec fn entries_ok(es: Seq<EffEntry>) -> bool {
    forall|j: int| 0 <= j < es.len() ==> 0 <= (#[trigger] es[j]).min_size <= es[j].cumulative
}

/// `a` is an earlier state of `b`: entries only added, sizes only grown.
pub open spec fn grows(a: Seq<EffEntry>, b: Seq<EffEntry>) -> bool {
    &&& a.len() <= b.len()
    &&& forall|j: int|
        0 <= j < a.len() ==> (#[trigger] a[j]).key == b[j].key && a[j].cumulative
            <= b[j].cumulative
}

pub proof fn lemma_find_entry(es: Seq<EffEntry>, key: Seq<char>)
    ensures
        -1 <= find_entry(es, key) < es.len(),
        find_entry(es, key) >= 0 ==> es[find_entry(es, key)].key == key,
    decreases es.len(),
{
    if es.len() > 0 && es.last().key != key {
        lemma_find_entry(es.drop_last(), key);
        let i = find_entry(es.drop_last(), key);
        if i >= 0 {
            assert(es.drop_last()[i] == es[i]);
        }
    }
}

pub proof fn lemma_whiteout_weight_nonneg(q: PathKey, proot: NodeView, prior: Map<PathKey, NodeView>)
    ensures
        whiteout_weight(q, proot, prior) >= 0,
{
    lemma_map_subtree_nonneg(prior, subtree_key(join_path(whiteout_target(q))));
}

/// A step keeps the entries well formed and only grows them.
pub proof fn lemma_eff_step(
    es: Seq<EffEntry>,
    m: Map<PathKey, NodeView>,
    q: PathKey,
    proot: NodeView,
    prior: Map<PathKey, NodeView>,
)
    requires
        entries_ok(es),
    ensures
        entries_ok(eff_step(es, m, q, proot, prior)),
        grows(es, eff_step(es, m, q, proot, prior)),
{
    lemma_whiteout_weight_nonneg(q, proot, prior);
    let r = eff_step(es, m, q, proot, prior);
    if r != es {
        let key = if is_whiteout_key(q) {
            join_path(whiteout_target(q))
        } else {
            join_path(q)
        };
        lemma_find_entry(es, key);
        let i = find_entry(es, key);
        assert forall|j: int| 0 <= j < es.len() implies (#[trigger] es[j]).key == r[j].key
            && es[j].cumulative <= r[j].cumulative by {
            if i >= 0 && j == i {
            } else {
                assert(r[j] == es[j]);
            }
        }
        assert forall|j: int| 0 <= j < r.len() implies 0 <= (#[trigger] r[j]).min_size
            <= r[j].cumulative by {
            if j < es.len() && j != i {
                assert(r[j] == es[j]);
            }
        }
    }
}

pub proof fn lemma_grows_trans(a: Seq<EffEntry>, b: Seq<EffEntry>, c: Seq<EffEntry>)
    requires
        grows(a, b),
        grows(b, c),
    ensures
        grows(a, c),
{
    assert forall|j: int| 0 <= j < a.len() implies (#[trigger] a[j]).key == c[j].key
        && a[j].cumulative <= c[j].cumulative by {
        assert(a[j].key == b[j].key);
        assert(b[j].key == c[j].key);
    }
}

/// Visiting a prefix of the keys gives an earlier state than visiting them all.
pub proof fn lemma_eff_keys(
    es: Seq<EffEntry>,
    m: Map<PathKey, NodeView>,
    ks: Seq<PathKey>,
    proot: NodeView,
    prior: Map<PathKey, NodeView>,
    i: int,
)
    requires
        entries_ok(es),
        0 <= i <= ks.len(),
    ensures
        entries_ok(eff_keys(es, m, ks, proot, prior)),
        grows(es, eff_keys(es, m, ks.take(i), proot, prior)),
        grows(eff_keys(es, m, ks.take(i), proot, prior), eff_keys(es, m, ks, proot, prior)),
    decreases ks.len(),
{
    if ks.len() == 0 {
        assert(ks.take(i) =~= ks);
    } else {
        let d = ks.drop_last();
        let pre = eff_keys(es, m, d, proot, prior);
        if i == ks.len() {
            assert(ks.take(i) =~= ks);
            lemma_eff_keys(es, m, d, proot, prior, d.len() as int);
            assert(d.take(d.len() as int) =~= d);
            lemma_eff_step(pre, m, ks.last(), proot, prior);
            lemma_grows_trans(es, pre, eff_keys(es, m, ks, proot, prior));
        } else {
            lemma_eff_keys(es, m, d, proot, prior, i);
            assert(d.take(i) =~= ks.take(i));
            lemma_eff_step(pre, m, ks.last(), proot, prior);
            lemma_grows_trans(
                eff_keys(es, m, ks.take(i), proot, prior),
                pre,
                eff_keys(es, m, ks, proot, prior),
            );
        }
    }
}

/// The entries after `n` layers are an earlier state of those after `k`.
pub proof fn lemma_eff_upto(layers: Seq<Layer>, n: int, k: int)
    requires
        0 <= n <= k,
    ensures
        entries_ok(eff_upto(layers, k)),
        grows(eff_upto(layers, n), eff_upto(layers, k)),
    decreases k,
{
    if k == 0 {
    } else {
        let l = layers[k - 1];
        let prev = eff_upto(layers, k - 1);
        lemma_eff_upto(layers, if n == k { k - 1 } else { n }, k - 1);
        lemma_eff_keys(
            prev,
            l.tree.nodes(),
            l.tree.ordered_keys(),
            prior_root(layers, k - 1),
            prior_map(layers, k - 1),
            0,
        );
        assert(l.tree.ordered_keys().take(0) =~= Seq::<PathKey>::empty());
        if n < k {
            lemma_grows_trans(eff_upto(layers, n), prev, eff_upto(layers, k));
        }
    }
}

pub proof fn lemma_entries_ok_prefix(es: Seq<EffEntry>, i: int)
    requires
        entries_ok(es),
        0 <= i <= es.len(),
    ensures
        entries_ok(es.take(i)),
{
    assert forall|t: int| 0 <= t < es.take(i).len() implies 0 <= (#[trigger] es.take(i)[t]).min_size
        <= es.take(i)[t].cumulative by {
        assert(es.take(i)[t] == es[t]);
    }
}

pub proof fn lemma_sums(es: Seq<EffEntry>)
    requires
        entries_ok(es),
    ensures
        0 <= min_sum(es) <= cumulative_sum(es),
    decreases es.len(),
{
    if es.len() > 0 {
        let d = es.drop_last();
        lemma_entries_ok_prefix(es, es.len() - 1);
        assert(es.take(es.len() - 1) == d);
        lemma_sums(d);
        assert(es.last() == es[es.len() - 1]);
    }
}

pub proof fn lemma_cumulative_sum_elem(es: Seq<EffEntry>, j: int)
    requires
        entries_ok(es),
        0 <= j < es.len(),
    ensures
        0 <= es[j].cumulative <= cumulative_sum(es),
    decreases es.len(),
{
    let d = es.drop_last();
    lemma_entries_ok_prefix(es, es.len() - 1);
    assert(es.take(es.len() - 1) == d);
    lemma_sums(d);
    assert(es.last() == es[es.len() - 1]);
    if j < es.len() - 1 {
        lemma_cumulative_sum_elem(d, j);
        assert(d[j] == es[j]);
    }
}

pub proof fn lemma_ineff_of(es: Seq<EffEntry>)
    requires
        entries_ok(es),
    ensures
        0 <= waste_sum(ineff_of(es)) <= cumulative_sum(es),
        forall|t: int| 0 <= t < ineff_of(es).len() ==> (#[trigger] ineff_of(es)[t]).cumulative_size >= 0,
    decreases es.len(),
{
    if es.len() > 0 {
        let d = es.drop_last();
        lemma_entries_ok_prefix(es, es.len() - 1);
        assert(es.take(es.len() - 1) == d);
        lemma_ineff_of(d);
        assert(es[es.len() - 1] == es.last());
        assert(0 <= es[es.len() - 1].min_size <= es[es.len() - 1].cumulative);
        let a = ineff_of(es);
        let b = ineff_of(d);
        if es.last().repeated {
            assert(a.drop_last() =~= b);
            assert forall|t: int| 0 <= t < a.len() implies (#[trigger] a[t]).cumulative_size >= 0 by {
                if t < b.len() {
                    assert(a[t] == b[t]);
                }
            }
        }
    }
}

pub proof fn lemma_ins_by_waste(s: Seq<InefficiencyView>, x: InefficiencyView, j: int)
    requires
        0 <= j <= s.len(),
        j == 0 || s[j - 1].wasted_bytes >= x.wasted_bytes,
        forall|t: int| j <= t < s.len() ==> (#[trigger] s[t]).wasted_bytes < x.wasted_bytes,
    ensures
        ins_by_waste(s, x) == s.take(j).push(x) + s.skip(j),
    decreases s.len() - j,
{
    if j == s.len() {
        assert(s.take(j) =~= s);
        assert(s.take(j).push(x) + s.skip(j) =~= s.push(x));
    } else {
        let d = s.drop_last();
        assert forall|t: int| j <= t < d.len() implies (#[trigger] d[t]).wasted_bytes < x.wasted_bytes by {
            assert(d[t] == s[t]);
        }
        if j > 0 {
            assert(d[j - 1] == s[j - 1]);
        }
        lemma_ins_by_waste(d, x, j);
        assert(s.last() == s[s.len() - 1]);
        assert((d.take(j).push(x) + d.skip(j)).push(s.last()) =~= s.take(j).push(x) + s.skip(j));
    }
}

pub proof fn lemma_user_upto_mono(layers: Seq<Layer>, n: int, k: int)
    requires
        0 <= n <= k,
    ensures
        0 <= user_upto(layers, n) <= user_upto(layers, k),
    decreases k,
{
    if k > 1 {
        if n == k {
            lemma_user_upto_mono(layers, n - 1, k - 1);
        } else {
            lemma_user_upto_mono(layers, n, k - 1);
        }
    }
}

/// Exec form of an entry.
struct EffData {
    key: Vec<char>,
    path: Vec<char>,
    cumulative: u64,
    min_size: u64,
    repeated: bool,
}

spec fn data_view(d: EffData) -> EffEntry {
    EffEntry {
        key: d.key@,
        path: d.path@,
        cumulative: d.cumulative as int,
        min_size: d.min_size as int,
        repeated: d.repeated,
    }
}

spec fn datas_view(v: Seq<EffData>) -> Seq<EffEntry> {
    v.map_values(|d: EffData| data_view(d))
}

fn find_entry_exec(es: &Vec<EffData>, key: &Vec<char>) -> (r: Option<usize>)
    ensures
        match r {
            Some(i) => i < es@.len() && find_entry(datas_view(es@), key@) == i,
            None => find_entry(datas_view(es@), key@) == -1,
        },
{
    let ghost ev = datas_view(es@);
    let mut j: usize = es.len();
    proof {
        assert(ev.take(j as int) =~= ev);
    }
    while j > 0
        invariant
            ev == datas_view(es@),
            j <= es@.len(),
            find_entry(ev, key@) == find_entry(ev.take(j as int), key@),
        decreases j,
    {
        let ghost t = ev.take(j as int);
        assert(t.last() == ev[j - 1]);
        assert(t.drop_last() =~= ev.take(j - 1));
        if chars_eq(&es[j - 1].key, key) {
            return Some(j - 1);
        }
        j = j - 1;
    }
    None
}

/// Counts `size` under `key` (first met at `path`).
fn count_under_exec(es: &mut Vec<EffData>, key: Vec<char>, path: Vec<char>, size: u64)
    requires
        find_entry(datas_view(old(es)@), key@) >= 0 ==> datas_view(old(es)@)[find_entry(
            datas_view(old(es)@),
            key@,
        )].cumulative + size <= u64::MAX,
    ensures
        datas_view(final(es)@) == count_under(datas_view(old(es)@), key@, path@, size as int),
{
    let ghost before = datas_view(es@);
    match find_entry_exec(es, &key) {
        Some(i) => {
            proof {
                lemma_find_entry(before, key@);
                assert(before[i as int] == data_view(es@[i as int]));
            }
            let mut d = es.remove(i);
            d.cumulative = d.cumulative + size;
            if size < d.min_size {
                d.min_size = size;
            }
            d.repeated = true;
            let ghost dv = data_view(d);
            es.insert(i, d);
            proof {
                assert(datas_view(es@) =~= before.update(i as int, dv));
            }
        },
        None => {
            let d = EffData { key, path, cumulative: size, min_size: size, repeated: false };
            let ghost dv = data_view(d);
            es.push(d);
            proof {
                assert(datas_view(es@) =~= before.push(dv));
            }
        },
    }
}

impl EfficiencyResult {
    /// The first `n` inefficiencies (all of them when there are fewer).
    pub fn top_inefficiencies(&self, n: usize) -> (r: Vec<&Inefficiency>)
        ensures
            r@.len() == if n < self.inefficiencies@.len() {
                n as int
            } else {
                self.inefficiencies@.len() as int
            },
            forall|i: int| 0 <= i < r@.len() ==> *(#[trigger] r@[i]) == self.inefficiencies@[i],
    {
        let mut out: Vec<&Inefficiency> = Vec::new();
        let mut i: usize = 0;
        while i < n && i < self.inefficiencies.len()
            invariant
                i <= self.inefficiencies@.len(),
                i <= n,
                out@.len() == i,
                forall|t: int| 0 <= t < i ==> *(#[trigger] out@[t]) == self.inefficiencies@[t],
            decreases n - i,
        {
            out.push(&self.inefficiencies[i]);
            i = i + 1;
        }
        out
    }
}

impl EfficiencyAnalyzer {
    pub fn name(&self) -> (r: &'static str)
        ensures
            r@ == "Efficiency"@,
    {
        "Efficiency"
    }

    pub fn description(&self) -> (r: &'static str)
        ensures
            r@ == "Measures space wasted by file duplication across layers"@,
    {
        "Measures space wasted by file duplication across layers"
    }

    /// Counts every leaf of every layer under its path (a whiteout under the
    /// path it removes) and reports the paths counted more than once.
    pub fn analyze_image(&self, image: &Image) -> (r: EfficiencyResult)
        requires
            image.wf(),
            efficiency_fits(image.layers@),
        ensures
            r.total_bytes == cumulative_sum(eff_entries(image.layers@)),
            r.min_total_bytes == min_sum(eff_entries(image.layers@)),
            r.user_bytes == user_upto(image.layers@, image.layers@.len() as int),
            r.wasted_bytes == waste_sum(ineff_of(eff_entries(image.layers@))),
            ineffs_view(r.inefficiencies@) == sort_by_waste(ineff_of(eff_entries(image.layers@))),
    {
        let ghost layers = image.layers@;
        let nl = image.layers.len();
        let ghost fin = eff_entries(layers);
        let mut data: Vec<EffData> = Vec::new();
        let mut li: usize = 0;
        proof {
            lemma_eff_upto(layers, 0, nl as int);
            assert(datas_view(data@) =~= Seq::<EffEntry>::empty());
        }
        while li < nl
            invariant
                layers == image.layers@,
                layers_wf(layers),
                nl == layers.len(),
                fin == eff_entries(layers),
                entries_ok(fin),
                cumulative_sum(fin) <= u64::MAX,
                li <= nl,
                datas_view(data@) == eff_upto(layers, li as int),
            decreases nl - li,
        {
            let layer = &image.layers[li];
            let tree = &layer.tree;
            assert(layers[li as int].tree.wf());
            let prior = stack_prior(&image.layers, li);
            let ghost m = tree.nodes();
            let ghost ks = tree.ordered_keys();
            let ghost proot = prior_root(layers, li as int);
            let ghost pm = prior_map(layers, li as int);
            let ghost start = eff_upto(layers, li as int);
            let opq = opaque_marker_chars();
            proof {
                lemma_eff_upto(layers, li as int, nl as int);
                lemma_eff_upto(layers, li + 1, nl as int);
                lemma_eff_upto(layers, li as int, li as int);
            }
            let ne = tree.entry_count();
            let mut ei: usize = 0;
            proof {
                assert(ks.take(0) =~= Seq::<PathKey>::empty());
            }
            while ei < ne
                invariant
                    tree.wf(),
                    prior.wf(),
                    prior.nodes() == pm,
                    prior.root_view() == proot,
                    m == tree.nodes(),
                    ks == tree.ordered_keys(),
                    ne == ks.len(),
                    opq@ == opaque_marker(),
                    ei <= ne,
                    entries_ok(start),
                    entries_ok(fin),
                    cumulative_sum(fin) <= u64::MAX,
                    grows(eff_keys(start, m, ks, proot, pm), fin),
                    datas_view(data@) == eff_keys(start, m, ks.take(ei as int), proot, pm),
                decreases ne - ei,
            {
                let ghost q = ks[ei as int];
                let ghost before = datas_view(data@);
                let ghost after = eff_step(before, m, q, proot, pm);
                proof {
                    assert(ks.take(ei + 1).drop_last() =~= ks.take(ei as int));
                    assert(ks.take(ei + 1).last() == q);
                    lemma_eff_keys(start, m, ks, proot, pm, ei + 1);
                    lemma_grows_trans(after, eff_keys(start, m, ks, proot, pm), fin);
                    lemma_eff_keys(start, m, ks.take(ei as int), proot, pm, 0);
                    lemma_eff_step(before, m, q, proot, pm);
                }
                if tree.entry_is_leaf(ei) {
                    let path = tree.entry_path(ei);
                    let node = tree.entry_node(ei);
                    if !ends_with(&path, &opq) && node.info.entry_type != TarEntryType::Directory {
                        if tree.entry_is_whiteout(ei) {
                            let key = tree.entry_whiteout_target(ei);
                            if key.len() > 0 {
                                let target = vec_to_string(&key);
                                let ghost w = whiteout_weight(q, proot, pm);
                                proof {
                                    lemma_find_entry(before, key@);
                                    lemma_whiteout_weight_nonneg(q, proot, pm);
                                    let i = find_entry(before, key@);
                                    let idx = if i < 0 { before.len() as int } else { i };
                                    assert(after == count_under(before, key@, path@, w));
                                    assert(after[idx].cumulative >= w);
                                    lemma_cumulative_sum_elem(fin, idx);
                                }
                                let size: u64 = match prior.get_node(target.as_str()) {
                                    Some(n) => {
                                        if n.info.entry_type == TarEntryType::Directory {
                                            prior.subtree_size(target.as_str())
                                        } else {
                                            0
                                        }
                                    },
                                    None => 0,
                                };
                                proof {
                                    let i = find_entry(before, key@);
                                    if i >= 0 {
                                        assert(after[i].cumulative == before[i].cumulative + size);
                                        lemma_cumulative_sum_elem(fin, i);
                                    }
                                }
                                count_under_exec(&mut data, key, path, size);
                            }
                        } else {
                            if path.len() > 0 {
                                let size = node.info.size;
                                proof {
                                    lemma_find_entry(before, path@);
                                    let i = find_entry(before, path@);
                                    assert(after == count_under(before, path@, path@, size as int));
                                    if i >= 0 {
                                        assert(after[i].cumulative == before[i].cumulative + size);
                                        lemma_cumulative_sum_elem(fin, i);
                                    }
                                }
                                let p2 = path.clone();
                                count_under_exec(&mut data, path, p2, size);
                            }
                        }
                    }
                }
                ei = ei + 1;
            }
            proof {
                assert(ks.take(ne as int) =~= ks);
            }
            li = li + 1;
        }
        proof {
            assert(datas_view(data@) == fin);
            lemma_sums(fin);
            lemma_ineff_of(fin);
        }
        // Totals, and the inefficiencies in order of first appearance.
        let nd = data.len();
        let mut total_bytes: u64 = 0;
        let mut min_total: u64 = 0;
        let mut wasted: u64 = 0;
        let mut found: Vec<Inefficiency> = Vec::new();
        let mut di: usize = 0;
        proof {
            assert(fin.take(0) =~= Seq::<EffEntry>::empty());
            assert(ineffs_view(found@) =~= Seq::<InefficiencyView>::empty());
        }
        while di < nd
            invariant
                fin == datas_view(data@),
                entries_ok(fin),
                cumulative_sum(fin) <= u64::MAX,
                nd == data@.len(),
                di <= nd,
                total_bytes == cumulative_sum(fin.take(di as int)),
                min_total == min_sum(fin.take(di as int)),
                ineffs_view(found@) == ineff_of(fin.take(di as int)),
                wasted == waste_sum(ineff_of(fin.take(di as int))),
            decreases nd - di,
        {
            let ghost pre = fin.take(di + 1);
            proof {
                assert(pre.drop_last() =~= fin.take(di as int));
                assert(pre.last() == fin[di as int]);
                lemma_entries_ok_prefix(fin, di + 1);
                lemma_sums(pre);
                lemma_cumulative_sum_elem(pre, di as int);
                lemma_ineff_of(pre);
                lemma_cumulative_prefix(fin, di + 1);
                assert(fin[di as int] == data_view(data@[di as int]));
                if fin[di as int].repeated {
                    let x = InefficiencyView {
                        path: fin[di as int].path,
                        cumulative_size: fin[di as int].cumulative,
                        wasted_bytes: fin[di as int].cumulative,
                    };
                    assert(ineff_of(pre) == ineff_of(fin.take(di as int)).push(x));
                    assert(ineff_of(pre).drop_last() =~= ineff_of(fin.take(di as int)));
                    assert(waste_sum(ineff_of(pre)) == wasted + fin[di as int].cumulative);
                }
            }
            let d = &data[di];
            total_bytes = total_bytes + d.cumulative;
            min_total = min_total + d.min_size;
            if d.repeated {
                wasted = wasted + d.cumulative;
                let ghost fv = ineffs_view(found@);
                found.push(
                    Inefficiency {
                        path: vec_to_string(&d.path),
                        cumulative_size: d.cumulative,
                        wasted_bytes: d.cumulative,
                    },
                );
                proof {
                    assert(ineffs_view(found@) =~= fv.push(found@.last()@));
                    assert(ineff_of(pre) == ineff_of(fin.take(di as int)).push(found@.last()@));
                    assert(ineff_of(pre).drop_last() =~= ineff_of(fin.take(di as int)));
                }
            }
            di = di + 1;
        }
        proof {
            assert(fin.take(nd as int) =~= fin);
        }
        // Most wasteful first, keeping the order of equals.
        let ghost all = ineffs_view(found@);
        let mut sorted: Vec<Inefficiency> = Vec::new();
        let n = found.len();
        let mut k: usize = 0;
        proof {
            assert(all.take(0) =~= Seq::<InefficiencyView>::empty());
            assert(ineffs_view(sorted@) =~= Seq::<InefficiencyView>::empty());
        }
        while k < n
            invariant
                n == all.len(),
                k <= n,
                found@.len() == n - k,
                ineffs_view(found@) == all.skip(k as int),
                ineffs_view(sorted@) == sort_by_waste(all.take(k as int)),
            decreases n - k,
        {
            let ghost fv = ineffs_view(found@);
            let ghost oldf = found@;
            let x = found.remove(0);
            proof {
                assert(fv[0] == x@);
                assert(found@ =~= oldf.subrange(1, oldf.len() as int));
                assert forall|t: int| 0 <= t < found@.len() implies #[trigger] ineffs_view(found@)[t]
                    == all.skip(k + 1)[t] by {
                    assert(found@[t] == oldf[t + 1]);
                    assert(fv[t + 1] == oldf[t + 1]@);
                    assert(fv[t + 1] == all[k + 1 + t]);
                }
                assert(ineffs_view(found@) =~= all.skip(k + 1));
                assert(all.take(k + 1).drop_last() =~= all.take(k as int));
                assert(all.take(k + 1).last() == x@);
            }
            let mut j: usize = sorted.len();
            while j > 0 && sorted[j - 1].wasted_bytes < x.wasted_bytes
                invariant
                    j <= sorted@.len(),
                    forall|t: int| j <= t < sorted@.len() ==> (#[trigger] sorted@[t]).wasted_bytes < x.wasted_bytes,
                decreases j,
            {
                j = j - 1;
            }
            let ghost sv = ineffs_view(sorted@);
            proof {
                assert forall|t: int| j <= t < sv.len() implies (#[trigger] sv[t]).wasted_bytes < x@.wasted_bytes by {
                    assert(sv[t] == sorted@[t]@);
                }
                if j > 0 {
                    assert(sv[j - 1] == sorted@[j - 1]@);
                }
                lemma_ins_by_waste(sv, x@, j as int);
            }
            sorted.insert(j, x);
            proof {
                assert(ineffs_view(sorted@) =~= sv.take(j as int).push(x@) + sv.skip(j as int));
            }
            k = k + 1;
        }
        proof {
            assert(all.take(n as int) =~= all);
        }
        // Raw bytes of every layer but the base one.
        let mut user_bytes: u64 = 0;
        let mut ui: usize = if nl > 0 { 1 } else { 0 };
        while ui < nl
            invariant
                layers == image.layers@,
                nl == layers.len(),
                ui <= nl,
                nl > 0 ==> ui >= 1,
                user_upto(layers, nl as int) <= u64::MAX,
                user_bytes == user_upto(layers, ui as int),
            decreases nl - ui,
        {
            proof {
                lemma_user_upto_mono(layers, ui + 1, nl as int);
            }
            user_bytes = user_bytes + image.layers[ui].size;
            ui = ui + 1;
        }

        EfficiencyResult {
            total_bytes,
            min_total_bytes: min_total,
            user_bytes,
            wasted_bytes: wasted,
            inefficiencies: sorted,
        }
    }
}

/// Sums over a prefix are no larger.
pub proof fn lemma_cumulative_prefix(es: Seq<EffEntry>, i: int)
    requires
        entries_ok(es),
        0 <= i <= es.len(),
    ensures
        cumulative_sum(es.take(i)) <= cumulative_sum(es),
    decreases es.len() - i,
{
    if i < es.len() {
        lemma_cumulative_prefix(es, i + 1);
        assert(es.take(i + 1).drop_last() =~= es.take(i));
        assert(es.take(i + 1).last() == es[i]);
    } else {
        assert(es.take(i) =~= es);
    }
}


/// The summary line of an efficiency result, given its score already written
/// as a percentage.
pub open spec fn efficiency_summary_text(score_percent: Seq<char>, wasted: nat) -> Seq<char> {
    "Efficiency: "@ + score_percent + "%  Wasted: "@ + size_text(wasted)
}

/// The detail item of an inefficient file.
pub open spec fn inefficiency_item(i: InefficiencyView) -> (Seq<char>, Seq<char>) {
    (i.path, size_text(i.wasted_bytes as nat) + " wasted ("@ + size_text(i.cumulative_size as nat) + " cumulative)"@)
}

/// The detail sections of an efficiency result, given its score and the
/// wasted share of its user bytes already written as percentages: the
/// figures, then the ten most wasteful files when there are any.
pub open spec fn efficiency_details(
    r: EfficiencyResult,
    score_percent: Seq<char>,
    wasted_user_percent: Seq<char>,
) -> Seq<(Seq<char>, Seq<(Seq<char>, Seq<char>)>)> {
    let summary = (
        "Summary"@,
        seq![
            ("Efficiency score"@, score_percent + "%"@),
            ("Total bytes"@, size_text(r.total_bytes as nat)),
            ("User bytes"@, size_text(r.user_bytes as nat)),
            ("Wasted bytes"@, size_text(r.wasted_bytes as nat)),
            ("Wasted user percent"@, wasted_user_percent + "%"@),
        ],
    );
    let ineffs = ineffs_view(r.inefficiencies@);
    if ineffs.len() == 0 {
        seq![summary]
    } else {
        let top = if ineffs.len() > 10 { ineffs.take(10) } else { ineffs };
        seq![summary, ("Top inefficient files"@, top.map_values(|i: InefficiencyView| inefficiency_item(i)))]
    }
}

fn percent_text(number: &str) -> (r: String)
    ensures
        r@ == number@ + "%"@,
{
    let mut v = str_to_chars(number);
    append_chars(&mut v, &str_to_chars("%"));
    vec_to_string(&v)
}

impl EfficiencyResult {
    /// The summary line, given the score already written as a percentage
    /// (the number without its `%`).
    pub fn summary_with(&self, score_percent: &str) -> (r: String)
        ensures
            r@ == efficiency_summary_text(score_percent@, self.wasted_bytes as nat),
    {
        let mut v = str_to_chars("Efficiency: ");
        append_chars(&mut v, &str_to_chars(score_percent));
        append_chars(&mut v, &str_to_chars("%  Wasted: "));
        append_chars(&mut v, &string_chars(&format_size(self.wasted_bytes)));
        vec_to_string(&v)
    }

    /// The detail sections, given the score and the wasted share of the user
    /// bytes already written as percentages (the numbers without their `%`).
    pub fn details_with(&self, score_percent: &str, wasted_user_percent: &str) -> (r: Vec<AnalysisSection>)
        ensures
            sections_view(r@) == efficiency_details(*self, score_percent@, wasted_user_percent@),
    {
        let summary_items = vec![
            item("Efficiency score", percent_text(score_percent)),
            item("Total bytes", format_size(self.total_bytes)),
            item("User bytes", format_size(self.user_bytes)),
            item("Wasted bytes", format_size(self.wasted_bytes)),
            item("Wasted user percent", percent_text(wasted_user_percent)),
        ];
        let ghost sv = summary_items@.map_values(|it: AnalysisItem| (it.label@, it.value@));
        assert(sv =~= seq![
            ("Efficiency score"@, score_percent@ + "%"@),
            ("Total bytes"@, size_text(self.total_bytes as nat)),
            ("User bytes"@, size_text(self.user_bytes as nat)),
            ("Wasted bytes"@, size_text(self.wasted_bytes as nat)),
            ("Wasted user percent"@, wasted_user_percent@ + "%"@),
        ]);
        let mut sections = vec![section("Summary", summary_items)];
        let ghost ineffs = ineffs_view(self.inefficiencies@);
        if self.inefficiencies.len() == 0 {
            assert(sections_view(sections@) =~= seq![section_view(sections@[0])]);
            return sections;
        }
        let top = self.top_inefficiencies(10);
        let ghost topv = if ineffs.len() > 10 { ineffs.take(10) } else { ineffs };
        let mut items: Vec<AnalysisItem> = Vec::new();
        let mut i: usize = 0;
        while i < top.len()
            invariant
                i <= top@.len(),
                top@.len() == topv.len(),
                ineffs == ineffs_view(self.inefficiencies@),
                topv == if ineffs.len() > 10 { ineffs.take(10) } else { ineffs },
                forall|t: int| 0 <= t < top@.len() ==> *(#[trigger] top@[t]) == self.inefficiencies@[t],
                items@.len() == i,
                items@.map_values(|it: AnalysisItem| (it.label@, it.value@)) == topv.take(i as int).map_values(
                    |x: InefficiencyView| inefficiency_item(x),
                ),
            decreases top@.len() - i,
        {
            let x = top[i];
            let mut v = string_chars(&format_size(x.wasted_bytes));
            append_chars(&mut v, &str_to_chars(" wasted ("));
            append_chars(&mut v, &string_chars(&format_size(x.cumulative_size)));
            append_chars(&mut v, &str_to_chars(" cumulative)"));
            let ghost before = items@;
            items.push(AnalysisItem { label: x.path.clone(), value: vec_to_string(&v) });
            proof {
                let g = |it: AnalysisItem| (it.label@, it.value@);
                let h = |y: InefficiencyView| inefficiency_item(y);
                assert(topv[i as int] == self.inefficiencies@[i as int]@);
                assert forall|j: int| 0 <= j < i + 1 implies items@.map_values(g)[j] == topv.take(i + 1).map_values(h)[j] by {
                    if j < i {
                        assert(items@[j] == before[j]);
                        assert(before.map_values(g)[j] == topv.take(i as int).map_values(h)[j]);
                    }
                }
                assert(items@.map_values(g) =~= topv.take(i + 1).map_values(h));
            }
            i = i + 1;
        }
        assert(topv.take(i as int) =~= topv);
        sections.push(section("Top inefficient files", items));
        assert(sections_view(sections@) =~= seq![section_view(sections@[0]), section_view(sections@[1])]);
        sections
    }
}


/// The efficiency score lies between 0 and 1: the smallest copies of the
/// paths never weigh more than all their copies; and the wasted bytes are
/// part of the bytes counted.
pub proof fn law_efficiency_bounds(layers: Seq<Layer>)
    ensures
        0 <= min_sum(eff_entries(layers)) <= cumulative_sum(eff_entries(layers)),
        0 <= waste_sum(ineff_of(eff_entries(layers))) <= cumulative_sum(eff_entries(layers)),
{
    lemma_eff_upto(layers, 0, layers.len() as int);
    lemma_sums(eff_entries(layers));
    lemma_ineff_of(eff_entries(layers));
}


proof fn lemma_ins_sorted(s: Seq<InefficiencyView>, x: InefficiencyView)
    requires
        forall|i: int, j: int| 0 <= i < j < s.len() ==> (#[trigger] s[i]).wasted_bytes >= (#[trigger] s[j]).wasted_bytes,
    ensures
        ins_by_waste(s, x).len() == s.len() + 1,
        forall|i: int, j: int|
            0 <= i < j < ins_by_waste(s, x).len() ==> (#[trigger] ins_by_waste(s, x)[i]).wasted_bytes
                >= (#[trigger] ins_by_waste(s, x)[j]).wasted_bytes,
        forall|i: int|
            0 <= i < ins_by_waste(s, x).len() ==> (#[trigger] ins_by_waste(s, x)[i]) == x || s.contains(
                ins_by_waste(s, x)[i],
            ),
    decreases s.len(),
{
    let r = ins_by_waste(s, x);
    if s.len() == 0 || s.last().wasted_bytes >= x.wasted_bytes {
        assert forall|i: int| 0 <= i < r.len() implies (#[trigger] r[i]) == x || s.contains(r[i]) by {
            if i < s.len() {
                assert(r[i] == s[i]);
            }
        }
    } else {
        let d = s.drop_last();
        assert forall|i: int, j: int| 0 <= i < j < d.len() implies (#[trigger] d[i]).wasted_bytes
            >= (#[trigger] d[j]).wasted_bytes by {
            assert(d[i] == s[i] && d[j] == s[j]);
        }
        lemma_ins_sorted(d, x);
        let e = ins_by_waste(d, x);
        assert forall|i: int| 0 <= i < r.len() implies (#[trigger] r[i]) == x || s.contains(r[i]) by {
            if i < e.len() {
                assert(r[i] == e[i]);
                if r[i] != x {
                    let k = choose|k: int| 0 <= k < d.len() && d[k] == e[i];
                    assert(s[k] == d[k]);
                }
            } else {
                assert(r[i] == s[s.len() - 1]);
            }
        }
        assert forall|i: int, j: int| 0 <= i < j < r.len() implies (#[trigger] r[i]).wasted_bytes
            >= (#[trigger] r[j]).wasted_bytes by {
            if j < e.len() {
                assert(r[i] == e[i] && r[j] == e[j]);
            } else {
                assert(r[j] == s.last());
                assert(r[i] == e[i]);
                if e[i] != x {
                    let k = choose|k: int| 0 <= k < d.len() && d[k] == e[i];
                    assert(s[k] == d[k]);
                    assert(s[k].wasted_bytes >= s[s.len() - 1].wasted_bytes);
                }
            }
        }
    }
}

/// The inefficient files come most wasteful first.
pub proof fn law_inefficiencies_sorted(s: Seq<InefficiencyView>)
    ensures
        forall|i: int, j: int|
            0 <= i < j < sort_by_waste(s).len() ==> (#[trigger] sort_by_waste(s)[i]).wasted_bytes
                >= (#[trigger] sort_by_waste(s)[j]).wasted_bytes,
    decreases s.len(),
{
    if s.len() > 0 {
        law_inefficiencies_sorted(s.drop_last());
        lemma_ins_sorted(sort_by_waste(s.drop_last()), s.last());
    }
}


/// A file of a layer (entries `m`): a leaf with a non-empty path that is
/// neither a directory, nor a whiteout, nor an opaque-whiteout marker.
pub open spec fn plain_file(m: Map<PathKey, NodeView>, q: PathKey) -> bool {
    &&& is_leaf(m, q)
    &&& m[q].info.entry_type != TarEntryType::Directory
    &&& !is_whiteout_key(q)
    &&& !has_suffix(join_path(q), opaque_marker())
    &&& join_path(q).len() > 0
}

/// The entries `es` know `key`, and its smallest copy is at most `size`.
pub open spec fn smallest_at_most(es: Seq<EffEntry>, key: Seq<char>, size: int) -> bool {
    find_entry(es, key) >= 0 && es[find_entry(es, key)].min_size <= size
}

proof fn lemma_find_entry_same_keys(a: Seq<EffEntry>, b: Seq<EffEntry>, key: Seq<char>)
    requires
        a.len() == b.len(),
        forall|j: int| 0 <= j < a.len() ==> (#[trigger] a[j]).key == b[j].key,
    ensures
        find_entry(a, key) == find_entry(b, key),
    decreases a.len(),
{
    if a.len() > 0 {
        assert(a.last().key == b.last().key);
        lemma_find_entry_same_keys(a.drop_last(), b.drop_last(), key);
    }
}

proof fn lemma_count_under_keeps(es: Seq<EffEntry>, key: Seq<char>, path: Seq<char>, size: int, k: Seq<char>, s: int)
    requires
        smallest_at_most(es, k, s),
    ensures
        smallest_at_most(count_under(es, key, path, size), k, s),
{
    lemma_find_entry(es, key);
    lemma_find_entry(es, k);
    let i = find_entry(es, key);
    let j = find_entry(es, k);
    let r = count_under(es, key, path, size);
    if i < 0 {
        assert(k != key);
        assert(r.drop_last() =~= es);
        assert(find_entry(r, k) == j);
        assert(r[j] == es[j]);
    } else {
        lemma_find_entry_same_keys(r, es, k);
        if j != i {
            assert(r[j] == es[j]);
        }
    }
}

proof fn lemma_count_under_counts(es: Seq<EffEntry>, key: Seq<char>, path: Seq<char>, size: int)
    ensures
        smallest_at_most(count_under(es, key, path, size), key, size),
{
    lemma_find_entry(es, key);
    let i = find_entry(es, key);
    let r = count_under(es, key, path, size);
    if i < 0 {
        assert(find_entry(r, key) == es.len());
    } else {
        lemma_find_entry_same_keys(r, es, key);
    }
}

proof fn lemma_eff_step_keeps(
    es: Seq<EffEntry>,
    m: Map<PathKey, NodeView>,
    q: PathKey,
    proot: NodeView,
    prior: Map<PathKey, NodeView>,
    k: Seq<char>,
    s: int,
)
    requires
        smallest_at_most(es, k, s),
    ensures
        smallest_at_most(eff_step(es, m, q, proot, prior), k, s),
{
    if !(!is_leaf(m, q) || has_suffix(join_path(q), opaque_marker()) || m[q].info.entry_type
        == TarEntryType::Directory) {
        if is_whiteout_key(q) {
            let key = join_path(whiteout_target(q));
            if key.len() > 0 {
                lemma_count_under_keeps(es, key, join_path(q), whiteout_weight(q, proot, prior), k, s);
            }
        } else {
            let key = join_path(q);
            if key.len() > 0 {
                lemma_count_under_keeps(es, key, key, m[q].info.size as int, k, s);
            }
        }
    }
}

proof fn lemma_eff_keys_keeps(
    es: Seq<EffEntry>,
    m: Map<PathKey, NodeView>,
    ks: Seq<PathKey>,
    proot: NodeView,
    prior: Map<PathKey, NodeView>,
    k: Seq<char>,
    s: int,
)
    requires
        smallest_at_most(es, k, s),
    ensures
        smallest_at_most(eff_keys(es, m, ks, proot, prior), k, s),
    decreases ks.len(),
{
    if ks.len() > 0 {
        lemma_eff_keys_keeps(es, m, ks.drop_last(), proot, prior, k, s);
        lemma_eff_step_keeps(eff_keys(es, m, ks.drop_last(), proot, prior), m, ks.last(), proot, prior, k, s);
    }
}

proof fn lemma_eff_keys_counts(
    es: Seq<EffEntry>,
    m: Map<PathKey, NodeView>,
    ks: Seq<PathKey>,
    proot: NodeView,
    prior: Map<PathKey, NodeView>,
    q: PathKey,
)
    requires
        ks.contains(q),
        plain_file(m, q),
    ensures
        smallest_at_most(eff_keys(es, m, ks, proot, prior), join_path(q), m[q].info.size as int),
    decreases ks.len(),
{
    let prev = eff_keys(es, m, ks.drop_last(), proot, prior);
    if ks.last() == q {
        lemma_count_under_counts(prev, join_path(q), join_path(q), m[q].info.size as int);
    } else {
        let j = choose|j: int| 0 <= j < ks.len() && ks[j] == q;
        assert(ks.drop_last()[j] == q);
        lemma_eff_keys_counts(es, m, ks.drop_last(), proot, prior, q);
        lemma_eff_step_keeps(prev, m, ks.last(), proot, prior, join_path(q), m[q].info.size as int);
    }
}

proof fn lemma_eff_upto_counts(layers: Seq<Layer>, n: int, li: int, q: PathKey)
    requires
        layers_wf(layers),
        0 <= li < n <= layers.len(),
        plain_file(layers[li].tree.nodes(), q),
    ensures
        smallest_at_most(eff_upto(layers, n), join_path(q), layers[li].tree.nodes()[q].info.size as int),
    decreases n,
{
    let l = layers[n - 1];
    if li == n - 1 {
        l.tree.lemma_wf_facts();
        lemma_eff_keys_counts(
            eff_upto(layers, n - 1),
            l.tree.nodes(),
            l.tree.ordered_keys(),
            prior_root(layers, n - 1),
            prior_map(layers, n - 1),
            q,
        );
    } else {
        lemma_eff_upto_counts(layers, n - 1, li, q);
        lemma_eff_keys_keeps(
            eff_upto(layers, n - 1),
            l.tree.nodes(),
            l.tree.ordered_keys(),
            prior_root(layers, n - 1),
            prior_map(layers, n - 1),
            join_path(q),
            layers[li].tree.nodes()[q].info.size as int,
        );
    }
}

/// Every file of every layer is counted under its path, and that path's
/// smallest copy is at most the file's size: the bytes the analysis keeps
/// for a path are those of its smallest copy, never a larger one.
pub proof fn law_smallest_copy_kept(layers: Seq<Layer>, li: int, q: PathKey)
    requires
        layers_wf(layers),
        0 <= li < layers.len(),
        plain_file(layers[li].tree.nodes(), q),
    ensures
        ({
            let es = eff_entries(layers);
            let k = find_entry(es, join_path(q));
            &&& 0 <= k < es.len()
            &&& es[k].key == join_path(q)
            &&& es[k].min_size <= layers[li].tree.nodes()[q].info.size
        }),
{
    lemma_eff_upto_counts(layers, layers.len() as int, li, q);
    lemma_find_entry(eff_entries(layers), join_path(q));
}


/// What leaf `q` of layer `li` counts, and under which path: a file its
/// size under its own path; a whiteout the bytes it removes (capped at
/// what 64 bits hold) under the path it removes; anything else nothing.
pub open spec fn counted(layers: Seq<Layer>, li: int, q: PathKey) -> Option<(Seq<char>, int)> {
    let m = layers[li].tree.nodes();
    if !is_leaf(m, q) || has_suffix(join_path(q), opaque_marker()) || m[q].info.entry_type
        == TarEntryType::Directory {
        None
    } else if is_whiteout_key(q) {
        let key = join_path(whiteout_target(q));
        if key.len() == 0 {
            None
        } else {
            Some(
                (
                    key,
                    min_int(u64::MAX as int, whiteout_weight(q, prior_root(layers, li), prior_map(layers, li))),
                ),
            )
        }
    } else {
        let key = join_path(q);
        if key.len() == 0 {
            None
        } else {
            Some((key, m[q].info.size as int))
        }
    }
}

/// Some leaf of the first `n` layers counts `v` under `key`.
pub open spec fn counted_below(layers: Seq<Layer>, n: int, key: Seq<char>, v: int) -> bool {
    exists|li: int, q: PathKey| 0 <= li < n && #[trigger] counted(layers, li, q) == Some((key, v))
}

/// Every entry's smallest copy is a value some leaf of the first `n` layers
/// counts under its path.
spec fn mins_attained(es: Seq<EffEntry>, layers: Seq<Layer>, n: int) -> bool {
    forall|j: int| 0 <= j < es.len() ==> counted_below(layers, n, (#[trigger] es[j]).key, es[j].min_size)
}

proof fn lemma_counted_le_max(layers: Seq<Layer>, li: int, q: PathKey)
    requires
        counted(layers, li, q) is Some,
    ensures
        counted(layers, li, q)->Some_0.1 <= u64::MAX,
{
}

proof fn lemma_count_under_attained(
    es: Seq<EffEntry>,
    layers: Seq<Layer>,
    n: int,
    li: int,
    q: PathKey,
    key: Seq<char>,
    path: Seq<char>,
    raw: int,
)
    requires
        mins_attained(es, layers, n),
        0 <= li < n,
        counted(layers, li, q) == Some((key, min_int(u64::MAX as int, raw))),
    ensures
        mins_attained(count_under(es, key, path, raw), layers, n),
{
    lemma_find_entry(es, key);
    let i = find_entry(es, key);
    let r = count_under(es, key, path, raw);
    assert(counted_below(layers, n, key, min_int(u64::MAX as int, raw)));
    assert forall|j: int| 0 <= j < r.len() implies counted_below(layers, n, (#[trigger] r[j]).key, r[j].min_size) by {
        if i < 0 {
            if j < es.len() {
                assert(r[j] == es[j]);
            }
        } else if j != i {
            assert(r[j] == es[j]);
        } else {
            assert(counted_below(layers, n, es[i].key, es[i].min_size));
            let (l0, q0) = choose|l0: int, q0: PathKey|
                0 <= l0 < n && #[trigger] counted(layers, l0, q0) == Some((es[i].key, es[i].min_size));
            lemma_counted_le_max(layers, l0, q0);
            if raw < es[i].min_size {
                assert(min_int(u64::MAX as int, raw) == raw);
            }
        }
    }
}

proof fn lemma_attained_grow(es: Seq<EffEntry>, layers: Seq<Layer>, n: int, k: int)
    requires
        mins_attained(es, layers, n),
        n <= k,
    ensures
        mins_attained(es, layers, k),
{
    assert forall|j: int| 0 <= j < es.len() implies counted_below(layers, k, (#[trigger] es[j]).key, es[j].min_size) by {
        assert(counted_below(layers, n, es[j].key, es[j].min_size));
        let (l0, q0) = choose|l0: int, q0: PathKey|
            0 <= l0 < n && #[trigger] counted(layers, l0, q0) == Some((es[j].key, es[j].min_size));
        assert(counted(layers, l0, q0) == Some((es[j].key, es[j].min_size)));
    }
}

proof fn lemma_eff_keys_attained(es: Seq<EffEntry>, layers: Seq<Layer>, li: int, ks: Seq<PathKey>)
    requires
        0 <= li < layers.len(),
        mins_attained(es, layers, li + 1),
    ensures
        mins_attained(
            eff_keys(es, layers[li].tree.nodes(), ks, prior_root(layers, li), prior_map(layers, li)),
            layers,
            li + 1,
        ),
    decreases ks.len(),
{
    if ks.len() > 0 {
        let m = layers[li].tree.nodes();
        let proot = prior_root(layers, li);
        let prior = prior_map(layers, li);
        lemma_eff_keys_attained(es, layers, li, ks.drop_last());
        let prev = eff_keys(es, m, ks.drop_last(), proot, prior);
        let q = ks.last();
        if !(!is_leaf(m, q) || has_suffix(join_path(q), opaque_marker()) || m[q].info.entry_type
            == TarEntryType::Directory) {
            if is_whiteout_key(q) {
                let key = join_path(whiteout_target(q));
                if key.len() > 0 {
                    lemma_count_under_attained(
                        prev,
                        layers,
                        li + 1,
                        li,
                        q,
                        key,
                        join_path(q),
                        whiteout_weight(q, proot, prior),
                    );
                }
            } else {
                let key = join_path(q);
                if key.len() > 0 {
                    lemma_count_under_attained(prev, layers, li + 1, li, q, key, key, m[q].info.size as int);
                }
            }
        }
    }
}

proof fn lemma_eff_upto_attained(layers: Seq<Layer>, n: int)
    requires
        0 <= n <= layers.len(),
    ensures
        mins_attained(eff_upto(layers, n), layers, n),
    decreases n,
{
    if n > 0 {
        lemma_eff_upto_attained(layers, n - 1);
        lemma_attained_grow(eff_upto(layers, n - 1), layers, n - 1, n);
        lemma_eff_keys_attained(eff_upto(layers, n - 1), layers, n - 1, layers[n - 1].tree.ordered_keys());
    }
}

/// Every path's smallest copy is a value that some leaf of some layer
/// counts under that path: together with [`law_smallest_copy_kept`], the
/// bytes kept for a path are exactly its smallest copy.
pub proof fn law_smallest_copy_is_a_copy(layers: Seq<Layer>, j: int)
    requires
        0 <= j < eff_entries(layers).len(),
    ensures
        exists|li: int, q: PathKey|
            0 <= li < layers.len() && #[trigger] counted(layers, li, q) == Some(
                (eff_entries(layers)[j].key, eff_entries(layers)[j].min_size),
            ),
{
    lemma_eff_upto_attained(layers, layers.len() as int);
    assert(counted_below(layers, layers.len() as int, eff_entries(layers)[j].key, eff_entries(layers)[j].min_size));
}

} // verus!

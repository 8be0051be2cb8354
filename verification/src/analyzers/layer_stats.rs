//! Per-layer metrics: sizes, file counts and whiteouts.
//!
//! Each layer's leaves are visited in tree order. A path met for the first
//! time (in this layer or any below it) counts toward the layer's unique bytes,
//! a path met again toward its wasted bytes. A whiteout counts the bytes of
//! what it removes from the layers below: the whole subtree for a directory,
//! the file's size otherwise.
use vstd::prelude::*;
use crate::analyzers::{prior_map, prior_root, stack_prior};
use crate::filetree::{
    NodeView, TarEntryType, is_leaf, is_whiteout_key, lookup, map_subtree, subtree_key,
    whiteout_target, lemma_map_subtree_nonneg,
};
use crate::image::{Image, Layer, layers_wf};
use crate::paths::{PathKey, join_path};
use crate::report::{AnalysisItem, AnalysisSection, section, section_view, sections_view};
use crate::text::{append_chars, chars_eq, decimal, decimal_chars, str_to_chars, string_chars, vec_to_string};
use crate::utils::{format_size, size_text};

verus! {

/// Metrics of one layer.
#[derive(Debug)]
pub struct LayerStats {
    pub index: usize,
    pub command: String,
    pub raw_size: u64,
    /// Bytes of paths that no lower layer (nor an earlier leaf here) holds.
    pub unique_size: u64,
    /// Bytes of paths already held below.
    pub wasted_size: u64,
    pub compressed_size: Option<u64>,
    pub file_count: usize,
    pub dir_count: usize,
    pub symlink_count: usize,
    pub whiteout_count: usize,
    /// Bytes of what this layer's whiteouts remove from the layers below.
    pub whiteout_bytes: u64,
    /// Unique bytes of this layer and all layers below it.
    pub cumulative_unique_size: u64,
    /// Raw bytes of all layers of the image.
    pub image_total_bytes: u64,
}

/// Metrics of every layer, bottom first.
#[derive(Debug)]
pub struct LayerStatsResult {
    pub layers: Vec<LayerStats>,
}

/// Computes per-layer metrics.
pub struct LayerStatsAnalyzer;

/// The counts and byte sums of one layer.
pub struct Tally {
    pub files: int,
    pub dirs: int,
    pub symlinks: int,
    pub whiteouts: int,
    pub whiteout_bytes: int,
    pub unique: int,
    pub wasted: int,
}

pub open spec fn zero_tally() -> Tally {
    Tally { files: 0, dirs: 0, symlinks: 0, whiteouts: 0, whiteout_bytes: 0, unique: 0, wasted: 0 }
}

/// The scan's state: the paths seen so far and the current layer's tally.
pub struct StatsScan {
    pub seen: Set<Seq<char>>,
    pub tally: Tally,
}

/// The bytes that the whiteout at `q` removes from the stacked layers below
/// (root `proot`, entries `prior`).
pub open spec fn removed_bytes(q: PathKey, proot: NodeView, prior: Map<PathKey, NodeView>) -> int {
    let t = join_path(whiteout_target(q));
    if t.len() == 0 {
        0
    } else {
        match lookup(proot, prior, t) {
            Some(n) => if n.info.entry_type == TarEntryType::Directory {
                map_subtree(prior, subtree_key(t))
            } else {
                n.info.size as int
            },
            None => 0,
        }
    }
}

/// One key of the layer (entries `m`) visited.
pub open spec fn stats_step(
    st: StatsScan,
    m: Map<PathKey, NodeView>,
    q: PathKey,
    proot: NodeView,
    prior: Map<PathKey, NodeView>,
) -> StatsScan {
    if !is_leaf(m, q) {
        st
    } else {
        let et = m[q].info.entry_type;
        let t = st.tally;
        if et == TarEntryType::Directory {
            StatsScan { tally: Tally { dirs: t.dirs + 1, ..t }, ..st }
        } else {
            let t1 = Tally {
                symlinks: if et == TarEntryType::Symlink || et == TarEntryType::Hardlink {
                    t.symlinks + 1
                } else {
                    t.symlinks
                },
                files: if et == TarEntryType::Regular {
                    t.files + 1
                } else {
                    t.files
                },
                ..t
            };
            if is_whiteout_key(q) {
                StatsScan {
                    tally: Tally {
                        whiteouts: t1.whiteouts + 1,
                        whiteout_bytes: t1.whiteout_bytes + removed_bytes(q, proot, prior),
                        ..t1
                    },
                    ..st
                }
            } else {
                let key = join_path(q);
                if key.len() == 0 {
                    StatsScan { tally: t1, ..st }
                } else if st.seen.contains(key) {
                    StatsScan { tally: Tally { wasted: t1.wasted + m[q].info.size, ..t1 }, ..st }
                } else {
                    StatsScan {
                        seen: st.seen.insert(key),
                        tally: Tally { unique: t1.unique + m[q].info.size, ..t1 },
                    }
                }
            }
        }
    }
}

/// The keys `ks` visited in order.
pub open spec fn stats_keys(
    st: StatsScan,
    m: Map<PathKey, NodeView>,
    ks: Seq<PathKey>,
    proot: NodeView,
    prior: Map<PathKey, NodeView>,
) -> StatsScan
    decreases ks.len(),
{
    if ks.len() == 0 {
        st
    } else {
        stats_step(stats_keys(st, m, ks.drop_last(), proot, prior), m, ks.last(), proot, prior)
    }
}

/// The scan of layer `i`, starting from the paths seen below it.
pub open spec fn layer_scan(seen: Set<Seq<char>>, layers: Seq<Layer>, i: int) -> StatsScan {
    stats_keys(
        StatsScan { seen, tally: zero_tally() },
        layers[i].tree.nodes(),
        layers[i].tree.ordered_keys(),
        prior_root(layers, i),
        prior_map(layers, i),
    )
}

/// The paths seen in the first `n` layers, and their tallies.
pub open spec fn stats_upto(layers: Seq<Layer>, n: int) -> (Set<Seq<char>>, Seq<Tally>)
    decreases n,
{
    if n <= 0 {
        (Set::empty(), Seq::empty())
    } else {
        let prev = stats_upto(layers, n - 1);
        let r = layer_scan(prev.0, layers, n - 1);
        (r.seen, prev.1.push(r.tally))
    }
}

/// The tally of every layer.
pub open spec fn layer_tallies(layers: Seq<Layer>) -> Seq<Tally> {
    stats_upto(layers, layers.len() as int).1
}

/// Unique bytes of the first `n` tallies.
pub open spec fn unique_upto(ts: Seq<Tally>, n: int) -> int
    decreases n,
{
    if n <= 0 {
        0
    } else {
        unique_upto(ts, n - 1) + ts[n - 1].unique
    }
}

/// Raw bytes of the first `n` layers.
pub open spec fn raw_upto(layers: Seq<Layer>, n: int) -> int
    decreases n,
{
    if n <= 0 {
        0
    } else {
        raw_upto(layers, n - 1) + layers[n - 1].size
    }
}

/// Every per-layer byte sum fits in 64 bits.
pub open spec fn stats_fit(layers: Seq<Layer>) -> bool {
    let ts = layer_tallies(layers);
    &&& raw_upto(layers, layers.len() as int) <= u64::MAX
    &&& unique_upto(ts, layers.len() as int) <= u64::MAX
    &&& forall|i: int|
        0 <= i < ts.len() ==> (#[trigger] ts[i]).whiteout_bytes <= u64::MAX && ts[i].wasted
            <= u64::MAX
}

/// `s` reports layer `l` with tally `t`.
pub open spec fn stats_match(s: LayerStats, l: Layer, t: Tally, cumulative: int, total: int) -> bool {
    &&& s.index == l.index
    &&& s.command@ == l.command@
    &&& s.raw_size == l.size
    &&& s.unique_size == t.unique
    &&& s.wasted_size == t.wasted
    &&& s.compressed_size is None
    &&& s.file_count == t.files
    &&& s.dir_count == t.dirs
    &&& s.symlink_count == t.symlinks
    &&& s.whiteout_count == t.whiteouts
    &&& s.whiteout_bytes == t.whiteout_bytes
    &&& s.cumulative_unique_size == cumulative
    &&& s.image_total_bytes == total
}

/// Each step keeps the seen paths and leaves no sum or count smaller.
pub proof fn lemma_stats_step_mono(
    st: StatsScan,
    m: Map<PathKey, NodeView>,
    q: PathKey,
    proot: NodeView,
    prior: Map<PathKey, NodeView>,
)
    ensures
        ({
            let r = stats_step(st, m, q, proot, prior);
            &&& r.tally.unique >= st.tally.unique
            &&& r.tally.wasted >= st.tally.wasted
            &&& r.tally.whiteout_bytes >= st.tally.whiteout_bytes
            &&& st.tally.files <= r.tally.files <= st.tally.files + 1
            &&& st.tally.dirs <= r.tally.dirs <= st.tally.dirs + 1
            &&& st.tally.symlinks <= r.tally.symlinks <= st.tally.symlinks + 1
            &&& st.tally.whiteouts <= r.tally.whiteouts <= st.tally.whiteouts + 1
        }),
{
    if is_leaf(m, q) && m[q].info.entry_type != TarEntryType::Directory && is_whiteout_key(q) {
        let t = join_path(whiteout_target(q));
        if t.len() != 0 {
            lemma_map_subtree_nonneg(prior, subtree_key(t));
        }
    }
}

/// Visiting a prefix of the keys gives no larger sums than visiting them all.
pub proof fn lemma_stats_keys_mono(
    st: StatsScan,
    m: Map<PathKey, NodeView>,
    ks: Seq<PathKey>,
    proot: NodeView,
    prior: Map<PathKey, NodeView>,
    i: int,
)
    requires
        0 <= i <= ks.len(),
    ensures
        ({
            let a = stats_keys(st, m, ks.take(i), proot, prior);
            let b = stats_keys(st, m, ks, proot, prior);
            &&& st.tally.unique <= a.tally.unique <= b.tally.unique
            &&& st.tally.wasted <= a.tally.wasted <= b.tally.wasted
            &&& st.tally.whiteout_bytes <= a.tally.whiteout_bytes <= b.tally.whiteout_bytes
        }),
    decreases ks.len(),
{
    if ks.len() == 0 {
        assert(ks.take(i) =~= ks);
    } else if i == ks.len() {
        assert(ks.take(i) =~= ks);
        lemma_stats_keys_mono(st, m, ks.drop_last(), proot, prior, i - 1);
        assert(ks.drop_last().take(i - 1) =~= ks.drop_last());
        lemma_stats_step_mono(stats_keys(st, m, ks.drop_last(), proot, prior), m, ks.last(), proot, prior);
    } else {
        lemma_stats_keys_mono(st, m, ks.drop_last(), proot, prior, i);
        assert(ks.drop_last().take(i) =~= ks.take(i));
        lemma_stats_step_mono(stats_keys(st, m, ks.drop_last(), proot, prior), m, ks.last(), proot, prior);
    }
}

/// The tallies of the first `n` layers are the first `n` of them all.
pub proof fn lemma_stats_upto_prefix(layers: Seq<Layer>, n: int, k: int)
    requires
        0 <= n <= k,
    ensures
        stats_upto(layers, n).1.len() == n,
        stats_upto(layers, k).1.len() == k,
        stats_upto(layers, n).1 == stats_upto(layers, k).1.take(n),
    decreases k,
{
    if k == 0 {
        assert(stats_upto(layers, k).1.take(n) =~= stats_upto(layers, n).1);
    } else if n == k {
        lemma_stats_upto_prefix(layers, n - 1, k - 1);
        assert(stats_upto(layers, k).1.take(n) =~= stats_upto(layers, k).1);
    } else {
        lemma_stats_upto_prefix(layers, n, k - 1);
        assert(stats_upto(layers, k).1.take(n) =~= stats_upto(layers, k - 1).1.take(n));
    }
}

/// A layer's unique, wasted and whiteout bytes are never negative.
pub proof fn lemma_tallies_nonneg(layers: Seq<Layer>, n: int)
    requires
        0 <= n,
    ensures
        forall|j: int|
            0 <= j < stats_upto(layers, n).1.len() ==> (#[trigger] stats_upto(layers, n).1[j]).unique
                >= 0,
    decreases n,
{
    if n > 0 {
        lemma_tallies_nonneg(layers, n - 1);
        let prev = stats_upto(layers, n - 1);
        let l = layers[n - 1];
        lemma_stats_keys_mono(
            StatsScan { seen: prev.0, tally: zero_tally() },
            l.tree.nodes(),
            l.tree.ordered_keys(),
            prior_root(layers, n - 1),
            prior_map(layers, n - 1),
            0,
        );
        let all = stats_upto(layers, n).1;
        assert forall|j: int| 0 <= j < all.len() implies (#[trigger] all[j]).unique >= 0 by {
            if j < prev.1.len() {
                assert(all[j] == prev.1[j]);
            }
        }
    }
}

/// Sums over more tallies are no smaller.
pub proof fn lemma_unique_upto_mono(ts: Seq<Tally>, n: int, k: int)
    requires
        0 <= n <= k <= ts.len(),
        forall|j: int| 0 <= j < ts.len() ==> (#[trigger] ts[j]).unique >= 0,
    ensures
        0 <= unique_upto(ts, n) <= unique_upto(ts, k),
    decreases k,
{
    if k > 0 {
        if n == k {
            lemma_unique_upto_mono(ts, n - 1, k - 1);
        } else {
            lemma_unique_upto_mono(ts, n, k - 1);
        }
    }
}

pub proof fn lemma_raw_upto_mono(layers: Seq<Layer>, n: int, k: int)
    requires
        0 <= n <= k <= layers.len(),
    ensures
        0 <= raw_upto(layers, n) <= raw_upto(layers, k),
    decreases k,
{
    if k > 0 {
        if n == k {
            lemma_raw_upto_mono(layers, n - 1, k - 1);
        } else {
            lemma_raw_upto_mono(layers, n, k - 1);
        }
    }
}

/// The paths of `v` as a set.
pub open spec fn seen_set(v: Seq<Vec<char>>) -> Set<Seq<char>> {
    Set::new(|p: Seq<char>| exists|j: int| 0 <= j < v.len() && (#[trigger] v[j])@ == p)
}

fn seen_contains(v: &Vec<Vec<char>>, p: &Vec<char>) -> (r: bool)
    ensures
        r == seen_set(v@).contains(p@),
{
    let mut j: usize = 0;
    while j < v.len()
        invariant
            j <= v@.len(),
            forall|t: int| 0 <= t < j ==> (#[trigger] v@[t])@ != p@,
        decreases v@.len() - j,
    {
        if chars_eq(&v[j], p) {
            return true;
        }
        j = j + 1;
    }
    false
}

impl LayerStatsAnalyzer {
    pub fn name(&self) -> (r: &'static str)
        ensures
            r@ == "Layer Stats"@,
    {
        "Layer Stats"
    }

    pub fn description(&self) -> (r: &'static str)
        ensures
            r@ == "Per-layer metrics: size, compression, file counts"@,
    {
        "Per-layer metrics: size, compression, file counts"
    }

    /// The metrics of every layer, bottom first.
    pub fn analyze_image(&self, image: &Image) -> (r: LayerStatsResult)
        requires
            image.wf(),
            stats_fit(image.layers@),
        ensures
            r.layers@.len() == image.layers@.len(),
            forall|i: int|
                0 <= i < r.layers@.len() ==> stats_match(
                    #[trigger] r.layers@[i],
                    image.layers@[i],
                    layer_tallies(image.layers@)[i],
                    unique_upto(layer_tallies(image.layers@), i + 1),
                    raw_upto(image.layers@, image.layers@.len() as int),
                ),
    {
        let ghost layers = image.layers@;
        let nl = image.layers.len();
        let ghost ts = layer_tallies(layers);
        proof {
            lemma_stats_upto_prefix(layers, 0, nl as int);
            lemma_tallies_nonneg(layers, nl as int);
        }
        // Raw bytes of the whole image.
        let mut total_bytes: u64 = 0;
        let mut k: usize = 0;
        while k < nl
            invariant
                layers == image.layers@,
                nl == layers.len(),
                k <= nl,
                raw_upto(layers, nl as int) <= u64::MAX,
                total_bytes == raw_upto(layers, k as int),
            decreases nl - k,
        {
            proof {
                lemma_raw_upto_mono(layers, k + 1, nl as int);
            }
            total_bytes = total_bytes + image.layers[k].size;
            k = k + 1;
        }
        let mut seen: Vec<Vec<char>> = Vec::new();
        let mut stats: Vec<LayerStats> = Vec::new();
        let mut cumulative_unique: u64 = 0;
        let mut li: usize = 0;
        proof {
            assert(seen_set(seen@) =~= Set::<Seq<char>>::empty());
        }
        while li < nl
            invariant
                layers == image.layers@,
                layers_wf(layers),
                stats_fit(layers),
                nl == layers.len(),
                ts == layer_tallies(layers),
                ts.len() == nl,
                forall|j: int| 0 <= j < ts.len() ==> (#[trigger] ts[j]).unique >= 0,
                li <= nl,
                total_bytes == raw_upto(layers, nl as int),
                stats_upto(layers, li as int).0 == seen_set(seen@),
                stats_upto(layers, li as int).1 == ts.take(li as int),
                cumulative_unique == unique_upto(ts, li as int),
                stats@.len() == li,
                forall|j: int|
                    0 <= j < li ==> stats_match(
                        #[trigger] stats@[j],
                        layers[j],
                        ts[j],
                        unique_upto(ts, j + 1),
                        total_bytes as int,
                    ),
            decreases nl - li,
        {
            let layer = &image.layers[li];
            let tree = &layer.tree;
            assert(layers[li as int].tree.wf());
            let prior = stack_prior(&image.layers, li);
            let ghost m = tree.nodes();
            let ghost ks = tree.ordered_keys();
            let ghost proot = prior_root(layers, li as int);
            let ghost pm = prior_map(layers, li as int);
            let ghost start = StatsScan { seen: seen_set(seen@), tally: zero_tally() };
            let ghost fin = stats_keys(start, m, ks, proot, pm);
            proof {
                lemma_stats_upto_prefix(layers, li + 1, nl as int);
                assert(fin == layer_scan(stats_upto(layers, li as int).0, layers, li as int));
                assert(fin.tally == ts[li as int]) by {
                    assert(stats_upto(layers, li + 1).1 == ts.take(li + 1));
                    assert(stats_upto(layers, li + 1).1.last() == fin.tally);
                }
                lemma_unique_upto_mono(ts, li + 1, nl as int);
                lemma_unique_upto_mono(ts, li as int, li + 1);
            }
            let mut file_count: usize = 0;
            let mut dir_count: usize = 0;
            let mut symlink_count: usize = 0;
            let mut whiteout_count: usize = 0;
            let mut whiteout_bytes: u64 = 0;
            let mut unique_size: u64 = 0;
            let mut wasted_size: u64 = 0;
            let ne = tree.entry_count();
            let mut ei: usize = 0;
            proof {
                assert(ks.take(0) =~= Seq::<PathKey>::empty());
            }
            while ei < ne
                invariant
                    tree.wf(),
                    prior.wf(),
                    prior.nodes() == pm,
                    prior.root_view() == proot,
                    m == tree.nodes(),
                    ks == tree.ordered_keys(),
                    ne == ks.len(),
                    ei <= ne,
                    fin == stats_keys(start, m, ks, proot, pm),
                    fin.tally.unique <= u64::MAX,
                    fin.tally.wasted <= u64::MAX,
                    fin.tally.whiteout_bytes <= u64::MAX,
                    file_count <= ei,
                    dir_count <= ei,
                    symlink_count <= ei,
                    whiteout_count <= ei,
                    stats_keys(start, m, ks.take(ei as int), proot, pm) == (StatsScan {
                        seen: seen_set(seen@),
                        tally: Tally {
                            files: file_count as int,
                            dirs: dir_count as int,
                            symlinks: symlink_count as int,
                            whiteouts: whiteout_count as int,
                            whiteout_bytes: whiteout_bytes as int,
                            unique: unique_size as int,
                            wasted: wasted_size as int,
                        },
                    }),
                decreases ne - ei,
            {
                let ghost q = ks[ei as int];
                let ghost before = stats_keys(start, m, ks.take(ei as int), proot, pm);
                proof {
                    assert(ks.take(ei + 1).drop_last() =~= ks.take(ei as int));
                    assert(ks.take(ei + 1).last() == q);
                    lemma_stats_keys_mono(start, m, ks, proot, pm, ei + 1);
                    lemma_stats_step_mono(before, m, q, proot, pm);
                }
                if tree.entry_is_leaf(ei) {
                    let node = tree.entry_node(ei);
                    let et = node.info.entry_type;
                    if et == TarEntryType::Directory {
                        dir_count = dir_count + 1;
                    } else {
                        if et == TarEntryType::Symlink || et == TarEntryType::Hardlink {
                            symlink_count = symlink_count + 1;
                        }
                        if et == TarEntryType::Regular {
                            file_count = file_count + 1;
                        }
                        if tree.entry_is_whiteout(ei) {
                            whiteout_count = whiteout_count + 1;
                            let target_chars = tree.entry_whiteout_target(ei);
                            let target = vec_to_string(&target_chars);
                            if target_chars.len() > 0 {
                                match prior.get_node(target.as_str()) {
                                    Some(n) => {
                                        if n.info.entry_type == TarEntryType::Directory {
                                            let b = prior.subtree_size(target.as_str());
                                            whiteout_bytes = whiteout_bytes + b;
                                        } else {
                                            whiteout_bytes = whiteout_bytes + n.info.size;
                                        }
                                    },
                                    None => {},
                                }
                            }
                        } else {
                            let path = tree.entry_path(ei);
                            if path.len() > 0 {
                                if seen_contains(&seen, &path) {
                                    wasted_size = wasted_size + node.info.size;
                                } else {
                                    unique_size = unique_size + node.info.size;
                                    let ghost old_seen = seen@;
                                    seen.push(path);
                                    proof {
                                        assert(seen_set(seen@) =~= seen_set(old_seen).insert(path@)) by {
                                            assert forall|p: Seq<char>| seen_set(seen@).contains(p) implies
                                                seen_set(old_seen).insert(path@).contains(p) by {
                                                let j = choose|j: int| 0 <= j < seen@.len() && (#[trigger] seen@[j])@ == p;
                                                if j < old_seen.len() {
                                                    assert(old_seen[j] == seen@[j]);
                                                }
                                            }
                                            assert forall|p: Seq<char>| seen_set(old_seen).insert(path@).contains(p) implies
                                                seen_set(seen@).contains(p) by {
                                                if p == path@ {
                                                    assert(seen@[old_seen.len() as int]@ == p);
                                                } else {
                                                    let j = choose|j: int| 0 <= j < old_seen.len() && (#[trigger] old_seen[j])@ == p;
                                                    assert(seen@[j] == old_seen[j]);
                                                }
                                            }
                                        }
                                    }
                                }
                            }
                        }
                    }
                }
                ei = ei + 1;
            }
            proof {
                assert(ks.take(ne as int) =~= ks);
                lemma_stats_upto_prefix(layers, li + 1, nl as int);
                lemma_unique_upto_mono(ts, li + 1, nl as int);
            }
            cumulative_unique = cumulative_unique + unique_size;
            stats.push(LayerStats {
                index: layer.index,
                command: layer.command.clone(),
                raw_size: layer.size,
                unique_size,
                wasted_size,
                compressed_size: None,
                file_count,
                dir_count,
                symlink_count,
                whiteout_count,
                whiteout_bytes,
                cumulative_unique_size: cumulative_unique,
                image_total_bytes: total_bytes,
            });
            li = li + 1;
        }
        LayerStatsResult { layers: stats }
    }
}


/// The unique bytes of all the layers of a result.
pub open spec fn unique_total(ls: Seq<LayerStats>) -> int
    decreases ls.len(),
{
    if ls.len() == 0 {
        0
    } else {
        unique_total(ls.drop_last()) + ls.last().unique_size
    }
}

/// The summary line of a layer-stats result.
pub open spec fn layer_stats_summary(count: nat, unique: nat) -> Seq<char> {
    "Layer Stats: "@ + decimal(count) + " layers, "@ + size_text(unique) + " unique"@
}

/// The detail item of one layer, given its share of the image and the
/// cumulative share already written as percentages.
pub open spec fn layer_stats_item(s: LayerStats, percent: Seq<char>, cumulative: Seq<char>) -> (Seq<char>, Seq<char>) {
    (
        "#"@ + decimal(s.index as nat) + ": "@ + s.command@,
        "raw="@ + size_text(s.raw_size as nat) + " unique="@ + size_text(s.unique_size as nat) + " wasted="@
            + size_text(s.wasted_size as nat) + " files="@ + decimal(s.file_count as nat) + " dirs="@
            + decimal(s.dir_count as nat) + " wh="@ + decimal(s.whiteout_count as nat) + " "@ + percent
            + "% of image ("@ + cumulative + "% cumulative)"@,
    )
}

/// The detail section of a layer-stats result: one item per layer.
pub open spec fn layer_stats_details(ls: Seq<LayerStats>, percents: Seq<(Seq<char>, Seq<char>)>) -> Seq<
    (Seq<char>, Seq<(Seq<char>, Seq<char>)>),
> {
    seq![("Per-layer metrics"@, Seq::new(ls.len(), |i: int| layer_stats_item(ls[i], percents[i].0, percents[i].1)))]
}

proof fn lemma_unique_prefix(ls: Seq<LayerStats>, i: int)
    requires
        0 <= i <= ls.len(),
    ensures
        0 <= unique_total(ls.take(i)) <= unique_total(ls),
    decreases ls.len() - i,
{
    if i < ls.len() {
        assert(ls.take(i + 1).drop_last() =~= ls.take(i));
        assert(ls.take(i + 1).last() == ls[i]);
        lemma_unique_prefix(ls, i + 1);
        lemma_unique_nonneg(ls.take(i));
    } else {
        assert(ls.take(i) =~= ls);
        lemma_unique_nonneg(ls);
    }
}

proof fn lemma_unique_nonneg(ls: Seq<LayerStats>)
    ensures
        unique_total(ls) >= 0,
    decreases ls.len(),
{
    if ls.len() > 0 {
        lemma_unique_nonneg(ls.drop_last());
    }
}

fn push_text(v: &mut Vec<char>, s: &str)
    ensures
        final(v)@ == old(v)@ + s@,
{
    append_chars(v, &str_to_chars(s));
}

fn push_size(v: &mut Vec<char>, n: u64)
    ensures
        final(v)@ == old(v)@ + size_text(n as nat),
{
    append_chars(v, &string_chars(&format_size(n)));
}

fn push_count(v: &mut Vec<char>, n: usize)
    ensures
        final(v)@ == old(v)@ + decimal(n as nat),
{
    append_chars(v, &decimal_chars(n as u64));
}

impl LayerStatsResult {
    /// The summary line: how many layers, and their unique bytes together.
    pub fn summary_line(&self) -> (r: String)
        requires
            unique_total(self.layers@) <= u64::MAX,
        ensures
            r@ == layer_stats_summary(self.layers@.len(), unique_total(self.layers@) as nat),
    {
        let mut total: u64 = 0;
        let mut i: usize = 0;
        proof {
            assert(self.layers@.take(0) =~= Seq::<LayerStats>::empty());
        }
        while i < self.layers.len()
            invariant
                i <= self.layers@.len(),
                total == unique_total(self.layers@.take(i as int)),
                unique_total(self.layers@) <= u64::MAX,
            decreases self.layers@.len() - i,
        {
            proof {
                assert(self.layers@.take(i + 1).drop_last() =~= self.layers@.take(i as int));
                lemma_unique_prefix(self.layers@, i + 1);
            }
            total = total + self.layers[i].unique_size;
            i = i + 1;
        }
        proof {
            assert(self.layers@.take(i as int) =~= self.layers@);
        }
        let mut v = str_to_chars("Layer Stats: ");
        push_count(&mut v, self.layers.len());
        push_text(&mut v, " layers, ");
        push_size(&mut v, total);
        push_text(&mut v, " unique");
        vec_to_string(&v)
    }

    /// The detail section, given for each layer its share of the image and
    /// the cumulative share already written as percentages (the numbers
    /// without their `%`).
    pub fn details_with(&self, percents: &Vec<(String, String)>) -> (r: Vec<AnalysisSection>)
        requires
            percents@.len() == self.layers@.len(),
        ensures
            sections_view(r@) == layer_stats_details(
                self.layers@,
                percents@.map_values(|p: (String, String)| (p.0@, p.1@)),
            ),
    {
        let ghost pv = percents@.map_values(|p: (String, String)| (p.0@, p.1@));
        let ghost want = Seq::new(
            self.layers@.len(),
            |i: int| layer_stats_item(self.layers@[i], pv[i].0, pv[i].1),
        );
        let mut items: Vec<AnalysisItem> = Vec::new();
        let mut i: usize = 0;
        while i < self.layers.len()
            invariant
                i <= self.layers@.len(),
                percents@.len() == self.layers@.len(),
                pv == percents@.map_values(|p: (String, String)| (p.0@, p.1@)),
                want == Seq::new(
                    self.layers@.len(),
                    |i: int| layer_stats_item(self.layers@[i], pv[i].0, pv[i].1),
                ),
                items@.len() == i,
                forall|j: int| 0 <= j < i ==> (#[trigger] items@[j]).label@ == want[j].0 && items@[j].value@
                    == want[j].1,
            decreases self.layers@.len() - i,
        {
            let st = &self.layers[i];
            let mut label = str_to_chars("#");
            push_count(&mut label, st.index);
            push_text(&mut label, ": ");
            append_chars(&mut label, &string_chars(&st.command));
            let mut v = str_to_chars("raw=");
            push_size(&mut v, st.raw_size);
            push_text(&mut v, " unique=");
            push_size(&mut v, st.unique_size);
            push_text(&mut v, " wasted=");
            push_size(&mut v, st.wasted_size);
            push_text(&mut v, " files=");
            push_count(&mut v, st.file_count);
            push_text(&mut v, " dirs=");
            push_count(&mut v, st.dir_count);
            push_text(&mut v, " wh=");
            push_count(&mut v, st.whiteout_count);
            push_text(&mut v, " ");
            push_text(&mut v, percents[i].0.as_str());
            push_text(&mut v, "% of image (");
            push_text(&mut v, percents[i].1.as_str());
            push_text(&mut v, "% cumulative)");
            proof {
                assert(pv[i as int] == (percents@[i as int].0@, percents@[i as int].1@));
                assert(label@ =~= want[i as int].0);
                assert(v@ =~= want[i as int].1);
            }
            items.push(AnalysisItem { label: vec_to_string(&label), value: vec_to_string(&v) });
            i = i + 1;
        }
        let r = vec![section("Per-layer metrics", items)];
        proof {
            assert(items@.map_values(|it: AnalysisItem| (it.label@, it.value@)) =~= want);
            assert(sections_view(r@) =~= seq![section_view(r@[0])]);
        }
        r
    }
}


/// The cumulative unique bytes never shrink from one layer to the next, and
/// each layer's unique bytes are part of its cumulative bytes.
pub proof fn law_cumulative_unique_grows(layers: Seq<Layer>, i: int, j: int)
    requires
        0 <= i <= j <= layer_tallies(layers).len(),
    ensures
        0 <= unique_upto(layer_tallies(layers), i) <= unique_upto(layer_tallies(layers), j),
        i > 0 ==> 0 <= layer_tallies(layers)[i - 1].unique <= unique_upto(layer_tallies(layers), i),
{
    lemma_tallies_nonneg(layers, layers.len() as int);
    lemma_unique_upto_mono(layer_tallies(layers), i, j);
    if i > 0 {
        lemma_unique_upto_mono(layer_tallies(layers), i - 1, i);
    }
}


/// A whiteout counts what it removes from the layers below: where it
/// removes a directory, the layer's whiteout bytes are at least the total
/// size of everything at or below that directory in the stacked lower
/// layers; where it removes a file, at least that file's size.
pub proof fn law_whiteout_counts_what_it_removes(layers: Seq<Layer>, li: int, q: PathKey)
    requires
        layers_wf(layers),
        0 <= li < layers.len(),
        is_leaf(layers[li].tree.nodes(), q),
        layers[li].tree.nodes()[q].info.entry_type != TarEntryType::Directory,
        is_whiteout_key(q),
        join_path(whiteout_target(q)).len() > 0,
        lookup(prior_root(layers, li), prior_map(layers, li), join_path(whiteout_target(q))) is Some,
    ensures
        ({
            let n = lookup(prior_root(layers, li), prior_map(layers, li), join_path(whiteout_target(q)))->Some_0;
            layer_tallies(layers)[li].whiteout_bytes >= if n.info.entry_type == TarEntryType::Directory {
                map_subtree(prior_map(layers, li), subtree_key(join_path(whiteout_target(q))))
            } else {
                n.info.size as int
            }
        }),
{
    let l = layers[li];
    let m = l.tree.nodes();
    let ks = l.tree.ordered_keys();
    let proot = prior_root(layers, li);
    let prior = prior_map(layers, li);
    let st0 = StatsScan { seen: stats_upto(layers, li).0, tally: zero_tally() };
    l.tree.lemma_wf_facts();
    assert(ks.contains(q));
    let j = choose|j: int| 0 <= j < ks.len() && ks[j] == q;
    lemma_stats_upto_prefix(layers, li + 1, layers.len() as int);
    assert(layer_tallies(layers)[li] == stats_upto(layers, li + 1).1[li]);
    assert(stats_upto(layers, li + 1).1[li] == layer_scan(st0.seen, layers, li).tally);
    let before = stats_keys(st0, m, ks.take(j), proot, prior);
    assert(ks.take(j + 1).drop_last() =~= ks.take(j));
    assert(ks.take(j + 1).last() == q);
    let after = stats_keys(st0, m, ks.take(j + 1), proot, prior);
    assert(after == stats_step(before, m, q, proot, prior));
    lemma_stats_keys_mono(st0, m, ks.take(j + 1), proot, prior, j);
    assert(ks.take(j + 1).take(j) =~= ks.take(j));
    lemma_stats_keys_mono(st0, m, ks, proot, prior, j + 1);
    assert(before.tally.whiteout_bytes >= 0);
}

} // verus!

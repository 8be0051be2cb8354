//! Diff-marked trees for ranges of layers, computed once and cached.
//!
//! A key `(bottom_start, bottom_stop, top_start, top_stop)` compares the lower
//! range of layers with the upper one: the lower range is stacked, the upper
//! range laid over it, and the result marked against the lower range (or, when
//! both ranges are the same, against an empty tree, so everything is added).
use vstd::prelude::*;
use crate::filetree::{
    DiffType, FileTree, NodeView, compare_map, default_info, fresh_node, stack_map,
};
use crate::image::{Layer, layers_wf};
use crate::paths::PathKey;

verus! {

/// A cache key: bottom start and stop, top start and stop.
pub type RangeKey = (usize, usize, usize, usize);

/// The entries of each layer's tree.
pub open spec fn layer_maps(layers: Seq<Layer>) -> Seq<Map<PathKey, NodeView>> {
    layers.map_values(|l: Layer| l.tree.nodes())
}

/// Trees laid over one another, first at the bottom.
pub open spec fn stack_seq(ms: Seq<Map<PathKey, NodeView>>) -> Map<PathKey, NodeView>
    decreases ms.len(),
{
    if ms.len() == 0 {
        Map::empty()
    } else if ms.len() == 1 {
        ms[0]
    } else {
        stack_map(stack_seq(ms.drop_last()), ms.last())
    }
}

/// The entries of layers `start..=stop` stacked (none when `start > stop`).
pub open spec fn range_map(layers: Seq<Layer>, start: int, stop: int) -> Map<PathKey, NodeView> {
    if start > stop {
        Map::empty()
    } else {
        stack_seq(layer_maps(layers).subrange(start, stop + 1))
    }
}

/// The root of the stacked range: that of its first layer, or a fresh root.
pub open spec fn range_root(layers: Seq<Layer>, start: int, stop: int) -> NodeView {
    if start > stop {
        fresh_node(seq!['/'], default_info())
    } else {
        layers[start].tree.root_view()
    }
}

/// A range that can be stacked: empty, or ending inside the layer list.
pub open spec fn range_ok(n: int, start: int, stop: int) -> bool {
    start > stop || stop < n
}

/// Both ranges of a key can be stacked.
pub open spec fn key_ok(n: int, key: RangeKey) -> bool {
    range_ok(n, key.0 as int, key.1 as int) && range_ok(n, key.2 as int, key.3 as int)
}

/// The diff-marked tree for a key.
pub open spec fn merged_map(layers: Seq<Layer>, key: RangeKey) -> Map<PathKey, NodeView> {
    let lower = range_map(layers, key.0 as int, key.1 as int);
    let upper = range_map(layers, key.2 as int, key.3 as int);
    let merged = stack_map(lower, upper);
    if key.0 == key.2 && key.1 == key.3 {
        compare_map(merged, Map::empty())
    } else {
        compare_map(merged, lower)
    }
}

/// Layer `i` against everything before it (layer 0 against nothing).
pub open spec fn natural_key(i: int) -> RangeKey {
    if i == 0 {
        (0, 0, 0, 0)
    } else {
        (0, (i - 1) as usize, i as usize, i as usize)
    }
}

/// Layers `0..=i` against layer 0.
pub open spec fn aggregated_key(i: int) -> RangeKey {
    (0, 0, 0, i as usize)
}

struct CacheEntry {
    key: RangeKey,
    tree: FileTree,
}

/// Pre-computes and caches diff-marked file trees for layer ranges.
pub struct Comparer {
    layers: Vec<Layer>,
    cache: Vec<CacheEntry>,
}

impl Comparer {
    /// The layers compared.
    pub closed spec fn layers_view(&self) -> Seq<Layer> {
        self.layers@
    }

    /// The keys whose trees are cached.
    pub closed spec fn cached_keys(&self) -> Seq<RangeKey> {
        self.cache@.map_values(|e: CacheEntry| e.key)
    }

    /// Layers well formed; every cached tree is the tree of its key.
    pub closed spec fn wf(&self) -> bool {
        &&& layers_wf(self.layers@)
        &&& forall|i: int|
            0 <= i < self.cache@.len() ==> {
                let e = #[trigger] self.cache@[i];
                &&& key_ok(self.layers@.len() as int, e.key)
                &&& e.tree.wf()
                &&& e.tree.nodes() == merged_map(self.layers@, e.key)
                &&& e.tree.root_view() == range_root(self.layers@, e.key.0 as int, e.key.1 as int)
            }
    }

    pub fn new(layers: Vec<Layer>) -> (r: Self)
        requires
            layers_wf(layers@),
        ensures
            r.wf(),
            r.layers_view() == layers@,
            r.cached_keys().len() == 0,
    {
        Comparer { layers, cache: Vec::new() }
    }

    /// Number of layers available to the comparer.
    pub fn layer_count(&self) -> (r: usize)
        ensures
            r == self.layers_view().len(),
    {
        self.layers.len()
    }

    /// Natural indexes: each layer against all the layers before it.
    pub fn natural_indexes(&self) -> (r: Vec<RangeKey>)
        ensures
            r@.len() == self.layers_view().len(),
            forall|i: int| 0 <= i < r@.len() ==> #[trigger] r@[i] == natural_key(i),
    {
        let mut indexes: Vec<RangeKey> = Vec::new();
        let n = self.layers.len();
        let mut i: usize = 0;
        while i < n
            invariant
                n == self.layers_view().len(),
                i <= n,
                indexes@.len() == i,
                forall|j: int| 0 <= j < i ==> #[trigger] indexes@[j] == natural_key(j),
            decreases n - i,
        {
            if i == 0 {
                indexes.push((0, 0, 0, 0));
            } else {
                indexes.push((0, i - 1, i, i));
            }
            i = i + 1;
        }
        indexes
    }

    /// Aggregated indexes: everything up to each layer against the base layer.
    pub fn aggregated_indexes(&self) -> (r: Vec<RangeKey>)
        ensures
            r@.len() == self.layers_view().len(),
            forall|i: int| 0 <= i < r@.len() ==> #[trigger] r@[i] == aggregated_key(i),
    {
        let mut indexes: Vec<RangeKey> = Vec::new();
        let n = self.layers.len();
        let mut i: usize = 0;
        while i < n
            invariant
                n == self.layers_view().len(),
                i <= n,
                indexes@.len() == i,
                forall|j: int| 0 <= j < i ==> #[trigger] indexes@[j] == aggregated_key(j),
            decreases n - i,
        {
            indexes.push((0, 0, 0, i));
            i = i + 1;
        }
        indexes
    }

    /// Whether the tree for `key` is cached.
    pub fn is_cached(&self, key: RangeKey) -> (r: bool)
        ensures
            r == self.cached_keys().contains(key),
    {
        match self.cache_position(key) {
            Some(i) => {
                assert(self.cached_keys()[i as int] == key);
                true
            },
            None => false,
        }
    }

    fn cache_position(&self, key: RangeKey) -> (r: Option<usize>)
        ensures
            match r {
                Some(i) => i < self.cache@.len() && self.cache@[i as int].key == key,
                None => !self.cached_keys().contains(key),
            },
    {
        let mut i: usize = 0;
        while i < self.cache.len()
            invariant
                i <= self.cache@.len(),
                forall|j: int| 0 <= j < i ==> self.cache@[j].key != key,
            decreases self.cache@.len() - i,
        {
            let k = self.cache[i].key;
            if k.0 == key.0 && k.1 == key.1 && k.2 == key.2 && k.3 == key.3 {
                return Some(i);
            }
            i = i + 1;
        }
        proof {
            if self.cached_keys().contains(key) {
                let j = choose|j: int| 0 <= j < self.cached_keys().len() && self.cached_keys()[j] == key;
                assert(self.cache@[j].key == key);
            }
        }
        None
    }

    /// The diff-marked tree for the given layer ranges, computed and cached if needed.
    pub fn get_tree(
        &mut self,
        bottom_start: usize,
        bottom_stop: usize,
        top_start: usize,
        top_stop: usize,
    ) -> (r: &FileTree)
        requires
            old(self).wf(),
            key_ok(
                old(self).layers_view().len() as int,
                (bottom_start, bottom_stop, top_start, top_stop),
            ),
        ensures
            final(self).wf(),
            final(self).layers_view() == old(self).layers_view(),
            final(self).cached_keys().contains((bottom_start, bottom_stop, top_start, top_stop)),
            forall|k: RangeKey| old(self).cached_keys().contains(k) ==> final(self).cached_keys().contains(k),
            old(self).cached_keys().contains((bottom_start, bottom_stop, top_start, top_stop))
                ==> final(self).cached_keys() == old(self).cached_keys(),
            !old(self).cached_keys().contains((bottom_start, bottom_stop, top_start, top_stop))
                ==> final(self).cached_keys() == old(self).cached_keys().push(
                (bottom_start, bottom_stop, top_start, top_stop),
            ),
            r.wf(),
            r.nodes() == merged_map(
                old(self).layers_view(),
                (bottom_start, bottom_stop, top_start, top_stop),
            ),
            r.root_view() == range_root(old(self).layers_view(), bottom_start as int, bottom_stop as int),
    {
        let key = (bottom_start, bottom_stop, top_start, top_stop);
        let pos = match self.cache_position(key) {
            Some(i) => i,
            None => {
                let merged = self.build_merged_tree(bottom_start, bottom_stop, top_start, top_stop);
                let ghost old_keys = self.cached_keys();
                self.cache.push(CacheEntry { key, tree: merged });
                proof {
                    assert(self.cached_keys() =~= old_keys.push(key));
                    assert forall|k: RangeKey| old_keys.contains(k) implies self.cached_keys().contains(k) by {
                        let j = choose|j: int| 0 <= j < old_keys.len() && old_keys[j] == k;
                        assert(self.cached_keys()[j] == k);
                    }
                }
                self.cache.len() - 1
            },
        };
        proof {
            assert(self.cached_keys()[pos as int] == key);
        }
        &self.cache[pos].tree
    }

    /// Pre-computes and caches the trees of all natural indexes.
    pub fn build_cache(&mut self)
        requires
            old(self).wf(),
        ensures
            final(self).wf(),
            final(self).layers_view() == old(self).layers_view(),
            forall|i: int|
                0 <= i < old(self).layers_view().len() ==> final(self).cached_keys().contains(
                    #[trigger] natural_key(i),
                ),
            forall|k: RangeKey| #[trigger]
                old(self).cached_keys().contains(k) ==> final(self).cached_keys().contains(k),
            forall|k: RangeKey| #[trigger]
                final(self).cached_keys().contains(k) ==> old(self).cached_keys().contains(k) || exists|
                    i: int,
                | 0 <= i < old(self).layers_view().len() && k == #[trigger] natural_key(i),
    {
        let indexes = self.natural_indexes();
        let n = indexes.len();
        let mut i: usize = 0;
        while i < n
            invariant
                self.wf(),
                self.layers_view() == old(self).layers_view(),
                n == indexes@.len(),
                n == self.layers_view().len(),
                forall|j: int| 0 <= j < n ==> #[trigger] indexes@[j] == natural_key(j),
                i <= n,
                forall|j: int| 0 <= j < i ==> self.cached_keys().contains(#[trigger] natural_key(j)),
                forall|k: RangeKey| #[trigger]
                    old(self).cached_keys().contains(k) ==> self.cached_keys().contains(k),
                forall|k: RangeKey| #[trigger]
                    self.cached_keys().contains(k) ==> old(self).cached_keys().contains(k) || exists|
                        j: int,
                    | 0 <= j < n && k == #[trigger] natural_key(j),
            decreases n - i,
        {
            let (bs, bstop, ts, tstop) = indexes[i];
            assert(indexes@[i as int] == natural_key(i as int));
            let ghost before = self.cached_keys();
            self.get_tree(bs, bstop, ts, tstop);
            proof {
                assert forall|k: RangeKey| #[trigger] self.cached_keys().contains(k) implies old(
                    self,
                ).cached_keys().contains(k) || exists|j: int| 0 <= j < n && k == #[trigger] natural_key(j) by {
                    if !before.contains(k) {
                        assert(self.cached_keys() == before.push(natural_key(i as int)));
                        let m = choose|m: int| 0 <= m < self.cached_keys().len() && self.cached_keys()[m] == k;
                        if m < before.len() {
                            assert(before[m] == k);
                        }
                        assert(k == natural_key(i as int));
                    }
                }
            }
            i = i + 1;
        }
    }

    fn build_merged_tree(
        &self,
        bottom_start: usize,
        bottom_stop: usize,
        top_start: usize,
        top_stop: usize,
    ) -> (r: FileTree)
        requires
            self.wf(),
            key_ok(self.layers_view().len() as int, (bottom_start, bottom_stop, top_start, top_stop)),
        ensures
            r.wf(),
            r.nodes() == merged_map(self.layers_view(), (bottom_start, bottom_stop, top_start, top_stop)),
            r.root_view() == range_root(self.layers_view(), bottom_start as int, bottom_stop as int),
    {
        let lower = self.stack_range(bottom_start, bottom_stop);
        let upper = self.stack_range(top_start, top_stop);
        let mut merged = lower.stack(&upper);
        if bottom_start == top_start && bottom_stop == top_stop {
            let empty = FileTree::new();
            merged.compare_and_mark(&empty);
        } else {
            merged.compare_and_mark(&lower);
        }
        merged
    }

    fn stack_range(&self, start: usize, stop: usize) -> (r: FileTree)
        requires
            self.wf(),
            range_ok(self.layers_view().len() as int, start as int, stop as int),
        ensures
            r.wf(),
            r.nodes() == range_map(self.layers_view(), start as int, stop as int),
            r.root_view() == range_root(self.layers_view(), start as int, stop as int),
    {
        if start > stop {
            return FileTree::new();
        }
        let ghost ms = layer_maps(self.layers@);
        let _n = self.layers.len();
        let mut result = self.layers[start].tree.clone_tree();
        proof {
            assert(ms.subrange(start as int, start + 1) =~= seq![ms[start as int]]);
        }
        let mut i: usize = start + 1;
        while i <= stop
            invariant
                self.wf(),
                ms == layer_maps(self.layers@),
                start < i <= stop + 1,
                stop < self.layers@.len(),
                self.layers@.len() <= usize::MAX,
                result.wf(),
                result.nodes() == stack_seq(ms.subrange(start as int, i as int)),
                result.root_view() == self.layers@[start as int].tree.root_view(),
            decreases stop + 1 - i,
        {
            proof {
                assert(ms.subrange(start as int, i + 1).drop_last() =~= ms.subrange(start as int, i as int));
                assert(self.layers@[i as int].tree.wf());
            }
            result = result.stack(&self.layers[i].tree);
            i = i + 1;
        }
        result
    }
}


/// The first layer is compared against nothing: every entry of its tree is
/// marked added, in either compare mode.
pub proof fn law_first_layer_all_added(layers: Seq<Layer>, q: PathKey)
    requires
        merged_map(layers, natural_key(0)).contains_key(q),
    ensures
        aggregated_key(0) == natural_key(0),
        merged_map(layers, natural_key(0))[q].diff_type == DiffType::Added,
{
}

/// Every later layer shows the stack of layers `0..=i`, marked against the
/// stack of the layers below it.
pub proof fn law_natural_compares_with_below(layers: Seq<Layer>, i: usize)
    requires
        1 <= i < layers.len(),
    ensures
        merged_map(layers, natural_key(i as int)) == compare_map(
            range_map(layers, 0, i as int),
            range_map(layers, 0, i - 1),
        ),
{
    let lm = layer_maps(layers);
    let sub = lm.subrange(0, i + 1);
    assert(sub.drop_last() =~= lm.subrange(0, i as int));
    assert(lm.subrange(i as int, i + 1).len() == 1);
    assert(lm.subrange(i as int, i + 1)[0] == sub.last());
    assert(range_map(layers, i as int, i as int) == sub.last());
    assert(range_map(layers, 0, i as int) == stack_map(range_map(layers, 0, i - 1), sub.last()));
}


/// Two layer lists whose trees hold the same entries under the same roots.
pub open spec fn layers_match(a: Seq<Layer>, b: Seq<Layer>) -> bool {
    &&& a.len() == b.len()
    &&& forall|i: int|
        0 <= i < a.len() ==> (#[trigger] a[i]).tree.nodes() == b[i].tree.nodes() && a[i].tree.root_view()
            == b[i].tree.root_view()
}

/// Layer lists whose trees match give the same diff-marked trees.
pub proof fn lemma_layers_match_merged(a: Seq<Layer>, b: Seq<Layer>, key: RangeKey)
    requires
        layers_match(a, b),
    ensures
        merged_map(a, key) == merged_map(b, key),
        key.0 <= key.1 < a.len() ==> range_root(a, key.0 as int, key.1 as int) == range_root(
            b,
            key.0 as int,
            key.1 as int,
        ),
{
    assert(layer_maps(a) =~= layer_maps(b));
}


/// In aggregated mode a later layer shows the stack of layers `0..=i` laid
/// over the base layer, marked against the base layer.
pub proof fn law_aggregated_compares_with_base(layers: Seq<Layer>, i: usize)
    requires
        1 <= i < layers.len(),
    ensures
        merged_map(layers, aggregated_key(i as int)) == compare_map(
            stack_map(range_map(layers, 0, 0), range_map(layers, 0, i as int)),
            range_map(layers, 0, 0),
        ),
{
}

} // verus!

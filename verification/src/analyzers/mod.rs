//! Analyses of an image's layers.
pub mod shaded;
pub mod layer_stats;
pub mod efficiency;

use vstd::prelude::*;
use crate::comparer::{layer_maps, stack_seq};
use crate::filetree::{FileTree, NodeView, default_info, fresh_node};
use crate::image::{Layer, layers_wf};
use crate::paths::PathKey;

verus! {

/// The entries of the first `n` layers stacked (none when `n` is 0).
pub open spec fn prior_map(layers: Seq<Layer>, n: int) -> Map<PathKey, NodeView> {
    stack_seq(layer_maps(layers).take(n))
}

/// The root of the first `n` layers stacked: that of the bottom layer, or a
/// fresh root when there is none.
pub open spec fn prior_root(layers: Seq<Layer>, n: int) -> NodeView {
    if n == 0 {
        fresh_node(seq!['/'], default_info())
    } else {
        layers[0].tree.root_view()
    }
}

/// The first `n` layers stacked into one tree.
pub(crate) fn stack_prior(layers: &Vec<Layer>, n: usize) -> (r: FileTree)
    requires
        layers_wf(layers@),
        n <= layers@.len(),
    ensures
        r.wf(),
        r.nodes() == prior_map(layers@, n as int),
        r.root_view() == prior_root(layers@, n as int),
{
    let ghost ms = layer_maps(layers@);
    if n == 0 {
        proof {
            assert(ms.take(0) =~= Seq::<Map<PathKey, NodeView>>::empty());
        }
        return FileTree::new();
    }
    assert(layers@[0].tree.wf());
    let mut result = layers[0].tree.clone_tree();
    proof {
        assert(ms.take(1) =~= seq![ms[0]]);
    }
    let mut i: usize = 1;
    while i < n
        invariant
            layers_wf(layers@),
            ms == layer_maps(layers@),
            1 <= i <= n,
            n <= layers@.len(),
            result.wf(),
            result.nodes() == stack_seq(ms.take(i as int)),
            result.root_view() == layers@[0].tree.root_view(),
        decreases n - i,
    {
        proof {
            assert(ms.take(i + 1).drop_last() =~= ms.take(i as int));
            assert(layers@[i as int].tree.wf());
        }
        result = result.stack(&layers[i].tree);
        i = i + 1;
    }
    result
}

} // verus!

//! What building a tree promises: nodes have the asked size, and hold their keys where
//! the models lead.

use vstd::prelude::*;

use crate::build::{build_degenerate, bulk_load, inputs_of, is_fitted, share_input};
use crate::config::{Config, Ratio};
use crate::error::Result;
use crate::key::Key;
use crate::model::{ceil_div, lemma_ceil_div};
use crate::node::{Node, Slot};
use crate::rebuild::{boosted_config, try_rebuild_subtree};

verus! {

/// The size is the number of keys times the expansion factor times one and the headroom,
/// rounded up, as far as a `usize` reaches.
pub open spec fn has_asked_size(size: int, keys: int, factor: Ratio, headroom: Ratio) -> bool {
    let wanted = keys * (factor.num * (headroom.den + headroom.num));
    let scale = factor.den * headroom.den;
    &&& (size - 1) * scale < wanted
    &&& size < usize::MAX ==> wanted <= size * scale
}

/// The keys of the pairs do not all have the same model input.
pub open spec fn have_inputs_apart<K: Key, V>(pairs: Seq<(K, V)>) -> bool {
    pairs.len() > 1 && K::model_input(pairs[0].0@) != K::model_input(pairs[pairs.len() - 1].0@)
}

/// A fitted node has the asked size.
pub proof fn lemma_fitted_node<K: Key, V>(n: Node<K, V>, config: Config)
    requires
        is_fitted(n, config),
        have_inputs_apart(n.entries()),
        config.expansion_factor.wf(),
        config.range_headroom.wf(),
    ensures
        has_asked_size(
            n.slots@.len() as int,
            n.entries().len() as int,
            config.expansion_factor,
            config.range_headroom,
        ),
        n.split_key is None,
{
    let (factor, headroom) = (config.expansion_factor, config.range_headroom);
    let keys = n.entries().len() as int;
    assert(inputs_of(n.entries()).len() == keys);
    let wanted = keys * (factor.num * (headroom.den + headroom.num));
    let scale = factor.den * headroom.den;
    assert(scale > 0) by (nonlinear_arith)
        requires
            scale == factor.den * headroom.den,
            factor.den > 0,
            headroom.den > 0,
    ;
    lemma_ceil_div(wanted, scale);
    let (size, whole) = (n.slots@.len() as int, ceil_div(wanted, scale));
    assert(size <= whole);
    assert((size - 1) * scale <= (whole - 1) * scale) by (nonlinear_arith)
        requires
            size <= whole,
            scale > 0,
    ;
    assert((whole - 1) * scale == whole * scale - scale) by (nonlinear_arith);
}

/// The root of a tree that is built has the asked size, and so have its children with
/// keys apart.
pub proof fn law_built_nodes_have_the_asked_size<K: Key, V: Clone>(
    pairs: &[(K, V)],
    config: &Config,
    r: Result<Node<K, V>>,
    i: int,
)
    requires
        call_ensures(bulk_load::<K, V>, (pairs, config), r),
        have_inputs_apart(pairs@),
        config.expansion_factor.wf(),
        config.range_headroom.wf(),
    ensures
        r matches Ok(n) ==> {
            &&& has_asked_size(
                n.slots@.len() as int,
                pairs@.len() as int,
                config.expansion_factor,
                config.range_headroom,
            )
            &&& 0 <= i < n.slots@.len() ==> (n.slots@[i] matches Slot::Child { node, .. }
                ==> have_inputs_apart(node.entries()) ==> has_asked_size(
                node.slots@.len() as int,
                node.entries().len() as int,
                config.expansion_factor,
                config.range_headroom,
            ))
        },
{
    if let Ok(n) = r {
        assert(n.entries()[0].0@ == pairs@[0].0@);
        assert(n.entries()[pairs@.len() - 1].0@ == pairs@[pairs@.len() - 1].0@);
        assert(have_inputs_apart(n.entries()));
        lemma_fitted_node(n, *config);
        if 0 <= i < n.slots@.len() {
            if let Slot::Child { node, .. } = n.slots@[i] {
                assert(!share_input(n.entries()));
                assert(is_fitted(*node, *config));
                if have_inputs_apart(node.entries()) {
                    lemma_fitted_node(*node, *config);
                }
            }
        }
    }
}

/// A rebuilt subtree has the size that the settings for rebuilds ask for.
pub proof fn law_rebuilt_subtrees_have_the_asked_size<K: Key, V>(
    n: &mut Node<K, V>,
    i: usize,
    config: &Config,
    r: bool,
    boosted: Config,
)
    requires
        i < old(n).slots@.len(),
        config.wf(),
        call_ensures(try_rebuild_subtree::<K, V>, (n, i, config), r),
        call_ensures(boosted_config, (config,), boosted),
        r,
    ensures
        final(n).slots@[i as int] matches Slot::Child { node, .. } && (have_inputs_apart(
            node.entries(),
        ) ==> has_asked_size(
            node.slots@.len() as int,
            node.entries().len() as int,
            boosted.expansion_factor,
            boosted.range_headroom,
        )),
        final(n).slots@[i as int]->node.entries() == old(n).slots@[i as int]->node.entries(),
{
    let node = *final(n).slots@[i as int]->node;
    if have_inputs_apart(node.entries()) {
        lemma_fitted_node(node, boosted);
    }
}

/// Keys that models cannot tell apart are split in halves, down to single pairs.
pub proof fn law_equal_inputs_are_split_in_halves<K: Key, V>(pairs: Vec<(K, V)>, r: Node<K, V>)
    requires
        pairs@.len() > 0,
        call_ensures(build_degenerate::<K, V>, (pairs,), r),
    ensures
        pairs@.len() == 1 ==> r.slots@.len() == 1,
        pairs@.len() > 1 ==> {
            let half = (pairs@.len() / 2) as int;
            &&& r.slots@.len() == 2
            &&& r.slots@[0].entries() == pairs@.take(half)
            &&& r.slots@[1].entries() == pairs@.skip(half)
        },
        r.entries() == pairs@,
{
}

} // verus!

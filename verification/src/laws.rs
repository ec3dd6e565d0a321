//! Properties the library guarantees, stated and proved in one place.

use vstd::prelude::*;

use crate::selector::{CompoundModel, Scope, SelectorModel};
use crate::tree::{
    asc_indices, dedup, descendants, expand, expand_one, filtered, first_match,
    lemma_dedup_asc, lemma_expand_singleton, lemma_filtered_asc, lemma_filtered_membership,
    lemma_preordered_descendants, lemma_preordered_parent_child, preordered, query_result,
    run_query, stage, subtree, Node,
};

verus! {

/// The size of a subtree exceeds the number of proper descendants of its
/// root by exactly one: the root itself.  For a document this means that
/// the element count (the synthetic root excluded) is the number of real
/// elements in the tree.
pub proof fn lemma_subtree_size_counts(n: Node)
    ensures
        subtree(n).len() == 1 + descendants(n).len(),
{
}

/// In a pre-order indexed tree the traversal indices strictly increase in
/// depth-first document order, and every element's index is strictly
/// smaller than the index of each of its children, wherever in the tree
/// the element stands.
pub proof fn lemma_traversal_indices(n: Node)
    requires
        preordered(n),
    ensures
        asc_indices(subtree(n)),
        forall|pi: int, ci: int|
            0 <= pi < subtree(n).len() && 0 <= ci < subtree(n)[pi].children.len() ==> (
            #[trigger] subtree(n)[pi]).index < (#[trigger] subtree(n)[pi].children[ci]).index,
{
    lemma_preordered_parent_child(n);
}

/// Selecting by tag name over a pre-order indexed tree returns exactly
/// the elements of that tag among the proper descendants, in document
/// order, each at most once however deeply the matches nest: the index
/// watermark drops nothing from an index-ascending sequence, so the
/// result is the plain filter of the depth-first order.
pub proof fn lemma_select_all_tag(root: Node, t: Seq<char>)
    requires
        preordered(root),
        0 <= root.index,
    ensures
        ({
            let c = CompoundModel { scope: Scope::IndirectChild, parts: seq![SelectorModel::Tag(t)] };
            query_result(root, seq![c]) == filtered(descendants(root), c) && asc_indices(
                query_result(root, seq![c]),
            )
        }),
{
    let c = CompoundModel { scope: Scope::IndirectChild, parts: seq![SelectorModel::Tag(t)] };
    lemma_expand_singleton(root, Scope::IndirectChild);
    assert(expand(seq![root], c.scope) == descendants(root));
    lemma_preordered_descendants(root);
    lemma_filtered_asc(descendants(root), c);
    lemma_filtered_membership(descendants(root), c);
    let f = filtered(descendants(root), c);
    assert forall|k: int| 0 <= k < f.len() implies (#[trigger] f[k]).index > -1 by {
        let i = choose|i: int| 0 <= i < descendants(root).len() && f[k] == descendants(root)[i];
        assert(descendants(root)[i].index == root.index + 1 + i);
    }
    lemma_dedup_asc(f, -1);
    assert(stage(seq![root], c) == f);
    assert(seq![c][0] == c);
    assert(seq![c].skip(1) =~= Seq::<CompoundModel>::empty());
    assert(run_query(seq![root], seq![c]) == run_query(stage(seq![root], c), Seq::<
        CompoundModel,
    >::empty()));
    assert(run_query(stage(seq![root], c), Seq::<CompoundModel>::empty()) == stage(seq![root], c));
}

/// A query has no first match exactly when it has no matches at all: the
/// single-result select reports its absence of a match precisely when the
/// full select returns the empty sequence.
pub proof fn lemma_no_match_iff_empty(root: Node, cs: Seq<CompoundModel>)
    ensures
        (first_match(root, cs) is None) <==> query_result(root, cs).len() == 0,
{
}

} // verus!

//! Mathematical model of the DOM tree.
//!
//! An element is modelled by a [`Node`]: its traversal index, tag name,
//! attribute map, text, and the sequence of its child nodes.  The functions
//! here define the depth-first document order of a tree ([`subtree`],
//! [`descendants_of`]) and the well-formedness of the traversal indices
//! ([`preordered`]): the element at position `k` of a subtree carries index
//! `base + k`, so indices strictly increase in depth-first document order.

use vstd::prelude::*;

use crate::selector::{CompoundModel, Scope, SelectorModel};

verus! {

/// Model of one element of the DOM tree.
pub struct Node {
    /// Traversal index, assigned when the element is opened during
    /// construction; the synthetic root carries 0.
    pub index: int,
    /// Tag name.
    pub tag: Seq<char>,
    /// Attribute map; for a repeated attribute name the last value wins.
    pub attrs: Map<Seq<char>, Seq<char>>,
    /// Concatenation, in document order, of the character data that occurred
    /// while this element was the innermost open element.
    pub text: Seq<char>,
    /// Child nodes, in document order.
    pub children: Seq<Node>,
}

/// The subtree of `n` in depth-first document order: `n` itself, then the
/// subtrees of its children, left to right.
pub open spec fn subtree(n: Node) -> Seq<Node>
    decreases n,
{
    seq![n] + descendants_of(n.children)
}

/// All nodes of the subtrees of `cs`, in depth-first document order.
pub open spec fn descendants_of(cs: Seq<Node>) -> Seq<Node>
    decreases cs,
{
    if cs.len() == 0 {
        Seq::empty()
    } else {
        descendants_of(cs.drop_last()) + subtree(cs.last())
    }
}

/// The proper descendants of `n` in depth-first document order.
pub open spec fn descendants(n: Node) -> Seq<Node> {
    descendants_of(n.children)
}

/// Traversal indices are assigned contiguously in depth-first document
/// order: the node at position `k` of the subtree of `n` carries index
/// `n.index + k`.  This is the invariant the tree builder establishes.
pub open spec fn preordered(n: Node) -> bool {
    forall|k: int|
        0 <= k < subtree(n).len() ==> (#[trigger] subtree(n)[k]).index == n.index + k
}

/// The synthetic root that construction wraps around the document's real
/// root element: index 0, the reserved sentinel tag (no ordinary tag
/// selector can name it, since `[` and `]` are not tag-name characters),
/// and the real root as its single child.
pub open spec fn root_node(child: Node) -> Node {
    Node {
        index: 0,
        tag: "[root]"@,
        attrs: Map::empty(),
        text: Seq::empty(),
        children: seq![child],
    }
}

/// The attribute map described by a sequence of name/value pairs; a later
/// pair with the same name wins.
pub open spec fn attrs_map(pairs: Seq<(Seq<char>, Seq<char>)>) -> Map<Seq<char>, Seq<char>>
    decreases pairs.len(),
{
    if pairs.len() == 0 {
        Map::empty()
    } else {
        attrs_map(pairs.drop_last()).insert(pairs.last().0, pairs.last().1)
    }
}

/// If the pair at `j` is the last one carrying its name, the attribute map
/// holds its value under that name.
pub proof fn lemma_attrs_map_found(pairs: Seq<(Seq<char>, Seq<char>)>, j: int)
    requires
        0 <= j < pairs.len(),
        forall|l: int| j < l < pairs.len() ==> (#[trigger] pairs[l]).0 != pairs[j].0,
    ensures
        attrs_map(pairs).contains_key(pairs[j].0),
        attrs_map(pairs)[pairs[j].0] == pairs[j].1,
    decreases pairs.len(),
{
    if j < pairs.len() - 1 {
        lemma_attrs_map_found(pairs.drop_last(), j);
    }
}

/// A name that no pair carries is not in the attribute map.
pub proof fn lemma_attrs_map_absent(pairs: Seq<(Seq<char>, Seq<char>)>, name: Seq<char>)
    requires
        forall|l: int| 0 <= l < pairs.len() ==> (#[trigger] pairs[l]).0 != name,
    ensures
        !attrs_map(pairs).contains_key(name),
    decreases pairs.len(),
{
    if pairs.len() > 0 {
        lemma_attrs_map_absent(pairs.drop_last(), name);
    }
}

/// True if the node matches the simple selector: its tag name, its `id`
/// attribute, or the named attribute equals the written value.
pub open spec fn simple_matches(n: Node, s: SelectorModel) -> bool {
    match s {
        SelectorModel::Tag(t) => n.tag == t,
        SelectorModel::Id(id) => n.attrs.contains_key("id"@) && n.attrs["id"@] == id,
        SelectorModel::Attr(a, v) => n.attrs.contains_key(a) && n.attrs[a] == v,
    }
}

/// True if the node matches every simple selector of the compound selector.
pub open spec fn compound_matches(n: Node, c: CompoundModel) -> bool {
    forall|k: int| 0 <= k < c.parts.len() ==> simple_matches(n, #[trigger] c.parts[k])
}

/// What one node expands to in a query stage: its direct children, or all
/// its proper descendants in depth-first document order.
pub open spec fn expand_one(n: Node, scope: Scope) -> Seq<Node> {
    match scope {
        Scope::DirectChild => n.children,
        Scope::IndirectChild => descendants(n),
    }
}

/// The expansions of all nodes of `s`, concatenated in order.
pub open spec fn expand(s: Seq<Node>, scope: Scope) -> Seq<Node>
    decreases s.len(),
{
    if s.len() == 0 {
        Seq::empty()
    } else {
        expand(s.drop_last(), scope) + expand_one(s.last(), scope)
    }
}

/// The nodes of `s` that match the compound selector, in order.
pub open spec fn filtered(s: Seq<Node>, c: CompoundModel) -> Seq<Node>
    decreases s.len(),
{
    if s.len() == 0 {
        Seq::empty()
    } else {
        let rest = filtered(s.drop_last(), c);
        if compound_matches(s.last(), c) {
            rest.push(s.last())
        } else {
            rest
        }
    }
}

/// Deduplication by index watermark: a node is kept only if its traversal
/// index is strictly greater than `latest`, the highest index kept so far.
pub open spec fn dedup(s: Seq<Node>, latest: int) -> Seq<Node>
    decreases s.len(),
{
    if s.len() == 0 {
        Seq::empty()
    } else if s[0].index > latest {
        seq![s[0]] + dedup(s.skip(1), s[0].index)
    } else {
        dedup(s.skip(1), latest)
    }
}

/// One stage of the staged traversal: expand every node of `s` by the
/// selector's scope, keep the matching nodes, and drop repeats by the
/// index watermark.
pub open spec fn stage(s: Seq<Node>, c: CompoundModel) -> Seq<Node> {
    dedup(filtered(expand(s, c.scope), c), -1)
}

/// The staged traversal: one stage per compound selector, in order.
pub open spec fn run_query(s: Seq<Node>, cs: Seq<CompoundModel>) -> Seq<Node>
    decreases cs.len(),
{
    if cs.len() == 0 {
        s
    } else {
        run_query(stage(s, cs[0]), cs.skip(1))
    }
}

/// What a query on the element `root` returns: the staged traversal seeded
/// with `root` alone.
pub open spec fn query_result(root: Node, cs: Seq<CompoundModel>) -> Seq<Node> {
    run_query(seq![root], cs)
}

/// A stage applied to the result of earlier stages is one longer staged
/// traversal.
pub proof fn lemma_run_query_push(s: Seq<Node>, cs: Seq<CompoundModel>, c: CompoundModel)
    ensures
        run_query(s, cs.push(c)) == stage(run_query(s, cs), c),
    decreases cs.len(),
{
    if cs.len() == 0 {
        assert(cs.push(c)[0] == c);
        assert(cs.push(c).skip(1) =~= Seq::<CompoundModel>::empty());
        assert(run_query(s, cs.push(c)) == run_query(stage(s, c), Seq::<CompoundModel>::empty()));
        assert(run_query(stage(s, c), Seq::<CompoundModel>::empty()) == stage(s, c));
        assert(run_query(s, cs) == s);
    } else {
        assert(cs.push(c)[0] == cs[0]);
        assert(cs.push(c).skip(1) =~= cs.skip(1).push(c));
        assert(run_query(s, cs.push(c)) == run_query(stage(s, cs[0]), cs.skip(1).push(c)));
        lemma_run_query_push(stage(s, cs[0]), cs.skip(1), c);
        assert(run_query(s, cs) == run_query(stage(s, cs[0]), cs.skip(1)));
    }
}

/// Appending one child extends the depth-first order by that child's
/// subtree.
pub proof fn lemma_descendants_take_succ(cs: Seq<Node>, i: int)
    requires
        0 <= i < cs.len(),
    ensures
        descendants_of(cs.take(i + 1)) == descendants_of(cs.take(i)) + subtree(cs[i]),
{
    assert(cs.take(i + 1).drop_last() =~= cs.take(i));
    assert(cs.take(i + 1).last() == cs[i]);
}

/// The depth-first order of a prefix of the children is no longer than
/// that of all of them.
pub proof fn lemma_descendants_take_len(cs: Seq<Node>, i: int)
    requires
        0 <= i <= cs.len(),
    ensures
        descendants_of(cs.take(i)).len() <= descendants_of(cs).len(),
    decreases cs.len() - i,
{
    if i < cs.len() {
        lemma_descendants_take_succ(cs, i);
        lemma_descendants_take_len(cs, i + 1);
    } else {
        assert(cs.take(i) =~= cs);
    }
}

/// The first match of a query, if it has any match at all.
pub open spec fn first_match(root: Node, cs: Seq<CompoundModel>) -> Option<Node> {
    if query_result(root, cs).len() == 0 {
        None
    } else {
        Some(query_result(root, cs)[0])
    }
}

/// Traversal indices strictly increase along the sequence.
pub open spec fn asc_indices(s: Seq<Node>) -> bool {
    forall|i: int, j: int|
        0 <= i < j < s.len() ==> (#[trigger] s[i]).index < (#[trigger] s[j]).index
}

/// Depth-first document order distributes over concatenation of children.
pub proof fn lemma_descendants_concat(a: Seq<Node>, b: Seq<Node>)
    ensures
        descendants_of(a + b) == descendants_of(a) + descendants_of(b),
    decreases b.len(),
{
    if b.len() == 0 {
        assert(a + b =~= a);
        assert(descendants_of(b) == Seq::<Node>::empty());
        assert(descendants_of(a) + descendants_of(b) =~= descendants_of(a));
    } else {
        assert((a + b).drop_last() =~= a + b.drop_last());
        assert((a + b).last() == b.last());
        lemma_descendants_concat(a, b.drop_last());
        assert(descendants_of(a + b) == descendants_of(a) + descendants_of(b.drop_last())
            + subtree(b.last()));
        assert(descendants_of(a) + descendants_of(b.drop_last()) + subtree(b.last())
            =~= descendants_of(a) + (descendants_of(b.drop_last()) + subtree(b.last())));
    }
}

/// A single child's subtree is its own depth-first order.
pub proof fn lemma_descendants_singleton(n: Node)
    ensures
        descendants_of(seq![n]) == subtree(n),
{
    assert(seq![n].drop_last() =~= Seq::<Node>::empty());
    assert(seq![n].last() == n);
    assert(descendants_of(Seq::<Node>::empty()) == Seq::<Node>::empty());
    assert(descendants_of(seq![n]) == descendants_of(Seq::<Node>::empty()) + subtree(n));
    assert(descendants_of(Seq::<Node>::empty()) + subtree(n) =~= subtree(n));
}

/// The depth-first order of `cs` splits around any one child's subtree.
pub proof fn lemma_descendants_split(cs: Seq<Node>, i: int)
    requires
        0 <= i < cs.len(),
    ensures
        descendants_of(cs) == descendants_of(cs.take(i)) + subtree(cs[i]) + descendants_of(
            cs.skip(i + 1),
        ),
{
    assert(cs =~= (cs.take(i) + seq![cs[i]]) + cs.skip(i + 1));
    lemma_descendants_concat(cs.take(i) + seq![cs[i]], cs.skip(i + 1));
    lemma_descendants_concat(cs.take(i), seq![cs[i]]);
    lemma_descendants_singleton(cs[i]);
    assert(descendants_of(cs.take(i)) + subtree(cs[i]) + descendants_of(cs.skip(i + 1))
        =~= (descendants_of(cs.take(i)) + subtree(cs[i])) + descendants_of(cs.skip(i + 1)));
}

/// In a pre-order indexed tree every child is pre-order indexed too, and
/// its index exceeds its parent's.
pub proof fn lemma_preordered_child(n: Node, i: int)
    requires
        preordered(n),
        0 <= i < n.children.len(),
    ensures
        preordered(n.children[i]),
        n.children[i].index == n.index + 1 + descendants_of(n.children.take(i)).len(),
{
    let c = n.children[i];
    lemma_descendants_split(n.children, i);
    let front = descendants_of(n.children.take(i));
    let back = descendants_of(n.children.skip(i + 1));
    let off = 1 + front.len();
    let lhs = seq![n] + front;
    assert(lhs.len() == off);
    assert(subtree(n) =~= lhs + subtree(c) + back);
    assert forall|k: int| 0 <= k < subtree(c).len() implies subtree(n)[off + k] == #[trigger] subtree(
        c,
    )[k] by {
        assert((lhs + subtree(c))[off + k] == subtree(c)[k]);
        assert((lhs + subtree(c) + back)[off + k] == (lhs + subtree(c))[off + k]);
    }
    assert(c == subtree(c)[0]);
    assert(c.index == n.index + off);
    assert forall|k: int| 0 <= k < subtree(c).len() implies (#[trigger] subtree(c)[k]).index
        == c.index + k by {
        assert(subtree(n)[off + k] == subtree(c)[k]);
        assert(subtree(n)[off + k].index == n.index + off + k);
    }
}

/// Every position of the depth-first order of `cs` lies within the
/// subtree of one of the children.
pub proof fn lemma_descendants_position(cs: Seq<Node>, k: int)
    requires
        0 <= k < descendants_of(cs).len(),
    ensures
        exists|i: int, j: int|
            0 <= i < cs.len() && 0 <= j < subtree(cs[i]).len() && descendants_of(cs)[k]
                == #[trigger] subtree(cs[i])[j],
    decreases cs.len(),
{
    let front = descendants_of(cs.drop_last());
    if k < front.len() {
        lemma_descendants_position(cs.drop_last(), k);
        let (i, j): (int, int) = choose|i: int, j: int|
            0 <= i < cs.drop_last().len() && 0 <= j < subtree(cs.drop_last()[i]).len() && front[k]
                == #[trigger] subtree(cs.drop_last()[i])[j];
        assert(cs.drop_last()[i] == cs[i]);
        assert(descendants_of(cs)[k] == front[k]);
        assert(descendants_of(cs)[k] == subtree(cs[i])[j]);
    } else {
        let i = cs.len() - 1;
        let j = k - front.len();
        assert(cs.last() == cs[i]);
        assert(descendants_of(cs)[k] == subtree(cs[i])[j]);
    }
}

/// In a pre-order indexed tree, every element's index is strictly below
/// the indices of all its children, wherever the element stands.
pub proof fn lemma_preordered_parent_child(n: Node)
    requires
        preordered(n),
    ensures
        forall|pi: int, ci: int|
            0 <= pi < subtree(n).len() && 0 <= ci < subtree(n)[pi].children.len() ==> (
            #[trigger] subtree(n)[pi]).index < (#[trigger] subtree(n)[pi].children[ci]).index,
    decreases n,
{
    assert forall|pi: int, ci: int|
        0 <= pi < subtree(n).len() && 0 <= ci < subtree(n)[pi].children.len() implies (
    #[trigger] subtree(n)[pi]).index < (#[trigger] subtree(n)[pi].children[ci]).index by {
        if pi == 0 {
            assert(subtree(n)[0] == n);
            lemma_preordered_child(n, ci);
        } else {
            assert(subtree(n)[pi] == descendants_of(n.children)[pi - 1]);
            lemma_descendants_position(n.children, pi - 1);
            let (i, j): (int, int) = choose|i: int, j: int|
                0 <= i < n.children.len() && 0 <= j < subtree(n.children[i]).len()
                    && descendants_of(n.children)[pi - 1] == #[trigger] subtree(n.children[i])[j];
            lemma_preordered_child(n, i);
            lemma_preordered_parent_child(n.children[i]);
            assert(subtree(n.children[i])[j] == subtree(n)[pi]);
        }
    }
}

/// Expanding a single seed by descendant scope is exactly its proper
/// descendants in depth-first order.
pub proof fn lemma_expand_singleton(n: Node, scope: Scope)
    ensures
        expand(seq![n], scope) == expand_one(n, scope),
{
    assert(seq![n].drop_last() =~= Seq::<Node>::empty());
    assert(seq![n].last() == n);
    assert(expand(Seq::<Node>::empty(), scope) == Seq::<Node>::empty());
    assert(expand(seq![n], scope) == expand(Seq::<Node>::empty(), scope) + expand_one(n, scope));
    assert(Seq::<Node>::empty() + expand_one(n, scope) =~= expand_one(n, scope));
}

/// Every node the filter keeps stood in the sequence it filtered.
pub proof fn lemma_filtered_membership(s: Seq<Node>, c: CompoundModel)
    ensures
        forall|k: int|
            0 <= k < filtered(s, c).len() ==> exists|i: int|
                0 <= i < s.len() && #[trigger] filtered(s, c)[k] == s[i],
    decreases s.len(),
{
    if s.len() > 0 {
        lemma_filtered_membership(s.drop_last(), c);
        let front = filtered(s.drop_last(), c);
        assert forall|k: int| 0 <= k < filtered(s, c).len() implies exists|i: int|
            0 <= i < s.len() && #[trigger] filtered(s, c)[k] == s[i] by {
            if k < front.len() {
                let i = choose|i: int| 0 <= i < s.drop_last().len() && front[k] == s.drop_last()[i];
                assert(filtered(s, c)[k] == front[k]);
                assert(filtered(s, c)[k] == s[i]);
            } else {
                assert(filtered(s, c)[k] == s.last());
                assert(filtered(s, c)[k] == s[s.len() - 1]);
            }
        }
    }
}

/// Filtering keeps the strict ascent of traversal indices.
pub proof fn lemma_filtered_asc(s: Seq<Node>, c: CompoundModel)
    requires
        asc_indices(s),
    ensures
        asc_indices(filtered(s, c)),
    decreases s.len(),
{
    if s.len() > 0 {
        assert(asc_indices(s.drop_last())) by {
            assert(forall|i: int|
                0 <= i < s.drop_last().len() ==> #[trigger] s.drop_last()[i] == s[i]);
        }
        lemma_filtered_asc(s.drop_last(), c);
        lemma_filtered_membership(s.drop_last(), c);
        let front = filtered(s.drop_last(), c);
        if compound_matches(s.last(), c) {
            assert forall|i: int, j: int|
                0 <= i < j < filtered(s, c).len() implies (#[trigger] filtered(s, c)[i]).index < (
            #[trigger] filtered(s, c)[j]).index by {
                if j < front.len() {
                    assert(filtered(s, c)[i] == front[i]);
                    assert(filtered(s, c)[j] == front[j]);
                } else {
                    assert(filtered(s, c)[j] == s.last());
                    assert(filtered(s, c)[i] == front[i]);
                    let m = choose|m: int| 0 <= m < s.drop_last().len() && front[i] == s.drop_last()[m];
                    assert(s.drop_last()[m] == s[m]);
                    assert(s[m].index < s[s.len() - 1].index);
                }
            }
        }
    }
}

/// The index watermark drops nothing from a sequence whose indices
/// strictly ascend above the watermark.
pub proof fn lemma_dedup_asc(s: Seq<Node>, w: int)
    requires
        asc_indices(s),
        forall|k: int| 0 <= k < s.len() ==> (#[trigger] s[k]).index > w,
    ensures
        dedup(s, w) == s,
    decreases s.len(),
{
    if s.len() > 0 {
        assert(s[0].index > w);
        assert(asc_indices(s.skip(1))) by {
            assert(forall|i: int| 0 <= i < s.skip(1).len() ==> #[trigger] s.skip(1)[i] == s[i + 1]);
        }
        assert(forall|k: int|
            0 <= k < s.skip(1).len() ==> (#[trigger] s.skip(1)[k]).index > s[0].index);
        lemma_dedup_asc(s.skip(1), s[0].index);
        assert(seq![s[0]] + s.skip(1) =~= s);
    }
}

/// In a pre-order indexed tree the proper descendants carry the indices
/// just above the root's, in depth-first order.
pub proof fn lemma_preordered_descendants(n: Node)
    requires
        preordered(n),
    ensures
        forall|k: int|
            0 <= k < descendants(n).len() ==> (#[trigger] descendants(n)[k]).index == n.index + 1
                + k,
        asc_indices(descendants(n)),
{
    assert forall|k: int| 0 <= k < descendants(n).len() implies (#[trigger] descendants(
        n,
    )[k]).index == n.index + 1 + k by {
        assert(subtree(n)[k + 1] == descendants_of(n.children)[k]);
        assert(subtree(n)[k + 1].index == n.index + k + 1);
    }
}

} // verus!

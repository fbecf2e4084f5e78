//! The game-tree model: a chain of nodes followed by branching variations,
//! depth-first audits, a cursor-style iterator with explicit variation
//! selection, and the tree's canonical text rendering.

use vstd::prelude::*;

use crate::node::{
    GameNode, node_has_unknown, node_has_invalid, spec_node_text,
};
use crate::text::{chars_to_string, push_str_chars};
use crate::token::TokenView;

verus! {

/// A game tree: the node chain before any branch point, then the
/// variations. A tree without variations is a leaf; with variations, the
/// chain's last node is the branch point shared by all of them.
#[derive(Debug, PartialEq, Eq)]
pub struct GameTree {
    pub nodes: Vec<GameNode>,
    pub variations: Vec<GameTree>,
}

/// A file-level sequence of independent root game trees.
#[derive(Debug, PartialEq, Eq)]
pub struct Collection {
    pub trees: Vec<GameTree>,
}

/// The spec-level value of a `GameTree`.
#[verifier::ext_equal]
pub struct TreeView {
    pub nodes: Seq<Seq<TokenView>>,
    pub variations: Seq<TreeView>,
}

/// The spec-level value of a game tree.
pub open spec fn tree_view(t: GameTree) -> TreeView
    decreases t,
{
    TreeView {
        nodes: Seq::new(t.nodes@.len(), |i: int| t.nodes@[i]@),
        variations: trees_view(t.variations@),
    }
}

/// The spec-level values of a sequence of game trees.
pub open spec fn trees_view(ts: Seq<GameTree>) -> Seq<TreeView>
    decreases ts,
{
    if ts.len() == 0 {
        Seq::empty()
    } else {
        seq![tree_view(ts[0])] + trees_view(ts.drop_first())
    }
}

/// `trees_view` maps each tree to its view, position by position.
pub proof fn lemma_trees_view(ts: Seq<GameTree>)
    ensures
        trees_view(ts).len() == ts.len(),
        forall|i: int| 0 <= i < ts.len() ==> trees_view(ts)[i] == tree_view(#[trigger] ts[i]),
    decreases ts,
{
    if ts.len() > 0 {
        lemma_trees_view(ts.drop_first());
        assert(forall|i: int|
            1 <= i < ts.len() ==> ts.drop_first()[i - 1] == #[trigger] ts[i]);
    }
}

impl View for GameTree {
    type V = TreeView;

    open spec fn view(&self) -> TreeView {
        tree_view(*self)
    }
}

impl Default for GameTree {
    /// The empty tree: no nodes and no variations.
    fn default() -> (r: GameTree)
        ensures
            r@.nodes.len() == 0,
            r@.variations.len() == 0,
    {
        let r = GameTree { nodes: Vec::new(), variations: Vec::new() };
        proof {
            assert(r@.nodes =~= Seq::<Seq<TokenView>>::empty());
        }
        r
    }
}

/// The nodes of a tree, depth first, that hold an `Unknown` token: the
/// current chain's matches first, then each variation's, in order.
pub open spec fn spec_unknown_nodes(t: TreeView) -> Seq<Seq<TokenView>>
    decreases t,
{
    t.nodes.filter(|n: Seq<TokenView>| node_has_unknown(n)) + unknown_nodes_of(t.variations)
}

/// The unknown-holding nodes of a sequence of trees, in order.
pub open spec fn unknown_nodes_of(ts: Seq<TreeView>) -> Seq<Seq<TokenView>>
    decreases ts,
{
    if ts.len() == 0 {
        Seq::empty()
    } else {
        spec_unknown_nodes(ts[0]) + unknown_nodes_of(ts.drop_first())
    }
}

/// The nodes of a tree, depth first, that hold an `Invalid` token.
pub open spec fn spec_invalid_nodes(t: TreeView) -> Seq<Seq<TokenView>>
    decreases t,
{
    t.nodes.filter(|n: Seq<TokenView>| node_has_invalid(n)) + invalid_nodes_of(t.variations)
}

/// The invalid-holding nodes of a sequence of trees, in order.
pub open spec fn invalid_nodes_of(ts: Seq<TreeView>) -> Seq<Seq<TokenView>>
    decreases ts,
{
    if ts.len() == 0 {
        Seq::empty()
    } else {
        spec_invalid_nodes(ts[0]) + invalid_nodes_of(ts.drop_first())
    }
}

/// The length of the longest single line of play reachable from a tree:
/// the chain's length plus the best variation's own longest line.
pub open spec fn spec_max_nodes(t: TreeView) -> int
    decreases t,
{
    t.nodes.len() + max_nodes_of(t.variations)
}

/// The largest `spec_max_nodes` over a sequence of trees, zero when there
/// are none.
pub open spec fn max_nodes_of(ts: Seq<TreeView>) -> int
    decreases ts,
{
    if ts.len() == 0 {
        0
    } else {
        let rest = max_nodes_of(ts.drop_first());
        if spec_max_nodes(ts[0]) >= rest {
            spec_max_nodes(ts[0])
        } else {
            rest
        }
    }
}

/// Longest lines are never negative, and each tree of a sequence stays
/// within the sequence's maximum.
pub proof fn lemma_max_nodes_of(ts: Seq<TreeView>)
    ensures
        max_nodes_of(ts) >= 0,
        forall|i: int|
            0 <= i < ts.len() ==> spec_max_nodes(#[trigger] ts[i]) <= max_nodes_of(ts),
    decreases ts,
{
    if ts.len() > 0 {
        lemma_max_nodes_of(ts.drop_first());
        assert(forall|i: int|
            1 <= i < ts.len() ==> ts.drop_first()[i - 1] == #[trigger] ts[i]);
    }
}

impl GameTree {
    /// The length of the longest single line of play in the tree.
    #[verifier::loop_isolation(false)]
    pub fn count_max_nodes(&self) -> (r: usize)
        requires
            spec_max_nodes(self@) <= usize::MAX,
        ensures
            r == spec_max_nodes(self@),
        decreases *self,
    {
        proof {
            lemma_trees_view(self.variations@);
            lemma_max_nodes_of(self@.variations);
        }
        let mut best: usize = 0;
        let mut i: usize = 0;
        while i < self.variations.len()
            invariant
                0 <= i <= self.variations@.len(),
                self@.variations == trees_view(self.variations@),
                self@.variations.len() == self.variations@.len(),
                forall|k: int|
                    0 <= k < self.variations@.len() ==> #[trigger] self@.variations[k]
                        == tree_view(self.variations@[k]),
                best == max_nodes_of(self@.variations.subrange(0, i as int)),
                best <= max_nodes_of(self@.variations),
            decreases self.variations.len() - i,
        {
            proof {
                lemma_max_nodes_of(self@.variations);
                lemma_max_nodes_prefix(self@.variations, i as int);
                assert(self.variations[i as int]@ == self@.variations[i as int]);
                assert(spec_max_nodes(self@.variations[i as int]) <= max_nodes_of(
                    self@.variations,
                ));
                assert(spec_max_nodes(self@) == self@.nodes.len() + max_nodes_of(
                    self@.variations,
                ));
            }
            let sub = self.variations[i].count_max_nodes();
            if sub > best {
                best = sub;
            }
            proof {
                lemma_max_nodes_prefix(self@.variations, i + 1);
            }
            i = i + 1;
        }
        proof {
            assert(self@.variations.subrange(0, self.variations@.len() as int)
                =~= self@.variations);
        }
        self.nodes.len() + best
    }

    /// Collects, depth first, every node that holds an `Unknown` token:
    /// the current chain's nodes first, then each variation's, in order.
    pub fn get_unknown_nodes(&self) -> (r: Vec<&GameNode>)
        ensures
            r@.map_values(|n: &GameNode| n@) == spec_unknown_nodes(self@),
        decreases *self,
    {
        proof {
            lemma_trees_view(self.variations@);
        }
        let mut r: Vec<&GameNode> = Vec::new();
        proof {
            reveal(Seq::filter);
            assert(self@.nodes.subrange(0, 0).filter(|n: Seq<TokenView>| node_has_unknown(n))
                =~= r@.map_values(|n: &GameNode| n@));
        }
        let mut i: usize = 0;
        while i < self.nodes.len()
            invariant
                0 <= i <= self.nodes@.len(),
                self@.nodes.len() == self.nodes@.len(),
                forall|k: int|
                    0 <= k < self.nodes@.len() ==> #[trigger] self@.nodes[k]
                        == self.nodes@[k]@,
                r@.map_values(|n: &GameNode| n@) == self@.nodes.subrange(0, i as int).filter(
                    |n: Seq<TokenView>| node_has_unknown(n),
                ),
            decreases self.nodes.len() - i,
        {
            let ghost pre = self@.nodes.subrange(0, i as int);
            let ghost ext = self@.nodes.subrange(0, i + 1);
            proof {
                reveal(Seq::filter);
                assert(ext.drop_last() =~= pre);
                assert(ext.last() == self@.nodes[i as int]);
            }
            let node = &self.nodes[i];
            if node.has_unknown_token() {
                r.push(node);
            }
            proof {
                reveal(Seq::filter);
                assert(r@.map_values(|n: &GameNode| n@) =~= ext.filter(
                    |n: Seq<TokenView>| node_has_unknown(n),
                ));
            }
            i = i + 1;
        }
        proof {
            assert(self@.nodes.subrange(0, self.nodes@.len() as int) =~= self@.nodes);
        }
        let mut v: usize = 0;
        while v < self.variations.len()
            invariant
                0 <= v <= self.variations@.len(),
                self@.variations.len() == self.variations@.len(),
                forall|k: int|
                    0 <= k < self.variations@.len() ==> #[trigger] self@.variations[k]
                        == tree_view(self.variations@[k]),
                r@.map_values(|n: &GameNode| n@) == self@.nodes.filter(
                    |n: Seq<TokenView>| node_has_unknown(n),
                ) + unknown_prefix(self@.variations, v as int),
            decreases self.variations.len() - v,
        {
            let sub = self.variations[v].get_unknown_nodes();
            let mut k: usize = 0;
            while k < sub.len()
                invariant
                    0 <= k <= sub@.len(),
                    sub@.map_values(|n: &GameNode| n@) == spec_unknown_nodes(
                        tree_view(self.variations@[v as int]),
                    ),
                    v < self.variations@.len(),
                    self@.variations.len() == self.variations@.len(),
                    forall|m: int|
                        0 <= m < self.variations@.len() ==> #[trigger] self@.variations[m]
                            == tree_view(self.variations@[m]),
                    r@.map_values(|n: &GameNode| n@) == self@.nodes.filter(
                        |n: Seq<TokenView>| node_has_unknown(n),
                    ) + unknown_prefix(self@.variations, v as int) + sub@.map_values(
                        |n: &GameNode| n@,
                    ).subrange(0, k as int),
                decreases sub.len() - k,
            {
                let ghost rm_before = r@.map_values(|n: &GameNode| n@);
                r.push(sub[k]);
                proof {
                    let m = sub@.map_values(|n: &GameNode| n@);
                    assert(r@.map_values(|n: &GameNode| n@) =~= rm_before.push(m[k as int]));
                    assert(m.subrange(0, k + 1) =~= m.subrange(0, k as int).push(m[k as int]));
                    assert(rm_before.push(m[k as int]) =~= self@.nodes.filter(
                        |n: Seq<TokenView>| node_has_unknown(n),
                    ) + unknown_prefix(self@.variations, v as int) + m.subrange(0, k + 1));
                }
                k = k + 1;
            }
            proof {
                let m = sub@.map_values(|n: &GameNode| n@);
                assert(m.subrange(0, sub@.len() as int) =~= m);
                lemma_unknown_prefix_step(self@.variations, v as int);
                assert(r@.map_values(|n: &GameNode| n@) =~= self@.nodes.filter(
                    |n: Seq<TokenView>| node_has_unknown(n),
                ) + unknown_prefix(self@.variations, v + 1));
            }
            v = v + 1;
        }
        proof {
            lemma_unknown_prefix_all(self@.variations);
        }
        r
    }
}

impl GameTree {
    /// Collects, depth first, every node that holds an `Invalid` token:
    /// the current chain's nodes first, then each variation's, in order.
    pub fn get_invalid_nodes(&self) -> (r: Vec<&GameNode>)
        ensures
            r@.map_values(|n: &GameNode| n@) == spec_invalid_nodes(self@),
        decreases *self,
    {
        proof {
            lemma_trees_view(self.variations@);
        }
        let mut r: Vec<&GameNode> = Vec::new();
        proof {
            reveal(Seq::filter);
            assert(self@.nodes.subrange(0, 0).filter(|n: Seq<TokenView>| node_has_invalid(n))
                =~= r@.map_values(|n: &GameNode| n@));
        }
        let mut i: usize = 0;
        while i < self.nodes.len()
            invariant
                0 <= i <= self.nodes@.len(),
                self@.nodes.len() == self.nodes@.len(),
                forall|k: int|
                    0 <= k < self.nodes@.len() ==> #[trigger] self@.nodes[k]
                        == self.nodes@[k]@,
                r@.map_values(|n: &GameNode| n@) == self@.nodes.subrange(0, i as int).filter(
                    |n: Seq<TokenView>| node_has_invalid(n),
                ),
            decreases self.nodes.len() - i,
        {
            let ghost pre = self@.nodes.subrange(0, i as int);
            let ghost ext = self@.nodes.subrange(0, i + 1);
            proof {
                reveal(Seq::filter);
                assert(ext.drop_last() =~= pre);
                assert(ext.last() == self@.nodes[i as int]);
            }
            let node = &self.nodes[i];
            if node.has_invalid_token() {
                r.push(node);
            }
            proof {
                reveal(Seq::filter);
                assert(r@.map_values(|n: &GameNode| n@) =~= ext.filter(
                    |n: Seq<TokenView>| node_has_invalid(n),
                ));
            }
            i = i + 1;
        }
        proof {
            assert(self@.nodes.subrange(0, self.nodes@.len() as int) =~= self@.nodes);
        }
        let mut v: usize = 0;
        while v < self.variations.len()
            invariant
                0 <= v <= self.variations@.len(),
                self@.variations.len() == self.variations@.len(),
                forall|k: int|
                    0 <= k < self.variations@.len() ==> #[trigger] self@.variations[k]
                        == tree_view(self.variations@[k]),
                r@.map_values(|n: &GameNode| n@) == self@.nodes.filter(
                    |n: Seq<TokenView>| node_has_invalid(n),
                ) + invalid_prefix(self@.variations, v as int),
            decreases self.variations.len() - v,
        {
            let sub = self.variations[v].get_invalid_nodes();
            let mut k: usize = 0;
            while k < sub.len()
                invariant
                    0 <= k <= sub@.len(),
                    sub@.map_values(|n: &GameNode| n@) == spec_invalid_nodes(
                        tree_view(self.variations@[v as int]),
                    ),
                    v < self.variations@.len(),
                    self@.variations.len() == self.variations@.len(),
                    forall|m: int|
                        0 <= m < self.variations@.len() ==> #[trigger] self@.variations[m]
                            == tree_view(self.variations@[m]),
                    r@.map_values(|n: &GameNode| n@) == self@.nodes.filter(
                        |n: Seq<TokenView>| node_has_invalid(n),
                    ) + invalid_prefix(self@.variations, v as int) + sub@.map_values(
                        |n: &GameNode| n@,
                    ).subrange(0, k as int),
                decreases sub.len() - k,
            {
                let ghost rm_before = r@.map_values(|n: &GameNode| n@);
                r.push(sub[k]);
                proof {
                    let m = sub@.map_values(|n: &GameNode| n@);
                    assert(r@.map_values(|n: &GameNode| n@) =~= rm_before.push(m[k as int]));
                    assert(m.subrange(0, k + 1) =~= m.subrange(0, k as int).push(m[k as int]));
                    assert(rm_before.push(m[k as int]) =~= self@.nodes.filter(
                        |n: Seq<TokenView>| node_has_invalid(n),
                    ) + invalid_prefix(self@.variations, v as int) + m.subrange(0, k + 1));
                }
                k = k + 1;
            }
            proof {
                let m = sub@.map_values(|n: &GameNode| n@);
                assert(m.subrange(0, sub@.len() as int) =~= m);
                lemma_invalid_prefix_step(self@.variations, v as int);
                assert(r@.map_values(|n: &GameNode| n@) =~= self@.nodes.filter(
                    |n: Seq<TokenView>| node_has_invalid(n),
                ) + invalid_prefix(self@.variations, v + 1));
            }
            v = v + 1;
        }
        proof {
            lemma_invalid_prefix_all(self@.variations);
        }
        r
    }

    /// Whether the tree branches into at least one variation.
    pub fn has_variations(&self) -> (r: bool)
        ensures
            r == (self@.variations.len() > 0),
    {
        proof {
            lemma_trees_view(self.variations@);
        }
        self.variations.len() > 0
    }

    /// The number of variations branching off this tree's node chain.
    pub fn count_varations(&self) -> (r: usize)
        ensures
            r == self@.variations.len(),
    {
        proof {
            lemma_trees_view(self.variations@);
        }
        self.variations.len()
    }

    /// A fresh iterator over the tree in play order, starting before the
    /// first node of the chain, with the first variation selected.
    pub fn iter<'a>(&'a self) -> (it: GameTreeIterator<'a>)
        ensures
            it.wf(),
            it.spec_tree() == *self,
            it.spec_index() == 0,
            it.spec_variation() == 0,
    {
        GameTreeIterator::new(self)
    }
}

/// The invalid-holding nodes of the first `i` trees of a sequence.
pub open spec fn invalid_prefix(ts: Seq<TreeView>, i: int) -> Seq<Seq<TokenView>> {
    invalid_nodes_of(ts.subrange(0, i))
}

/// Extending the prefix by one tree appends that tree's matches.
proof fn lemma_invalid_prefix_step(ts: Seq<TreeView>, i: int)
    requires
        0 <= i < ts.len(),
    ensures
        invalid_prefix(ts, i + 1) == invalid_prefix(ts, i) + spec_invalid_nodes(ts[i]),
{
    lemma_invalid_nodes_of_push(ts.subrange(0, i), ts[i]);
    assert(ts.subrange(0, i + 1) =~= ts.subrange(0, i).push(ts[i]));
}

/// Appending one tree to a sequence appends its matches to the collection.
proof fn lemma_invalid_nodes_of_push(ts: Seq<TreeView>, t: TreeView)
    ensures
        invalid_nodes_of(ts.push(t)) == invalid_nodes_of(ts) + spec_invalid_nodes(t),
    decreases ts,
{
    let s = ts.push(t);
    if ts.len() == 0 {
        assert(s[0] == t);
        assert(s.drop_first() =~= Seq::<TreeView>::empty());
        assert(invalid_nodes_of(s) == spec_invalid_nodes(t) + invalid_nodes_of(
            Seq::<TreeView>::empty(),
        ));
        assert(invalid_nodes_of(s) =~= invalid_nodes_of(ts) + spec_invalid_nodes(t));
    } else {
        assert(s.drop_first() =~= ts.drop_first().push(t));
        lemma_invalid_nodes_of_push(ts.drop_first(), t);
        assert(s[0] == ts[0]);
        assert(invalid_nodes_of(s) == spec_invalid_nodes(ts[0]) + invalid_nodes_of(
            s.drop_first(),
        ));
        assert(invalid_nodes_of(s.drop_first()) == invalid_nodes_of(ts.drop_first())
            + spec_invalid_nodes(t));
        assert(invalid_nodes_of(ts) == spec_invalid_nodes(ts[0]) + invalid_nodes_of(
            ts.drop_first(),
        ));
        assert(invalid_nodes_of(s) =~= invalid_nodes_of(ts) + spec_invalid_nodes(t));
    }
}

/// The full prefix covers the whole sequence.
proof fn lemma_invalid_prefix_all(ts: Seq<TreeView>)
    ensures
        invalid_prefix(ts, ts.len() as int) == invalid_nodes_of(ts),
{
    assert(ts.subrange(0, ts.len() as int) =~= ts);
}

/// What one step of iteration yields: the next node of the current chain,
/// or the first node found by descending into the selected variation. The
/// result carries the node and the cursor's new tree, position and
/// selection.
pub open spec fn spec_next(t: GameTree, index: int, variation: int) -> Option<
    (GameNode, GameTree, int, int),
>
    decreases t,
{
    if index < t.nodes@.len() {
        Some((t.nodes@[index], t, index + 1, variation))
    } else if t.variations@.len() == 0 {
        None
    } else if 0 <= variation < t.variations@.len() {
        spec_next(t.variations@[variation], 0, 0)
    } else {
        None
    }
}

/// A lazy cursor over one line of play through a game tree. The caller
/// steers which variation is taken when each branch point is reached.
pub struct GameTreeIterator<'a> {
    tree: &'a GameTree,
    index: usize,
    variation: usize,
}

impl<'a> GameTreeIterator<'a> {
    /// The tree the cursor currently walks.
    pub closed spec fn spec_tree(self) -> GameTree {
        *self.tree
    }

    /// The position in the current tree's node chain.
    pub closed spec fn spec_index(self) -> int {
        self.index as int
    }

    /// The currently selected variation index.
    pub closed spec fn spec_variation(self) -> int {
        self.variation as int
    }

    /// The cursor's invariant: the selection is in range, or zero when the
    /// current tree has no variations.
    pub open spec fn wf(self) -> bool {
        self.spec_variation() == 0 || self.spec_variation() < self.spec_tree().variations@.len()
    }

    fn new(game_tree: &'a GameTree) -> (it: GameTreeIterator<'a>)
        ensures
            it.wf(),
            it.spec_tree() == *game_tree,
            it.spec_index() == 0,
            it.spec_variation() == 0,
    {
        GameTreeIterator { tree: game_tree, index: 0, variation: 0 }
    }

    /// Whether the tree under the cursor branches here.
    pub fn has_variations(&self) -> (r: bool)
        ensures
            r == (self.spec_tree()@.variations.len() > 0),
    {
        self.tree.has_variations()
    }

    /// The number of variations of the tree under the cursor.
    pub fn count_varations(&self) -> (r: usize)
        ensures
            r == self.spec_tree()@.variations.len(),
    {
        self.tree.count_varations()
    }

    /// Selects which variation to take when the current chain is
    /// exhausted. Fails, without changing any state, if the index is out
    /// of range for the tree under the cursor.
    pub fn pick_variation(&mut self, variation: usize) -> (r: Result<(), ()>)
        requires
            old(self).wf(),
        ensures
            final(self).wf(),
            final(self).spec_tree() == old(self).spec_tree(),
            final(self).spec_index() == old(self).spec_index(),
            if variation < old(self).spec_tree().variations@.len() {
                r == Ok::<(), ()>(()) && final(self).spec_variation() == variation
            } else {
                r == Err::<(), ()>(()) && final(self).spec_variation() == old(
                    self,
                ).spec_variation()
            },
    {
        if variation < self.tree.variations.len() {
            self.variation = variation;
            Ok(())
        } else {
            Err(())
        }
    }

    /// Yields the next node of the line of play: the next node of the
    /// current chain, or, once the chain is exhausted, the first node
    /// found by descending into the selected variation. Yields nothing
    /// once a leaf chain is exhausted, and from then on never yields
    /// again.
    pub fn next(&mut self) -> (r: Option<&'a GameNode>)
        requires
            old(self).wf(),
        ensures
            final(self).wf(),
            match spec_next(
                old(self).spec_tree(),
                old(self).spec_index(),
                old(self).spec_variation(),
            ) {
                Some(q) => r matches Some(n) && *n == q.0 && final(self).spec_tree() == q.1
                    && final(self).spec_index() == q.2 && final(self).spec_variation() == q.3,
                None => r is None && spec_next(
                    final(self).spec_tree(),
                    final(self).spec_index(),
                    final(self).spec_variation(),
                ) is None,
            },
        decreases old(self).spec_tree(),
    {
        if self.index < self.tree.nodes.len() {
            let node = &self.tree.nodes[self.index];
            self.index = self.index + 1;
            Some(node)
        } else {
            if self.tree.variations.len() > 0 {
                let t: &'a GameTree = self.tree;
                self.tree = &t.variations[self.variation];
                self.index = 0;
                self.variation = 0;
                self.next()
            } else {
                None
            }
        }
    }
}

/// The concatenated canonical texts of a chain of nodes, in order.
pub open spec fn nodes_text(ns: Seq<Seq<TokenView>>) -> Seq<char>
    decreases ns,
{
    if ns.len() == 0 {
        Seq::empty()
    } else {
        spec_node_text(ns[0]) + nodes_text(ns.drop_first())
    }
}

/// The concatenated canonical texts of a sequence of trees, in order.
pub open spec fn trees_text(ts: Seq<TreeView>) -> Seq<char>
    decreases ts,
{
    if ts.len() == 0 {
        Seq::empty()
    } else {
        spec_tree_text(ts[0]) + trees_text(ts.drop_first())
    }
}

/// The canonical text of a tree: its own node chain, then each variation's
/// full rendering, wrapped in parentheses.
pub open spec fn spec_tree_text(t: TreeView) -> Seq<char>
    decreases t,
{
    seq!['('] + nodes_text(t.nodes) + trees_text(t.variations) + seq![')']
}

/// Appends the canonical text of a tree.
#[verifier::loop_isolation(false)]
pub fn push_tree_text(out: &mut Vec<char>, t: &GameTree)
    ensures
        final(out)@ == old(out)@ + spec_tree_text(t@),
    decreases *t,
{
    proof {
        lemma_trees_view(t.variations@);
    }
    out.push('(');
    let mut i: usize = 0;
    while i < t.nodes.len()
        invariant
            0 <= i <= t.nodes@.len(),
            t@.nodes.len() == t.nodes@.len(),
            forall|k: int|
                0 <= k < t.nodes@.len() ==> #[trigger] t@.nodes[k] == t.nodes@[k]@,
            out@ =~= old(out)@ + seq!['('] + nodes_text(t@.nodes.subrange(0, i as int)),
        decreases t.nodes.len() - i,
    {
        let text = t.nodes[i].to_text();
        proof {
            lemma_nodes_text_push(t@.nodes.subrange(0, i as int), t@.nodes[i as int]);
            assert(t@.nodes.subrange(0, i + 1) =~= t@.nodes.subrange(0, i as int).push(
                t@.nodes[i as int],
            ));
        }
        push_str_chars(out, text.as_str());
        proof {
            assert(out@ =~= old(out)@ + seq!['('] + nodes_text(t@.nodes.subrange(0, i + 1)));
        }
        i = i + 1;
    }
    proof {
        assert(t@.nodes.subrange(0, t.nodes@.len() as int) =~= t@.nodes);
    }
    let mut v: usize = 0;
    while v < t.variations.len()
        invariant
            0 <= v <= t.variations@.len(),
            t@.variations.len() == t.variations@.len(),
            forall|k: int|
                0 <= k < t.variations@.len() ==> #[trigger] t@.variations[k] == tree_view(
                    t.variations@[k],
                ),
            out@ =~= old(out)@ + seq!['('] + nodes_text(t@.nodes) + trees_text(
                t@.variations.subrange(0, v as int),
            ),
        decreases t.variations.len() - v,
    {
        proof {
            lemma_trees_text_push(t@.variations.subrange(0, v as int), t@.variations[v as int]);
            assert(t@.variations.subrange(0, v + 1) =~= t@.variations.subrange(0, v as int).push(
                t@.variations[v as int],
            ));
        }
        push_tree_text(out, &t.variations[v]);
        proof {
            assert(out@ =~= old(out)@ + seq!['('] + nodes_text(t@.nodes) + trees_text(
                t@.variations.subrange(0, v + 1),
            ));
        }
        v = v + 1;
    }
    proof {
        assert(t@.variations.subrange(0, t.variations@.len() as int) =~= t@.variations);
    }
    out.push(')');
    proof {
        assert(out@ =~= old(out)@ + spec_tree_text(t@));
    }
}

/// Appending one node extends the chain's text at the end.
proof fn lemma_nodes_text_push(ns: Seq<Seq<TokenView>>, n: Seq<TokenView>)
    ensures
        nodes_text(ns.push(n)) == nodes_text(ns) + spec_node_text(n),
    decreases ns,
{
    let s = ns.push(n);
    if ns.len() == 0 {
        assert(s[0] == n);
        assert(s.drop_first() =~= Seq::<Seq<TokenView>>::empty());
        assert(nodes_text(s) == spec_node_text(n) + nodes_text(
            Seq::<Seq<TokenView>>::empty(),
        ));
        assert(nodes_text(s) =~= nodes_text(ns) + spec_node_text(n));
    } else {
        assert(s.drop_first() =~= ns.drop_first().push(n));
        lemma_nodes_text_push(ns.drop_first(), n);
        assert(s[0] == ns[0]);
        assert(nodes_text(s) == spec_node_text(ns[0]) + nodes_text(s.drop_first()));
        assert(nodes_text(ns) == spec_node_text(ns[0]) + nodes_text(ns.drop_first()));
        assert(nodes_text(s) =~= nodes_text(ns) + spec_node_text(n));
    }
}

/// Appending one tree extends the sequence's text at the end.
proof fn lemma_trees_text_push(ts: Seq<TreeView>, t: TreeView)
    ensures
        trees_text(ts.push(t)) == trees_text(ts) + spec_tree_text(t),
    decreases ts,
{
    let s = ts.push(t);
    if ts.len() == 0 {
        assert(s[0] == t);
        assert(s.drop_first() =~= Seq::<TreeView>::empty());
        assert(trees_text(s) == spec_tree_text(t) + trees_text(Seq::<TreeView>::empty()));
        assert(trees_text(s) =~= trees_text(ts) + spec_tree_text(t));
    } else {
        assert(s.drop_first() =~= ts.drop_first().push(t));
        lemma_trees_text_push(ts.drop_first(), t);
        assert(s[0] == ts[0]);
        assert(trees_text(s) == spec_tree_text(ts[0]) + trees_text(s.drop_first()));
        assert(trees_text(ts) == spec_tree_text(ts[0]) + trees_text(ts.drop_first()));
        assert(trees_text(s) =~= trees_text(ts) + spec_tree_text(t));
    }
}

impl GameTree {
    /// Renders the whole tree as canonical SGF text: the node chain in
    /// order, then each variation's full rendering, wrapped in
    /// parentheses.
    pub fn to_text(&self) -> (r: String)
        ensures
            r@ == spec_tree_text(self@),
    {
        let mut out: Vec<char> = Vec::new();
        push_tree_text(&mut out, self);
        chars_to_string(&out)
    }
}

/// The unknown-holding nodes of the first `i` trees of a sequence.
pub open spec fn unknown_prefix(ts: Seq<TreeView>, i: int) -> Seq<Seq<TokenView>> {
    unknown_nodes_of(ts.subrange(0, i))
}

/// Extending the prefix by one tree appends that tree's matches.
proof fn lemma_unknown_prefix_step(ts: Seq<TreeView>, i: int)
    requires
        0 <= i < ts.len(),
    ensures
        unknown_prefix(ts, i + 1) == unknown_prefix(ts, i) + spec_unknown_nodes(ts[i]),
{
    lemma_unknown_nodes_of_push(ts.subrange(0, i), ts[i]);
    assert(ts.subrange(0, i + 1) =~= ts.subrange(0, i).push(ts[i]));
}

/// Appending one tree to a sequence appends its matches to the collection.
proof fn lemma_unknown_nodes_of_push(ts: Seq<TreeView>, t: TreeView)
    ensures
        unknown_nodes_of(ts.push(t)) == unknown_nodes_of(ts) + spec_unknown_nodes(t),
    decreases ts,
{
    let s = ts.push(t);
    if ts.len() == 0 {
        assert(s[0] == t);
        assert(s.drop_first() =~= Seq::<TreeView>::empty());
        assert(unknown_nodes_of(s) == spec_unknown_nodes(t) + unknown_nodes_of(
            Seq::<TreeView>::empty(),
        ));
        assert(unknown_nodes_of(s) =~= unknown_nodes_of(ts) + spec_unknown_nodes(t));
    } else {
        assert(s.drop_first() =~= ts.drop_first().push(t));
        lemma_unknown_nodes_of_push(ts.drop_first(), t);
        assert(s[0] == ts[0]);
        assert(unknown_nodes_of(s) == spec_unknown_nodes(ts[0]) + unknown_nodes_of(
            s.drop_first(),
        ));
        assert(unknown_nodes_of(s.drop_first()) == unknown_nodes_of(ts.drop_first())
            + spec_unknown_nodes(t));
        assert(unknown_nodes_of(ts) == spec_unknown_nodes(ts[0]) + unknown_nodes_of(
            ts.drop_first(),
        ));
        assert(unknown_nodes_of(s) =~= unknown_nodes_of(ts) + spec_unknown_nodes(t));
    }
}

/// The full prefix covers the whole sequence.
proof fn lemma_unknown_prefix_all(ts: Seq<TreeView>)
    ensures
        unknown_prefix(ts, ts.len() as int) == unknown_nodes_of(ts),
{
    assert(ts.subrange(0, ts.len() as int) =~= ts);
}

/// `max_nodes_of` of a prefix grown by one entry.
proof fn lemma_max_nodes_prefix(ts: Seq<TreeView>, i: int)
    requires
        0 <= i <= ts.len(),
    ensures
        i < ts.len() ==> max_nodes_of(ts.subrange(0, i + 1)) == (if spec_max_nodes(ts[i])
            >= max_nodes_of(ts.subrange(0, i)) {
            spec_max_nodes(ts[i])
        } else {
            max_nodes_of(ts.subrange(0, i))
        }),
        max_nodes_of(ts.subrange(0, i)) <= max_nodes_of(ts),
{
    lemma_max_nodes_of_subrange(ts, i);
    if i < ts.len() {
        lemma_max_nodes_of_push(ts.subrange(0, i), ts[i]);
        assert(ts.subrange(0, i + 1) =~= ts.subrange(0, i).push(ts[i]));
    }
}

/// Appending one tree to a sequence takes the maximum with its line.
proof fn lemma_max_nodes_of_push(ts: Seq<TreeView>, t: TreeView)
    ensures
        max_nodes_of(ts.push(t)) == (if spec_max_nodes(t) >= max_nodes_of(ts) {
            spec_max_nodes(t)
        } else {
            max_nodes_of(ts)
        }),
    decreases ts,
{
    let s = ts.push(t);
    if ts.len() == 0 {
        assert(s[0] == t);
        assert(s.drop_first() =~= Seq::<TreeView>::empty());
        assert(max_nodes_of(s.drop_first()) == 0);
        assert(max_nodes_of(s) == (if spec_max_nodes(t) >= 0 {
            spec_max_nodes(t)
        } else {
            0int
        }));
    } else {
        assert(s.drop_first() =~= ts.drop_first().push(t));
        lemma_max_nodes_of_push(ts.drop_first(), t);
        assert(s[0] == ts[0]);
        assert(max_nodes_of(s) == (if spec_max_nodes(s[0]) >= max_nodes_of(s.drop_first()) {
            spec_max_nodes(s[0])
        } else {
            max_nodes_of(s.drop_first())
        }));
    }
}

/// A prefix's maximum never exceeds the whole sequence's.
proof fn lemma_max_nodes_of_subrange(ts: Seq<TreeView>, i: int)
    requires
        0 <= i <= ts.len(),
    ensures
        max_nodes_of(ts.subrange(0, i)) <= max_nodes_of(ts),
    decreases ts.len() - i,
{
    lemma_max_nodes_of(ts);
    if i < ts.len() {
        lemma_max_nodes_of_subrange(ts, i + 1);
        lemma_max_nodes_of_push(ts.subrange(0, i), ts[i]);
        assert(ts.subrange(0, i + 1) =~= ts.subrange(0, i).push(ts[i]));
        lemma_max_nodes_of(ts.subrange(0, i + 1));
    } else {
        assert(ts.subrange(0, i) =~= ts);
    }
}

} // verus!

use std::collections::HashMap;

use vstd::prelude::*;

use crate::layout::MosaicLayout;
use crate::node::Node;
use crate::tree::{
    lemma_ids_finite, lemma_represents_entry, lemma_represents_frame, lemma_subtree_facts,
    lemma_subtree_self, represents, LTree,
};
use crate::types::{NodeId, Percent, SplitDirection, TileId, DEFAULT_MAX_PERCENT, DEFAULT_MIN_PERCENT};

verus! {

broadcast use vstd::std_specs::hash::group_hash_axioms;

/// Tree representation of a layout, for defining and saving layouts.
#[derive(Debug)]
pub enum MosaicNode {
    /// A split containing two child nodes.
    Split {
        direction: SplitDirection,
        first: Box<MosaicNode>,
        second: Box<MosaicNode>,
        split_percentage: Percent,
    },
    /// A leaf node containing a tile.
    Leaf(TileId),
}

impl MosaicNode {
    /// Number of nodes (splits and leaves).
    pub open spec fn spec_node_count(self) -> nat
        decreases self,
    {
        match self {
            MosaicNode::Leaf(_) => 1,
            MosaicNode::Split { first, second, .. } => 1 + first.spec_node_count()
                + second.spec_node_count(),
        }
    }

    /// Tile identifiers of the leaves, in reading order.
    pub open spec fn leaves(self) -> Seq<Seq<char>>
        decreases self,
    {
        match self {
            MosaicNode::Leaf(t) => seq![t@],
            MosaicNode::Split { first, second, .. } => first.leaves() + second.leaves(),
        }
    }

    /// Create a horizontal split (`first` on the left).
    pub fn horizontal(first: MosaicNode, second: MosaicNode, split_percentage: Percent) -> (r: Self)
        ensures
            r == (MosaicNode::Split {
                direction: SplitDirection::Horizontal,
                first: Box::new(first),
                second: Box::new(second),
                split_percentage,
            }),
    {
        MosaicNode::Split {
            direction: SplitDirection::Horizontal,
            first: Box::new(first),
            second: Box::new(second),
            split_percentage,
        }
    }

    /// Create a vertical split (`first` on top).
    pub fn vertical(first: MosaicNode, second: MosaicNode, split_percentage: Percent) -> (r: Self)
        ensures
            r == (MosaicNode::Split {
                direction: SplitDirection::Vertical,
                first: Box::new(first),
                second: Box::new(second),
                split_percentage,
            }),
    {
        MosaicNode::Split {
            direction: SplitDirection::Vertical,
            first: Box::new(first),
            second: Box::new(second),
            split_percentage,
        }
    }

    /// Create a leaf tile.
    pub fn tile(tile_id: &str) -> (r: Self)
        ensures
            r matches MosaicNode::Leaf(t) && t@ == tile_id@,
    {
        MosaicNode::Leaf(tile_id.to_string())
    }

    /// Number of nodes, or `None` when it does not fit in a `u64`.
    pub fn count_nodes(&self) -> (r: Option<u64>)
        ensures
            match r {
                Some(n) => n == self.spec_node_count(),
                None => self.spec_node_count() > u64::MAX,
            },
        decreases self,
    {
        match self {
            MosaicNode::Leaf(_) => Some(1),
            MosaicNode::Split { first, second, .. } => {
                let a = match first.count_nodes() {
                    Some(a) => a,
                    None => {
                        return None;
                    },
                };
                let b = match second.count_nodes() {
                    Some(b) => b,
                    None => {
                        return None;
                    },
                };
                if a > u64::MAX - 1 || b > u64::MAX - 1 - a {
                    None
                } else {
                    Some(1 + a + b)
                }
            },
        }
    }
}

impl Clone for MosaicNode {
    fn clone(&self) -> (r: Self)
        ensures
            r == *self,
        decreases self,
    {
        match self {
            MosaicNode::Leaf(t) => MosaicNode::Leaf(t.clone()),
            MosaicNode::Split { direction, first, second, split_percentage } => MosaicNode::Split {
                direction: *direction,
                first: Box::new((**first).clone()),
                second: Box::new((**second).clone()),
                split_percentage: *split_percentage,
            },
        }
    }
}

/// Helper function for creating leaf tiles.
pub fn tile(tile_id: &str) -> (r: MosaicNode)
    ensures
        r matches MosaicNode::Leaf(t) && t@ == tile_id@,
{
    MosaicNode::tile(tile_id)
}

/// The tree representation of a layout tree: its shape, without node identifiers,
/// locks and bounds.
pub open spec fn shape_of(t: LTree) -> MosaicNode
    decreases t,
{
    match t {
        LTree::Tile { tile_id, .. } => MosaicNode::Leaf(tile_id),
        LTree::Split { direction, split_percentage, first, second, .. } => MosaicNode::Split {
            direction,
            first: Box::new(shape_of(*first)),
            second: Box::new(shape_of(*second)),
            split_percentage,
        },
    }
}

/// The layout tree of `tree` with nodes numbered in pre-order from `start`: nothing locked,
/// and every split draggable between the default bounds.
pub open spec fn numbered(tree: MosaicNode, start: int) -> LTree
    decreases tree,
{
    match tree {
        MosaicNode::Leaf(tile_id) => LTree::Tile { id: start as u64, tile_id, locked: false },
        MosaicNode::Split { direction, first, second, split_percentage } => LTree::Split {
            id: start as u64,
            direction,
            split_percentage,
            locked: false,
            min_percentage: DEFAULT_MIN_PERCENT,
            max_percentage: DEFAULT_MAX_PERCENT,
            first: Box::new(numbered(*first, start + 1)),
            second: Box::new(numbered(*second, start + 1 + first.spec_node_count())),
        },
    }
}

/// Whether no node of `t` is locked.
pub open spec fn all_unlocked(t: LTree) -> bool {
    forall|k: NodeId| #[trigger] t.ids().contains(k) ==> !t.subtree(k).is_locked()
}

/// A layout built from a tree has no locked node: every split built from a tree can be
/// resized and every tile closed.
pub proof fn law_built_nodes_unlocked(tree: MosaicNode, start: int)
    ensures
        all_unlocked(numbered(tree, start)),
    decreases tree,
{
    let t = numbered(tree, start);
    match tree {
        MosaicNode::Leaf(_) => {
            assert forall|k: NodeId| #[trigger] t.ids().contains(k) implies !t.subtree(k).is_locked() by {}
        },
        MosaicNode::Split { first, second, .. } => {
            law_built_nodes_unlocked(*first, start + 1);
            law_built_nodes_unlocked(*second, start + 1 + first.spec_node_count());
            let f = numbered(*first, start + 1);
            let g = numbered(*second, start + 1 + first.spec_node_count());
            assert forall|k: NodeId| #[trigger] t.ids().contains(k) implies !t.subtree(k).is_locked() by {
                if k == t.id() {
                } else if f.ids().contains(k) {
                    assert(t.subtree(k) == f.subtree(k));
                } else {
                    assert(g.ids().contains(k));
                    assert(t.subtree(k) == g.subtree(k));
                }
            }
        },
    }
}

/// In a layout built from a tree, `update_split` accepts every split: each is in the tree,
/// is a split and is not locked (the condition under which `update_split` returns `true`).
pub proof fn law_built_splits_resizable(tree: MosaicNode, built: MosaicLayout, k: NodeId)
    requires
        built.wf(),
        built@ == Some(numbered(tree, 0)),
        numbered(tree, 0).ids().contains(k),
        numbered(tree, 0).subtree(k) is Split,
    ensures
        built@ matches Some(t) && t.ids().contains(k) && t.subtree(k) is Split && !t.subtree(k).is_locked(),
{
    law_built_nodes_unlocked(tree, 0);
}

/// The leaves of a tree's shape are its tiles.
pub proof fn lemma_shape_leaves(t: LTree)
    ensures
        shape_of(t).leaves() == t.tiles(),
    decreases t,
{
    match t {
        LTree::Tile { .. } => {},
        LTree::Split { first, second, .. } => {
            lemma_shape_leaves(*first);
            lemma_shape_leaves(*second);
        },
    }
}

impl MosaicLayout {
    /// The tree representation of the layout (`None` when it is empty).
    pub open spec fn shape(&self) -> Option<MosaicNode> {
        match self@ {
            None => None,
            Some(t) => Some(shape_of(t)),
        }
    }

    /// Create a layout from a tree representation. Nodes are numbered in pre-order from 0,
    /// and every split may be dragged between 20% and 80%.
    pub fn from_tree(tree: MosaicNode) -> (r: Self)
        requires
            tree.spec_node_count() <= u64::MAX,
        ensures
            r.wf(),
            r@ == Some(numbered(tree, 0)),
            r.shape() == Some(tree),
            r.tiles() == tree.leaves(),
            r.spec_next_id() == tree.spec_node_count(),
            r@ is Some,
            all_unlocked(r@->0),
    {
        proof {
            law_built_nodes_unlocked(tree, 0);
        }
        let mut nodes: HashMap<NodeId, Node> = HashMap::new();
        let mut next: NodeId = 0;
        let (root, Ghost(t)) = Self::insert_tree_recursive(&mut nodes, &mut next, &tree, None);
        proof {
            lemma_shape_leaves(t);
            assert(nodes@.dom() =~= t.ids());
        }
        Self::from_parts(nodes, root, next, Ghost(t))
    }

    /// Inserts the nodes of `tree_node`, numbered in pre-order from `*next` on, below `parent`;
    /// returns the identifier of its root and the tree it now encodes.
    fn insert_tree_recursive(
        nodes: &mut HashMap<NodeId, Node>,
        next: &mut NodeId,
        tree_node: &MosaicNode,
        parent: Option<NodeId>,
    ) -> (res: (NodeId, Ghost<LTree>))
        requires
            *old(next) + tree_node.spec_node_count() <= u64::MAX,
            forall|j: NodeId| #[trigger] old(nodes)@.dom().contains(j) ==> j < *old(next),
        ensures
            *final(next) == *old(next) + tree_node.spec_node_count(),
            res.1@.id() == res.0,
            res.0 == *old(next),
            res.1@ == numbered(*tree_node, *old(next) as int),
            shape_of(res.1@) == *tree_node,
            res.1@.distinct(),
            represents(final(nodes)@, res.1@, parent),
            forall|j: NodeId| #[trigger] res.1@.ids().contains(j) <==> *old(next) <= j < *final(next),
            forall|j: NodeId|
                #[trigger] old(nodes)@.dom().contains(j) ==> final(nodes)@.contains_key(j)
                    && final(nodes)@[j] == old(nodes)@[j],
            final(nodes)@.dom() == old(nodes)@.dom().union(res.1@.ids()),
        decreases tree_node,
    {
        let node_id = *next;
        *next = node_id + 1;
        match tree_node {
            MosaicNode::Leaf(tile_id) => {
                let ghost m0 = nodes@;
                nodes.insert(
                    node_id,
                    Node::Tile { id: node_id, tile_id: tile_id.clone(), parent, locked: false },
                );
                let ghost t = LTree::Tile { id: node_id, tile_id: *tile_id, locked: false };
                proof {
                    assert(t.ids() =~= set![node_id]);
                    assert(nodes@.dom() =~= m0.dom().union(t.ids()));
                    assert(!m0.dom().contains(node_id));
                }
                (node_id, Ghost(t))
            },
            MosaicNode::Split { direction, first, second, split_percentage } => {
                let ghost m0 = nodes@;
                let (first_id, Ghost(tf)) = Self::insert_tree_recursive(
                    nodes,
                    next,
                    first,
                    Some(node_id),
                );
                let ghost m1 = nodes@;
                proof {
                    assert forall|j: NodeId| #[trigger] m1.dom().contains(j) implies j < *next by {
                        if !m0.dom().contains(j) {
                            assert(tf.ids().contains(j));
                        }
                    }
                }
                let (second_id, Ghost(ts)) = Self::insert_tree_recursive(
                    nodes,
                    next,
                    second,
                    Some(node_id),
                );
                let ghost m2 = nodes@;
                nodes.insert(
                    node_id,
                    Node::Split {
                        id: node_id,
                        direction: *direction,
                        first: first_id,
                        second: second_id,
                        split_percentage: *split_percentage,
                        parent,
                        locked: false,
                        min_percentage: DEFAULT_MIN_PERCENT,
                        max_percentage: DEFAULT_MAX_PERCENT,
                    },
                );
                let ghost t = LTree::Split {
                    id: node_id,
                    direction: *direction,
                    split_percentage: *split_percentage,
                    locked: false,
                    min_percentage: DEFAULT_MIN_PERCENT,
                    max_percentage: DEFAULT_MAX_PERCENT,
                    first: Box::new(tf),
                    second: Box::new(ts),
                };
                proof {
                    let m3 = nodes@;
                    lemma_ids_finite(tf);
                    lemma_ids_finite(ts);
                    assert forall|j: NodeId| #[trigger] tf.ids().contains(j) implies m2.contains_key(j)
                        && m2[j] == m1[j] by {
                        assert(m1.dom().contains(j));
                    }
                    lemma_represents_frame(m1, m2, tf, Some(node_id));
                    assert forall|j: NodeId| #[trigger] tf.ids().contains(j) implies m3.contains_key(j)
                        && m3[j] == m2[j] by {}
                    lemma_represents_frame(m2, m3, tf, Some(node_id));
                    assert forall|j: NodeId| #[trigger] ts.ids().contains(j) implies m3.contains_key(j)
                        && m3[j] == m2[j] by {}
                    lemma_represents_frame(m2, m3, ts, Some(node_id));
                    assert(!tf.ids().contains(node_id));
                    assert(!ts.ids().contains(node_id));
                    assert(tf.ids().disjoint(ts.ids()));
                    assert forall|j: NodeId| #[trigger] t.ids().contains(j) <==> *old(next) <= j < *next by {
                        if t.ids().contains(j) && j != node_id && !tf.ids().contains(j) {
                            assert(ts.ids().contains(j));
                        }
                    }
                    assert forall|j: NodeId| #[trigger] m0.dom().contains(j) implies m3.contains_key(j)
                        && m3[j] == m0[j] by {
                        assert(j < node_id);
                        assert(m1.dom().contains(j));
                    }
                    assert(m3.dom() =~= m0.dom().union(t.ids()));
                }
                (node_id, Ghost(t))
            },
        }
    }

    /// Convert layout to tree representation; `None` when the layout is empty.
    pub fn to_tree(&self) -> (r: Option<MosaicNode>)
        requires
            self.wf(),
        ensures
            r == self.shape(),
    {
        proof {
            self.lemma_wf_facts();
        }
        match self.root_id() {
            Some(root_id) => {
                proof {
                    lemma_ids_finite(self@->0);
                    lemma_subtree_self(self@->0);
                }
                Some(self.node_to_tree(&root_id))
            },
            None => None,
        }
    }

    /// The tree representation of the subtree rooted at `node_id`; a leaf named `error` when
    /// the layout has no such node.
    fn node_to_tree(&self, node_id: &NodeId) -> (r: MosaicNode)
        requires
            self.wf(),
        ensures
            match self.entry(*node_id) {
                None => r matches MosaicNode::Leaf(s) && s@ == "error"@,
                Some(_) => r == shape_of(self@->0.subtree(*node_id)),
            },
    {
        proof {
            self.lemma_wf_facts();
        }
        match self.node_entry(*node_id) {
            Some(_) => {
                let ghost t = self@->0;
                proof {
                    lemma_represents_entry(self.node_table(), t, None, *node_id);
                    lemma_subtree_facts(t, *node_id, None);
                }
                self.subtree_to_tree(*node_id, Ghost(t.subtree(*node_id)), Ghost(t.parent_of(*node_id, None)))
            },
            None => {
                proof {
                    if let Some(t) = self@ {
                        assert(!t.ids().contains(*node_id));
                    }
                }
                MosaicNode::Leaf("error".to_string())
            },
        }
    }

    /// The tree representation of the subtree `t` rooted at `node_id`.
    fn subtree_to_tree(&self, node_id: NodeId, Ghost(t): Ghost<LTree>, Ghost(p): Ghost<Option<NodeId>>) -> (r:
        MosaicNode)
        requires
            represents(self.node_table(), t, p),
            t.id() == node_id,
        ensures
            r == shape_of(t),
        decreases t,
    {
        match self.node_entry(node_id) {
            Some(Node::Tile { tile_id, .. }) => MosaicNode::Leaf(tile_id.clone()),
            Some(Node::Split { direction, first, second, split_percentage, .. }) => {
                proof {
                    assert(t is Split);
                }
                let first_tree = self.subtree_to_tree(*first, Ghost(t.left()), Ghost(Some(node_id)));
                let second_tree = self.subtree_to_tree(*second, Ghost(t.right()), Ghost(Some(node_id)));
                MosaicNode::Split {
                    direction: *direction,
                    first: Box::new(first_tree),
                    second: Box::new(second_tree),
                    split_percentage: *split_percentage,
                }
            },
            None => MosaicNode::Leaf("error".to_string()),
        }
    }
}

/// The tree representation of a numbered tree is the tree it was numbered from.
pub proof fn lemma_shape_numbered(tree: MosaicNode, start: int)
    ensures
        shape_of(numbered(tree, start)) == tree,
    decreases tree,
{
    match tree {
        MosaicNode::Leaf(_) => {},
        MosaicNode::Split { first, second, .. } => {
            lemma_shape_numbered(*first, start + 1);
            lemma_shape_numbered(*second, start + 1 + first.spec_node_count());
        },
    }
}

/// Reading back a layout built from a tree gives that tree again: for every tree, the layout
/// that `from_tree` builds (its nodes numbered in pre-order from 0) has `tree` as its tree
/// representation, which is what `to_tree` returns. Shape, directions, split percentages and
/// the order of the tiles all come back unchanged.
pub proof fn law_to_tree_inverts_from_tree(tree: MosaicNode, built: MosaicLayout)
    requires
        built.wf(),
        built@ == Some(numbered(tree, 0)),
    ensures
        built.shape() == Some(tree),
        built.tiles() == tree.leaves(),
{
    lemma_shape_numbered(tree, 0);
    lemma_shape_leaves(numbered(tree, 0));
}

/// Rebuilding a layout from its tree representation (as `from_tree(to_tree())` does) gives a
/// layout with the same tree representation, showing the same tiles in the same order.
pub proof fn law_rebuild_keeps_shape(layout: MosaicLayout, rebuilt: MosaicLayout)
    requires
        layout.wf(),
        layout@ is Some,
        rebuilt.wf(),
        rebuilt@ == Some(numbered(layout.shape()->0, 0)),
    ensures
        rebuilt.shape() == layout.shape(),
        rebuilt.tiles() == layout.tiles(),
{
    lemma_shape_numbered(layout.shape()->0, 0);
    law_same_shape_same_tiles(layout, rebuilt);
}

/// Two layouts with the same tree representation show the same tiles in the same order.
pub proof fn law_same_shape_same_tiles(a: MosaicLayout, b: MosaicLayout)
    requires
        a.wf(),
        b.wf(),
        a.shape() == b.shape(),
    ensures
        a.tiles() == b.tiles(),
{
    if let Some(ta) = a@ {
        lemma_shape_leaves(ta);
        lemma_shape_leaves(b@->0);
    }
}

} // verus!

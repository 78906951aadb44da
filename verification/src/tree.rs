use vstd::prelude::*;

use crate::node::Node;
use crate::types::{
    DropZone, NodeId, Percent, SplitDirection, TileId, DEFAULT_MAX_PERCENT, DEFAULT_MIN_PERCENT,
};

verus! {

/// The abstract shape of a layout: the tree that its node table encodes,
/// with every node's identifier and settings but without the parent links.
pub enum LTree {
    Tile { id: NodeId, tile_id: TileId, locked: bool },
    Split {
        id: NodeId,
        direction: SplitDirection,
        split_percentage: Percent,
        locked: bool,
        min_percentage: Percent,
        max_percentage: Percent,
        first: Box<LTree>,
        second: Box<LTree>,
    },
}

impl LTree {
    /// Identifier of the root node.
    pub open spec fn id(self) -> NodeId {
        match self {
            LTree::Tile { id, .. } => id,
            LTree::Split { id, .. } => id,
        }
    }

    /// Identifiers of all nodes.
    pub open spec fn ids(self) -> Set<NodeId>
        decreases self,
    {
        match self {
            LTree::Tile { id, .. } => set![id],
            LTree::Split { id, first, second, .. } => set![id] + first.ids() + second.ids(),
        }
    }

    /// Number of splits on the longest path from the root to a tile.
    pub open spec fn depth(self) -> nat
        decreases self,
    {
        match self {
            LTree::Tile { .. } => 0,
            LTree::Split { first, second, .. } => {
                let a = first.depth();
                let b = second.depth();
                1 + if a >= b {
                    a
                } else {
                    b
                }
            },
        }
    }

    /// Number of splits.
    pub open spec fn split_count(self) -> nat
        decreases self,
    {
        match self {
            LTree::Tile { .. } => 0,
            LTree::Split { first, second, .. } => 1 + first.split_count() + second.split_count(),
        }
    }

    /// Tile identifiers in reading order (first child before second child).
    pub open spec fn tiles(self) -> Seq<Seq<char>>
        decreases self,
    {
        match self {
            LTree::Tile { tile_id, .. } => seq![tile_id@],
            LTree::Split { first, second, .. } => first.tiles() + second.tiles(),
        }
    }

    /// No identifier occurs twice.
    pub open spec fn distinct(self) -> bool
        decreases self,
    {
        match self {
            LTree::Tile { .. } => true,
            LTree::Split { id, first, second, .. } => {
                &&& first.distinct()
                &&& second.distinct()
                &&& !first.ids().contains(id)
                &&& !second.ids().contains(id)
                &&& first.ids().disjoint(second.ids())
            },
        }
    }

    /// The table entry of the root node, given the identifier of its parent.
    pub open spec fn node_at(self, parent: Option<NodeId>) -> Node {
        match self {
            LTree::Tile { id, tile_id, locked } => Node::Tile { id, tile_id, parent, locked },
            LTree::Split {
                id,
                direction,
                split_percentage,
                locked,
                min_percentage,
                max_percentage,
                first,
                second,
            } => Node::Split {
                id,
                direction,
                first: first.id(),
                second: second.id(),
                split_percentage,
                parent,
                locked,
                min_percentage,
                max_percentage,
            },
        }
    }

    /// The subtree rooted at `k` (the whole tree when `k` does not occur).
    pub open spec fn subtree(self, k: NodeId) -> LTree
        decreases self,
    {
        match self {
            LTree::Tile { .. } => self,
            LTree::Split { id, first, second, .. } => {
                if id == k {
                    self
                } else if first.ids().contains(k) {
                    first.subtree(k)
                } else if second.ids().contains(k) {
                    second.subtree(k)
                } else {
                    self
                }
            },
        }
    }

    /// The parent of node `k`, given the parent `p` of the root.
    pub open spec fn parent_of(self, k: NodeId, p: Option<NodeId>) -> Option<NodeId>
        decreases self,
    {
        match self {
            LTree::Tile { .. } => p,
            LTree::Split { id, first, second, .. } => {
                if id == k {
                    p
                } else if first.ids().contains(k) {
                    first.parent_of(k, Some(id))
                } else if second.ids().contains(k) {
                    second.parent_of(k, Some(id))
                } else {
                    p
                }
            },
        }
    }

    /// The same split with other children.
    pub open spec fn with_children(self, f: LTree, s: LTree) -> LTree {
        match self {
            LTree::Tile { .. } => self,
            LTree::Split {
                id,
                direction,
                split_percentage,
                locked,
                min_percentage,
                max_percentage,
                ..
            } => LTree::Split {
                id,
                direction,
                split_percentage,
                locked,
                min_percentage,
                max_percentage,
                first: Box::new(f),
                second: Box::new(s),
            },
        }
    }

    /// The tree with the subtree rooted at `k` replaced by `r`.
    pub open spec fn replace(self, k: NodeId, r: LTree) -> LTree
        decreases self,
    {
        match self {
            LTree::Tile { id, .. } => if id == k {
                r
            } else {
                self
            },
            LTree::Split { id, first, second, .. } => {
                if id == k {
                    r
                } else if first.ids().contains(k) {
                    self.with_children(first.replace(k, r), *second)
                } else if second.ids().contains(k) {
                    self.with_children(*first, second.replace(k, r))
                } else {
                    self
                }
            },
        }
    }

    /// Tiles that come before the subtree rooted at `k`.
    pub open spec fn tiles_before(self, k: NodeId) -> Seq<Seq<char>>
        decreases self,
    {
        match self {
            LTree::Tile { .. } => seq![],
            LTree::Split { id, first, second, .. } => {
                if id == k {
                    seq![]
                } else if first.ids().contains(k) {
                    first.tiles_before(k)
                } else if second.ids().contains(k) {
                    first.tiles() + second.tiles_before(k)
                } else {
                    seq![]
                }
            },
        }
    }

    /// Tiles that come after the subtree rooted at `k`.
    pub open spec fn tiles_after(self, k: NodeId) -> Seq<Seq<char>>
        decreases self,
    {
        match self {
            LTree::Tile { .. } => seq![],
            LTree::Split { id, first, second, .. } => {
                if id == k {
                    seq![]
                } else if first.ids().contains(k) {
                    first.tiles_after(k) + second.tiles()
                } else if second.ids().contains(k) {
                    second.tiles_after(k)
                } else {
                    seq![]
                }
            },
        }
    }

    /// The node of the first tile (in reading order) whose identifier is `x`.
    pub open spec fn find(self, x: Seq<char>) -> Option<NodeId>
        decreases self,
    {
        match self {
            LTree::Tile { id, tile_id, .. } => if tile_id@ == x {
                Some(id)
            } else {
                None
            },
            LTree::Split { first, second, .. } => match first.find(x) {
                Some(k) => Some(k),
                None => second.find(x),
            },
        }
    }

    /// The other child of split `self`, where `k` is one of its children.
    pub open spec fn sibling_of(self, k: NodeId) -> LTree {
        match self {
            LTree::Tile { .. } => self,
            LTree::Split { first, second, .. } => if first.id() == k {
                *second
            } else {
                *first
            },
        }
    }

    /// Whether the root node is locked.
    pub open spec fn is_locked(self) -> bool {
        match self {
            LTree::Tile { locked, .. } => locked,
            LTree::Split { locked, .. } => locked,
        }
    }

    /// The same split with another share for its first child.
    pub open spec fn with_percentage(self, pct: Percent) -> LTree {
        match self {
            LTree::Tile { .. } => self,
            LTree::Split {
                id,
                direction,
                locked,
                min_percentage,
                max_percentage,
                first,
                second,
                ..
            } => LTree::Split {
                id,
                direction,
                split_percentage: pct,
                locked,
                min_percentage,
                max_percentage,
                first,
                second,
            },
        }
    }

    /// The first child of a split.
    pub open spec fn left(self) -> LTree {
        match self {
            LTree::Split { first, .. } => *first,
            LTree::Tile { .. } => self,
        }
    }

    /// The second child of a split.
    pub open spec fn right(self) -> LTree {
        match self {
            LTree::Split { second, .. } => *second,
            LTree::Tile { .. } => self,
        }
    }
}

/// `m` holds, for every node of `t`, the entry that `t` gives it; `p` is the parent of the root.
pub open spec fn represents(m: Map<NodeId, Node>, t: LTree, p: Option<NodeId>) -> bool
    decreases t,
{
    &&& m.contains_key(t.id())
    &&& m[t.id()] == t.node_at(p)
    &&& match t {
        LTree::Tile { .. } => true,
        LTree::Split { id, first, second, .. } => {
            &&& represents(m, *first, Some(id))
            &&& represents(m, *second, Some(id))
        },
    }
}

/// A split entry whose child `old` is replaced by `new`.
pub open spec fn relink(n: Node, old: NodeId, new: NodeId) -> Node {
    match n {
        Node::Split {
            id,
            direction,
            first,
            second,
            split_percentage,
            parent,
            locked,
            min_percentage,
            max_percentage,
        } => Node::Split {
            id,
            direction,
            first: if first == old {
                new
            } else {
                first
            },
            second: if first != old && second == old {
                new
            } else {
                second
            },
            split_percentage,
            parent,
            locked,
            min_percentage,
            max_percentage,
        },
        Node::Tile { .. } => n,
    }
}

/// The identifier set of a tree is finite.
pub proof fn lemma_ids_finite(t: LTree)
    ensures
        t.ids().finite(),
        t.ids().contains(t.id()),
    decreases t,
{
    match t {
        LTree::Tile { .. } => {},
        LTree::Split { first, second, .. } => {
            lemma_ids_finite(*first);
            lemma_ids_finite(*second);
        },
    }
}

/// A tree has more nodes than its depth.
pub proof fn lemma_depth_below_count(t: LTree)
    requires
        t.distinct(),
    ensures
        t.depth() < t.ids().len(),
    decreases t,
{
    lemma_ids_finite(t);
    match t {
        LTree::Tile { id, .. } => {
            assert(t.ids() =~= set![id]);
        },
        LTree::Split { id, first, second, .. } => {
            lemma_depth_below_count(*first);
            lemma_depth_below_count(*second);
            lemma_ids_finite(*first);
            lemma_ids_finite(*second);
            vstd::set_lib::lemma_len_subset(first.ids().insert(id), t.ids());
            vstd::set_lib::lemma_len_subset(second.ids().insert(id), t.ids());
        },
    }
}

/// Entries of nodes outside a tree do not matter to it.
pub proof fn lemma_represents_frame(m1: Map<NodeId, Node>, m2: Map<NodeId, Node>, t: LTree, p: Option<NodeId>)
    requires
        represents(m1, t, p),
        forall|j: NodeId| #[trigger] t.ids().contains(j) ==> m2.contains_key(j) && m2[j] == m1[j],
    ensures
        represents(m2, t, p),
    decreases t,
{
    lemma_ids_finite(t);
    match t {
        LTree::Tile { .. } => {},
        LTree::Split { id, first, second, .. } => {
            assert forall|j: NodeId| #[trigger] first.ids().contains(j) implies t.ids().contains(j) by {}
            assert forall|j: NodeId| #[trigger] second.ids().contains(j) implies t.ids().contains(j) by {}
            lemma_represents_frame(m1, m2, *first, Some(id));
            lemma_represents_frame(m1, m2, *second, Some(id));
        },
    }
}

/// A tree whose root entry now names parent `q` represents the tree under `q`.
pub proof fn lemma_represents_reparent(
    m1: Map<NodeId, Node>,
    m2: Map<NodeId, Node>,
    t: LTree,
    p: Option<NodeId>,
    q: Option<NodeId>,
)
    requires
        represents(m1, t, p),
        t.distinct(),
        m2.contains_key(t.id()),
        m2[t.id()] == t.node_at(q),
        forall|j: NodeId|
            #[trigger] t.ids().contains(j) && j != t.id() ==> m2.contains_key(j) && m2[j] == m1[j],
    ensures
        represents(m2, t, q),
{
    match t {
        LTree::Tile { .. } => {},
        LTree::Split { id, first, second, .. } => {
            assert forall|j: NodeId| #[trigger] first.ids().contains(j) implies t.ids().contains(j)
                && j != t.id() by {}
            assert forall|j: NodeId| #[trigger] second.ids().contains(j) implies t.ids().contains(j)
                && j != t.id() by {}
            lemma_represents_frame(m1, m2, *first, Some(id));
            lemma_represents_frame(m1, m2, *second, Some(id));
        },
    }
}

/// The entry of any node of a represented tree is the one the tree gives it.
pub proof fn lemma_represents_entry(m: Map<NodeId, Node>, t: LTree, p: Option<NodeId>, k: NodeId)
    requires
        represents(m, t, p),
        t.ids().contains(k),
    ensures
        m.contains_key(k),
        m[k] == t.subtree(k).node_at(t.parent_of(k, p)),
        represents(m, t.subtree(k), t.parent_of(k, p)),
    decreases t,
{
    match t {
        LTree::Tile { .. } => {},
        LTree::Split { id, first, second, .. } => {
            if id == k {
            } else if first.ids().contains(k) {
                lemma_represents_entry(m, *first, Some(id), k);
            } else {
                lemma_represents_entry(m, *second, Some(id), k);
            }
        },
    }
}

/// Facts about the subtree at `k` and the parent of `k`.
pub proof fn lemma_subtree_facts(t: LTree, k: NodeId, p: Option<NodeId>)
    requires
        t.distinct(),
        t.ids().contains(k),
    ensures
        t.subtree(k).id() == k,
        t.subtree(k).distinct(),
        t.subtree(k).ids().subset_of(t.ids()),
        k == t.id() ==> t.subtree(k) == t && t.parent_of(k, p) == p,
        k != t.id() ==> (t.parent_of(k, p) matches Some(q) && t.ids().contains(q)
            && !t.subtree(k).ids().contains(q) && t.subtree(q) is Split
            && ((t.subtree(q)->first).id() == k || (t.subtree(q)->second).id() == k)),
    decreases t,
{
    lemma_ids_finite(t);
    match t {
        LTree::Tile { .. } => {},
        LTree::Split { id, first, second, .. } => {
            lemma_ids_finite(*first);
            lemma_ids_finite(*second);
            if id == k {
            } else if first.ids().contains(k) {
                lemma_subtree_facts(*first, k, Some(id));
                if first.id() != k {
                    let q = first.parent_of(k, Some(id))->0;
                    assert(t.subtree(q) == first.subtree(q));
                }
            } else {
                lemma_subtree_facts(*second, k, Some(id));
                if second.id() != k {
                    let q = second.parent_of(k, Some(id))->0;
                    assert(t.subtree(q) == second.subtree(q));
                }
            }
        },
    }
}

/// Reading order of the tiles around the subtree at `k`, before and after replacing it.
pub proof fn lemma_replace_tiles(t: LTree, k: NodeId, r: LTree)
    requires
        t.ids().contains(k),
    ensures
        t.tiles() == t.tiles_before(k) + t.subtree(k).tiles() + t.tiles_after(k),
        t.replace(k, r).tiles() == t.tiles_before(k) + r.tiles() + t.tiles_after(k),
    decreases t,
{
    match t {
        LTree::Tile { .. } => {
            assert(t.tiles() =~= seq![] + t.tiles() + seq![]);
            assert(r.tiles() =~= seq![] + r.tiles() + seq![]);
        },
        LTree::Split { id, first, second, .. } => {
            if id == k {
                assert(t.tiles() =~= seq![] + t.tiles() + seq![]);
                assert(r.tiles() =~= seq![] + r.tiles() + seq![]);
            } else if first.ids().contains(k) {
                lemma_replace_tiles(*first, k, r);
                assert(t.tiles() =~= t.tiles_before(k) + t.subtree(k).tiles() + t.tiles_after(k));
                assert(t.replace(k, r).tiles() =~= t.tiles_before(k) + r.tiles() + t.tiles_after(k));
            } else {
                lemma_replace_tiles(*second, k, r);
                assert(t.tiles() =~= t.tiles_before(k) + t.subtree(k).tiles() + t.tiles_after(k));
                assert(t.replace(k, r).tiles() =~= t.tiles_before(k) + r.tiles() + t.tiles_after(k));
            }
        },
    }
}

/// Replacing the subtree at `k` by `r`: a table that agrees with the old one outside the
/// replaced part, relinks the parent of `k` to `r`, and represents `r`, represents the new tree.
pub proof fn lemma_replace(
    m: Map<NodeId, Node>,
    m2: Map<NodeId, Node>,
    t: LTree,
    p: Option<NodeId>,
    k: NodeId,
    r: LTree,
)
    requires
        represents(m, t, p),
        t.distinct(),
        t.ids().contains(k),
        represents(m2, r, t.parent_of(k, p)),
        r.distinct(),
        r.ids().disjoint(t.ids().difference(t.subtree(k).ids())),
        forall|j: NodeId|
            #[trigger] t.ids().contains(j) && !t.subtree(k).ids().contains(j) && Some(j) != t.parent_of(k, p)
                ==> m2.contains_key(j) && m2[j] == m[j],
        match t.parent_of(k, p) {
            Some(q) => t.ids().contains(q) ==> m2.contains_key(q) && m2[q] == relink(m[q], k, r.id()),
            None => true,
        },
    ensures
        represents(m2, t.replace(k, r), p),
        t.replace(k, r).distinct(),
        t.replace(k, r).ids() == t.ids().difference(t.subtree(k).ids()).union(r.ids()),
    decreases t,
{
    lemma_ids_finite(t);
    lemma_subtree_facts(t, k, p);
    match t {
        LTree::Tile { .. } => {
            assert(t.ids().difference(t.subtree(k).ids()) =~= Set::empty());
            assert(t.replace(k, r).ids() =~= t.ids().difference(t.subtree(k).ids()).union(r.ids()));
        },
        LTree::Split { id, first, second, .. } => {
            lemma_ids_finite(*first);
            lemma_ids_finite(*second);
            if id == k {
                assert(t.ids().difference(t.subtree(k).ids()) =~= Set::empty());
                assert(t.replace(k, r).ids() =~= t.ids().difference(t.subtree(k).ids()).union(r.ids()));
            } else if first.ids().contains(k) {
                let sub = first.subtree(k);
                lemma_subtree_facts(*first, k, Some(id));
                assert(t.subtree(k) == sub);
                assert(t.parent_of(k, p) == first.parent_of(k, Some(id)));
                let f2 = first.replace(k, r);
                assert forall|j: NodeId|
                    #[trigger] first.ids().contains(j) && !first.subtree(k).ids().contains(j) && Some(j)
                        != first.parent_of(k, Some(id)) implies m2.contains_key(j) && m2[j] == m[j] by {
                    assert(t.ids().contains(j));
                }
                assert(r.ids().disjoint(first.ids().difference(first.subtree(k).ids())));
                lemma_replace(m, m2, *first, Some(id), k, r);
                assert(f2.ids() == first.ids().difference(sub.ids()).union(r.ids()));
                // the second child is untouched
                assert forall|j: NodeId| #[trigger] second.ids().contains(j) implies m2.contains_key(j)
                    && m2[j] == m[j] by {
                    assert(t.ids().contains(j));
                    assert(!sub.ids().contains(j));
                    if Some(j) == t.parent_of(k, p) {
                        assert(first.ids().contains(j) || j == id);
                    }
                }
                lemma_represents_frame(m, m2, *second, Some(id));
                // the split's own entry
                if first.id() == k {
                    assert(f2 == r);
                    assert(m2[id] == relink(m[id], k, r.id()));
                } else {
                    assert(f2.id() == first.id());
                    assert(!t.subtree(k).ids().contains(id));
                    assert(Some(id) != t.parent_of(k, p));
                    assert(m2[id] == m[id]);
                }
                assert(t.replace(k, r) == t.with_children(f2, *second));
                assert(!r.ids().contains(id));
                assert(r.ids().disjoint(second.ids()));
                assert(t.replace(k, r).ids() =~= t.ids().difference(t.subtree(k).ids()).union(r.ids()));
            } else {
                let sub = second.subtree(k);
                lemma_subtree_facts(*second, k, Some(id));
                assert(t.subtree(k) == sub);
                assert(t.parent_of(k, p) == second.parent_of(k, Some(id)));
                let s2 = second.replace(k, r);
                assert forall|j: NodeId|
                    #[trigger] second.ids().contains(j) && !second.subtree(k).ids().contains(j) && Some(j)
                        != second.parent_of(k, Some(id)) implies m2.contains_key(j) && m2[j] == m[j] by {
                    assert(t.ids().contains(j));
                }
                assert(r.ids().disjoint(second.ids().difference(second.subtree(k).ids())));
                lemma_replace(m, m2, *second, Some(id), k, r);
                assert(s2.ids() == second.ids().difference(sub.ids()).union(r.ids()));
                assert forall|j: NodeId| #[trigger] first.ids().contains(j) implies m2.contains_key(j)
                    && m2[j] == m[j] by {
                    assert(t.ids().contains(j));
                    assert(!sub.ids().contains(j));
                    if Some(j) == t.parent_of(k, p) {
                        assert(second.ids().contains(j) || j == id);
                    }
                }
                lemma_represents_frame(m, m2, *first, Some(id));
                if second.id() == k {
                    assert(s2 == r);
                    assert(first.id() != k);
                    assert(m2[id] == relink(m[id], k, r.id()));
                } else {
                    assert(s2.id() == second.id());
                    assert(!t.subtree(k).ids().contains(id));
                    assert(Some(id) != t.parent_of(k, p));
                    assert(m2[id] == m[id]);
                }
                assert(t.replace(k, r) == t.with_children(*first, s2));
                assert(!r.ids().contains(id));
                assert(r.ids().disjoint(first.ids()));
                assert(t.replace(k, r).ids() =~= t.ids().difference(t.subtree(k).ids()).union(r.ids()));
            }
        },
    }
}

/// The split that takes the place of tile `leaf` when a new tile `new_tile` (node `n`) is put
/// beside it: the new tile comes first when `new_first` holds.
pub open spec fn split_with(
    leaf: LTree,
    s: NodeId,
    n: NodeId,
    direction: SplitDirection,
    new_tile: TileId,
    new_first: bool,
    pct: Percent,
) -> LTree {
    let nt = LTree::Tile { id: n, tile_id: new_tile, locked: false };
    LTree::Split {
        id: s,
        direction,
        split_percentage: pct,
        locked: false,
        min_percentage: DEFAULT_MIN_PERCENT,
        max_percentage: DEFAULT_MAX_PERCENT,
        first: Box::new(if new_first { nt } else { leaf }),
        second: Box::new(if new_first { leaf } else { nt }),
    }
}

/// The subtree at `k` inside the subtree at `q` is the subtree at `k`.
pub proof fn lemma_subtree_nested(t: LTree, q: NodeId, k: NodeId)
    requires
        t.distinct(),
        t.ids().contains(q),
        t.subtree(q).ids().contains(k),
    ensures
        t.subtree(q).subtree(k) == t.subtree(k),
        t.ids().contains(k),
    decreases t,
{
    lemma_ids_finite(t);
    match t {
        LTree::Tile { .. } => {},
        LTree::Split { id, first, second, .. } => {
            lemma_ids_finite(*first);
            lemma_ids_finite(*second);
            if id == q {
            } else if first.ids().contains(q) {
                lemma_subtree_facts(*first, q, Some(id));
                lemma_subtree_nested(*first, q, k);
            } else {
                lemma_subtree_facts(*second, q, Some(id));
                lemma_subtree_nested(*second, q, k);
            }
        },
    }
}

/// Where `find` points.
pub proof fn lemma_find(t: LTree, x: Seq<char>)
    requires
        t.distinct(),
    ensures
        t.find(x) is Some <==> t.tiles().contains(x),
        t.find(x) matches Some(k) ==> t.ids().contains(k) && t.subtree(k) is Tile
            && (t.subtree(k)->tile_id)@ == x && !t.tiles_before(k).contains(x)
            && t.tiles() == t.tiles_before(k) + seq![x] + t.tiles_after(k),
    decreases t,
{
    lemma_ids_finite(t);
    match t {
        LTree::Tile { tile_id, .. } => {
            if tile_id@ == x {
                assert(t.tiles()[0] == x);
                assert(t.tiles() =~= t.tiles_before(t.id()) + seq![x] + t.tiles_after(t.id()));
            }
        },
        LTree::Split { id, first, second, .. } => {
            lemma_find(*first, x);
            lemma_find(*second, x);
            lemma_ids_finite(*first);
            lemma_ids_finite(*second);
            if t.tiles().contains(x) {
                let i = choose|i: int| 0 <= i < t.tiles().len() && t.tiles()[i] == x;
                if i < first.tiles().len() {
                    assert(first.tiles()[i] == x);
                } else {
                    assert(second.tiles()[i - first.tiles().len()] == x);
                }
            }
            if first.tiles().contains(x) {
                let i = choose|i: int| 0 <= i < first.tiles().len() && first.tiles()[i] == x;
                assert(t.tiles()[i] == x);
            }
            if second.tiles().contains(x) {
                let i = choose|i: int| 0 <= i < second.tiles().len() && second.tiles()[i] == x;
                assert(t.tiles()[i + first.tiles().len()] == x);
            }
            match first.find(x) {
                Some(k) => {
                    assert(!second.ids().contains(k));
                    assert(t.tiles_before(k) == first.tiles_before(k));
                    assert(t.tiles() =~= t.tiles_before(k) + seq![x] + t.tiles_after(k));
                },
                None => {
                    match second.find(x) {
                        Some(k) => {
                            assert(!first.ids().contains(k));
                            let b = t.tiles_before(k);
                            assert(b == first.tiles() + second.tiles_before(k));
                            assert forall|i: int| 0 <= i < b.len() implies b[i] != x by {
                                if i < first.tiles().len() {
                                    assert(b[i] == first.tiles()[i]);
                                } else {
                                    assert(b[i] == second.tiles_before(k)[i - first.tiles().len()]);
                                }
                            }
                            assert(t.tiles() =~= t.tiles_before(k) + seq![x] + t.tiles_after(k));
                        },
                        None => {},
                    }
                },
            }
        },
    }
}

/// The subtree at the root's own identifier is the whole tree.
pub proof fn lemma_subtree_self(t: LTree)
    ensures
        t.subtree(t.id()) == t,
{
    match t {
        LTree::Tile { .. } => {},
        LTree::Split { .. } => {},
    }
}

/// The first position of `x` in `a + [x] + b` when `a` does not hold `x`, and what removing
/// it or inserting `y` next to it gives.
pub proof fn lemma_seq_at<A>(a: Seq<A>, x: A, b: Seq<A>, y: A)
    requires
        !a.contains(x),
    ensures
        (a + seq![x] + b).contains(x),
        (a + seq![x] + b).index_of_first(x) == Some(a.len() as int),
        (a + seq![x] + b).remove(a.len() as int) == a + b,
        (a + seq![x] + b).insert(a.len() as int + 1, y) == a + seq![x, y] + b,
        (a + seq![x] + b).insert(a.len() as int, y) == a + seq![y, x] + b,
{
    let s = a + seq![x] + b;
    assert(s[a.len() as int] == x);
    s.index_of_first_ensures(x);
    let i = s.index_of_first(x)->0;
    if i < a.len() {
        assert(a[i] == x);
    }
    assert(i == a.len());
    assert(s.remove(a.len() as int) =~= a + b);
    assert(s.insert(a.len() as int + 1, y) =~= a + seq![x, y] + b);
    assert(s.insert(a.len() as int, y) =~= a + seq![y, x] + b);
}

/// The tiles before and after node `k` inside the subtree at `q`.
pub proof fn lemma_tiles_nested(t: LTree, q: NodeId, k: NodeId)
    requires
        t.distinct(),
        t.ids().contains(q),
        t.subtree(q).ids().contains(k),
    ensures
        t.tiles_before(k) == t.tiles_before(q) + t.subtree(q).tiles_before(k),
        t.tiles_after(k) == t.subtree(q).tiles_after(k) + t.tiles_after(q),
    decreases t,
{
    lemma_ids_finite(t);
    match t {
        LTree::Tile { .. } => {
            assert(t.tiles_before(k) =~= t.tiles_before(q) + t.subtree(q).tiles_before(k));
            assert(t.tiles_after(k) =~= t.subtree(q).tiles_after(k) + t.tiles_after(q));
        },
        LTree::Split { id, first, second, .. } => {
            lemma_ids_finite(*first);
            lemma_ids_finite(*second);
            if id == q {
                assert(t.tiles_before(k) =~= t.tiles_before(q) + t.subtree(q).tiles_before(k));
                assert(t.tiles_after(k) =~= t.subtree(q).tiles_after(k) + t.tiles_after(q));
            } else if first.ids().contains(q) {
                lemma_subtree_facts(*first, q, Some(id));
                assert(first.ids().contains(k));
                lemma_tiles_nested(*first, q, k);
                assert(t.tiles_before(k) =~= t.tiles_before(q) + t.subtree(q).tiles_before(k));
                assert(t.tiles_after(k) =~= t.subtree(q).tiles_after(k) + t.tiles_after(q));
            } else {
                lemma_subtree_facts(*second, q, Some(id));
                assert(second.ids().contains(k));
                assert(!first.ids().contains(k));
                lemma_tiles_nested(*second, q, k);
                assert(t.tiles_before(k) =~= t.tiles_before(q) + t.subtree(q).tiles_before(k));
                assert(t.tiles_after(k) =~= t.subtree(q).tiles_after(k) + t.tiles_after(q));
            }
        },
    }
}

/// The tree after tile `x` gets tile `new_tile` (node `n`) beside it, under a new split `s`.
pub open spec fn split_tree(
    t: LTree,
    x: Seq<char>,
    s: NodeId,
    n: NodeId,
    direction: SplitDirection,
    new_tile: TileId,
    new_first: bool,
    pct: Percent,
) -> LTree {
    let k = t.find(x)->0;
    t.replace(k, split_with(t.subtree(k), s, n, direction, new_tile, new_first, pct))
}

/// The tree after tile `x` is removed: its sibling takes the place of their split
/// (`None` when `x` was the only tile).
pub open spec fn close_tree(t: LTree, x: Seq<char>) -> Option<LTree> {
    let k = t.find(x)->0;
    if t.id() == k {
        None
    } else {
        let q = t.parent_of(k, None)->0;
        Some(t.replace(q, t.subtree(q).sibling_of(k)))
    }
}

/// The direction of the split made when a tile is dropped on `zone`.
pub open spec fn zone_direction(zone: DropZone) -> SplitDirection {
    match zone {
        DropZone::Left | DropZone::Right => SplitDirection::Horizontal,
        DropZone::Top | DropZone::Bottom => SplitDirection::Vertical,
    }
}

/// Whether a tile dropped on `zone` comes first in the new split.
pub open spec fn zone_first(zone: DropZone) -> bool {
    match zone {
        DropZone::Left | DropZone::Top => true,
        DropZone::Right | DropZone::Bottom => false,
    }
}

/// Identifiers of a tree after a replacement.
pub proof fn lemma_replace_ids(t: LTree, k: NodeId, r: LTree)
    requires
        t.distinct(),
        t.ids().contains(k),
    ensures
        t.replace(k, r).ids() == t.ids().difference(t.subtree(k).ids()).union(r.ids()),
    decreases t,
{
    lemma_ids_finite(t);
    lemma_subtree_facts(t, k, None);
    match t {
        LTree::Tile { .. } => {
            assert(t.replace(k, r).ids() =~= t.ids().difference(t.subtree(k).ids()).union(r.ids()));
        },
        LTree::Split { id, first, second, .. } => {
            lemma_ids_finite(*first);
            lemma_ids_finite(*second);
            if id == k {
                assert(t.replace(k, r).ids() =~= t.ids().difference(t.subtree(k).ids()).union(r.ids()));
            } else if first.ids().contains(k) {
                lemma_subtree_facts(*first, k, None);
                lemma_replace_ids(*first, k, r);
                assert(t.replace(k, r).ids() =~= t.ids().difference(t.subtree(k).ids()).union(r.ids()));
            } else {
                lemma_subtree_facts(*second, k, None);
                lemma_replace_ids(*second, k, r);
                assert(t.replace(k, r).ids() =~= t.ids().difference(t.subtree(k).ids()).union(r.ids()));
            }
        },
    }
}

/// Inside the replacement, subtrees and parents are those of the replacement, and replacing
/// the replacement again is the same as replacing once.
pub proof fn lemma_replace_inside(t: LTree, k: NodeId, r: LTree, j: NodeId, p: Option<NodeId>, r2: LTree)
    requires
        t.distinct(),
        t.ids().contains(k),
        r.ids().disjoint(t.ids().difference(t.subtree(k).ids())),
        r.ids().contains(j),
        r.ids().contains(r.id()),
    ensures
        t.replace(k, r).subtree(j) == r.subtree(j),
        t.replace(k, r).parent_of(j, p) == r.parent_of(j, t.parent_of(k, p)),
        t.replace(k, r).replace(r.id(), r2) == t.replace(k, r2),
    decreases t,
{
    lemma_ids_finite(t);
    lemma_subtree_facts(t, k, p);
    match t {
        LTree::Tile { .. } => {},
        LTree::Split { id, first, second, .. } => {
            lemma_ids_finite(*first);
            lemma_ids_finite(*second);
            if id == k {
            } else if first.ids().contains(k) {
                lemma_subtree_facts(*first, k, Some(id));
                lemma_replace_ids(*first, k, r);
                assert(t.ids().contains(id) && !t.subtree(k).ids().contains(id));
                assert(!r.ids().contains(id));
                assert(r.ids().disjoint(first.ids().difference(first.subtree(k).ids())));
                lemma_replace_inside(*first, k, r, j, Some(id), r2);
                assert(first.replace(k, r).ids().contains(j));
                assert(first.replace(k, r).ids().contains(r.id()));
            } else {
                lemma_subtree_facts(*second, k, Some(id));
                lemma_replace_ids(*second, k, r);
                assert(t.ids().contains(id) && !t.subtree(k).ids().contains(id));
                assert(!r.ids().contains(id));
                assert(r.ids().disjoint(second.ids().difference(second.subtree(k).ids())));
                assert forall|i: NodeId| r.ids().contains(i) implies !first.ids().contains(i) by {
                    if first.ids().contains(i) {
                        assert(t.ids().difference(t.subtree(k).ids()).contains(i));
                    }
                }
                lemma_replace_inside(*second, k, r, j, Some(id), r2);
                assert(second.replace(k, r).ids().contains(j));
                assert(second.replace(k, r).ids().contains(r.id()));
            }
        },
    }
}

/// Putting back the subtree at `k` changes nothing.
pub proof fn lemma_replace_self(t: LTree, k: NodeId)
    requires
        t.distinct(),
        t.ids().contains(k),
    ensures
        t.replace(k, t.subtree(k)) == t,
    decreases t,
{
    match t {
        LTree::Tile { .. } => {},
        LTree::Split { id, first, second, .. } => {
            if id == k {
            } else if first.ids().contains(k) {
                lemma_replace_self(*first, k);
            } else {
                lemma_replace_self(*second, k);
            }
        },
    }
}

/// The first tile `y` of a tree with a replaced part is the first of the replacement, when
/// no tile before the part is `y`.
pub proof fn lemma_find_replace(t: LTree, k: NodeId, r: LTree, y: Seq<char>)
    requires
        t.distinct(),
        t.ids().contains(k),
        !t.tiles_before(k).contains(y),
        r.find(y) is Some,
    ensures
        t.replace(k, r).find(y) == r.find(y),
    decreases t,
{
    lemma_ids_finite(t);
    match t {
        LTree::Tile { .. } => {},
        LTree::Split { id, first, second, .. } => {
            lemma_ids_finite(*first);
            lemma_ids_finite(*second);
            if id == k {
            } else if first.ids().contains(k) {
                lemma_find_replace(*first, k, r, y);
            } else {
                assert(!first.ids().contains(k));
                lemma_find(*first, y);
                if first.tiles().contains(y) {
                    let i = choose|i: int| 0 <= i < first.tiles().len() && first.tiles()[i] == y;
                    assert(t.tiles_before(k)[i] == y);
                }
                assert forall|i: int| 0 <= i < second.tiles_before(k).len() implies second.tiles_before(k)[i]
                    != y by {
                    assert(t.tiles_before(k)[i + first.tiles().len()] == second.tiles_before(k)[i]);
                }
                lemma_find_replace(*second, k, r, y);
            }
        },
    }
}

/// A binary tree has one more tile than it has splits.
pub proof fn lemma_tiles_count(t: LTree)
    ensures
        t.tiles().len() == t.split_count() + 1,
    decreases t,
{
    match t {
        LTree::Tile { .. } => {},
        LTree::Split { first, second, .. } => {
            lemma_tiles_count(*first);
            lemma_tiles_count(*second);
        },
    }
}

/// Taking out the first `x` and putting it back at any place keeps the same elements.
pub proof fn lemma_move_multiset<A>(s: Seq<A>, x: A, j: int)
    requires
        s.contains(x),
        0 <= j <= s.len() - 1,
    ensures
        ({
            let rest = s.remove(s.index_of_first(x)->0);
            rest.insert(j, x).to_multiset() == s.to_multiset()
        }),
{
    broadcast use vstd::seq_lib::group_to_multiset_ensures;

    s.index_of_first_ensures(x);
    let i = s.index_of_first(x)->0;
    let rest = s.remove(i);
    let u = rest.insert(j, x);
    assert(u.remove(j) =~= rest);
    assert(u[j] == x);
    assert(rest.to_multiset() =~= s.to_multiset().remove(x));
    assert(u.remove(j).to_multiset() =~= u.to_multiset().remove(x));
    assert(u.to_multiset().count(x) > 0) by {
        assert(u.contains(x));
    }
    assert(s.to_multiset().count(x) > 0) by {
        assert(s.contains(x));
    }
    assert(u.to_multiset() =~= s.to_multiset());
}

} // verus!

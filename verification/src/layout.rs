use std::collections::HashMap;

use vstd::prelude::*;

use crate::node::Node;
use crate::tree::{
    lemma_depth_below_count, lemma_find, lemma_ids_finite, lemma_replace, lemma_replace_tiles, lemma_represents_entry,
    lemma_represents_frame, lemma_represents_reparent, lemma_seq_at, lemma_subtree_facts, lemma_subtree_nested, lemma_subtree_self, lemma_tiles_nested, lemma_move_multiset, lemma_find_replace, lemma_replace_inside, lemma_replace_self,
    close_tree, relink, represents, split_tree, lemma_replace_ids, split_with, zone_direction, zone_first, LTree,
};
use crate::types::{
    clamp_percent, clamp_spec, DropZone, NodeId, Percent, SplitDirection, TileId, DEFAULT_MAX_PERCENT,
    DEFAULT_MIN_PERCENT, DEFAULT_SPLIT,
};

verus! {

broadcast use vstd::std_specs::hash::group_hash_axioms;

/// A tiling layout: a binary tree of splits and tiles, stored as a table of nodes
/// keyed by node identifier, so that a node is found in constant time.
pub struct MosaicLayout {
    nodes: HashMap<NodeId, Node>,
    root: Option<NodeId>,
    next_id: NodeId,
    tree: Ghost<Option<LTree>>,
}

impl Clone for MosaicLayout {
    /// A copy with the same tree, the same node table and the same next identifier.
    fn clone(&self) -> (r: Self)
        ensures
            r@ == self@,
            r.spec_next_id() == self.spec_next_id(),
            self.wf() ==> r.wf(),
    {
        MosaicLayout { nodes: self.nodes.clone(), root: self.root, next_id: self.next_id, tree: self.tree }
    }
}

impl View for MosaicLayout {
    type V = Option<LTree>;

    closed spec fn view(&self) -> Option<LTree> {
        self.tree@
    }
}

impl MosaicLayout {
    /// The node table encodes the tree `self@`, and every node identifier is below the next one to be handed out.
    pub closed spec fn wf(&self) -> bool {
        &&& match self.tree@ {
            None => self.root is None && self.nodes@.dom() =~= Set::<NodeId>::empty(),
            Some(t) => {
                &&& self.root == Some(t.id())
                &&& represents(self.nodes@, t, None)
                &&& t.distinct()
                &&& self.nodes@.dom() == t.ids()
            },
        }
        &&& forall|j: NodeId| #[trigger] self.nodes@.dom().contains(j) ==> j < self.next_id
    }

    /// The identifier that the next new node receives.
    pub closed spec fn spec_next_id(&self) -> NodeId {
        self.next_id
    }

    /// The tiles in reading order.
    pub open spec fn tiles(&self) -> Seq<Seq<char>> {
        match self@ {
            None => seq![],
            Some(t) => t.tiles(),
        }
    }

    /// Whether a tile with identifier `x` is shown.
    pub open spec fn has_tile(&self, x: Seq<char>) -> bool {
        self.tiles().contains(x)
    }

    /// The table entry of node `k`, if the layout has such a node.
    pub open spec fn entry(&self, k: NodeId) -> Option<Node> {
        match self@ {
            None => None,
            Some(t) => if t.ids().contains(k) {
                Some(t.subtree(k).node_at(t.parent_of(k, None)))
            } else {
                None
            },
        }
    }

    /// Number of splits on the longest path from the root to a tile (0 when empty).
    pub open spec fn spec_depth(&self) -> nat {
        match self@ {
            None => 0,
            Some(t) => t.depth(),
        }
    }

    /// The node table.
    pub(crate) closed spec fn node_table(&self) -> Map<NodeId, Node> {
        self.nodes@
    }

    /// What well-formedness says of the node table.
    pub(crate) proof fn lemma_wf_facts(&self)
        requires
            self.wf(),
        ensures
            match self@ {
                Some(t) => represents(self.node_table(), t, None) && t.distinct()
                    && self.node_table().dom() == t.ids(),
                None => self.node_table().dom() == Set::<NodeId>::empty(),
            },
    {
    }

    /// The identifier of the root node.
    pub(crate) fn root_id(&self) -> (r: Option<NodeId>)
        requires
            self.wf(),
        ensures
            match r {
                Some(x) => self@ matches Some(t) && x == t.id(),
                None => self@ is None,
            },
    {
        self.root
    }

    /// The entry of node `id` in the node table.
    pub(crate) fn node_entry(&self, id: NodeId) -> (r: Option<&Node>)
        ensures
            match r {
                Some(n) => self.node_table().contains_key(id) && *n == self.node_table()[id],
                None => !self.node_table().contains_key(id),
            },
    {
        self.nodes.get(&id)
    }

    /// A layout from a node table that encodes `tree`.
    pub(crate) fn from_parts(
        nodes: HashMap<NodeId, Node>,
        root: NodeId,
        next_id: NodeId,
        tree: Ghost<LTree>,
    ) -> (r: Self)
        requires
            represents(nodes@, tree@, None),
            tree@.distinct(),
            tree@.id() == root,
            nodes@.dom() == tree@.ids(),
            forall|j: NodeId| #[trigger] nodes@.dom().contains(j) ==> j < next_id,
        ensures
            r.wf(),
            r@ == Some(tree@),
            r.spec_next_id() == next_id,
    {
        MosaicLayout { nodes, root: Some(root), next_id, tree: Ghost(Some(tree@)) }
    }

    /// A layout showing a single tile.
    pub fn new(tile_id: TileId) -> (r: Self)
        ensures
            r.wf(),
            r@ == Some(LTree::Tile { id: 0, tile_id, locked: false }),
            r.spec_next_id() == 1,
    {
        let ghost t = LTree::Tile { id: 0, tile_id, locked: false };
        let mut nodes: HashMap<NodeId, Node> = HashMap::new();
        nodes.insert(0, Node::Tile { id: 0, tile_id, parent: None, locked: false });
        let r = MosaicLayout { nodes, root: Some(0), next_id: 1, tree: Ghost(Some(t)) };
        proof {
            assert(r.nodes@.dom() =~= t.ids());
            assert(t.tiles() =~= seq![t.tiles()[0]]);
        }
        r
    }

    /// A layout without any tile.
    pub fn empty() -> (r: Self)
        ensures
            r.wf(),
            r@ is None,
            r.spec_next_id() == 0,
    {
        let nodes: HashMap<NodeId, Node> = HashMap::new();
        MosaicLayout { nodes, root: None, next_id: 0, tree: Ghost(None) }
    }

    /// The identifier of the root node, if the layout is not empty.
    pub fn root(&self) -> (r: Option<&NodeId>)
        requires
            self.wf(),
        ensures
            match r {
                Some(x) => self@ matches Some(t) && *x == t.id(),
                None => self@ is None,
            },
    {
        self.root.as_ref()
    }

    /// The table entry of node `id`.
    pub fn get_node(&self, id: &NodeId) -> (r: Option<&Node>)
        requires
            self.wf(),
        ensures
            match r {
                Some(n) => self.entry(*id) == Some(*n),
                None => self.entry(*id) is None,
            },
    {
        let r = self.nodes.get(id);
        proof {
            if let Some(t) = self.tree@ {
                if t.ids().contains(*id) {
                    lemma_represents_entry(self.nodes@, t, None, *id);
                }
            }
        }
        r
    }

    /// Appends the tiles of the subtree `t`, rooted at `id`, in reading order.
    fn collect_tiles(
        &self,
        id: NodeId,
        Ghost(t): Ghost<LTree>,
        Ghost(p): Ghost<Option<NodeId>>,
        out: &mut Vec<TileId>,
    )
        requires
            represents(self.nodes@, t, p),
            t.id() == id,
        ensures
            final(out)@.map_values(|s: String| s@) == old(out)@.map_values(|s: String| s@)
                + t.tiles(),
        decreases t,
    {
        match self.nodes.get(&id) {
            Some(Node::Tile { tile_id, .. }) => {
                let ghost before = out@;
                out.push(tile_id.clone());
                proof {
                    assert(out@.map_values(|s: String| s@) =~= before.map_values(|s: String| s@)
                        + t.tiles());
                }
            },
            Some(Node::Split { first, second, .. }) => {
                proof {
                    assert(t is Split);
                }
                let ghost before = out@;
                self.collect_tiles(*first, Ghost(t.left()), Ghost(Some(id)), out);
                let ghost mid = out@;
                self.collect_tiles(*second, Ghost(t.right()), Ghost(Some(id)), out);
                proof {
                    assert(out@.map_values(|s: String| s@) =~= before.map_values(|s: String| s@)
                        + t.tiles());
                }
            },
            None => {},
        }
    }

    /// All tile identifiers, in reading order (left before right, top before bottom).
    pub fn get_all_tiles(&self) -> (r: Vec<TileId>)
        requires
            self.wf(),
        ensures
            r@.map_values(|s: String| s@) == self.tiles(),
    {
        let mut out: Vec<TileId> = Vec::new();
        match self.root {
            Some(root_id) => {
                self.collect_tiles(root_id, Ghost(self.tree@->0), Ghost(None), &mut out);
                proof {
                    assert(Seq::<String>::empty().map_values(|s: String| s@) =~= seq![]);
                    assert(self.tiles() =~= seq![] + self.tiles());
                }
            },
            None => {
                proof {
                    assert(out@.map_values(|s: String| s@) =~= seq![]);
                }
            },
        }
        out
    }

    /// The node of the first tile of `t` (rooted at `id`) whose identifier is `x`.
    fn find_tile(&self, id: NodeId, Ghost(t): Ghost<LTree>, Ghost(p): Ghost<Option<NodeId>>, x: &TileId) -> (r:
        Option<NodeId>)
        requires
            represents(self.nodes@, t, p),
            t.id() == id,
        ensures
            r == t.find(x@),
        decreases t,
    {
        match self.nodes.get(&id) {
            Some(Node::Tile { tile_id, .. }) => {
                if tile_id.eq(x) {
                    Some(id)
                } else {
                    None
                }
            },
            Some(Node::Split { first, second, .. }) => {
                proof {
                    assert(t is Split);
                }
                match self.find_tile(*first, Ghost(t.left()), Ghost(Some(id)), x) {
                    Some(k) => Some(k),
                    None => self.find_tile(*second, Ghost(t.right()), Ghost(Some(id)), x),
                }
            },
            None => None,
        }
    }

    /// Depth of the subtree `t` rooted at `id`.
    fn depth_at(&self, id: NodeId, Ghost(t): Ghost<LTree>, Ghost(p): Ghost<Option<NodeId>>) -> (r: u64)
        requires
            represents(self.nodes@, t, p),
            t.id() == id,
            t.depth() <= u64::MAX,
        ensures
            r == t.depth(),
        decreases t,
    {
        match self.nodes.get(&id) {
            Some(Node::Tile { .. }) => 0,
            Some(Node::Split { first, second, .. }) => {
                proof {
                    assert(t is Split);
                }
                let a = self.depth_at(*first, Ghost(t.left()), Ghost(Some(id)));
                let b = self.depth_at(*second, Ghost(t.right()), Ghost(Some(id)));
                if a >= b {
                    a + 1
                } else {
                    b + 1
                }
            },
            None => 0,
        }
    }

    /// Replaces tile node `k` by a split between it and a new tile `new_tile`.
    fn split_leaf(
        &mut self,
        k: NodeId,
        direction: SplitDirection,
        new_tile: TileId,
        new_first: bool,
        pct: Percent,
    )
        requires
            old(self).wf(),
            old(self)@ is Some,
            old(self)@->0.ids().contains(k),
            old(self)@->0.subtree(k) is Tile,
            old(self)@->0.find(old(self)@->0.subtree(k)->tile_id@) == Some(k),
            old(self).spec_next_id() + 2 <= u64::MAX,
        ensures
            final(self).wf(),
            final(self)@ == Some(
                old(self)@->0.replace(
                    k,
                    split_with(
                        old(self)@->0.subtree(k),
                        old(self).spec_next_id(),
                        (old(self).spec_next_id() + 1) as u64,
                        direction,
                        new_tile,
                        new_first,
                        pct,
                    ),
                ),
            ),
            final(self).spec_next_id() == old(self).spec_next_id() + 2,
            final(self).tiles() == old(self).tiles().insert(
                old(self).tiles().index_of_first(old(self)@->0.subtree(k)->tile_id@)->0 + if new_first {
                    0int
                } else {
                    1int
                },
                new_tile@,
            ),
    {
        let ghost t = self.tree@->0;
        let ghost m = self.nodes@;
        let ghost new_view = new_tile@;
        let s = self.next_id;
        let n = s + 1;
        self.next_id = s + 2;
        proof {
            lemma_represents_entry(m, t, None, k);
            lemma_subtree_facts(t, k, None);
            lemma_ids_finite(t);
        }
        let ghost leaf = t.subtree(k);
        let ghost r = split_with(leaf, s, n, direction, new_tile, new_first, pct);
        let leaf_node = self.nodes.remove(&k);
        match leaf_node {
            Some(Node::Tile { id, tile_id, parent, locked }) => {
                self.nodes.insert(k, Node::Tile { id, tile_id, parent: Some(s), locked });
                self.nodes.insert(n, Node::Tile { id: n, tile_id: new_tile, parent: Some(s), locked: false });
                let first = if new_first {
                    n
                } else {
                    k
                };
                let second = if new_first {
                    k
                } else {
                    n
                };
                self.nodes.insert(
                    s,
                    Node::Split {
                        id: s,
                        direction,
                        first,
                        second,
                        split_percentage: pct,
                        parent,
                        locked: false,
                        min_percentage: DEFAULT_MIN_PERCENT,
                        max_percentage: DEFAULT_MAX_PERCENT,
                    },
                );
                match parent {
                    None => {
                        self.root = Some(s);
                    },
                    Some(q) => {
                        proof {
                            assert(t.ids().contains(q));
                            assert(q != k && q != s && q != n);
                        }
                        match self.nodes.remove(&q) {
                            Some(qn) => {
                                self.nodes.insert(q, qn.relinked(k, s));
                            },
                            None => {},
                        }
                    },
                }
                proof {
                    let m2 = self.nodes@;
                    assert(!t.ids().contains(s) && !t.ids().contains(n));
                    assert(represents(m2, leaf, Some(s)));
                    assert(represents(m2, LTree::Tile { id: n, tile_id: new_tile, locked: false }, Some(s)));
                    assert(represents(m2, r, t.parent_of(k, None)));
                    let nt = LTree::Tile { id: n, tile_id: new_tile, locked: false };
                    assert(m.dom().contains(k));
                    assert(k < s);
                    assert(leaf.ids() =~= set![k]);
                    assert(nt.ids() =~= set![n]);
                    if new_first {
                        assert(r.ids() =~= set![s] + nt.ids() + leaf.ids());
                    } else {
                        assert(r.ids() =~= set![s] + leaf.ids() + nt.ids());
                    }
                    assert(r.ids() =~= set![s, k, n]);
                    assert(leaf.distinct());
                    assert(nt.distinct());
                    assert(r.left().distinct() && r.right().distinct());
                    assert(r.distinct());
                    assert forall|j: NodeId|
                        #[trigger] t.ids().contains(j) && !t.subtree(k).ids().contains(j) && Some(j)
                            != t.parent_of(k, None) implies m2.contains_key(j) && m2[j] == m[j] by {
                        assert(leaf.ids() =~= set![k]);
                    }
                    lemma_replace(m, m2, t, None, k, r);
                    let t2 = t.replace(k, r);
                    assert(leaf.ids() =~= set![k]);
                    assert(m2.dom() =~= t2.ids());
                    lemma_replace_tiles(t, k, r);
                    let x = leaf->tile_id@;
                    assert(leaf.tiles() =~= seq![x]);
                    lemma_find(t, x);
                    lemma_seq_at(t.tiles_before(k), x, t.tiles_after(k), new_view);
                    assert(nt.tiles() =~= seq![new_view]);
                    if new_first {
                        assert(r.tiles() =~= nt.tiles() + leaf.tiles());
                    } else {
                        assert(r.tiles() =~= leaf.tiles() + nt.tiles());
                    }
                    assert(r.tiles() =~= (if new_first {
                        seq![new_view, x]
                    } else {
                        seq![x, new_view]
                    }));
                    assert forall|j: NodeId| #[trigger] m2.dom().contains(j) implies j < self.next_id by {
                        if j != s && j != n {
                            assert(m.dom().contains(j));
                        }
                    }
                }
                self.tree = Ghost(Some(t.replace(k, r)));
            },
            _ => {
                proof {
                    assert(false);
                }
            },
        }
    }

    /// The tree after tile `x` gets a new tile `new_tile` beside it (first when `new_first`),
    /// with the new nodes numbered from the next identifier on.
    pub open spec fn split_spec(
        &self,
        x: Seq<char>,
        direction: SplitDirection,
        new_tile: TileId,
        new_first: bool,
        pct: Percent,
    ) -> LTree {
        split_tree(
            self@->0,
            x,
            self.spec_next_id(),
            (self.spec_next_id() + 1) as u64,
            direction,
            new_tile,
            new_first,
            pct,
        )
    }

    /// Whether tile `x` exists and is locked.
    pub open spec fn tile_locked(&self, x: Seq<char>) -> bool {
        self.has_tile(x) && self@->0.subtree(self@->0.find(x)->0).is_locked()
    }

    /// Splits tile `tile_id` in two: the tile keeps the first part, which gets `percentage`
    /// of the region, and a new tile `new_tile_id` takes the second part.
    /// Nothing changes (and `false` is returned) when `tile_id` is not shown, when
    /// `new_tile_id` already is, or when node identifiers are exhausted.
    pub fn split_tile(
        &mut self,
        tile_id: &TileId,
        direction: SplitDirection,
        new_tile_id: TileId,
        percentage: Percent,
    ) -> (r: bool)
        requires
            old(self).wf(),
        ensures
            final(self).wf(),
            r == (old(self).has_tile(tile_id@) && !old(self).has_tile(new_tile_id@)
                && old(self).spec_next_id() + 2 <= u64::MAX),
            r ==> final(self)@ == Some(
                old(self).split_spec(tile_id@, direction, new_tile_id, false, percentage),
            ) && final(self).spec_next_id() == old(self).spec_next_id() + 2,
            r ==> final(self).tiles() == old(self).tiles().insert(
                old(self).tiles().index_of_first(tile_id@)->0 + 1,
                new_tile_id@,
            ),
            !r ==> final(self)@ == old(self)@ && final(self).spec_next_id() == old(self).spec_next_id(),
    {
        let root_id = match self.root {
            Some(r) => r,
            None => {
                return false;
            },
        };
        let ghost t = self.tree@->0;
        proof {
            lemma_find(t, tile_id@);
            lemma_find(t, new_tile_id@);
        }
        let k = match self.find_tile(root_id, Ghost(t), Ghost(None), tile_id) {
            Some(k) => k,
            None => {
                return false;
            },
        };
        if self.find_tile(root_id, Ghost(t), Ghost(None), &new_tile_id).is_some() {
            return false;
        }
        if self.next_id > u64::MAX - 2 {
            return false;
        }
        self.split_leaf(k, direction, new_tile_id, false, percentage);
        true
    }

    /// Removes tile node `k`; its sibling takes the place of their split.
    fn remove_leaf(&mut self, k: NodeId)
        requires
            old(self).wf(),
            old(self)@ is Some,
            old(self)@->0.ids().contains(k),
            old(self)@->0.subtree(k) is Tile,
            old(self)@->0.find(old(self)@->0.subtree(k)->tile_id@) == Some(k),
        ensures
            final(self).wf(),
            final(self)@ == (if old(self)@->0.id() == k {
                None
            } else {
                let t = old(self)@->0;
                let q = t.parent_of(k, None)->0;
                Some(t.replace(q, t.subtree(q).sibling_of(k)))
            }),
            final(self).spec_next_id() == old(self).spec_next_id(),
            final(self).tiles() == old(self).tiles().remove(
                old(self).tiles().index_of_first(old(self)@->0.subtree(k)->tile_id@)->0,
            ),
    {
        let ghost t = self.tree@->0;
        let ghost m = self.nodes@;
        proof {
            lemma_represents_entry(m, t, None, k);
            lemma_subtree_facts(t, k, None);
            lemma_ids_finite(t);
        }
        let parent = match self.nodes.get(&k) {
            Some(node) => node.parent(),
            None => {
                proof {
                    assert(false);
                }
                None
            },
        };
        match parent {
            None => {
                self.nodes.remove(&k);
                self.root = None;
                proof {
                    assert(t.subtree(k) == t);
                    assert(t.ids() =~= set![k]);
                    assert(self.nodes@.dom() =~= Set::<NodeId>::empty());
                    let x = t->tile_id@;
                    assert(t.tiles() =~= seq![] + seq![x] + seq![]);
                    lemma_seq_at(seq![], x, seq![], x);
                    assert(seq![].add(seq![]) =~= Seq::<Seq<char>>::empty());
                }
                self.tree = Ghost(None);
            },
            Some(q) => {
                let ghost u = t.subtree(q);
                let ghost sib_t = u.sibling_of(k);
                let ghost leaf = t.subtree(k);
                proof {
                    lemma_represents_entry(m, t, None, q);
                    lemma_subtree_facts(t, q, None);
                    lemma_subtree_facts(u, k, t.parent_of(q, None));
                    lemma_ids_finite(u);
                    lemma_ids_finite(u.left());
                    lemma_ids_finite(u.right());
                    lemma_subtree_nested(t, q, k);
                    assert(u.subtree(k) == leaf);
                    lemma_subtree_self(u.left());
                    lemma_subtree_self(u.right());
                    assert(q != k);
                    if u.left().id() == k {
                        assert(u.left() == leaf);
                    } else {
                        assert(u.right() == leaf);
                    }
                }
                let (sib, grand) = match self.nodes.get(&q) {
                    Some(Node::Split { first, second, parent, .. }) => (
                        if *first == k {
                            *second
                        } else {
                            *first
                        },
                        *parent,
                    ),
                    _ => {
                        proof {
                            assert(false);
                        }
                        (0, None)
                    },
                };
                proof {
                    assert(sib == sib_t.id());
                    assert(grand == t.parent_of(q, None));
                    assert(leaf.ids() =~= set![k]);
                    assert(u.ids() =~= set![q] + leaf.ids() + sib_t.ids());
                    assert(represents(m, sib_t, Some(q)));
                    assert(sib_t.distinct());
                    assert(!sib_t.ids().contains(k) && !sib_t.ids().contains(q));
                    if let Some(g) = grand {
                        assert(!u.ids().contains(g));
                        assert(t.ids().contains(g));
                    }
                }
                self.nodes.remove(&k);
                self.nodes.remove(&q);
                match self.nodes.remove(&sib) {
                    Some(sn) => {
                        self.nodes.insert(sib, sn.with_parent(grand));
                    },
                    None => {},
                }
                match grand {
                    None => {
                        self.root = Some(sib);
                    },
                    Some(g) => {
                        match self.nodes.remove(&g) {
                            Some(gn) => {
                                self.nodes.insert(g, gn.relinked(q, sib));
                            },
                            None => {},
                        }
                    },
                }
                proof {
                    let m2 = self.nodes@;
                    assert(m2.contains_key(sib_t.id()));
                    assert(m2[sib_t.id()] == sib_t.node_at(grand));
                    assert forall|j: NodeId|
                        #[trigger] sib_t.ids().contains(j) && j != sib_t.id() implies m2.contains_key(j)
                            && m2[j] == m[j] by {
                        assert(u.ids().contains(j));
                    }
                    lemma_represents_reparent(m, m2, sib_t, Some(q), grand);
                    assert forall|j: NodeId|
                        #[trigger] t.ids().contains(j) && !t.subtree(q).ids().contains(j) && Some(j)
                            != t.parent_of(q, None) implies m2.contains_key(j) && m2[j] == m[j] by {}
                    lemma_replace(m, m2, t, None, q, sib_t);
                    let t2 = t.replace(q, sib_t);
                    assert(m2.dom() =~= t2.ids());
                    lemma_replace_tiles(t, q, sib_t);
                    let before = t.tiles_before(q);
                    let after = t.tiles_after(q);
                    let x = leaf->tile_id@;
                    assert(leaf.tiles() =~= seq![x]);
                    lemma_find(t, x);
                    lemma_tiles_nested(t, q, k);
                    let bk = t.tiles_before(k);
                    let ak = t.tiles_after(k);
                    if u.left().id() == k {
                        assert(u.tiles_before(k) =~= seq![]);
                        assert(u.tiles_after(k) =~= sib_t.tiles());
                    } else {
                        assert(u.tiles_before(k) =~= sib_t.tiles());
                        assert(u.tiles_after(k) =~= seq![]);
                    }
                    assert(bk + ak =~= before + sib_t.tiles() + after);
                    lemma_seq_at(bk, x, ak, x);
                    assert forall|j: NodeId| #[trigger] m2.dom().contains(j) implies j < self.next_id by {
                        assert(m.dom().contains(j));
                    }
                }
                self.tree = Ghost(Some(t.replace(q, sib_t)));
            },
        }
    }

    /// Removes tile `tile_id`; the tile that shared its split takes the split's place.
    /// Nothing changes (and `false` is returned) when the tile is not shown or is locked.
    pub fn close_tile(&mut self, tile_id: &TileId) -> (r: bool)
        requires
            old(self).wf(),
        ensures
            final(self).wf(),
            r == (old(self).has_tile(tile_id@) && !old(self).tile_locked(tile_id@)),
            r ==> final(self)@ == close_tree(old(self)@->0, tile_id@),
            r ==> final(self).tiles() == old(self).tiles().remove(
                old(self).tiles().index_of_first(tile_id@)->0,
            ),
            !r ==> final(self)@ == old(self)@,
            final(self).spec_next_id() == old(self).spec_next_id(),
    {
        let root_id = match self.root {
            Some(r) => r,
            None => {
                return false;
            },
        };
        let ghost t = self.tree@->0;
        proof {
            lemma_find(t, tile_id@);
        }
        let k = match self.find_tile(root_id, Ghost(t), Ghost(None), tile_id) {
            Some(k) => k,
            None => {
                return false;
            },
        };
        proof {
            lemma_represents_entry(self.nodes@, t, None, k);
        }
        let locked = match self.nodes.get(&k) {
            Some(Node::Tile { locked, .. }) => *locked,
            _ => {
                proof {
                    assert(false);
                }
                true
            },
        };
        if locked {
            return false;
        }
        self.remove_leaf(k);
        true
    }

    /// Removes tile `tile_id` (the same as `close_tile`).
    pub fn remove_tile(&mut self, tile_id: &TileId) -> (r: bool)
        requires
            old(self).wf(),
        ensures
            final(self).wf(),
            r == (old(self).has_tile(tile_id@) && !old(self).tile_locked(tile_id@)),
            r ==> final(self)@ == close_tree(old(self)@->0, tile_id@),
            r ==> final(self).tiles() == old(self).tiles().remove(
                old(self).tiles().index_of_first(tile_id@)->0,
            ),
            !r ==> final(self)@ == old(self)@,
            final(self).spec_next_id() == old(self).spec_next_id(),
    {
        self.close_tile(tile_id)
    }

    /// Sets the share of the first child of split `node_id` to `percentage`, limited to the
    /// split's own bounds. Nothing changes (and `false` is returned) when `node_id` is not a
    /// split of the layout or the split is locked.
    pub fn update_split(&mut self, node_id: &NodeId, percentage: Percent) -> (r: bool)
        requires
            old(self).wf(),
        ensures
            final(self).wf(),
            r == (old(self)@ matches Some(t) && t.ids().contains(*node_id) && t.subtree(*node_id) is Split
                && !t.subtree(*node_id).is_locked()),
            r ==> ({
                let t = old(self)@->0;
                let u = t.subtree(*node_id);
                final(self)@ == Some(
                    t.replace(
                        *node_id,
                        u.with_percentage(
                            clamp_spec(
                                percentage as int,
                                u->min_percentage as int,
                                u->max_percentage as int,
                            ) as u32,
                        ),
                    ),
                )
            }),
            r ==> final(self).tiles() == old(self).tiles(),
            !r ==> final(self)@ == old(self)@,
            final(self).spec_next_id() == old(self).spec_next_id(),
    {
        let k = *node_id;
        if self.root.is_none() {
            return false;
        }
        let ghost t = self.tree@->0;
        let ghost m = self.nodes@;
        if !self.nodes.contains_key(&k) {
            return false;
        }
        proof {
            lemma_represents_entry(m, t, None, k);
            lemma_subtree_facts(t, k, None);
            lemma_ids_finite(t);
        }
        let ghost u = t.subtree(k);
        let is_open_split = match self.nodes.get(&k) {
            Some(Node::Split { locked, .. }) => !*locked,
            _ => false,
        };
        if !is_open_split {
            return false;
        }
        match self.nodes.remove(&k) {
            Some(
                Node::Split {
                    id,
                    direction,
                    first,
                    second,
                    parent,
                    locked,
                    min_percentage,
                    max_percentage,
                    ..
                },
            ) => {
                let pct = clamp_percent(percentage, min_percentage, max_percentage);
                self.nodes.insert(
                    k,
                    Node::Split {
                        id,
                        direction,
                        first,
                        second,
                        split_percentage: pct,
                        parent,
                        locked,
                        min_percentage,
                        max_percentage,
                    },
                );
                proof {
                    let m2 = self.nodes@;
                    let r = u.with_percentage(pct);
                    lemma_ids_finite(u.left());
                    lemma_ids_finite(u.right());
                    assert(represents(m, u, t.parent_of(k, None)));
                    assert forall|j: NodeId| #[trigger] u.left().ids().contains(j) implies m2.contains_key(j)
                        && m2[j] == m[j] by {}
                    assert forall|j: NodeId| #[trigger] u.right().ids().contains(j) implies m2.contains_key(j)
                        && m2[j] == m[j] by {}
                    lemma_represents_frame(m, m2, u.left(), Some(k));
                    lemma_represents_frame(m, m2, u.right(), Some(k));
                    assert(r.left() == u.left() && r.right() == u.right());
                    assert(represents(m2, r, t.parent_of(k, None)));
                    assert(r.ids() == u.ids());
                    if let Some(q) = t.parent_of(k, None) {
                        if t.ids().contains(q) {
                            assert(relink(m[q], k, k) == m[q]);
                        }
                    }
                    lemma_replace(m, m2, t, None, k, r);
                    lemma_replace_tiles(t, k, r);
                    assert(r.tiles() == u.tiles());
                    assert(m2.dom() =~= t.replace(k, r).ids());
                }
                self.tree = Ghost(Some(t.replace(k, u.with_percentage(pct))));
                true
            },
            _ => {
                proof {
                    assert(false);
                }
                false
            },
        }
    }

    /// Moves tile `dragged` next to tile `target`, on the side given by `zone`: the dragged
    /// tile leaves its place (its sibling takes the place of their split) and the target is
    /// split in half between the two. Nothing changes (and `false` is returned) when the two
    /// are the same tile, either is not shown, the dragged tile is locked, or node identifiers
    /// are exhausted.
    pub fn insert_tile_with_split(&mut self, dragged: &TileId, target: &TileId, zone: DropZone) -> (r:
        bool)
        requires
            old(self).wf(),
        ensures
            final(self).wf(),
            r == (dragged@ != target@ && old(self).has_tile(dragged@) && old(self).has_tile(target@)
                && !old(self).tile_locked(dragged@) && old(self).spec_next_id() + 2 <= u64::MAX),
            r ==> final(self)@ == Some(
                split_tree(
                    close_tree(old(self)@->0, dragged@)->0,
                    target@,
                    old(self).spec_next_id(),
                    (old(self).spec_next_id() + 1) as u64,
                    zone_direction(zone),
                    *dragged,
                    zone_first(zone),
                    DEFAULT_SPLIT,
                ),
            ),
            r ==> ({
                let rest = old(self).tiles().remove(old(self).tiles().index_of_first(dragged@)->0);
                final(self).tiles() == rest.insert(
                    rest.index_of_first(target@)->0 + if zone_first(zone) {
                        0int
                    } else {
                        1int
                    },
                    dragged@,
                )
            }),
            r ==> final(self).tiles().to_multiset() == old(self).tiles().to_multiset(),
            !r ==> final(self)@ == old(self)@,
            r ==> final(self).spec_next_id() == old(self).spec_next_id() + 2,
            !r ==> final(self).spec_next_id() == old(self).spec_next_id(),
    {
        if dragged.eq(target) {
            return false;
        }
        let root_id = match self.root {
            Some(r) => r,
            None => {
                return false;
            },
        };
        let ghost t = self.tree@->0;
        let ghost old_tiles = self.tiles();
        proof {
            lemma_find(t, dragged@);
            lemma_find(t, target@);
        }
        let k = match self.find_tile(root_id, Ghost(t), Ghost(None), dragged) {
            Some(k) => k,
            None => {
                return false;
            },
        };
        if self.find_tile(root_id, Ghost(t), Ghost(None), target).is_none() {
            return false;
        }
        proof {
            lemma_represents_entry(self.nodes@, t, None, k);
        }
        let locked = match self.nodes.get(&k) {
            Some(Node::Tile { locked, .. }) => *locked,
            _ => {
                proof {
                    assert(false);
                }
                true
            },
        };
        if locked {
            return false;
        }
        if self.next_id > u64::MAX - 2 {
            return false;
        }
        proof {
            lemma_subtree_facts(t, k, None);
            if t.id() == k {
                lemma_subtree_self(t);
                assert(t.tiles() =~= seq![dragged@]);
                assert(t.tiles()[0] == dragged@);
                assert(false);
            }
            old_tiles.index_of_first_ensures(dragged@);
            let i = old_tiles.index_of_first(dragged@)->0;
            assert(old_tiles[i] == dragged@);
            let j = old_tiles.index_of(target@);
            assert(old_tiles[j] == target@);
            let rest = old_tiles.remove(i);
            if j < i {
                assert(rest[j] == target@);
            } else {
                assert(rest[j - 1] == target@);
            }
        }
        self.remove_leaf(k);
        let ghost t1 = self.tree@->0;
        let root1 = match self.root {
            Some(r) => r,
            None => {
                proof {
                    assert(false);
                }
                return false;
            },
        };
        proof {
            lemma_find(t1, target@);
            lemma_find(t1, dragged@);
        }
        let j = match self.find_tile(root1, Ghost(t1), Ghost(None), target) {
            Some(j) => j,
            None => {
                proof {
                    assert(false);
                }
                return false;
            },
        };
        let new_first = match zone {
            DropZone::Left | DropZone::Top => true,
            DropZone::Right | DropZone::Bottom => false,
        };
        let direction = match zone {
            DropZone::Left | DropZone::Right => SplitDirection::Horizontal,
            DropZone::Top | DropZone::Bottom => SplitDirection::Vertical,
        };
        let ghost rest = self.tiles();
        self.split_leaf(j, direction, dragged.clone(), new_first, DEFAULT_SPLIT);
        proof {
            rest.index_of_first_ensures(target@);
            lemma_move_multiset(
                old_tiles,
                dragged@,
                rest.index_of_first(target@)->0 + if new_first {
                    0int
                } else {
                    1int
                },
            );
        }
        true
    }

    /// Number of splits on the longest path from the root to a tile (0 when empty).
    pub fn depth(&self) -> (r: u64)
        requires
            self.wf(),
        ensures
            r == self.spec_depth(),
    {
        match self.root {
            Some(root_id) => {
                proof {
                    lemma_depth_below_count(self.tree@->0);
                    // the table's size is a `usize`, so the depth fits in a `u64`
                    assert(self.nodes@.len() == self.nodes.len());
                }
                self.depth_at(root_id, Ghost(self.tree@->0), Ghost(None))
            },
            None => 0,
        }
    }
}

/// Closing a tile keeps the subtree of its sibling whole: the tile's split is replaced by the
/// other child of that split, unchanged (every split in it keeps its direction and share),
/// which takes the split's place under the split's parent.
pub proof fn law_close_keeps_sibling(layout: MosaicLayout, x: Seq<char>)
    requires
        layout.wf(),
        layout.has_tile(x),
        layout.tiles().len() > 1,
    ensures
        ({
            let t = layout@->0;
            let k = t.find(x)->0;
            let q = t.parent_of(k, None)->0;
            let u = t.subtree(q);
            let s = if u.left().id() == k {
                u.right()
            } else {
                u.left()
            };
            &&& u is Split
            &&& (u.left().id() == k || u.right().id() == k)
            &&& close_tree(t, x) is Some
            &&& close_tree(t, x)->0.ids().contains(s.id())
            &&& close_tree(t, x)->0.subtree(s.id()) == s
            &&& close_tree(t, x)->0.parent_of(s.id(), None) == t.parent_of(q, None)
        }),
{
    layout.lemma_wf_facts();
    let t = layout@->0;
    lemma_find(t, x);
    let k = t.find(x)->0;
    lemma_subtree_facts(t, k, None);
    lemma_ids_finite(t);
    if t.id() == k {
        assert(t.tiles().len() == 1);
    }
    let q = t.parent_of(k, None)->0;
    lemma_subtree_facts(t, q, None);
    let u = t.subtree(q);
    let s = if u.left().id() == k {
        u.right()
    } else {
        u.left()
    };
    assert(u.sibling_of(k) == s);
    assert(s.ids().subset_of(u.ids()));
    assert(s.ids().contains(s.id())) by {
        match s {
            LTree::Tile { .. } => {},
            LTree::Split { .. } => {},
        }
    }
    lemma_replace_inside(t, q, s, s.id(), None, s);
    lemma_subtree_self(s);
    lemma_replace_ids(t, q, s);
    assert(s.parent_of(s.id(), t.parent_of(q, None)) == t.parent_of(q, None)) by {
        match s {
            LTree::Tile { .. } => {},
            LTree::Split { .. } => {},
        }
    }
}

/// Closing the tile that a split just added gives back the tree from before the split, and
/// that tile can be closed (it is not locked).
pub proof fn law_close_undoes_split(
    layout: MosaicLayout,
    x: Seq<char>,
    direction: SplitDirection,
    new_tile: TileId,
    pct: Percent,
)
    requires
        layout.wf(),
        layout.has_tile(x),
        !layout.has_tile(new_tile@),
        layout.spec_next_id() + 2 <= u64::MAX,
    ensures
        ({
            let t1 = layout.split_spec(x, direction, new_tile, false, pct);
            &&& t1.find(new_tile@) is Some
            &&& !t1.subtree(t1.find(new_tile@)->0).is_locked()
            &&& close_tree(t1, new_tile@) == layout@
        }),
{
    let t = layout@->0;
    let y = new_tile@;
    lemma_find(t, x);
    lemma_find(t, y);
    let k = t.find(x)->0;
    let leaf = t.subtree(k);
    let s = layout.spec_next_id();
    let n = (s + 1) as u64;
    let nt = LTree::Tile { id: n, tile_id: new_tile, locked: false };
    let sp = split_with(leaf, s, n, direction, new_tile, false, pct);
    lemma_subtree_facts(t, k, None);
    lemma_ids_finite(t);
    assert(layout.nodes@.dom().contains(k));
    assert(!t.ids().contains(s)) by {
        if t.ids().contains(s) {
            assert(layout.nodes@.dom().contains(s));
        }
    }
    assert(!t.ids().contains(n)) by {
        if t.ids().contains(n) {
            assert(layout.nodes@.dom().contains(n));
        }
    }
    assert(leaf.ids() =~= set![k]);
    assert(sp.ids() =~= set![s, k, n]);
    // the new tile is the first tile `y` of the split, and of the whole tree
    assert(leaf->tile_id@ == x);
    assert(x != y);
    assert(leaf.find(y) is None);
    assert(sp.left() == leaf && sp.right() == nt);
    assert(nt.find(y) == Some(n));
    assert(sp.find(y) == Some(n));
    assert(!t.tiles_before(k).contains(y)) by {
        if t.tiles_before(k).contains(y) {
            let i = choose|i: int| 0 <= i < t.tiles_before(k).len() && t.tiles_before(k)[i] == y;
            assert(t.tiles()[i] == y);
        }
    }
    lemma_find_replace(t, k, sp, y);
    let t1 = t.replace(k, sp);
    assert(t1 == layout.split_spec(x, direction, new_tile, false, pct));
    lemma_replace_inside(t, k, sp, n, None, leaf);
    lemma_replace_inside(t, k, sp, s, None, leaf);
    assert(nt.ids() =~= set![n]);
    assert(!leaf.ids().contains(n));
    assert(nt.subtree(n) == nt);
    assert(sp.subtree(n) == nt);
    assert(nt.parent_of(n, Some(s)) == Some(s));
    assert(sp.parent_of(n, t.parent_of(k, None)) == Some(s));
    assert(t1.id() != n) by {
        lemma_replace_ids(t, k, sp);
        lemma_ids_finite(t1);
        if t.id() == k {
            assert(t1 == sp);
        } else {
            assert(t1.id() == t.id());
        }
    }
    assert(sp.subtree(s) == sp);
    assert(sp.sibling_of(n) == leaf);
    lemma_replace_self(t, k);
}

} // verus!

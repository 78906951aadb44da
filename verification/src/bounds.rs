use std::collections::HashMap;

use vstd::prelude::*;

use crate::flat_layout::{DividerRect, TileRect};
use crate::layout::MosaicLayout;
use crate::node::Node;
use crate::tree::{
    lemma_ids_finite, lemma_represents_entry, lemma_subtree_facts, lemma_subtree_self, lemma_tiles_count,
    represents, LTree,
};
use crate::types::{NodeId, SplitDirection, TileId};

verus! {

broadcast use vstd::std_specs::hash::group_hash_axioms;

/// The pixel box covered by a set of tiles.
#[derive(Clone, Copy, Debug, PartialEq, Eq, Structural)]
pub struct Bounds {
    pub min_x: i64,
    pub min_y: i64,
    pub max_x: i64,
    pub max_y: i64,
}

/// The box of a tile rectangle.
pub open spec fn spec_bounds_of(rect: TileRect) -> Bounds {
    Bounds {
        min_x: rect.x,
        min_y: rect.y,
        max_x: (rect.x + rect.width) as i64,
        max_y: (rect.y + rect.height) as i64,
    }
}

/// A tile rectangle whose far edges are within the `i64` range.
pub open spec fn rect_in_range(rect: TileRect) -> bool {
    &&& i64::MIN <= rect.x + rect.width <= i64::MAX
    &&& i64::MIN <= rect.y + rect.height <= i64::MAX
}

/// Whether the far edges of a tile rectangle are within the `i64` range (the condition of
/// `build_split_bounds` on each rectangle).
pub fn rect_in_range_of(rect: &TileRect) -> (r: bool)
    ensures
        r == rect_in_range(*rect),
{
    rect.x.checked_add(rect.width).is_some() && rect.y.checked_add(rect.height).is_some()
}

/// The last rectangle of tile `x` in `rects`.
pub open spec fn last_rect_for(rects: Seq<TileRect>, x: Seq<char>) -> Option<TileRect>
    decreases rects.len(),
{
    if rects.len() == 0 {
        None
    } else if rects.last().tile_id@ == x {
        Some(rects.last())
    } else {
        last_rect_for(rects.drop_last(), x)
    }
}

impl Bounds {
    /// The smallest box holding both boxes.
    pub open spec fn spec_union(self, other: Bounds) -> Bounds {
        Bounds {
            min_x: if self.min_x <= other.min_x {
                self.min_x
            } else {
                other.min_x
            },
            min_y: if self.min_y <= other.min_y {
                self.min_y
            } else {
                other.min_y
            },
            max_x: if self.max_x >= other.max_x {
                self.max_x
            } else {
                other.max_x
            },
            max_y: if self.max_y >= other.max_y {
                self.max_y
            } else {
                other.max_y
            },
        }
    }

    /// Start of the box along the axis that a split in `direction` divides.
    pub open spec fn spec_axis_origin(self, direction: SplitDirection) -> i64 {
        match direction {
            SplitDirection::Horizontal => self.min_x,
            SplitDirection::Vertical => self.min_y,
        }
    }

    /// Length of the box along the axis that a split in `direction` divides (negative when
    /// the far edge comes before the near one).
    pub open spec fn spec_axis_extent(self, direction: SplitDirection) -> int {
        match direction {
            SplitDirection::Horizontal => self.max_x - self.min_x,
            SplitDirection::Vertical => self.max_y - self.min_y,
        }
    }

    /// The box of a tile rectangle.
    pub fn from_tile_rect(rect: &TileRect) -> (r: Self)
        requires
            rect_in_range(*rect),
        ensures
            r == spec_bounds_of(*rect),
    {
        Self { min_x: rect.x, min_y: rect.y, max_x: rect.x + rect.width, max_y: rect.y + rect.height }
    }

    /// The smallest box holding both boxes.
    pub fn union(self, other: Self) -> (r: Self)
        ensures
            r == self.spec_union(other),
    {
        Self {
            min_x: if self.min_x <= other.min_x {
                self.min_x
            } else {
                other.min_x
            },
            min_y: if self.min_y <= other.min_y {
                self.min_y
            } else {
                other.min_y
            },
            max_x: if self.max_x >= other.max_x {
                self.max_x
            } else {
                other.max_x
            },
            max_y: if self.max_y >= other.max_y {
                self.max_y
            } else {
                other.max_y
            },
        }
    }

    /// Start of the box along the axis that a split in `direction` divides.
    pub fn axis_origin(&self, direction: SplitDirection) -> (r: i64)
        ensures
            r == self.spec_axis_origin(direction),
    {
        match direction {
            SplitDirection::Horizontal => self.min_x,
            SplitDirection::Vertical => self.min_y,
        }
    }

    /// Length of the box along the axis that a split in `direction` divides.
    pub fn axis_extent(&self, direction: SplitDirection) -> (r: i128)
        ensures
            r == self.spec_axis_extent(direction),
    {
        match direction {
            SplitDirection::Horizontal => self.max_x as i128 - self.min_x as i128,
            SplitDirection::Vertical => self.max_y as i128 - self.min_y as i128,
        }
    }
}

/// The box of subtree `t` (`None` when a tile of it has no rectangle), and the boxes of its
/// splits added to `m`, in the order they are worked out: a split's box is added after those
/// of its children, and nothing more is added once a tile without rectangle is met.
pub open spec fn collect_spec(t: LTree, rects: Seq<TileRect>, m: Map<NodeId, Bounds>) -> (
    Option<Bounds>,
    Map<NodeId, Bounds>,
)
    decreases t,
{
    match t {
        LTree::Tile { tile_id, .. } => match last_rect_for(rects, tile_id@) {
            Some(rect) => (Some(spec_bounds_of(rect)), m),
            None => (None, m),
        },
        LTree::Split { id, first, second, .. } => {
            let (fb, m1) = collect_spec(*first, rects, m);
            match fb {
                None => (None, m1),
                Some(f) => {
                    let (sb, m2) = collect_spec(*second, rects, m1);
                    match sb {
                        None => (None, m2),
                        Some(b) => (Some(f.spec_union(b)), m2.insert(id, f.spec_union(b))),
                    }
                },
            }
        },
    }
}

/// The last rectangle of tile `x` in `rects`.
fn find_rect<'a>(rects: &'a [TileRect], x: &TileId) -> (r: Option<&'a TileRect>)
    ensures
        match r {
            Some(rect) => last_rect_for(rects@, x@) == Some(*rect),
            None => last_rect_for(rects@, x@) is None,
        },
{
    let mut i = rects.len();
    proof {
        assert(rects@.take(i as int) =~= rects@);
    }
    while i > 0
        invariant
            i <= rects@.len(),
            last_rect_for(rects@, x@) == last_rect_for(rects@.take(i as int), x@),
        decreases i,
    {
        proof {
            assert(rects@.take(i as int).drop_last() =~= rects@.take(i - 1));
        }
        if rects[i - 1].tile_id.eq(x) {
            return Some(&rects[i - 1]);
        }
        i = i - 1;
    }
    proof {
        assert(rects@.take(0).len() == 0);
    }
    None
}

/// The rectangle found is one of `rects`.
proof fn lemma_last_rect_in(rects: Seq<TileRect>, x: Seq<char>)
    ensures
        last_rect_for(rects, x) matches Some(r) ==> exists|i: int| 0 <= i < rects.len() && rects[i] == r,
    decreases rects.len(),
{
    if rects.len() > 0 {
        if rects.last().tile_id@ != x {
            lemma_last_rect_in(rects.drop_last(), x);
            if let Some(r) = last_rect_for(rects, x) {
                let i = choose|i: int| 0 <= i < rects.drop_last().len() && rects.drop_last()[i] == r;
                assert(rects[i] == r);
            }
        } else {
            assert(rects[rects.len() - 1] == rects.last());
        }
    }
}

/// Works out the box of subtree `t` (rooted at `node_id`) and adds the boxes of its splits
/// to `split_bounds`.
fn collect_subtree(
    layout: &MosaicLayout,
    node_id: NodeId,
    rects: &[TileRect],
    split_bounds: &mut HashMap<NodeId, Bounds>,
    Ghost(t): Ghost<LTree>,
    Ghost(p): Ghost<Option<NodeId>>,
) -> (r: Option<Bounds>)
    requires
        represents(layout.node_table(), t, p),
        t.id() == node_id,
        forall|i: int| 0 <= i < rects@.len() ==> rect_in_range(#[trigger] rects@[i]),
    ensures
        (r, final(split_bounds)@) == collect_spec(t, rects@, old(split_bounds)@),
    decreases t,
{
    match layout.node_entry(node_id) {
        Some(Node::Tile { tile_id, .. }) => {
            match find_rect(rects, tile_id) {
                Some(rect) => {
                    proof {
                        lemma_last_rect_in(rects@, tile_id@);
                    }
                    Some(Bounds::from_tile_rect(rect))
                },
                None => None,
            }
        },
        Some(Node::Split { id, first, second, .. }) => {
            proof {
                assert(t is Split);
            }
            let first_bounds = match collect_subtree(
                layout,
                *first,
                rects,
                split_bounds,
                Ghost(t.left()),
                Ghost(Some(node_id)),
            ) {
                Some(b) => b,
                None => {
                    return None;
                },
            };
            let second_bounds = match collect_subtree(
                layout,
                *second,
                rects,
                split_bounds,
                Ghost(t.right()),
                Ghost(Some(node_id)),
            ) {
                Some(b) => b,
                None => {
                    return None;
                },
            };
            let bounds = first_bounds.union(second_bounds);
            split_bounds.insert(*id, bounds);
            Some(bounds)
        },
        None => None,
    }
}

/// Works out the box of the subtree rooted at `node_id` and adds the boxes of its splits to
/// `split_bounds`; `None`, with nothing added, when the layout has no such node.
fn collect_bounds(
    layout: &MosaicLayout,
    node_id: NodeId,
    rects: &[TileRect],
    split_bounds: &mut HashMap<NodeId, Bounds>,
) -> (r: Option<Bounds>)
    requires
        layout.wf(),
        forall|i: int| 0 <= i < rects@.len() ==> rect_in_range(#[trigger] rects@[i]),
    ensures
        match layout.entry(node_id) {
            None => r is None && final(split_bounds)@ == old(split_bounds)@,
            Some(_) => (r, final(split_bounds)@) == collect_spec(
                layout@->0.subtree(node_id),
                rects@,
                old(split_bounds)@,
            ),
        },
{
    proof {
        layout.lemma_wf_facts();
    }
    if layout.node_entry(node_id).is_none() {
        proof {
            if let Some(t) = layout@ {
                assert(!t.ids().contains(node_id));
            }
        }
        return None;
    }
    let ghost t = layout@->0;
    proof {
        lemma_represents_entry(layout.node_table(), t, None, node_id);
        lemma_subtree_facts(t, node_id, None);
    }
    collect_subtree(
        layout,
        node_id,
        rects,
        split_bounds,
        Ghost(t.subtree(node_id)),
        Ghost(t.parent_of(node_id, None)),
    )
}

/// The boxes that the splits of the subtree rooted at `root` get from `rects`.
pub open spec fn split_bounds_spec(layout: MosaicLayout, root: Option<NodeId>, rects: Seq<TileRect>) -> Map<
    NodeId,
    Bounds,
> {
    match (root, layout@) {
        (Some(k), Some(t)) => if t.ids().contains(k) {
            collect_spec(t.subtree(k), rects, Map::empty()).1
        } else {
            Map::empty()
        },
        _ => Map::empty(),
    }
}

/// The box of every split below `root_id`, from the tile rectangles `tile_rects`; a split
/// gets none when a tile below it has no rectangle.
pub fn build_split_bounds(layout: &MosaicLayout, root_id: Option<&NodeId>, tile_rects: &[TileRect]) -> (r:
    HashMap<NodeId, Bounds>)
    requires
        layout.wf(),
        forall|i: int| 0 <= i < tile_rects@.len() ==> rect_in_range(#[trigger] tile_rects@[i]),
    ensures
        r@ == split_bounds_spec(
            *layout,
            match root_id {
                Some(k) => Some(*k),
                None => None,
            },
            tile_rects@,
        ),
{
    let mut split_bounds: HashMap<NodeId, Bounds> = HashMap::new();
    proof {
        layout.lemma_wf_facts();
    }
    if let Some(root_id) = root_id {
        let k = *root_id;
        proof {
            assert(split_bounds@ =~= Map::<NodeId, Bounds>::empty());
        }
        collect_bounds(layout, k, tile_rects, &mut split_bounds);
    }
    proof {
        assert(split_bounds@ =~= split_bounds_spec(
            *layout,
            match root_id {
                Some(k) => Some(*k),
                None => None,
            },
            tile_rects@,
        ));
    }
    split_bounds
}

/// The identifiers of the splits of `t`.
pub open spec fn split_ids(t: LTree) -> Set<NodeId>
    decreases t,
{
    match t {
        LTree::Tile { .. } => Set::empty(),
        LTree::Split { id, first, second, .. } => split_ids(*first).union(split_ids(*second)).insert(id),
    }
}

/// When every tile of `t` has a rectangle in `rects`, working out the boxes gives `t` a box
/// and adds a box for each of its splits, keeping every box that was there before.
pub proof fn law_bounds_for_every_split(t: LTree, rects: Seq<TileRect>, m: Map<NodeId, Bounds>)
    requires
        forall|i: int| 0 <= i < t.tiles().len() ==> #[trigger] last_rect_for(rects, t.tiles()[i]) is Some,
    ensures
        collect_spec(t, rects, m).0 is Some,
        forall|k: NodeId| #[trigger] split_ids(t).contains(k) ==> collect_spec(t, rects, m).1.contains_key(k),
        forall|k: NodeId| m.contains_key(k) ==> #[trigger] collect_spec(t, rects, m).1.contains_key(k),
    decreases t,
{
    match t {
        LTree::Tile { tile_id, .. } => {
            assert(t.tiles()[0] == tile_id@);
            assert(split_ids(t) =~= Set::<NodeId>::empty());
        },
        LTree::Split { id, first, second, .. } => {
            let n = first.tiles().len();
            assert forall|i: int| 0 <= i < first.tiles().len() implies #[trigger] last_rect_for(
                rects,
                first.tiles()[i],
            ) is Some by {
                assert(t.tiles()[i] == first.tiles()[i]);
            }
            assert forall|i: int| 0 <= i < second.tiles().len() implies #[trigger] last_rect_for(
                rects,
                second.tiles()[i],
            ) is Some by {
                assert(t.tiles()[n + i] == second.tiles()[i]);
            }
            law_bounds_for_every_split(*first, rects, m);
            let m1 = collect_spec(*first, rects, m).1;
            law_bounds_for_every_split(*second, rects, m1);
            let m2 = collect_spec(*second, rects, m1).1;
            let r = collect_spec(t, rects, m).1;
            assert(r == m2.insert(
                id,
                collect_spec(*first, rects, m).0->0.spec_union(collect_spec(*second, rects, m1).0->0),
            ));
            assert forall|k: NodeId| #[trigger] split_ids(t).contains(k) implies r.contains_key(k) by {
                assert(split_ids(t) == split_ids(*first).union(split_ids(*second)).insert(id));
                if k != id {
                    if split_ids(*first).contains(k) {
                        assert(m1.contains_key(k));
                    } else {
                        assert(split_ids(*second).contains(k));
                    }
                    assert(m2.contains_key(k));
                }
            }
            assert forall|k: NodeId| m.contains_key(k) implies #[trigger] r.contains_key(k) by {
                assert(m1.contains_key(k));
            }
        },
    }
}

/// Once every tile of a layout has a rectangle, the boxes worked out from its root (as
/// `build_split_bounds` does) include a box for every split of the layout.
pub proof fn law_split_bounds_cover_splits(layout: MosaicLayout, rects: Seq<TileRect>)
    requires
        layout.wf(),
        layout@ is Some,
        forall|i: int|
            0 <= i < layout.tiles().len() ==> #[trigger] last_rect_for(rects, layout.tiles()[i]) is Some,
    ensures
        forall|k: NodeId| #[trigger] split_ids(layout@->0).contains(k) ==> split_bounds_spec(
            layout,
            Some(layout@->0.id()),
            rects,
        ).contains_key(k),
{
    let t = layout@->0;
    lemma_subtree_self(t);
    layout.lemma_wf_facts();
    assert(layout.tiles() == t.tiles());
    assert forall|i: int| 0 <= i < t.tiles().len() implies #[trigger] last_rect_for(rects, t.tiles()[i]) is Some by {
        assert(layout.tiles()[i] == t.tiles()[i]);
    }
    law_bounds_for_every_split(t, rects, Map::empty());
}

/// The box of tile `x`: that of its last rectangle in `rects`.
pub open spec fn tile_box(rects: Seq<TileRect>, x: Seq<char>) -> Bounds {
    spec_bounds_of(last_rect_for(rects, x)->0)
}

/// The smallest box holding the boxes of the tiles `xs`, taken one after the other (for one
/// tile, its own box).
pub open spec fn tiles_box(rects: Seq<TileRect>, xs: Seq<Seq<char>>) -> Bounds
    decreases xs.len(),
{
    if xs.len() <= 1 {
        tile_box(rects, xs[0])
    } else {
        tiles_box(rects, xs.drop_last()).spec_union(tile_box(rects, xs.last()))
    }
}

/// The box of two runs of tiles is the union of their boxes.
proof fn lemma_tiles_box_concat(rects: Seq<TileRect>, a: Seq<Seq<char>>, b: Seq<Seq<char>>)
    requires
        a.len() >= 1,
        b.len() >= 1,
    ensures
        tiles_box(rects, a + b) == tiles_box(rects, a).spec_union(tiles_box(rects, b)),
    decreases b.len(),
{
    if b.len() == 1 {
        assert((a + b).drop_last() =~= a);
        assert((a + b).last() == b[0]);
    } else {
        assert((a + b).drop_last() =~= a + b.drop_last());
        assert((a + b).last() == b.last());
        lemma_tiles_box_concat(rects, a, b.drop_last());
    }
}

/// The identifiers of the splits are identifiers of the tree.
proof fn lemma_split_ids_in(t: LTree)
    ensures
        split_ids(t).subset_of(t.ids()),
    decreases t,
{
    match t {
        LTree::Tile { .. } => {
            assert(split_ids(t) =~= Set::<NodeId>::empty());
        },
        LTree::Split { first, second, .. } => {
            lemma_split_ids_in(*first);
            lemma_split_ids_in(*second);
        },
    }
}

/// Working out the boxes of `t` leaves the boxes of other splits as they were.
proof fn lemma_collect_frame(t: LTree, rects: Seq<TileRect>, m: Map<NodeId, Bounds>, k: NodeId)
    requires
        !split_ids(t).contains(k),
        m.contains_key(k),
    ensures
        collect_spec(t, rects, m).1.contains_key(k),
        collect_spec(t, rects, m).1[k] == m[k],
    decreases t,
{
    match t {
        LTree::Tile { .. } => {},
        LTree::Split { id, first, second, .. } => {
            assert(split_ids(t) == split_ids(*first).union(split_ids(*second)).insert(id));
            lemma_collect_frame(*first, rects, m, k);
            let m1 = collect_spec(*first, rects, m).1;
            lemma_collect_frame(*second, rects, m1, k);
        },
    }
}

/// When every tile of `t` has a rectangle, the box of `t`, and the box recorded for each of its
/// splits, is the smallest box holding the rectangles of all the tiles below it.
pub proof fn law_split_box_holds_its_tiles(t: LTree, rects: Seq<TileRect>, m: Map<NodeId, Bounds>)
    requires
        t.distinct(),
        forall|i: int| 0 <= i < t.tiles().len() ==> #[trigger] last_rect_for(rects, t.tiles()[i]) is Some,
    ensures
        collect_spec(t, rects, m).0 == Some(tiles_box(rects, t.tiles())),
        forall|k: NodeId| #[trigger] split_ids(t).contains(k) ==> collect_spec(t, rects, m).1.contains_key(k)
            && collect_spec(t, rects, m).1[k] == tiles_box(rects, t.subtree(k).tiles()),
    decreases t,
{
    law_bounds_for_every_split(t, rects, m);
    match t {
        LTree::Tile { tile_id, .. } => {
            assert(t.tiles()[0] == tile_id@);
            assert(split_ids(t) =~= Set::<NodeId>::empty());
        },
        LTree::Split { id, first, second, .. } => {
            let n = first.tiles().len();
            assert forall|i: int| 0 <= i < first.tiles().len() implies #[trigger] last_rect_for(
                rects,
                first.tiles()[i],
            ) is Some by {
                assert(t.tiles()[i] == first.tiles()[i]);
            }
            assert forall|i: int| 0 <= i < second.tiles().len() implies #[trigger] last_rect_for(
                rects,
                second.tiles()[i],
            ) is Some by {
                assert(t.tiles()[n + i] == second.tiles()[i]);
            }
            law_split_box_holds_its_tiles(*first, rects, m);
            let m1 = collect_spec(*first, rects, m).1;
            law_split_box_holds_its_tiles(*second, rects, m1);
            let m2 = collect_spec(*second, rects, m1).1;
            lemma_tiles_count(*first);
            lemma_tiles_count(*second);
            lemma_tiles_box_concat(rects, first.tiles(), second.tiles());
            let b = tiles_box(rects, t.tiles());
            assert(collect_spec(t, rects, m) == (Some(b), m2.insert(id, b)));
            lemma_split_ids_in(*first);
            lemma_split_ids_in(*second);
            assert forall|k: NodeId| #[trigger] split_ids(t).contains(k) implies collect_spec(
                t,
                rects,
                m,
            ).1.contains_key(k) && collect_spec(t, rects, m).1[k] == tiles_box(rects, t.subtree(k).tiles()) by {
                assert(split_ids(t) == split_ids(*first).union(split_ids(*second)).insert(id));
                if k == id {
                } else if split_ids(*first).contains(k) {
                    assert(first.ids().contains(k));
                    assert(!second.ids().contains(k));
                    assert(!split_ids(*second).contains(k));
                    lemma_collect_frame(*second, rects, m1, k);
                    assert(t.subtree(k) == first.subtree(k));
                } else {
                    assert(split_ids(*second).contains(k));
                    assert(second.ids().contains(k));
                    assert(!first.ids().contains(k));
                    assert(t.subtree(k) == second.subtree(k));
                }
            }
        },
    }
}

/// Once every tile of a layout has a rectangle, the box that `build_split_bounds` gives each
/// split from the root is the smallest box holding the rectangles of all the tiles below that
/// split; in particular it holds the boxes of both its children.
pub proof fn law_split_bounds_are_tile_unions(layout: MosaicLayout, rects: Seq<TileRect>)
    requires
        layout.wf(),
        layout@ is Some,
        forall|i: int|
            0 <= i < layout.tiles().len() ==> #[trigger] last_rect_for(rects, layout.tiles()[i]) is Some,
    ensures
        forall|k: NodeId| #[trigger] split_ids(layout@->0).contains(k) ==> split_bounds_spec(
            layout,
            Some(layout@->0.id()),
            rects,
        ).contains_key(k) && split_bounds_spec(layout, Some(layout@->0.id()), rects)[k] == tiles_box(
            rects,
            layout@->0.subtree(k).tiles(),
        ),
{
    let t = layout@->0;
    lemma_subtree_self(t);
    layout.lemma_wf_facts();
    lemma_ids_finite(t);
    assert(layout.tiles() == t.tiles());
    assert forall|i: int| 0 <= i < t.tiles().len() implies #[trigger] last_rect_for(rects, t.tiles()[i]) is Some by {
        assert(layout.tiles()[i] == t.tiles()[i]);
    }
    law_split_box_holds_its_tiles(t, rects, Map::empty());
}

/// Each divider whose split has a box, with the start and length of that box along the
/// split axis, in the order of `dividers`.
pub open spec fn divider_spans_spec(dividers: Seq<DividerRect>, m: Map<NodeId, Bounds>) -> Seq<
    (DividerRect, i64, i128),
>
    decreases dividers.len(),
{
    if dividers.len() == 0 {
        seq![]
    } else {
        let rest = divider_spans_spec(dividers.drop_last(), m);
        let d = dividers.last();
        if m.contains_key(d.split_node_id) {
            let b = m[d.split_node_id];
            rest.push((d, b.spec_axis_origin(d.direction), b.spec_axis_extent(d.direction) as i128))
        } else {
            rest
        }
    }
}

/// Each divider whose split has a box, with the start and length of that box along the
/// split axis (for placing and resizing the divider).
pub fn divider_spans(dividers: &[DividerRect], split_bounds: &HashMap<NodeId, Bounds>) -> (r: Vec<
    (DividerRect, i64, i128),
>)
    ensures
        r@ == divider_spans_spec(dividers@, split_bounds@),
{
    let mut out: Vec<(DividerRect, i64, i128)> = Vec::new();
    let mut i: usize = 0;
    while i < dividers.len()
        invariant
            i <= dividers@.len(),
            out@ == divider_spans_spec(dividers@.take(i as int), split_bounds@),
        decreases dividers@.len() - i,
    {
        let d = dividers[i];
        proof {
            assert(dividers@.take(i + 1).drop_last() =~= dividers@.take(i as int));
            assert(dividers@.take(i + 1).last() == d);
        }
        match split_bounds.get(&d.split_node_id) {
            Some(b) => {
                let origin = b.axis_origin(d.direction);
                let extent = b.axis_extent(d.direction);
                out.push((d, origin, extent));
            },
            None => {},
        }
        i = i + 1;
    }
    proof {
        assert(dividers@.take(dividers@.len() as int) =~= dividers@);
    }
    out
}

} // verus!

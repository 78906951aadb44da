use vstd::prelude::*;

use crate::layout::MosaicLayout;
use crate::node::Node;
use crate::tree::{
    lemma_ids_finite, lemma_represents_entry, lemma_subtree_facts, lemma_subtree_self,
    lemma_tiles_count, represents, LTree,
};
use crate::types::{
    clamp_spec, NodeId, Percent, SplitDirection, TileId, DEFAULT_SPLIT, FULL_PERCENT,
};

verus! {

/// Pixel rectangle of a tile, computed from the layout tree.
#[derive(Debug, Clone, PartialEq)]
pub struct TileRect {
    pub tile_id: TileId,
    pub node_id: NodeId,
    pub x: i64,
    pub y: i64,
    pub width: i64,
    pub height: i64,
    pub locked: bool,
}

/// Pixel rectangle of the resize divider between the two children of a split.
#[derive(Debug, Clone, Copy, PartialEq)]
pub struct DividerRect {
    pub split_node_id: NodeId,
    pub direction: SplitDirection,
    pub x: i64,
    pub y: i64,
    pub width: i64,
    pub height: i64,
}

/// How a split shares an extent of `total` pixels: the gutter (gap, divider, gap) comes
/// off first, and the first child gets `pct` of what is left, rounded down; the second
/// child gets the rest, which is negative when `pct` is over the whole. Returns the extents
/// of the first and second child.
pub open spec fn split_extent(total: int, gap: int, divider: int, pct: int) -> (int, int) {
    let gutter = gap + divider + gap;
    let available = if total > gutter {
        total - gutter
    } else {
        0
    };
    let first = available * pct / (FULL_PERCENT as int);
    (first, available - first)
}

/// The tile rectangles of `t` laid out in the region at (`x`, `y`) of size `w` x `h`,
/// in reading order.
pub open spec fn tile_rects_spec(t: LTree, x: int, y: int, w: int, h: int, gap: int, divider: int) -> Seq<
    TileRect,
>
    decreases t,
{
    match t {
        LTree::Tile { id, tile_id, locked } => seq![
            TileRect {
                tile_id,
                node_id: id,
                x: x as i64,
                y: y as i64,
                width: w as i64,
                height: h as i64,
                locked,
            },
        ],
        LTree::Split { direction, split_percentage, first, second, .. } => {
            match direction {
                SplitDirection::Horizontal => {
                    let (fw, sw) = split_extent(w, gap, divider, split_percentage as int);
                    tile_rects_spec(*first, x, y, fw, h, gap, divider) + tile_rects_spec(
                        *second,
                        x + fw + gap + divider + gap,
                        y,
                        sw,
                        h,
                        gap,
                        divider,
                    )
                },
                SplitDirection::Vertical => {
                    let (fh, sh) = split_extent(h, gap, divider, split_percentage as int);
                    tile_rects_spec(*first, x, y, w, fh, gap, divider) + tile_rects_spec(
                        *second,
                        x,
                        y + fh + gap + divider + gap,
                        w,
                        sh,
                        gap,
                        divider,
                    )
                },
            }
        },
    }
}

/// The divider rectangles of `t` laid out in the region at (`x`, `y`) of size `w` x `h`:
/// each split's divider before those inside its first child, then those inside its second.
pub open spec fn divider_rects_spec(
    t: LTree,
    x: int,
    y: int,
    w: int,
    h: int,
    gap: int,
    divider: int,
) -> Seq<DividerRect>
    decreases t,
{
    match t {
        LTree::Tile { .. } => seq![],
        LTree::Split { id, direction, split_percentage, first, second, .. } => {
            match direction {
                SplitDirection::Horizontal => {
                    let (fw, sw) = split_extent(w, gap, divider, split_percentage as int);
                    seq![
                        DividerRect {
                            split_node_id: id,
                            direction,
                            x: (x + fw + gap) as i64,
                            y: y as i64,
                            width: divider as i64,
                            height: h as i64,
                        },
                    ] + divider_rects_spec(*first, x, y, fw, h, gap, divider) + divider_rects_spec(
                        *second,
                        x + fw + gap + divider + gap,
                        y,
                        sw,
                        h,
                        gap,
                        divider,
                    )
                },
                SplitDirection::Vertical => {
                    let (fh, sh) = split_extent(h, gap, divider, split_percentage as int);
                    seq![
                        DividerRect {
                            split_node_id: id,
                            direction,
                            x: x as i64,
                            y: (y + fh + gap) as i64,
                            width: w as i64,
                            height: divider as i64,
                        },
                    ] + divider_rects_spec(*first, x, y, w, fh, gap, divider) + divider_rects_spec(
                        *second,
                        x,
                        y + fh + gap + divider + gap,
                        w,
                        sh,
                        gap,
                        divider,
                    )
                },
            }
        },
    }
}

/// Whether `v` is a value of `i64`.
pub open spec fn in_i64(v: int) -> bool {
    i64::MIN <= v <= i64::MAX
}

/// Whether laying out `t` in the region at (`x`, `y`) of size `w` x `h` keeps every
/// position and length that the layout works out within the `i64` range.
pub open spec fn region_fits(t: LTree, x: int, y: int, w: int, h: int, gap: int, divider: int) -> bool
    decreases t,
{
    &&& in_i64(x)
    &&& in_i64(y)
    &&& in_i64(w)
    &&& in_i64(h)
    &&& match t {
        LTree::Tile { .. } => true,
        LTree::Split { direction, split_percentage, first, second, .. } => match direction {
            SplitDirection::Horizontal => {
                let (fw, sw) = split_extent(w, gap, divider, split_percentage as int);
                &&& in_i64(fw)
                &&& in_i64(sw)
                &&& in_i64(x + fw + gap)
                &&& in_i64(x + fw + gap + divider + gap)
                &&& region_fits(*first, x, y, fw, h, gap, divider)
                &&& region_fits(*second, x + fw + gap + divider + gap, y, sw, h, gap, divider)
            },
            SplitDirection::Vertical => {
                let (fh, sh) = split_extent(h, gap, divider, split_percentage as int);
                &&& in_i64(fh)
                &&& in_i64(sh)
                &&& in_i64(y + fh + gap)
                &&& in_i64(y + fh + gap + divider + gap)
                &&& region_fits(*first, x, y, w, fh, gap, divider)
                &&& region_fits(*second, x, y + fh + gap + divider + gap, w, sh, gap, divider)
            },
        },
    }
}

/// Whether a container of `width` x `height` pixels can be laid out for `layout` with every
/// position and length within the `i64` range.
pub open spec fn geometry_fits(layout: MosaicLayout, width: i64, height: i64, gap: i64, divider: i64) -> bool {
    match layout@ {
        None => true,
        Some(t) => region_fits(t, 0, 0, width as int, height as int, gap as int, divider as int),
    }
}

proof fn lemma_share(available: int, p: int, f: int)
    by (nonlinear_arith)
    requires
        0 <= available,
        0 <= p <= f,
        0 < f,
    ensures
        0 <= available * p / f <= available,
{
}

proof fn lemma_product_bound(available: int, p: int)
    by (nonlinear_arith)
    requires
        0 <= available <= 0x4_0000_0000_0000_0000,
        0 <= p <= 0xffff_ffff,
    ensures
        0 <= available * p <= 0x4_0000_0000_0000_0000 * 0x1_0000_0000,
        available * p / (FULL_PERCENT as int) <= available * p,
{
}

/// The extents of the two children, as `split_extent` gives them.
fn shares(total: i64, gap: i64, divider: i64, pct: Percent) -> (r: (i128, i128))
    ensures
        r.0 == split_extent(total as int, gap as int, divider as int, pct as int).0,
        r.1 == split_extent(total as int, gap as int, divider as int, pct as int).1,
        0 <= r.0 <= 0x4_0000_0000_0000_0000 * 0x1_0000_0000,
        -0x4_0000_0000_0000_0000 * 0x1_0000_0000 <= r.1 <= 0x4_0000_0000_0000_0000,
{
    let gutter: i128 = gap as i128 + divider as i128 + gap as i128;
    let rest: i128 = total as i128 - gutter;
    let available: i128 = if rest > 0 {
        rest
    } else {
        0
    };
    proof {
        lemma_product_bound(available as int, pct as int);
    }
    let product: u128 = (available as u128) * (pct as u128);
    let first: i128 = (product / (FULL_PERCENT as u128)) as i128;
    (first, available - first)
}

/// Whether laying out the subtree `t` (rooted at `node_id`) in the given region keeps every
/// position and length within the `i64` range.
fn subtree_fits(
    layout: &MosaicLayout,
    node_id: NodeId,
    x: i64,
    y: i64,
    w: i64,
    h: i64,
    gap_px: i64,
    divider_px: i64,
    Ghost(t): Ghost<LTree>,
    Ghost(p): Ghost<Option<NodeId>>,
) -> (r: bool)
    requires
        represents(layout.node_table(), t, p),
        t.id() == node_id,
    ensures
        r == region_fits(t, x as int, y as int, w as int, h as int, gap_px as int, divider_px as int),
    decreases t,
{
    let lo: i128 = i64::MIN as i128;
    let hi: i128 = i64::MAX as i128;
    match layout.node_entry(node_id) {
        Some(Node::Tile { .. }) => true,
        Some(Node::Split { direction, first, second, split_percentage, .. }) => {
            proof {
                assert(t is Split);
            }
            let (along, origin) = match direction {
                SplitDirection::Horizontal => (w, x),
                SplitDirection::Vertical => (h, y),
            };
            let (a, b) = shares(along, gap_px, divider_px, *split_percentage);
            let line: i128 = origin as i128 + a + gap_px as i128;
            let next: i128 = line + divider_px as i128 + gap_px as i128;
            if a < lo || a > hi || b < lo || b > hi || line < lo || line > hi || next < lo || next > hi {
                return false;
            }
            match direction {
                SplitDirection::Horizontal => {
                    subtree_fits(
                        layout,
                        *first,
                        x,
                        y,
                        a as i64,
                        h,
                        gap_px,
                        divider_px,
                        Ghost(t.left()),
                        Ghost(Some(node_id)),
                    ) && subtree_fits(
                        layout,
                        *second,
                        next as i64,
                        y,
                        b as i64,
                        h,
                        gap_px,
                        divider_px,
                        Ghost(t.right()),
                        Ghost(Some(node_id)),
                    )
                },
                SplitDirection::Vertical => {
                    subtree_fits(
                        layout,
                        *first,
                        x,
                        y,
                        w,
                        a as i64,
                        gap_px,
                        divider_px,
                        Ghost(t.left()),
                        Ghost(Some(node_id)),
                    ) && subtree_fits(
                        layout,
                        *second,
                        x,
                        next as i64,
                        w,
                        b as i64,
                        gap_px,
                        divider_px,
                        Ghost(t.right()),
                        Ghost(Some(node_id)),
                    )
                },
            }
        },
        None => false,
    }
}

/// Whether a container of `width` x `height` pixels can be laid out for `layout` with every
/// position and length within the `i64` range (the condition of `compute_rects`).
pub fn fits_geometry(layout: &MosaicLayout, width: i64, height: i64, gap: i64, divider: i64) -> (r: bool)
    requires
        layout.wf(),
    ensures
        r == geometry_fits(*layout, width, height, gap, divider),
{
    proof {
        layout.lemma_wf_facts();
    }
    match layout.root_id() {
        Some(root_id) => {
            let ghost t = layout@->0;
            proof {
                lemma_subtree_self(t);
                lemma_ids_finite(t);
                lemma_represents_entry(layout.node_table(), t, None, root_id);
                lemma_subtree_facts(t, root_id, None);
            }
            subtree_fits(
                layout,
                root_id,
                0,
                0,
                width,
                height,
                gap,
                divider,
                Ghost(t.subtree(root_id)),
                Ghost(t.parent_of(root_id, None)),
            )
        },
        None => true,
    }
}

/// Lays out the subtree `t` (rooted at `node_id`) in the given region, appending its tile
/// rectangles and divider rectangles.
fn place_subtree(
    layout: &MosaicLayout,
    node_id: NodeId,
    x: i64,
    y: i64,
    w: i64,
    h: i64,
    gap_px: i64,
    divider_px: i64,
    tiles: &mut Vec<TileRect>,
    dividers: &mut Vec<DividerRect>,
    Ghost(t): Ghost<LTree>,
    Ghost(p): Ghost<Option<NodeId>>,
)
    requires
        represents(layout.node_table(), t, p),
        t.id() == node_id,
        region_fits(t, x as int, y as int, w as int, h as int, gap_px as int, divider_px as int),
    ensures
        final(tiles)@ == old(tiles)@ + tile_rects_spec(
            t,
            x as int,
            y as int,
            w as int,
            h as int,
            gap_px as int,
            divider_px as int,
        ),
        final(dividers)@ == old(dividers)@ + divider_rects_spec(
            t,
            x as int,
            y as int,
            w as int,
            h as int,
            gap_px as int,
            divider_px as int,
        ),
    decreases t,
{
    match layout.node_entry(node_id) {
        Some(Node::Tile { id, tile_id, locked, .. }) => {
            tiles.push(
                TileRect {
                    tile_id: tile_id.clone(),
                    node_id: *id,
                    x,
                    y,
                    width: w,
                    height: h,
                    locked: *locked,
                },
            );
            proof {
                assert(dividers@ =~= old(dividers)@ + seq![]);
            }
        },
        Some(Node::Split { id, direction, first, second, split_percentage, .. }) => {
            proof {
                assert(t is Split);
            }
            match direction {
                SplitDirection::Horizontal => {
                    let (a, b) = shares(w, gap_px, divider_px, *split_percentage);
                    let first_w = a as i64;
                    let second_w = b as i64;
                    let divider_x = (x as i128 + a + gap_px as i128) as i64;
                    dividers.push(
                        DividerRect {
                            split_node_id: *id,
                            direction: *direction,
                            x: divider_x,
                            y,
                            width: divider_px,
                            height: h,
                        },
                    );
                    place_subtree(
                        layout,
                        *first,
                        x,
                        y,
                        first_w,
                        h,
                        gap_px,
                        divider_px,
                        tiles,
                        dividers,
                        Ghost(t.left()),
                        Ghost(Some(node_id)),
                    );
                    let second_x = (divider_x as i128 + divider_px as i128 + gap_px as i128) as i64;
                    place_subtree(
                        layout,
                        *second,
                        second_x,
                        y,
                        second_w,
                        h,
                        gap_px,
                        divider_px,
                        tiles,
                        dividers,
                        Ghost(t.right()),
                        Ghost(Some(node_id)),
                    );
                },
                SplitDirection::Vertical => {
                    let (a, b) = shares(h, gap_px, divider_px, *split_percentage);
                    let first_h = a as i64;
                    let second_h = b as i64;
                    let divider_y = (y as i128 + a + gap_px as i128) as i64;
                    dividers.push(
                        DividerRect {
                            split_node_id: *id,
                            direction: *direction,
                            x,
                            y: divider_y,
                            width: w,
                            height: divider_px,
                        },
                    );
                    place_subtree(
                        layout,
                        *first,
                        x,
                        y,
                        w,
                        first_h,
                        gap_px,
                        divider_px,
                        tiles,
                        dividers,
                        Ghost(t.left()),
                        Ghost(Some(node_id)),
                    );
                    let second_y = (divider_y as i128 + divider_px as i128 + gap_px as i128) as i64;
                    place_subtree(
                        layout,
                        *second,
                        x,
                        second_y,
                        w,
                        second_h,
                        gap_px,
                        divider_px,
                        tiles,
                        dividers,
                        Ghost(t.right()),
                        Ghost(Some(node_id)),
                    );
                },
            }
            proof {
                assert(tiles@ =~= old(tiles)@ + tile_rects_spec(
                    t,
                    x as int,
                    y as int,
                    w as int,
                    h as int,
                    gap_px as int,
                    divider_px as int,
                ));
                assert(dividers@ =~= old(dividers)@ + divider_rects_spec(
                    t,
                    x as int,
                    y as int,
                    w as int,
                    h as int,
                    gap_px as int,
                    divider_px as int,
                ));
            }
        },
        None => {},
    }
}

/// Lays out the subtree rooted at `node_id` in the given region, appending its tile
/// rectangles and divider rectangles; appends nothing when the layout has no such node.
fn compute_node(
    layout: &MosaicLayout,
    node_id: NodeId,
    x: i64,
    y: i64,
    w: i64,
    h: i64,
    gap_px: i64,
    divider_px: i64,
    tiles: &mut Vec<TileRect>,
    dividers: &mut Vec<DividerRect>,
)
    requires
        layout.wf(),
        layout.entry(node_id) is Some ==> region_fits(
            layout@->0.subtree(node_id),
            x as int,
            y as int,
            w as int,
            h as int,
            gap_px as int,
            divider_px as int,
        ),
    ensures
        match layout.entry(node_id) {
            None => final(tiles)@ == old(tiles)@ && final(dividers)@ == old(dividers)@,
            Some(_) => {
                let t = layout@->0.subtree(node_id);
                &&& final(tiles)@ == old(tiles)@ + tile_rects_spec(
                    t,
                    x as int,
                    y as int,
                    w as int,
                    h as int,
                    gap_px as int,
                    divider_px as int,
                )
                &&& final(dividers)@ == old(dividers)@ + divider_rects_spec(
                    t,
                    x as int,
                    y as int,
                    w as int,
                    h as int,
                    gap_px as int,
                    divider_px as int,
                )
            },
        },
{
    proof {
        layout.lemma_wf_facts();
    }
    if layout.node_entry(node_id).is_none() {
        proof {
            if let Some(t) = layout@ {
                assert(!t.ids().contains(node_id));
            }
        }
        return;
    }
    let ghost t = layout@->0;
    proof {
        lemma_represents_entry(layout.node_table(), t, None, node_id);
        lemma_subtree_facts(t, node_id, None);
    }
    place_subtree(
        layout,
        node_id,
        x,
        y,
        w,
        h,
        gap_px,
        divider_px,
        tiles,
        dividers,
        Ghost(t.subtree(node_id)),
        Ghost(t.parent_of(node_id, None)),
    );
}

/// Compute flat tile rectangles and divider rectangles for a container of
/// `container_width` x `container_height` pixels.
///
/// `gap_px` is the gap on each side of a divider (a split loses `divider_px + 2 * gap_px`
/// to its gutter); `divider_px` is the width of the divider handle itself.
pub fn compute_rects(
    layout: &MosaicLayout,
    container_width: i64,
    container_height: i64,
    gap_px: i64,
    divider_px: i64,
) -> (r: (Vec<TileRect>, Vec<DividerRect>))
    requires
        layout.wf(),
        geometry_fits(*layout, container_width, container_height, gap_px, divider_px),
    ensures
        match layout@ {
            None => r.0@ == Seq::<TileRect>::empty() && r.1@ == Seq::<DividerRect>::empty(),
            Some(t) => {
                &&& r.0@ == tile_rects_spec(
                    t,
                    0,
                    0,
                    container_width as int,
                    container_height as int,
                    gap_px as int,
                    divider_px as int,
                )
                &&& r.1@ == divider_rects_spec(
                    t,
                    0,
                    0,
                    container_width as int,
                    container_height as int,
                    gap_px as int,
                    divider_px as int,
                )
            },
        },
{
    let mut tiles: Vec<TileRect> = Vec::new();
    let mut dividers: Vec<DividerRect> = Vec::new();
    proof {
        layout.lemma_wf_facts();
    }
    match layout.root_id() {
        Some(root_id) => {
            proof {
                lemma_subtree_self(layout@->0);
                lemma_ids_finite(layout@->0);
            }
            compute_node(
                layout,
                root_id,
                0,
                0,
                container_width,
                container_height,
                gap_px,
                divider_px,
                &mut tiles,
                &mut dividers,
            );
            proof {
                assert(tiles@ =~= tile_rects_spec(
                    layout@->0,
                    0,
                    0,
                    container_width as int,
                    container_height as int,
                    gap_px as int,
                    divider_px as int,
                ));
                assert(dividers@ =~= divider_rects_spec(
                    layout@->0,
                    0,
                    0,
                    container_width as int,
                    container_height as int,
                    gap_px as int,
                    divider_px as int,
                ));
            }
        },
        None => {},
    }
    (tiles, dividers)
}

/// Active resize state, held at the mosaic root while a divider is being dragged.
#[derive(Debug, Clone)]
pub struct ActiveResize {
    pub split_node_id: Option<NodeId>,
    pub direction: Option<SplitDirection>,
    /// Pixel origin of the split's region along the split axis.
    pub origin_px: i64,
    /// Pixel extent of the split's region along the split axis.
    pub extent_px: i64,
    pub min_pct: Percent,
    pub max_pct: Percent,
}

impl Default for ActiveResize {
    fn default() -> (r: Self)
        ensures
            r == (ActiveResize {
                split_node_id: None,
                direction: None,
                origin_px: 0,
                extent_px: 0,
                min_pct: 0,
                max_pct: 0,
            }),
    {
        ActiveResize {
            split_node_id: None,
            direction: None,
            origin_px: 0,
            extent_px: 0,
            min_pct: 0,
            max_pct: 0,
        }
    }
}

/// The share that the first child of a split gets when the divider is dragged to
/// `mouse_pos`: the distance from `origin` as a share of `extent`, rounded down and limited to
/// `[min, max]`; half when the region has no extent.
pub open spec fn resize_share(mouse_pos: int, origin: int, extent: int, min: int, max: int) -> int {
    if extent <= 0 {
        DEFAULT_SPLIT as int
    } else {
        clamp_spec((mouse_pos - origin) * (FULL_PERCENT as int) / extent, min, max)
    }
}

proof fn lemma_nonpositive_share(d: int, f: int, e: int)
    by (nonlinear_arith)
    requires
        d <= 0,
        f > 0,
        e > 0,
    ensures
        d * f / e <= 0,
{
}

impl ActiveResize {
    /// Whether a divider is being dragged.
    pub fn is_active(&self) -> (r: bool)
        ensures
            r == self.split_node_id is Some,
    {
        self.split_node_id.is_some()
    }

    /// The state at the start of a drag of the divider of `split_node_id`.
    pub fn start(
        split_node_id: NodeId,
        direction: SplitDirection,
        origin_px: i64,
        extent_px: i64,
        min_pct: Percent,
        max_pct: Percent,
    ) -> (r: Self)
        ensures
            r == (ActiveResize {
                split_node_id: Some(split_node_id),
                direction: Some(direction),
                origin_px,
                extent_px,
                min_pct,
                max_pct,
            }),
    {
        Self {
            split_node_id: Some(split_node_id),
            direction: Some(direction),
            origin_px,
            extent_px,
            min_pct,
            max_pct,
        }
    }

    /// Ends the drag.
    pub fn clear(&mut self)
        ensures
            *final(self) == (ActiveResize {
                split_node_id: None,
                direction: None,
                origin_px: 0,
                extent_px: 0,
                min_pct: 0,
                max_pct: 0,
            }),
    {
        *self = Self::default();
    }

    /// The drag of the divider of split `split_node_id` of `layout`, starting over a region at
    /// `origin_px` of length `extent_px` along the split axis; `None` when that node is not an
    /// unlocked split of the layout.
    pub fn start_for(
        layout: &MosaicLayout,
        split_node_id: NodeId,
        direction: SplitDirection,
        origin_px: i64,
        extent_px: i64,
    ) -> (r: Option<Self>)
        requires
            layout.wf(),
        ensures
            match layout.entry(split_node_id) {
                Some(Node::Split { locked, min_percentage, max_percentage, .. }) => if locked {
                    r is None
                } else {
                    r == Some(
                        ActiveResize {
                            split_node_id: Some(split_node_id),
                            direction: Some(direction),
                            origin_px,
                            extent_px,
                            min_pct: min_percentage,
                            max_pct: max_percentage,
                        },
                    )
                },
                _ => r is None,
            },
    {
        match layout.get_node(&split_node_id) {
            Some(Node::Split { locked, min_percentage, max_percentage, .. }) => {
                if *locked {
                    None
                } else {
                    Some(
                        Self::start(
                            split_node_id,
                            direction,
                            origin_px,
                            extent_px,
                            *min_percentage,
                            *max_percentage,
                        ),
                    )
                }
            },
            _ => None,
        }
    }

    /// The split to update, and its new share, with the mouse at (`mouse_x`, `mouse_y`): the
    /// coordinate along the split axis decides. `None` when no divider is being dragged.
    pub fn resize_to(&self, mouse_x: i64, mouse_y: i64) -> (r: Option<(NodeId, Percent)>)
        requires
            self.extent_px > 0 ==> self.min_pct <= self.max_pct,
        ensures
            match (self.split_node_id, self.direction) {
                (Some(id), Some(d)) => r == Some(
                    (
                        id,
                        resize_share(
                            match d {
                                SplitDirection::Horizontal => mouse_x as int,
                                SplitDirection::Vertical => mouse_y as int,
                            },
                            self.origin_px as int,
                            self.extent_px as int,
                            self.min_pct as int,
                            self.max_pct as int,
                        ) as Percent,
                    ),
                ),
                _ => r is None,
            },
    {
        match (self.split_node_id, self.direction) {
            (Some(id), Some(d)) => {
                let pos = match d {
                    SplitDirection::Horizontal => mouse_x,
                    SplitDirection::Vertical => mouse_y,
                };
                Some((id, self.compute_percentage(pos)))
            },
            _ => None,
        }
    }

    /// The share the first child gets with the divider at `mouse_pos` (half when the region
    /// has no extent; the bounds must be in order otherwise).
    pub fn compute_percentage(&self, mouse_pos: i64) -> (r: Percent)
        requires
            self.extent_px > 0 ==> self.min_pct <= self.max_pct,
        ensures
            r == resize_share(
                mouse_pos as int,
                self.origin_px as int,
                self.extent_px as int,
                self.min_pct as int,
                self.max_pct as int,
            ),
    {
        if self.extent_px <= 0 {
            return DEFAULT_SPLIT;
        }
        let diff: i128 = mouse_pos as i128 - self.origin_px as i128;
        if diff <= 0 {
            proof {
                lemma_nonpositive_share(diff as int, FULL_PERCENT as int, self.extent_px as int);
            }
            return self.min_pct;
        }
        let share: u128 = (diff as u128) * (FULL_PERCENT as u128) / (self.extent_px as u128);
        if share < self.min_pct as u128 {
            self.min_pct
        } else if share > self.max_pct as u128 {
            self.max_pct
        } else {
            share as u32
        }
    }
}

/// A split whose share is at most the whole gives neither child a negative extent; when the
/// extent is at least the gutter, the first child, the gutter and the second child fill it
/// exactly.
pub proof fn law_split_fills_extent(total: int, gap: int, divider: int, pct: int)
    requires
        0 <= gap,
        0 <= divider,
        0 <= pct <= FULL_PERCENT,
    ensures
        ({
            let (first, second) = split_extent(total, gap, divider, pct);
            let gutter = gap + divider + gap;
            &&& 0 <= first
            &&& 0 <= second
            &&& total >= gutter ==> first + gutter + second == total
            &&& total <= gutter ==> first == 0 && second == 0
        }),
{
    let gutter = gap + divider + gap;
    let available = if total > gutter {
        total - gutter
    } else {
        0
    };
    lemma_share(available, pct, FULL_PERCENT as int);
}

/// There is one tile rectangle per tile, in reading order, and one divider rectangle per
/// split, which is one fewer than the tiles.
pub proof fn law_rects_follow_tiles(t: LTree, x: int, y: int, w: int, h: int, gap: int, divider: int)
    ensures
        tile_rects_spec(t, x, y, w, h, gap, divider).len() == t.tiles().len(),
        forall|i: int|
            0 <= i < t.tiles().len() ==> (#[trigger] tile_rects_spec(t, x, y, w, h, gap, divider)[i]).tile_id@
                == t.tiles()[i],
        divider_rects_spec(t, x, y, w, h, gap, divider).len() == t.split_count(),
        t.split_count() + 1 == t.tiles().len(),
    decreases t,
{
    lemma_tiles_count(t);
    match t {
        LTree::Tile { .. } => {},
        LTree::Split { direction, split_percentage, first, second, .. } => {
            match direction {
                SplitDirection::Horizontal => {
                    let (fw, sw) = split_extent(w, gap, divider, split_percentage as int);
                    law_rects_follow_tiles(*first, x, y, fw, h, gap, divider);
                    law_rects_follow_tiles(*second, x + fw + gap + divider + gap, y, sw, h, gap, divider);
                    let a = tile_rects_spec(*first, x, y, fw, h, gap, divider);
                    let b = tile_rects_spec(*second, x + fw + gap + divider + gap, y, sw, h, gap, divider);
                    assert forall|i: int| 0 <= i < t.tiles().len() implies (#[trigger] tile_rects_spec(
                        t,
                        x,
                        y,
                        w,
                        h,
                        gap,
                        divider,
                    )[i]).tile_id@ == t.tiles()[i] by {
                        if i < a.len() {
                            assert(tile_rects_spec(t, x, y, w, h, gap, divider)[i] == a[i]);
                        } else {
                            assert(tile_rects_spec(t, x, y, w, h, gap, divider)[i] == b[i - a.len()]);
                        }
                    }
                },
                SplitDirection::Vertical => {
                    let (fh, sh) = split_extent(h, gap, divider, split_percentage as int);
                    law_rects_follow_tiles(*first, x, y, w, fh, gap, divider);
                    law_rects_follow_tiles(*second, x, y + fh + gap + divider + gap, w, sh, gap, divider);
                    let a = tile_rects_spec(*first, x, y, w, fh, gap, divider);
                    let b = tile_rects_spec(*second, x, y + fh + gap + divider + gap, w, sh, gap, divider);
                    assert forall|i: int| 0 <= i < t.tiles().len() implies (#[trigger] tile_rects_spec(
                        t,
                        x,
                        y,
                        w,
                        h,
                        gap,
                        divider,
                    )[i]).tile_id@ == t.tiles()[i] by {
                        if i < a.len() {
                            assert(tile_rects_spec(t, x, y, w, h, gap, divider)[i] == a[i]);
                        } else {
                            assert(tile_rects_spec(t, x, y, w, h, gap, divider)[i] == b[i - a.len()]);
                        }
                    }
                },
            }
        },
    }
}

/// A dragged divider always leaves the first child a share within the split's bounds.
pub proof fn law_resize_share_within_bounds(mouse_pos: int, origin: int, extent: int, min: int, max: int)
    requires
        min <= max,
        0 <= min,
        max <= FULL_PERCENT,
    ensures
        extent > 0 ==> min <= resize_share(mouse_pos, origin, extent, min, max) <= max,
        extent <= 0 ==> resize_share(mouse_pos, origin, extent, min, max) == DEFAULT_SPLIT,
{
}

/// The floor of `a / e` is the largest `q` with `q * e <= a`.
proof fn lemma_floor_div(a: int, e: int)
    requires
        e > 0,
    ensures
        (a / e) * e <= a < (a / e + 1) * e,
{
    vstd::arithmetic::div_mod::lemma_fundamental_div_mod(a, e);
    vstd::arithmetic::div_mod::lemma_mod_bound(a, e);
    let q = a / e;
    assert(q * e == e * q) by (nonlinear_arith);
    assert((q + 1) * e == e * q + e) by (nonlinear_arith);
}

/// Bounds on a floor quotient from bounds on the dividend.
proof fn lemma_floor_bounds(a: int, e: int, m: int)
    requires
        e > 0,
    ensures
        a >= m * e ==> a / e >= m,
        a <= m * e ==> a / e <= m,
{
    lemma_floor_div(a, e);
    let q = a / e;
    if a >= m * e {
        assert(q >= m) by (nonlinear_arith)
            requires
                a < (q + 1) * e,
                a >= m * e,
                e > 0,
        ;
    }
    if a <= m * e {
        assert(q <= m) by (nonlinear_arith)
            requires
                q * e <= a,
                a <= m * e,
                e > 0,
        ;
    }
}

/// Dragging a divider further along its axis never gives the first child a smaller share.
pub proof fn law_resize_share_monotone(p1: int, p2: int, origin: int, extent: int, min: int, max: int)
    requires
        extent > 0,
        min <= max,
        p1 <= p2,
    ensures
        resize_share(p1, origin, extent, min, max) <= resize_share(p2, origin, extent, min, max),
{
    let f = FULL_PERCENT as int;
    assert((p1 - origin) * f <= (p2 - origin) * f) by (nonlinear_arith)
        requires
            p1 <= p2,
            f > 0,
    ;
    vstd::arithmetic::div_mod::lemma_div_is_ordered((p1 - origin) * f, (p2 - origin) * f, extent);
}

/// The share a dragged divider gives its first child is the part of the split's region
/// before the mouse, in hundredths of a percent rounded down, limited to the split's bounds:
/// the upper bound once the mouse is at or past that share of the region, the lower bound
/// once it is at or before that share.
pub proof fn law_resize_share_is_mouse_share(mouse_pos: int, origin: int, extent: int, min: int, max: int)
    requires
        extent > 0,
        min <= max,
    ensures
        ({
            let s = resize_share(mouse_pos, origin, extent, min, max);
            let a = (mouse_pos - origin) * (FULL_PERCENT as int);
            &&& min <= s <= max
            &&& a >= max * extent ==> s == max
            &&& a <= min * extent ==> s == min
            &&& min * extent <= a <= max * extent ==> s * extent <= a < (s + 1) * extent
        }),
{
    let a = (mouse_pos - origin) * (FULL_PERCENT as int);
    lemma_floor_div(a, extent);
    lemma_floor_bounds(a, extent, max);
    lemma_floor_bounds(a, extent, min);
}

/// Every split of `t`, laid out in a `w` x `h` region, has at least its gutter along the
/// axis it divides, and gives its first child no more than the whole.
pub open spec fn has_room(t: LTree, w: int, h: int, gap: int, divider: int) -> bool
    decreases t,
{
    match t {
        LTree::Tile { .. } => true,
        LTree::Split { direction, split_percentage, first, second, .. } => {
            match direction {
                SplitDirection::Horizontal => {
                    let (fw, sw) = split_extent(w, gap, divider, split_percentage as int);
                    &&& w >= gap + divider + gap
                    &&& split_percentage <= FULL_PERCENT
                    &&& has_room(*first, fw, h, gap, divider)
                    &&& has_room(*second, sw, h, gap, divider)
                },
                SplitDirection::Vertical => {
                    let (fh, sh) = split_extent(h, gap, divider, split_percentage as int);
                    &&& h >= gap + divider + gap
                    &&& split_percentage <= FULL_PERCENT
                    &&& has_room(*first, w, fh, gap, divider)
                    &&& has_room(*second, w, sh, gap, divider)
                },
            }
        },
    }
}

/// Whether a tile rectangle lies in the region at (`x`, `y`) of size `w` x `h`.
pub open spec fn rect_within(r: TileRect, x: int, y: int, w: int, h: int) -> bool {
    &&& x <= r.x
    &&& r.x + r.width <= x + w
    &&& y <= r.y
    &&& r.y + r.height <= y + h
}

/// When every split has room for its gutter, every tile is laid out inside the region.
pub proof fn law_tiles_within_region(t: LTree, x: int, y: int, w: int, h: int, gap: int, divider: int)
    requires
        0 <= x,
        0 <= y,
        0 <= w,
        0 <= h,
        0 <= gap,
        0 <= divider,
        x + w <= i64::MAX,
        y + h <= i64::MAX,
        has_room(t, w, h, gap, divider),
    ensures
        forall|i: int|
            0 <= i < tile_rects_spec(t, x, y, w, h, gap, divider).len() ==> rect_within(
                #[trigger] tile_rects_spec(t, x, y, w, h, gap, divider)[i],
                x,
                y,
                w,
                h,
            ),
    decreases t,
{
    match t {
        LTree::Tile { .. } => {},
        LTree::Split { direction, split_percentage, first, second, .. } => {
            let g = gap + divider + gap;
            match direction {
                SplitDirection::Horizontal => {
                    let (fw, sw) = split_extent(w, gap, divider, split_percentage as int);
                    law_split_fills_extent(w, gap, divider, split_percentage as int);
                    law_tiles_within_region(*first, x, y, fw, h, gap, divider);
                    law_tiles_within_region(*second, x + fw + g, y, sw, h, gap, divider);
                    let a = tile_rects_spec(*first, x, y, fw, h, gap, divider);
                    let b = tile_rects_spec(*second, x + fw + g, y, sw, h, gap, divider);
                    assert forall|i: int|
                        0 <= i < tile_rects_spec(t, x, y, w, h, gap, divider).len() implies rect_within(
                        #[trigger] tile_rects_spec(t, x, y, w, h, gap, divider)[i],
                        x,
                        y,
                        w,
                        h,
                    ) by {
                        if i < a.len() {
                            assert(rect_within(a[i], x, y, fw, h));
                        } else {
                            assert(rect_within(b[i - a.len()], x + fw + g, y, sw, h));
                        }
                    }
                },
                SplitDirection::Vertical => {
                    let (fh, sh) = split_extent(h, gap, divider, split_percentage as int);
                    law_split_fills_extent(h, gap, divider, split_percentage as int);
                    law_tiles_within_region(*first, x, y, w, fh, gap, divider);
                    law_tiles_within_region(*second, x, y + fh + g, w, sh, gap, divider);
                    let a = tile_rects_spec(*first, x, y, w, fh, gap, divider);
                    let b = tile_rects_spec(*second, x, y + fh + g, w, sh, gap, divider);
                    assert forall|i: int|
                        0 <= i < tile_rects_spec(t, x, y, w, h, gap, divider).len() implies rect_within(
                        #[trigger] tile_rects_spec(t, x, y, w, h, gap, divider)[i],
                        x,
                        y,
                        w,
                        h,
                    ) by {
                        if i < a.len() {
                            assert(rect_within(a[i], x, y, w, fh));
                        } else {
                            assert(rect_within(b[i - a.len()], x, y + fh + g, w, sh));
                        }
                    }
                },
            }
        },
    }
}

/// Whether a divider rectangle lies in the region at (`x`, `y`) of size `w` x `h`.
pub open spec fn divider_within(r: DividerRect, x: int, y: int, w: int, h: int) -> bool {
    &&& x <= r.x
    &&& r.x + r.width <= x + w
    &&& y <= r.y
    &&& r.y + r.height <= y + h
}

/// Whether two tile rectangles share no interior point.
pub open spec fn rects_apart(a: TileRect, b: TileRect) -> bool {
    ||| a.x + a.width <= b.x
    ||| b.x + b.width <= a.x
    ||| a.y + a.height <= b.y
    ||| b.y + b.height <= a.y
}

/// When every split has room for its gutter, every divider is laid out inside the region.
pub proof fn law_dividers_within_region(t: LTree, x: int, y: int, w: int, h: int, gap: int, divider: int)
    requires
        0 <= x,
        0 <= y,
        0 <= w,
        0 <= h,
        0 <= gap,
        0 <= divider,
        x + w <= i64::MAX,
        y + h <= i64::MAX,
        has_room(t, w, h, gap, divider),
    ensures
        forall|i: int|
            0 <= i < divider_rects_spec(t, x, y, w, h, gap, divider).len() ==> divider_within(
                #[trigger] divider_rects_spec(t, x, y, w, h, gap, divider)[i],
                x,
                y,
                w,
                h,
            ),
    decreases t,
{
    match t {
        LTree::Tile { .. } => {},
        LTree::Split { direction, split_percentage, first, second, .. } => {
            let g = gap + divider + gap;
            let ds = divider_rects_spec(t, x, y, w, h, gap, divider);
            match direction {
                SplitDirection::Horizontal => {
                    let (fw, sw) = split_extent(w, gap, divider, split_percentage as int);
                    law_split_fills_extent(w, gap, divider, split_percentage as int);
                    law_dividers_within_region(*first, x, y, fw, h, gap, divider);
                    law_dividers_within_region(*second, x + fw + g, y, sw, h, gap, divider);
                    let a = divider_rects_spec(*first, x, y, fw, h, gap, divider);
                    let b = divider_rects_spec(*second, x + fw + g, y, sw, h, gap, divider);
                    assert forall|i: int| 0 <= i < ds.len() implies divider_within(
                        #[trigger] ds[i],
                        x,
                        y,
                        w,
                        h,
                    ) by {
                        if i == 0 {
                        } else if i < 1 + a.len() {
                            assert(ds[i] == a[i - 1]);
                            assert(divider_within(a[i - 1], x, y, fw, h));
                        } else {
                            assert(ds[i] == b[i - 1 - a.len()]);
                            assert(divider_within(b[i - 1 - a.len()], x + fw + g, y, sw, h));
                        }
                    }
                },
                SplitDirection::Vertical => {
                    let (fh, sh) = split_extent(h, gap, divider, split_percentage as int);
                    law_split_fills_extent(h, gap, divider, split_percentage as int);
                    law_dividers_within_region(*first, x, y, w, fh, gap, divider);
                    law_dividers_within_region(*second, x, y + fh + g, w, sh, gap, divider);
                    let a = divider_rects_spec(*first, x, y, w, fh, gap, divider);
                    let b = divider_rects_spec(*second, x, y + fh + g, w, sh, gap, divider);
                    assert forall|i: int| 0 <= i < ds.len() implies divider_within(
                        #[trigger] ds[i],
                        x,
                        y,
                        w,
                        h,
                    ) by {
                        if i == 0 {
                        } else if i < 1 + a.len() {
                            assert(ds[i] == a[i - 1]);
                            assert(divider_within(a[i - 1], x, y, w, fh));
                        } else {
                            assert(ds[i] == b[i - 1 - a.len()]);
                            assert(divider_within(b[i - 1 - a.len()], x, y + fh + g, w, sh));
                        }
                    }
                },
            }
        },
    }
}

/// When every split has room for its gutter, no two tiles overlap.
pub proof fn law_tiles_apart(t: LTree, x: int, y: int, w: int, h: int, gap: int, divider: int)
    requires
        0 <= x,
        0 <= y,
        0 <= w,
        0 <= h,
        0 <= gap,
        0 <= divider,
        x + w <= i64::MAX,
        y + h <= i64::MAX,
        has_room(t, w, h, gap, divider),
    ensures
        forall|i: int, j: int|
            0 <= i < tile_rects_spec(t, x, y, w, h, gap, divider).len() && 0 <= j
                < tile_rects_spec(t, x, y, w, h, gap, divider).len() && i != j ==> rects_apart(
                #[trigger] tile_rects_spec(t, x, y, w, h, gap, divider)[i],
                #[trigger] tile_rects_spec(t, x, y, w, h, gap, divider)[j],
            ),
    decreases t,
{
    match t {
        LTree::Tile { .. } => {},
        LTree::Split { direction, split_percentage, first, second, .. } => {
            let g = gap + divider + gap;
            let rs = tile_rects_spec(t, x, y, w, h, gap, divider);
            match direction {
                SplitDirection::Horizontal => {
                    let (fw, sw) = split_extent(w, gap, divider, split_percentage as int);
                    law_split_fills_extent(w, gap, divider, split_percentage as int);
                    law_tiles_apart(*first, x, y, fw, h, gap, divider);
                    law_tiles_apart(*second, x + fw + g, y, sw, h, gap, divider);
                    law_tiles_within_region(*first, x, y, fw, h, gap, divider);
                    law_tiles_within_region(*second, x + fw + g, y, sw, h, gap, divider);
                    let a = tile_rects_spec(*first, x, y, fw, h, gap, divider);
                    let b = tile_rects_spec(*second, x + fw + g, y, sw, h, gap, divider);
                    assert forall|i: int, j: int|
                        0 <= i < rs.len() && 0 <= j < rs.len() && i != j implies rects_apart(
                        #[trigger] rs[i],
                        #[trigger] rs[j],
                    ) by {
                        if i < a.len() && j < a.len() {
                            assert(rs[i] == a[i] && rs[j] == a[j]);
                        } else if i >= a.len() && j >= a.len() {
                            assert(rs[i] == b[i - a.len()] && rs[j] == b[j - a.len()]);
                        } else if i < a.len() {
                            assert(rs[i] == a[i] && rs[j] == b[j - a.len()]);
                            assert(rect_within(a[i], x, y, fw, h));
                            assert(rect_within(b[j - a.len()], x + fw + g, y, sw, h));
                        } else {
                            assert(rs[j] == a[j] && rs[i] == b[i - a.len()]);
                            assert(rect_within(a[j], x, y, fw, h));
                            assert(rect_within(b[i - a.len()], x + fw + g, y, sw, h));
                        }
                    }
                },
                SplitDirection::Vertical => {
                    let (fh, sh) = split_extent(h, gap, divider, split_percentage as int);
                    law_split_fills_extent(h, gap, divider, split_percentage as int);
                    law_tiles_apart(*first, x, y, w, fh, gap, divider);
                    law_tiles_apart(*second, x, y + fh + g, w, sh, gap, divider);
                    law_tiles_within_region(*first, x, y, w, fh, gap, divider);
                    law_tiles_within_region(*second, x, y + fh + g, w, sh, gap, divider);
                    let a = tile_rects_spec(*first, x, y, w, fh, gap, divider);
                    let b = tile_rects_spec(*second, x, y + fh + g, w, sh, gap, divider);
                    assert forall|i: int, j: int|
                        0 <= i < rs.len() && 0 <= j < rs.len() && i != j implies rects_apart(
                        #[trigger] rs[i],
                        #[trigger] rs[j],
                    ) by {
                        if i < a.len() && j < a.len() {
                            assert(rs[i] == a[i] && rs[j] == a[j]);
                        } else if i >= a.len() && j >= a.len() {
                            assert(rs[i] == b[i - a.len()] && rs[j] == b[j - a.len()]);
                        } else if i < a.len() {
                            assert(rs[i] == a[i] && rs[j] == b[j - a.len()]);
                            assert(rect_within(a[i], x, y, w, fh));
                            assert(rect_within(b[j - a.len()], x, y + fh + g, w, sh));
                        } else {
                            assert(rs[j] == a[j] && rs[i] == b[i - a.len()]);
                            assert(rect_within(a[j], x, y, w, fh));
                            assert(rect_within(b[i - a.len()], x, y + fh + g, w, sh));
                        }
                    }
                },
            }
        },
    }
}

/// Whether a divider rectangle and a tile rectangle share no interior point.
pub open spec fn divider_apart(d: DividerRect, r: TileRect) -> bool {
    ||| d.x + d.width <= r.x
    ||| r.x + r.width <= d.x
    ||| d.y + d.height <= r.y
    ||| r.y + r.height <= d.y
}

/// When every split has room for its gutter, no divider overlaps a tile.
pub proof fn law_dividers_apart_from_tiles(t: LTree, x: int, y: int, w: int, h: int, gap: int, divider: int)
    requires
        0 <= x,
        0 <= y,
        0 <= w,
        0 <= h,
        0 <= gap,
        0 <= divider,
        x + w <= i64::MAX,
        y + h <= i64::MAX,
        has_room(t, w, h, gap, divider),
    ensures
        forall|i: int, j: int|
            0 <= i < divider_rects_spec(t, x, y, w, h, gap, divider).len() && 0 <= j
                < tile_rects_spec(t, x, y, w, h, gap, divider).len() ==> divider_apart(
                #[trigger] divider_rects_spec(t, x, y, w, h, gap, divider)[i],
                #[trigger] tile_rects_spec(t, x, y, w, h, gap, divider)[j],
            ),
    decreases t,
{
    match t {
        LTree::Tile { .. } => {},
        LTree::Split { direction, split_percentage, first, second, .. } => {
            let g = gap + divider + gap;
            let ds = divider_rects_spec(t, x, y, w, h, gap, divider);
            let rs = tile_rects_spec(t, x, y, w, h, gap, divider);
            match direction {
                SplitDirection::Horizontal => {
                    let (fw, sw) = split_extent(w, gap, divider, split_percentage as int);
                    law_split_fills_extent(w, gap, divider, split_percentage as int);
                    law_dividers_apart_from_tiles(*first, x, y, fw, h, gap, divider);
                    law_dividers_apart_from_tiles(*second, x + fw + g, y, sw, h, gap, divider);
                    law_tiles_within_region(*first, x, y, fw, h, gap, divider);
                    law_tiles_within_region(*second, x + fw + g, y, sw, h, gap, divider);
                    law_dividers_within_region(*first, x, y, fw, h, gap, divider);
                    law_dividers_within_region(*second, x + fw + g, y, sw, h, gap, divider);
                    let da = divider_rects_spec(*first, x, y, fw, h, gap, divider);
                    let db = divider_rects_spec(*second, x + fw + g, y, sw, h, gap, divider);
                    let ra = tile_rects_spec(*first, x, y, fw, h, gap, divider);
                    let rb = tile_rects_spec(*second, x + fw + g, y, sw, h, gap, divider);
                    assert forall|i: int, j: int| 0 <= i < ds.len() && 0 <= j < rs.len() implies divider_apart(
                        #[trigger] ds[i],
                        #[trigger] rs[j],
                    ) by {
                        if j < ra.len() {
                            assert(rs[j] == ra[j]);
                            assert(rect_within(ra[j], x, y, fw, h));
                        } else {
                            assert(rs[j] == rb[j - ra.len()]);
                            assert(rect_within(rb[j - ra.len()], x + fw + g, y, sw, h));
                        }
                        if i == 0 {
                        } else if i < 1 + da.len() {
                            assert(ds[i] == da[i - 1]);
                            assert(divider_within(da[i - 1], x, y, fw, h));
                            if j < ra.len() {
                                assert(divider_apart(da[i - 1], ra[j]));
                            }
                        } else {
                            assert(ds[i] == db[i - 1 - da.len()]);
                            assert(divider_within(db[i - 1 - da.len()], x + fw + g, y, sw, h));
                            if j >= ra.len() {
                                assert(divider_apart(db[i - 1 - da.len()], rb[j - ra.len()]));
                            }
                        }
                    }
                },
                SplitDirection::Vertical => {
                    let (fh, sh) = split_extent(h, gap, divider, split_percentage as int);
                    law_split_fills_extent(h, gap, divider, split_percentage as int);
                    law_dividers_apart_from_tiles(*first, x, y, w, fh, gap, divider);
                    law_dividers_apart_from_tiles(*second, x, y + fh + g, w, sh, gap, divider);
                    law_tiles_within_region(*first, x, y, w, fh, gap, divider);
                    law_tiles_within_region(*second, x, y + fh + g, w, sh, gap, divider);
                    law_dividers_within_region(*first, x, y, w, fh, gap, divider);
                    law_dividers_within_region(*second, x, y + fh + g, w, sh, gap, divider);
                    let da = divider_rects_spec(*first, x, y, w, fh, gap, divider);
                    let db = divider_rects_spec(*second, x, y + fh + g, w, sh, gap, divider);
                    let ra = tile_rects_spec(*first, x, y, w, fh, gap, divider);
                    let rb = tile_rects_spec(*second, x, y + fh + g, w, sh, gap, divider);
                    assert forall|i: int, j: int| 0 <= i < ds.len() && 0 <= j < rs.len() implies divider_apart(
                        #[trigger] ds[i],
                        #[trigger] rs[j],
                    ) by {
                        if j < ra.len() {
                            assert(rs[j] == ra[j]);
                            assert(rect_within(ra[j], x, y, w, fh));
                        } else {
                            assert(rs[j] == rb[j - ra.len()]);
                            assert(rect_within(rb[j - ra.len()], x, y + fh + g, w, sh));
                        }
                        if i == 0 {
                        } else if i < 1 + da.len() {
                            assert(ds[i] == da[i - 1]);
                            assert(divider_within(da[i - 1], x, y, w, fh));
                            if j < ra.len() {
                                assert(divider_apart(da[i - 1], ra[j]));
                            }
                        } else {
                            assert(ds[i] == db[i - 1 - da.len()]);
                            assert(divider_within(db[i - 1 - da.len()], x, y + fh + g, w, sh));
                            if j >= ra.len() {
                                assert(divider_apart(db[i - 1 - da.len()], rb[j - ra.len()]));
                            }
                        }
                    }
                },
            }
        },
    }
}

/// Each divider belongs to a different split of the tree.
pub proof fn law_divider_splits_distinct(t: LTree, x: int, y: int, w: int, h: int, gap: int, divider: int)
    requires
        t.distinct(),
    ensures
        forall|i: int|
            0 <= i < divider_rects_spec(t, x, y, w, h, gap, divider).len() ==> t.ids().contains(
                (#[trigger] divider_rects_spec(t, x, y, w, h, gap, divider)[i]).split_node_id,
            ),
        forall|i: int, j: int|
            0 <= i < divider_rects_spec(t, x, y, w, h, gap, divider).len() && 0 <= j
                < divider_rects_spec(t, x, y, w, h, gap, divider).len() && i != j
                ==> (#[trigger] divider_rects_spec(t, x, y, w, h, gap, divider)[i]).split_node_id
                != (#[trigger] divider_rects_spec(t, x, y, w, h, gap, divider)[j]).split_node_id,
    decreases t,
{
    match t {
        LTree::Tile { .. } => {},
        LTree::Split { id, direction, split_percentage, first, second, .. } => {
            let g = gap + divider + gap;
            let ds = divider_rects_spec(t, x, y, w, h, gap, divider);
            let (a, b) = match direction {
                SplitDirection::Horizontal => {
                    let (fw, sw) = split_extent(w, gap, divider, split_percentage as int);
                    law_divider_splits_distinct(*first, x, y, fw, h, gap, divider);
                    law_divider_splits_distinct(*second, x + fw + g, y, sw, h, gap, divider);
                    (
                        divider_rects_spec(*first, x, y, fw, h, gap, divider),
                        divider_rects_spec(*second, x + fw + g, y, sw, h, gap, divider),
                    )
                },
                SplitDirection::Vertical => {
                    let (fh, sh) = split_extent(h, gap, divider, split_percentage as int);
                    law_divider_splits_distinct(*first, x, y, w, fh, gap, divider);
                    law_divider_splits_distinct(*second, x, y + fh + g, w, sh, gap, divider);
                    (
                        divider_rects_spec(*first, x, y, w, fh, gap, divider),
                        divider_rects_spec(*second, x, y + fh + g, w, sh, gap, divider),
                    )
                },
            };
            assert(ds[0].split_node_id == id);
            assert forall|i: int| 0 <= i < ds.len() implies t.ids().contains(
                (#[trigger] ds[i]).split_node_id,
            ) by {
                if i == 0 {
                } else if i < 1 + a.len() {
                    assert(ds[i] == a[i - 1]);
                    assert(first.ids().contains(a[i - 1].split_node_id));
                } else {
                    assert(ds[i] == b[i - 1 - a.len()]);
                    assert(second.ids().contains(b[i - 1 - a.len()].split_node_id));
                }
            }
            assert forall|i: int, j: int|
                0 <= i < ds.len() && 0 <= j < ds.len() && i != j implies (#[trigger] ds[i]).split_node_id
                != (#[trigger] ds[j]).split_node_id by {
                let ki = if i == 0 {
                    0int
                } else if i < 1 + a.len() {
                    1int
                } else {
                    2int
                };
                let kj = if j == 0 {
                    0int
                } else if j < 1 + a.len() {
                    1int
                } else {
                    2int
                };
                if i > 0 && i < 1 + a.len() {
                    assert(ds[i] == a[i - 1]);
                    assert(first.ids().contains(a[i - 1].split_node_id));
                }
                if i >= 1 + a.len() {
                    assert(ds[i] == b[i - 1 - a.len()]);
                    assert(second.ids().contains(b[i - 1 - a.len()].split_node_id));
                }
                if j > 0 && j < 1 + a.len() {
                    assert(ds[j] == a[j - 1]);
                    assert(first.ids().contains(a[j - 1].split_node_id));
                }
                if j >= 1 + a.len() {
                    assert(ds[j] == b[j - 1 - a.len()]);
                    assert(second.ids().contains(b[j - 1 - a.len()].split_node_id));
                }
                if ki == kj && ki == 1 {
                    assert(a[i - 1].split_node_id != a[j - 1].split_node_id);
                }
                if ki == kj && ki == 2 {
                    assert(b[i - 1 - a.len()].split_node_id != b[j - 1 - a.len()].split_node_id);
                }
            }
        },
    }
}

} // verus!

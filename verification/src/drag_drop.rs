use vstd::prelude::*;

use crate::types::{DropZone, TileId};

verus! {

/// A tile's box on the page, in whole pixels.
#[derive(Clone, Copy, Debug, PartialEq, Eq, Structural)]
pub struct PixelRect {
    pub x: i64,
    pub y: i64,
    pub width: i64,
    pub height: i64,
}

/// Whether the point (`px`, `py`) lies in the box.
pub open spec fn covers(r: PixelRect, px: int, py: int) -> bool {
    &&& r.x <= px < r.x + r.width
    &&& r.y <= py < r.y + r.height
}

/// The edge of the box nearest to the point, distances measured as shares of the box's
/// width (left, right) and height (top, bottom); ties go to left over right, top over
/// bottom, and top/bottom over left/right.
pub open spec fn nearest_edge(r: PixelRect, px: int, py: int) -> DropZone {
    let dl = px - r.x;
    let dr = r.x + r.width - px;
    let dt = py - r.y;
    let db = r.y + r.height - py;
    let dh = if dl <= dr {
        dl
    } else {
        dr
    };
    let dv = if dt <= db {
        dt
    } else {
        db
    };
    if dh * r.height < dv * r.width {
        if dl <= dr {
            DropZone::Left
        } else {
            DropZone::Right
        }
    } else {
        if dt <= db {
            DropZone::Top
        } else {
            DropZone::Bottom
        }
    }
}

/// Where a tile dropped at the point lands on the tile with box `r`.
pub open spec fn zone_spec(r: PixelRect, px: int, py: int) -> Option<DropZone> {
    if covers(r, px, py) {
        Some(nearest_edge(r, px, py))
    } else {
        None
    }
}

/// The zone of the first box (in the order given) that holds the point.
pub open spec fn hover_spec(rects: Seq<(TileId, PixelRect)>, px: int, py: int) -> Option<
    (TileId, DropZone),
>
    decreases rects.len(),
{
    if rects.len() == 0 {
        None
    } else {
        match zone_spec(rects[0].1, px, py) {
            Some(z) => Some((rects[0].0, z)),
            None => hover_spec(rects.drop_first(), px, py),
        }
    }
}

/// Where a tile dropped at (`px`, `py`) lands on the tile with box `rect`, if the point is in it.
pub fn drop_zone_at(rect: &PixelRect, px: i64, py: i64) -> (r: Option<DropZone>)
    ensures
        r == zone_spec(*rect, px as int, py as int),
{
    let x = rect.x as i128;
    let y = rect.y as i128;
    let w = rect.width as i128;
    let h = rect.height as i128;
    let px = px as i128;
    let py = py as i128;
    if !(x <= px && px < x + w && y <= py && py < y + h) {
        return None;
    }
    let dl = px - x;
    let dr = x + w - px;
    let dt = py - y;
    let db = y + h - py;
    let dh = if dl <= dr {
        dl
    } else {
        dr
    };
    let dv = if dt <= db {
        dt
    } else {
        db
    };
    proof {
        assert(0 < dh <= w || dh == 0);
        assert(0 <= dh <= w && 0 <= dv <= h);
        assert(dh * h <= w * h) by (nonlinear_arith)
            requires
                0 <= dh <= w,
                0 <= h,
        ;
        assert(dv * w <= h * w) by (nonlinear_arith)
            requires
                0 <= dv <= h,
                0 <= w,
        ;
        assert(w * h <= 0x7fff_ffff_ffff_ffff * 0x7fff_ffff_ffff_ffff) by (nonlinear_arith)
            requires
                0 < w <= 0x7fff_ffff_ffff_ffff,
                0 < h <= 0x7fff_ffff_ffff_ffff,
        ;
    }
    if dh * h < dv * w {
        if dl <= dr {
            Some(DropZone::Left)
        } else {
            Some(DropZone::Right)
        }
    } else {
        if dt <= db {
            Some(DropZone::Top)
        } else {
            Some(DropZone::Bottom)
        }
    }
}

/// The tile under (`px`, `py`) and where a dropped tile would land on it: the first box of
/// `rects` that holds the point.
pub fn hover_target(rects: &[(TileId, PixelRect)], px: i64, py: i64) -> (r: Option<(TileId, DropZone)>)
    ensures
        r == hover_spec(rects@, px as int, py as int),
{
    let mut i: usize = 0;
    proof {
        assert(rects@.skip(0) =~= rects@);
    }
    while i < rects.len()
        invariant
            i <= rects@.len(),
            hover_spec(rects@, px as int, py as int) == hover_spec(rects@.skip(i as int), px as int, py as int),
        decreases rects@.len() - i,
    {
        proof {
            assert(rects@.skip(i as int).drop_first() =~= rects@.skip(i + 1));
            assert(rects@.skip(i as int)[0] == rects@[i as int]);
        }
        match drop_zone_at(&rects[i].1, px, py) {
            Some(z) => {
                return Some((rects[i].0.clone(), z));
            },
            None => {},
        }
        i = i + 1;
    }
    proof {
        assert(rects@.skip(i as int).len() == 0);
    }
    None
}

/// What releasing the mouse button does in a mosaic.
#[derive(Clone, Debug, PartialEq)]
pub enum MouseUpAction {
    /// End the divider drag.
    EndResize,
    /// Move tile `dragged` next to tile `target`, on `zone`, then end the tile drag.
    MoveTile { dragged: TileId, target: TileId, zone: DropZone },
    /// End the tile drag without moving anything.
    EndDrag,
    /// Nothing is being dragged.
    Ignore,
}

/// The action of a mouse release: a divider drag ends first; a tile drag moves the dragged
/// tile next to the hovered one (unless it is the same tile) and ends.
pub open spec fn mouse_up_spec(
    resize_active: bool,
    dragging: Option<TileId>,
    hover: Option<(TileId, DropZone)>,
) -> MouseUpAction {
    if resize_active {
        MouseUpAction::EndResize
    } else {
        match dragging {
            None => MouseUpAction::Ignore,
            Some(d) => match hover {
                Some((t, z)) => if d@ != t@ {
                    MouseUpAction::MoveTile { dragged: d, target: t, zone: z }
                } else {
                    MouseUpAction::EndDrag
                },
                None => MouseUpAction::EndDrag,
            },
        }
    }
}

/// A release while a divider is being dragged always ends the divider drag, whatever tile is
/// dragged or hovered; without a divider drag, a tile is moved only when a tile is dragged
/// onto another tile, and then the dragged tile goes next to the hovered one on the hovered
/// zone.
pub proof fn law_release_ends_resize_first(
    resize_active: bool,
    dragging: Option<TileId>,
    hover: Option<(TileId, DropZone)>,
)
    ensures
        resize_active ==> mouse_up_spec(resize_active, dragging, hover) == MouseUpAction::EndResize,
        mouse_up_spec(resize_active, dragging, hover) matches MouseUpAction::MoveTile {
            dragged,
            target,
            zone,
        } ==> !resize_active && dragging == Some(dragged) && hover == Some((target, zone))
            && dragged@ != target@,
        !resize_active && dragging is None ==> mouse_up_spec(resize_active, dragging, hover)
            == MouseUpAction::Ignore,
        !resize_active ==> (dragging matches Some(d) ==> (hover matches Some((t, z)) ==> (d@ != t@
            ==> mouse_up_spec(resize_active, dragging, hover) is MoveTile))),
{
}

/// The action of a mouse release, given whether a divider is being dragged, the tile being
/// dragged, and the tile and zone under the mouse.
pub fn mouse_up_action(
    resize_active: bool,
    dragging: &Option<TileId>,
    hover: &Option<(TileId, DropZone)>,
) -> (r: MouseUpAction)
    ensures
        r == mouse_up_spec(resize_active, *dragging, *hover),
        resize_active ==> r == MouseUpAction::EndResize,
        !resize_active && dragging is None ==> r == MouseUpAction::Ignore,
        r matches MouseUpAction::MoveTile { dragged, target, zone } ==> !resize_active && *dragging
            == Some(dragged) && *hover == Some((target, zone)) && dragged@ != target@,
{
    if resize_active {
        return MouseUpAction::EndResize;
    }
    match dragging {
        None => MouseUpAction::Ignore,
        Some(d) => match hover {
            Some((t, z)) => {
                if d.eq(t) {
                    MouseUpAction::EndDrag
                } else {
                    MouseUpAction::MoveTile { dragged: d.clone(), target: t.clone(), zone: *z }
                }
            },
            None => MouseUpAction::EndDrag,
        },
    }
}

/// Whether tile `tile_id` is the one being dragged.
pub fn is_dragged(dragging: &Option<TileId>, tile_id: &TileId) -> (r: bool)
    ensures
        r == (dragging matches Some(d) && d@ == tile_id@),
{
    match dragging {
        Some(d) => d.eq(tile_id),
        None => false,
    }
}

/// The drop zone that tile `tile_id` highlights: the hovered zone when the mouse is over
/// that tile, else none.
pub fn drop_zone_shown(hover: &Option<(TileId, DropZone)>, tile_id: &TileId) -> (r: Option<DropZone>)
    ensures
        r == match *hover {
            Some((t, z)) => if t@ == tile_id@ {
                Some(z)
            } else {
                None
            },
            None => None,
        },
{
    match hover {
        Some((t, z)) => if t.eq(tile_id) {
            Some(*z)
        } else {
            None
        },
        None => None,
    }
}

/// The tiles of `tiles` that may receive a drop, in order: all but the one being dragged.
pub open spec fn candidates_spec(tiles: Seq<TileId>, dragging: Option<TileId>) -> Seq<TileId>
    decreases tiles.len(),
{
    if tiles.len() == 0 {
        seq![]
    } else {
        let rest = candidates_spec(tiles.drop_last(), dragging);
        if dragging matches Some(d) && d@ == tiles.last()@ {
            rest
        } else {
            rest.push(tiles.last())
        }
    }
}

/// The tiles that may receive a drop, in order: every tile of `tiles` but the one being
/// dragged.
pub fn drop_candidates(tiles: &Vec<TileId>, dragging: &Option<TileId>) -> (r: Vec<TileId>)
    ensures
        r@ == candidates_spec(tiles@, *dragging),
{
    let mut out: Vec<TileId> = Vec::new();
    let mut i: usize = 0;
    while i < tiles.len()
        invariant
            i <= tiles@.len(),
            out@ == candidates_spec(tiles@.take(i as int), *dragging),
        decreases tiles@.len() - i,
    {
        proof {
            assert(tiles@.take(i + 1).drop_last() =~= tiles@.take(i as int));
            assert(tiles@.take(i + 1).last() == tiles@[i as int]);
        }
        if !is_dragged(dragging, &tiles[i]) {
            out.push(tiles[i].clone());
        }
        i = i + 1;
    }
    proof {
        assert(tiles@.take(tiles@.len() as int) =~= tiles@);
    }
    out
}

} // verus!

use vstd::prelude::*;

verus! {

/// Identifier of a node of a layout (a tile or a split).
pub type NodeId = u64;

/// Identifier of a tile, chosen by the application.
pub type TileId = String;

/// A share of an extent, in hundredths of a percent: `FULL_PERCENT` is the whole extent.
pub type Percent = u32;

/// The whole extent (100%).
pub const FULL_PERCENT: u32 = 10000;

/// The share given to the first child of a new split (50%).
pub const DEFAULT_SPLIT: u32 = 5000;

/// The smallest share a divider drag may give to the first child (20%).
pub const DEFAULT_MIN_PERCENT: u32 = 2000;

/// The largest share a divider drag may give to the first child (80%).
pub const DEFAULT_MAX_PERCENT: u32 = 8000;

/// How a split divides its region.
#[derive(Clone, Copy, Debug, PartialEq, Eq, Structural)]
pub enum SplitDirection {
    /// First child on the left, second on the right.
    Horizontal,
    /// First child on top, second below.
    Vertical,
}

/// The edge of a tile next to which a dragged tile is dropped.
#[derive(Clone, Copy, Debug, PartialEq, Eq, Structural)]
pub enum DropZone {
    Top,
    Bottom,
    Left,
    Right,
}

/// `p` limited to `[lo, hi]` (the lower bound wins when `lo > hi`).
pub open spec fn clamp_spec(p: int, lo: int, hi: int) -> int {
    if p < lo {
        lo
    } else if p > hi {
        hi
    } else {
        p
    }
}

/// `p` limited to `[lo, hi]`.
pub fn clamp_percent(p: u32, lo: u32, hi: u32) -> (r: u32)
    ensures
        r == clamp_spec(p as int, lo as int, hi as int),
{
    if p < lo {
        lo
    } else if p > hi {
        hi
    } else {
        p
    }
}

} // verus!

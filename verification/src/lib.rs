//! Layout core of a tiling window manager: a binary tree of splits and tiles kept in a
//! table of nodes, the operations that reshape it, and the geometry that turns it into
//! tile and divider rectangles.

pub mod bounds;
pub mod builder;
pub mod drag_drop;
pub mod flat_layout;
pub mod layout;
pub mod node;
pub mod tree;
pub mod tree_api;
pub mod types;

pub use builder::{tile, MosaicBuilder};
pub use drag_drop::{
    drop_candidates, drop_zone_at, drop_zone_shown, hover_target, is_dragged, mouse_up_action,
    MouseUpAction, PixelRect,
};
pub use flat_layout::{compute_rects, ActiveResize, DividerRect, TileRect};
pub use layout::MosaicLayout;
pub use node::Node;
pub use tree_api::MosaicNode;
pub use types::{
    DropZone, NodeId, Percent, SplitDirection, TileId, DEFAULT_MAX_PERCENT, DEFAULT_MIN_PERCENT,
    DEFAULT_SPLIT, FULL_PERCENT,
};

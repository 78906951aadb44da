# dioxus-mosaic

A React-Mosaic-style tiling layout for Dioxus applications.

- `src/` is the layout core, verified with Verus: the layout tree kept in a table of nodes
  keyed by node identifier (`layout`, `node`, `tree`), its tree form and builder
  (`tree_api`, `builder`), the geometry of tiles and dividers (`flat_layout`, `bounds`),
  and where a dragged tile lands (`drag_drop`). Shares of a region are whole hundredths
  of a percent and positions and lengths are whole pixels (signed, so that a share over
  the whole leaves the second child a negative length); a child's share is rounded down.
- `app/` holds the Dioxus components (`Mosaic`, `TilePane`, `SplitPane`, the drag ghost),
  the drag state fed by browser measurements, and the serde form of a layout tree.
- `tests/` exercises the library.

use dioxus_mosaic::bounds::{build_split_bounds, divider_spans, Bounds};
use dioxus_mosaic::{
    compute_rects, drop_candidates, drop_zone_at, drop_zone_shown, hover_target, is_dragged,
    mouse_up_action, ActiveResize, DropZone, MosaicLayout, MouseUpAction, PixelRect,
    SplitDirection,
};

#[test]
fn resize_share_follows_mouse() {
    let r = ActiveResize::start(7, SplitDirection::Horizontal, 100, 400, 2000, 8000);
    assert!(r.is_active());
    assert_eq!(r.compute_percentage(200), 2500);
    assert_eq!(r.compute_percentage(301), 5025);
    assert_eq!(r.compute_percentage(150), 2000);
    assert_eq!(r.compute_percentage(480), 8000);
    assert_eq!(r.compute_percentage(50), 2000);
}

#[test]
fn resize_without_extent_gives_half() {
    let r = ActiveResize::start(7, SplitDirection::Vertical, 100, 0, 2000, 8000);
    assert_eq!(r.compute_percentage(200), 5000);
}

#[test]
fn resize_clear_ends_drag() {
    let mut r = ActiveResize::start(7, SplitDirection::Vertical, 100, 40, 2000, 8000);
    r.clear();
    assert!(!r.is_active());
    assert_eq!(r.direction, None);
    assert!(!ActiveResize::default().is_active());
}

#[test]
fn split_bounds_cover_children() {
    let mut layout = MosaicLayout::new("a".to_string());
    layout.split_tile(&"a".to_string(), SplitDirection::Horizontal, "b".to_string(), 5000);
    layout.split_tile(&"b".to_string(), SplitDirection::Vertical, "c".to_string(), 5000);
    let (tiles, dividers) = compute_rects(&layout, 1010, 410, 3, 4);
    let bounds = build_split_bounds(&layout, layout.root(), &tiles);
    let root = *layout.root().unwrap();
    assert_eq!(
        bounds.get(&root),
        Some(&Bounds { min_x: 0, min_y: 0, max_x: 1010, max_y: 410 })
    );
    assert_eq!(bounds.len(), 2);
    let spans = divider_spans(&dividers, &bounds);
    assert_eq!(spans.len(), 2);
    // the root divider spans the whole width, the inner one the right half's height
    assert_eq!((spans[0].1, spans[0].2), (0, 1010));
    assert_eq!(spans[1].0.direction, SplitDirection::Vertical);
    assert_eq!((spans[1].1, spans[1].2), (0, 410));
}

#[test]
fn split_bounds_missing_tile_rect() {
    let mut layout = MosaicLayout::new("a".to_string());
    layout.split_tile(&"a".to_string(), SplitDirection::Horizontal, "b".to_string(), 5000);
    let (tiles, dividers) = compute_rects(&layout, 100, 100, 3, 4);
    let only_first = vec![tiles[0].clone()];
    let bounds = build_split_bounds(&layout, layout.root(), &only_first);
    assert_eq!(bounds.len(), 0);
    assert!(divider_spans(&dividers, &bounds).is_empty());
    let none = build_split_bounds(&layout, None, &tiles);
    assert_eq!(none.len(), 0);
}

#[test]
fn bounds_union_and_axes() {
    let a = Bounds { min_x: 0, min_y: 5, max_x: 10, max_y: 20 };
    let b = Bounds { min_x: 4, min_y: 0, max_x: 30, max_y: 8 };
    let u = a.union(b);
    assert_eq!(u, Bounds { min_x: 0, min_y: 0, max_x: 30, max_y: 20 });
    assert_eq!(u.axis_origin(SplitDirection::Horizontal), 0);
    assert_eq!(u.axis_extent(SplitDirection::Horizontal), 30);
    assert_eq!(a.axis_origin(SplitDirection::Vertical), 5);
    assert_eq!(a.axis_extent(SplitDirection::Vertical), 15);
}

#[test]
fn drop_zone_by_nearest_edge() {
    let r = PixelRect { x: 0, y: 0, width: 100, height: 100 };
    assert_eq!(drop_zone_at(&r, 5, 50), Some(DropZone::Left));
    assert_eq!(drop_zone_at(&r, 95, 50), Some(DropZone::Right));
    assert_eq!(drop_zone_at(&r, 50, 5), Some(DropZone::Top));
    assert_eq!(drop_zone_at(&r, 50, 95), Some(DropZone::Bottom));
    assert_eq!(drop_zone_at(&r, 100, 50), None);
    assert_eq!(drop_zone_at(&r, -1, 50), None);
}

#[test]
fn hover_picks_first_box_holding_point() {
    let rects = vec![
        ("a".to_string(), PixelRect { x: 0, y: 0, width: 50, height: 100 }),
        ("b".to_string(), PixelRect { x: 50, y: 0, width: 50, height: 100 }),
    ];
    assert_eq!(hover_target(&rects, 60, 50), Some(("b".to_string(), DropZone::Left)));
    assert_eq!(hover_target(&rects, 45, 50), Some(("a".to_string(), DropZone::Right)));
    assert_eq!(hover_target(&rects, 200, 50), None);
}

#[test]
fn resize_follows_the_split_axis() {
    let h = ActiveResize::start(3, SplitDirection::Horizontal, 0, 200, 2000, 8000);
    assert_eq!(h.resize_to(100, 30), Some((3, 5000)));
    let v = ActiveResize::start(3, SplitDirection::Vertical, 0, 200, 2000, 8000);
    assert_eq!(v.resize_to(100, 60), Some((3, 3000)));
    assert_eq!(ActiveResize::default().resize_to(100, 60), None);
}

#[test]
fn resize_starts_only_on_unlocked_splits() {
    let mut layout = MosaicLayout::new("a".to_string());
    layout.split_tile(&"a".to_string(), SplitDirection::Horizontal, "b".to_string(), 5000);
    let root = *layout.root().unwrap();
    let r = ActiveResize::start_for(&layout, root, SplitDirection::Horizontal, 10, 300).unwrap();
    assert_eq!(r.split_node_id, Some(root));
    assert_eq!((r.min_pct, r.max_pct, r.origin_px, r.extent_px), (2000, 8000, 10, 300));
    // a tile node has no divider
    let tile_node = match layout.get_node(&root) {
        Some(dioxus_mosaic::Node::Split { first, .. }) => *first,
        _ => panic!("expected a split"),
    };
    assert!(ActiveResize::start_for(&layout, tile_node, SplitDirection::Horizontal, 0, 1).is_none());
    assert!(ActiveResize::start_for(&layout, 999, SplitDirection::Horizontal, 0, 1).is_none());
}

#[test]
fn resize_without_extent_ignores_inverted_bounds() {
    let r = ActiveResize::start(7, SplitDirection::Horizontal, 100, 0, 8000, 2000);
    assert_eq!(r.compute_percentage(350), 5000);
    assert_eq!(r.resize_to(350, 0), Some((7, 5000)));
    let neg = ActiveResize::start(7, SplitDirection::Horizontal, 100, -20, 8000, 2000);
    assert_eq!(neg.compute_percentage(-5), 5000);
}

#[test]
fn mouse_up_ends_a_divider_drag_first() {
    let hover = Some(("b".to_string(), DropZone::Top));
    assert_eq!(
        mouse_up_action(true, &Some("a".to_string()), &hover),
        MouseUpAction::EndResize
    );
}

#[test]
fn mouse_up_moves_the_dragged_tile() {
    let hover = Some(("b".to_string(), DropZone::Right));
    assert_eq!(
        mouse_up_action(false, &Some("a".to_string()), &hover),
        MouseUpAction::MoveTile {
            dragged: "a".to_string(),
            target: "b".to_string(),
            zone: DropZone::Right
        }
    );
}

#[test]
fn mouse_up_on_itself_or_nothing_only_ends_the_drag() {
    let same = Some(("a".to_string(), DropZone::Left));
    assert_eq!(mouse_up_action(false, &Some("a".to_string()), &same), MouseUpAction::EndDrag);
    assert_eq!(mouse_up_action(false, &Some("a".to_string()), &None), MouseUpAction::EndDrag);
    assert_eq!(mouse_up_action(false, &None, &same), MouseUpAction::Ignore);
}

#[test]
fn dragged_tile_is_recognised() {
    let dragging = Some("a".to_string());
    assert!(is_dragged(&dragging, &"a".to_string()));
    assert!(!is_dragged(&dragging, &"b".to_string()));
    assert!(!is_dragged(&None, &"a".to_string()));
}

#[test]
fn only_the_hovered_tile_shows_its_zone() {
    let hover = Some(("b".to_string(), DropZone::Bottom));
    assert_eq!(drop_zone_shown(&hover, &"b".to_string()), Some(DropZone::Bottom));
    assert_eq!(drop_zone_shown(&hover, &"a".to_string()), None);
    assert_eq!(drop_zone_shown(&None, &"b".to_string()), None);
}

#[test]
fn drop_candidates_leave_out_the_dragged_tile() {
    let tiles = vec!["a".to_string(), "b".to_string(), "c".to_string()];
    assert_eq!(
        drop_candidates(&tiles, &Some("b".to_string())),
        vec!["a".to_string(), "c".to_string()]
    );
    assert_eq!(drop_candidates(&tiles, &None), tiles);
}

#[test]
fn every_split_gets_a_box_once_all_tiles_are_placed() {
    let mut layout = MosaicLayout::new("a".to_string());
    layout.split_tile(&"a".to_string(), SplitDirection::Horizontal, "b".to_string(), 5000);
    layout.split_tile(&"a".to_string(), SplitDirection::Vertical, "c".to_string(), 3000);
    layout.split_tile(&"b".to_string(), SplitDirection::Vertical, "d".to_string(), 7000);
    let (tiles, dividers) = compute_rects(&layout, 800, 600, 3, 4);
    let bounds = build_split_bounds(&layout, layout.root(), &tiles);
    assert_eq!(bounds.len(), 3);
    for d in &dividers {
        assert!(bounds.contains_key(&d.split_node_id));
    }
    assert_eq!(divider_spans(&dividers, &bounds).len(), 3);
}

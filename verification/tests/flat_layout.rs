use dioxus_mosaic::flat_layout::fits_geometry;
use dioxus_mosaic::{compute_rects, MosaicLayout, Percent, SplitDirection};

/// A percentage written as a number of percent, in the library's unit.
fn pct(p: f64) -> Percent {
    (p * 100.0).round() as Percent
}

/// A pixel length.
fn px(v: f64) -> i64 {
    v.round() as i64
}

#[test]
fn single_tile_fills_container() {
    let layout = MosaicLayout::new("only".into());
    let (tiles, dividers) = compute_rects(&layout, px(800.0), px(600.0), px(3.0), px(4.0));

    assert_eq!(tiles.len(), 1);
    assert_eq!(dividers.len(), 0);

    let t = &tiles[0];
    assert_eq!(t.tile_id, "only");
    assert!((t.x as f64 - 0.0).abs() < f64::EPSILON);
    assert!((t.y as f64 - 0.0).abs() < f64::EPSILON);
    assert!((t.width as f64 - 800.0).abs() < f64::EPSILON);
    assert!((t.height as f64 - 600.0).abs() < f64::EPSILON);
}

#[test]
fn horizontal_split_produces_two_tiles_one_divider() {
    let mut layout = MosaicLayout::new("left".into());
    layout.split_tile(
        &"left".into(),
        SplitDirection::Horizontal,
        "right".into(),
        pct(50.0),
    );

    let gap = 3.0;
    let div = 4.0;
    let (tiles, dividers) = compute_rects(&layout, px(800.0), px(600.0), px(gap), px(div));

    assert_eq!(tiles.len(), 2);
    assert_eq!(dividers.len(), 1);

    let gutter = gap + div + gap; // 10px total
    let available = 800.0 - gutter;
    let left_w = available * 0.5;
    let right_w = available - left_w;

    let left_tile = tiles.iter().find(|t| t.tile_id == "left").unwrap();
    assert!((left_tile.x as f64 - 0.0).abs() < 0.01);
    assert!((left_tile.width as f64 - left_w).abs() < 0.01);

    let right_tile = tiles.iter().find(|t| t.tile_id == "right").unwrap();
    let expected_right_x = left_w + gutter;
    assert!((right_tile.x as f64 - expected_right_x).abs() < 0.01);
    assert!((right_tile.width as f64 - right_w).abs() < 0.01);

    let d = &dividers[0];
    assert_eq!(d.direction, SplitDirection::Horizontal);
    assert!((d.x as f64 - (left_w + gap)).abs() < 0.01);
    assert!((d.width as f64 - div).abs() < 0.01);
    assert!((d.height as f64 - 600.0).abs() < 0.01);
}

#[test]
fn nested_split_produces_correct_rects() {
    let mut layout = MosaicLayout::new("a".into());
    layout.split_tile(&"a".into(), SplitDirection::Horizontal, "b".into(), pct(50.0));
    layout.split_tile(&"b".into(), SplitDirection::Vertical, "c".into(), pct(50.0));

    let (tiles, dividers) = compute_rects(&layout, px(1000.0), px(800.0), px(3.0), px(4.0));

    assert_eq!(tiles.len(), 3);
    assert_eq!(dividers.len(), 2);

    for t in &tiles {
        assert!(
            t.width > 0,
            "tile {} has non-positive width {}",
            t.tile_id,
            t.width
        );
        assert!(
            t.height > 0,
            "tile {} has non-positive height {}",
            t.tile_id,
            t.height
        );
    }
}

#[test]
fn vertical_split_exact_rects() {
    let mut layout = MosaicLayout::new("top".into());
    assert!(layout.split_tile(&"top".into(), SplitDirection::Vertical, "bottom".into(), 2500));
    let (tiles, dividers) = compute_rects(&layout, 200, 410, 3, 4);
    // available = 410 - 10 = 400; first = 100, second = 300
    assert_eq!(tiles[0].tile_id, "top");
    assert_eq!((tiles[0].x, tiles[0].y, tiles[0].width, tiles[0].height), (0, 0, 200, 100));
    assert_eq!(tiles[1].tile_id, "bottom");
    assert_eq!((tiles[1].x, tiles[1].y, tiles[1].width, tiles[1].height), (0, 110, 200, 300));
    assert_eq!(dividers.len(), 1);
    assert_eq!((dividers[0].x, dividers[0].y, dividers[0].width, dividers[0].height), (0, 103, 200, 4));
    assert_eq!(dividers[0].direction, SplitDirection::Vertical);
}

#[test]
fn share_over_the_whole_gives_a_negative_second_child() {
    let tree = dioxus_mosaic::MosaicNode::horizontal(
        dioxus_mosaic::tile("a"),
        dioxus_mosaic::tile("b"),
        20000,
    );
    let layout = MosaicLayout::from_tree(tree);
    let (tiles, dividers) = compute_rects(&layout, 110, 50, 3, 4);
    // available = 110 - 10 = 100; first = 200, second = -100
    assert_eq!(tiles[0].width, 200);
    assert_eq!(tiles[1].width, -100);
    assert_eq!(tiles[1].x, 210);
    assert_eq!(dividers[0].x, 203);
}

#[test]
fn huge_share_does_not_fit_the_coordinate_range() {
    let tree = dioxus_mosaic::MosaicNode::horizontal(
        dioxus_mosaic::tile("a"),
        dioxus_mosaic::tile("b"),
        u32::MAX,
    );
    let layout = MosaicLayout::from_tree(tree);
    assert!(!fits_geometry(&layout, i64::MAX, 50, 3, 4));
    assert!(fits_geometry(&layout, 1000, 50, 3, 4));
    let (tiles, _) = compute_rects(&layout, 1000, 50, 3, 4);
    // available = 990; first = 990 * 429496.7295 rounded down
    assert_eq!(tiles[0].width, 425_201_762);
    assert_eq!(tiles[1].width, 990 - 425_201_762);
}

#[test]
fn container_smaller_than_gutter_gives_empty_children() {
    let mut layout = MosaicLayout::new("a".into());
    layout.split_tile(&"a".into(), SplitDirection::Horizontal, "b".into(), 5000);
    let (tiles, dividers) = compute_rects(&layout, 6, 50, 3, 4);
    assert_eq!(tiles[0].width, 0);
    assert_eq!(tiles[1].width, 0);
    assert_eq!(tiles[1].x, 10);
    assert_eq!(dividers[0].x, 3);
}

#[test]
fn rects_follow_tile_order_and_one_divider_per_split() {
    let mut layout = MosaicLayout::new("a".into());
    layout.split_tile(&"a".into(), SplitDirection::Horizontal, "b".into(), 5000);
    layout.split_tile(&"a".into(), SplitDirection::Vertical, "c".into(), 5000);
    layout.split_tile(&"b".into(), SplitDirection::Vertical, "d".into(), 5000);
    let (tiles, dividers) = compute_rects(&layout, 1000, 1000, 3, 4);
    let ids: Vec<String> = tiles.iter().map(|t| t.tile_id.clone()).collect();
    assert_eq!(ids, layout.get_all_tiles());
    assert_eq!(dividers.len(), tiles.len() - 1);
}

#[test]
fn empty_layout_has_no_rects() {
    let layout = MosaicLayout::empty();
    let (tiles, dividers) = compute_rects(&layout, 100, 100, 3, 4);
    assert!(tiles.is_empty());
    assert!(dividers.is_empty());
}

#[test]
fn tiles_stay_inside_a_roomy_container() {
    let mut layout = MosaicLayout::new("a".into());
    layout.split_tile(&"a".into(), SplitDirection::Horizontal, "b".into(), 3300);
    layout.split_tile(&"b".into(), SplitDirection::Vertical, "c".into(), 7000);
    layout.split_tile(&"c".into(), SplitDirection::Horizontal, "d".into(), 5000);
    let (tiles, _) = compute_rects(&layout, 1234, 777, 6, 4);
    for t in &tiles {
        assert!(t.x + t.width <= 1234, "tile {} leaves the container", t.tile_id);
        assert!(t.y + t.height <= 777, "tile {} leaves the container", t.tile_id);
    }
    // the last tile ends at the container's right and bottom edges
    let last = tiles.last().unwrap();
    assert_eq!(last.x + last.width, 1234);
    assert_eq!(last.y + last.height, 777);
}

#[test]
fn dividers_inside_and_tiles_apart() {
    let mut layout = MosaicLayout::new("a".into());
    layout.split_tile(&"a".into(), SplitDirection::Horizontal, "b".into(), 4000);
    layout.split_tile(&"b".into(), SplitDirection::Vertical, "c".into(), 6000);
    let (tiles, dividers) = compute_rects(&layout, 900, 500, 3, 4);
    for d in &dividers {
        assert!(d.x + d.width <= 900 && d.y + d.height <= 500);
    }
    for i in 0..tiles.len() {
        for j in (i + 1)..tiles.len() {
            let (a, b) = (&tiles[i], &tiles[j]);
            let apart = a.x + a.width <= b.x
                || b.x + b.width <= a.x
                || a.y + a.height <= b.y
                || b.y + b.height <= a.y;
            assert!(apart, "{} overlaps {}", a.tile_id, b.tile_id);
        }
    }
    assert_ne!(dividers[0].split_node_id, dividers[1].split_node_id);
    for d in &dividers {
        for t in &tiles {
            let apart = d.x + d.width <= t.x
                || t.x + t.width <= d.x
                || d.y + d.height <= t.y
                || t.y + t.height <= d.y;
            assert!(apart, "a divider overlaps {}", t.tile_id);
        }
    }
}

use dioxus_mosaic::{DropZone, MosaicLayout, MosaicNode, Node, SplitDirection};

fn tiles(layout: &MosaicLayout) -> Vec<String> {
    layout.get_all_tiles()
}

fn s(v: &str) -> String {
    v.to_string()
}

#[test]
fn split_puts_new_tile_right_after() {
    let mut layout = MosaicLayout::new(s("a"));
    assert!(layout.split_tile(&s("a"), SplitDirection::Horizontal, s("b"), 5000));
    assert!(layout.split_tile(&s("a"), SplitDirection::Vertical, s("c"), 5000));
    assert_eq!(tiles(&layout), vec![s("a"), s("c"), s("b")]);
}

#[test]
fn split_refuses_unknown_or_taken_tiles() {
    let mut layout = MosaicLayout::new(s("a"));
    assert!(!layout.split_tile(&s("zz"), SplitDirection::Horizontal, s("b"), 5000));
    assert!(!layout.split_tile(&s("a"), SplitDirection::Horizontal, s("a"), 5000));
    assert_eq!(tiles(&layout), vec![s("a")]);
    let mut empty = MosaicLayout::empty();
    assert!(!empty.split_tile(&s("a"), SplitDirection::Horizontal, s("b"), 5000));
    assert!(empty.root().is_none());
}

#[test]
fn close_removes_tile_and_sibling_takes_its_place() {
    let mut layout = MosaicLayout::new(s("a"));
    layout.split_tile(&s("a"), SplitDirection::Horizontal, s("b"), 5000);
    layout.split_tile(&s("b"), SplitDirection::Vertical, s("c"), 5000);
    assert!(layout.close_tile(&s("b")));
    assert_eq!(tiles(&layout), vec![s("a"), s("c")]);
    // the tile "c" now hangs directly below the root split
    let root = *layout.root().unwrap();
    match layout.get_node(&root) {
        Some(Node::Split { second, .. }) => match layout.get_node(second) {
            Some(Node::Tile { tile_id, parent, .. }) => {
                assert_eq!(tile_id, "c");
                assert_eq!(*parent, Some(root));
            }
            _ => panic!("expected a tile"),
        },
        _ => panic!("expected a split"),
    }
}

#[test]
fn close_last_tile_empties_layout() {
    let mut layout = MosaicLayout::new(s("a"));
    assert!(layout.close_tile(&s("a")));
    assert!(layout.root().is_none());
    assert!(layout.get_all_tiles().is_empty());
    assert!(layout.to_tree().is_none());
    assert!(!layout.close_tile(&s("a")));
}

#[test]
fn close_unknown_tile_changes_nothing() {
    let mut layout = MosaicLayout::new(s("a"));
    layout.split_tile(&s("a"), SplitDirection::Horizontal, s("b"), 5000);
    assert!(!layout.close_tile(&s("nope")));
    assert_eq!(tiles(&layout), vec![s("a"), s("b")]);
}

#[test]
fn close_undoes_split() {
    let tree = MosaicNode::horizontal(
        MosaicNode::tile("a"),
        MosaicNode::vertical(MosaicNode::tile("b"), MosaicNode::tile("c"), 3000),
        6000,
    );
    let mut layout = MosaicLayout::from_tree(tree);
    let before = format!("{:?}", layout.to_tree());
    assert!(layout.split_tile(&s("b"), SplitDirection::Horizontal, s("n"), 5000));
    assert_ne!(format!("{:?}", layout.to_tree()), before);
    assert!(layout.close_tile(&s("n")));
    assert_eq!(format!("{:?}", layout.to_tree()), before);
}

#[test]
fn update_split_limits_to_bounds() {
    let mut layout = MosaicLayout::new(s("a"));
    layout.split_tile(&s("a"), SplitDirection::Horizontal, s("b"), 5000);
    let root = *layout.root().unwrap();
    assert!(layout.update_split(&root, 9500));
    match layout.get_node(&root) {
        Some(Node::Split { split_percentage, .. }) => assert_eq!(*split_percentage, 8000),
        _ => panic!("expected a split"),
    }
    assert!(layout.update_split(&root, 100));
    match layout.get_node(&root) {
        Some(Node::Split { split_percentage, .. }) => assert_eq!(*split_percentage, 2000),
        _ => panic!("expected a split"),
    }
    assert!(layout.update_split(&root, 3333));
    match layout.get_node(&root) {
        Some(Node::Split { split_percentage, .. }) => assert_eq!(*split_percentage, 3333),
        _ => panic!("expected a split"),
    }
}

#[test]
fn update_split_refuses_tiles_and_unknown_nodes() {
    let mut layout = MosaicLayout::new(s("a"));
    let root = *layout.root().unwrap();
    assert!(!layout.update_split(&root, 4000));
    assert!(!layout.update_split(&77, 4000));
}

#[test]
fn drop_on_each_zone() {
    let cases = [
        (DropZone::Left, vec![s("a"), s("c"), s("b")], SplitDirection::Horizontal),
        (DropZone::Right, vec![s("a"), s("b"), s("c")], SplitDirection::Horizontal),
        (DropZone::Top, vec![s("a"), s("c"), s("b")], SplitDirection::Vertical),
        (DropZone::Bottom, vec![s("a"), s("b"), s("c")], SplitDirection::Vertical),
    ];
    for (zone, expected, direction) in cases {
        let tree = MosaicNode::horizontal(
            MosaicNode::horizontal(MosaicNode::tile("a"), MosaicNode::tile("c"), 5000),
            MosaicNode::tile("b"),
            5000,
        );
        let mut layout = MosaicLayout::from_tree(tree);
        assert!(layout.insert_tile_with_split(&s("c"), &s("b"), zone));
        assert_eq!(tiles(&layout), expected);
        // the target's new split
        let tree = layout.to_tree().unwrap();
        match tree {
            MosaicNode::Split { second, .. } => match *second {
                MosaicNode::Split {
                    direction: d,
                    split_percentage,
                    ..
                } => {
                    assert_eq!(d, direction);
                    assert_eq!(split_percentage, 5000);
                }
                _ => panic!("expected the target to be split"),
            },
            _ => panic!("expected a split"),
        }
    }
}

#[test]
fn drop_refuses_same_or_missing_tiles() {
    let mut layout = MosaicLayout::new(s("a"));
    layout.split_tile(&s("a"), SplitDirection::Horizontal, s("b"), 5000);
    assert!(!layout.insert_tile_with_split(&s("a"), &s("a"), DropZone::Left));
    assert!(!layout.insert_tile_with_split(&s("x"), &s("a"), DropZone::Left));
    assert!(!layout.insert_tile_with_split(&s("a"), &s("x"), DropZone::Left));
    assert_eq!(tiles(&layout), vec![s("a"), s("b")]);
}

#[test]
fn drop_keeps_the_same_tiles() {
    let mut layout = MosaicLayout::new(s("a"));
    layout.split_tile(&s("a"), SplitDirection::Horizontal, s("b"), 5000);
    layout.split_tile(&s("b"), SplitDirection::Vertical, s("c"), 5000);
    layout.split_tile(&s("a"), SplitDirection::Vertical, s("d"), 5000);
    assert!(layout.insert_tile_with_split(&s("a"), &s("c"), DropZone::Bottom));
    let mut got = tiles(&layout);
    got.sort();
    assert_eq!(got, vec![s("a"), s("b"), s("c"), s("d")]);
}

#[test]
fn depth_counts_nested_splits() {
    let mut layout = MosaicLayout::new(s("a"));
    assert_eq!(layout.depth(), 0);
    layout.split_tile(&s("a"), SplitDirection::Horizontal, s("b"), 5000);
    assert_eq!(layout.depth(), 1);
    layout.split_tile(&s("b"), SplitDirection::Horizontal, s("c"), 5000);
    assert_eq!(layout.depth(), 2);
    assert_eq!(MosaicLayout::empty().depth(), 0);
}

#[test]
fn new_layout_has_root_tile() {
    let layout = MosaicLayout::new(s("only"));
    assert_eq!(layout.root(), Some(&0));
    match layout.get_node(&0) {
        Some(Node::Tile {
            tile_id,
            parent,
            locked,
            id,
        }) => {
            assert_eq!(tile_id, "only");
            assert_eq!(*parent, None);
            assert!(!*locked);
            assert_eq!(*id, 0);
        }
        _ => panic!("expected a tile"),
    }
}

#[test]
fn remove_tile_closes_the_tile() {
    let mut layout = MosaicLayout::new(s("a"));
    layout.split_tile(&s("a"), SplitDirection::Horizontal, s("b"), 5000);
    assert!(layout.remove_tile(&s("a")));
    assert_eq!(tiles(&layout), vec![s("b")]);
    assert!(!layout.remove_tile(&s("a")));
}

#[test]
fn cloned_layout_keeps_tiles_and_numbering() {
    let mut layout = MosaicLayout::new("a".to_string());
    layout.split_tile(&s("a"), SplitDirection::Horizontal, s("b"), 5000);
    let mut copy = layout.clone();
    assert_eq!(tiles(&copy), tiles(&layout));
    assert_eq!(copy.root(), layout.root());
    copy.split_tile(&s("b"), SplitDirection::Vertical, s("c"), 5000);
    let mut original = layout;
    original.split_tile(&s("b"), SplitDirection::Vertical, s("c"), 5000);
    assert_eq!(tiles(&copy), tiles(&original));
    assert_eq!(copy.get_node(&4).is_some(), original.get_node(&4).is_some());
}

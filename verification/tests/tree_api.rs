use dioxus_mosaic::{MosaicLayout, MosaicNode, Percent, SplitDirection};

/// A percentage written as a number of percent, in the library's unit.
fn pct(p: f64) -> Percent {
    (p * 100.0).round() as Percent
}

#[test]
fn test_tree_to_layout_simple() {
    let tree = MosaicNode::tile("tile1");
    let layout = MosaicLayout::from_tree(tree);
    assert_eq!(layout.get_all_tiles(), vec!["tile1".to_string()]);
}

#[test]
fn test_tree_to_layout_split() {
    let tree =
        MosaicNode::horizontal(MosaicNode::tile("tile1"), MosaicNode::tile("tile2"), pct(50.0));
    let layout = MosaicLayout::from_tree(tree);
    assert_eq!(
        layout.get_all_tiles(),
        vec!["tile1".to_string(), "tile2".to_string()]
    );
}

#[test]
fn test_tree_to_layout_nested() {
    let tree = MosaicNode::horizontal(
        MosaicNode::tile("tile1"),
        MosaicNode::vertical(MosaicNode::tile("tile2"), MosaicNode::tile("tile3"), pct(60.0)),
        pct(40.0),
    );
    let layout = MosaicLayout::from_tree(tree);
    assert_eq!(
        layout.get_all_tiles(),
        vec![
            "tile1".to_string(),
            "tile2".to_string(),
            "tile3".to_string()
        ]
    );
}

#[test]
fn test_layout_to_tree() {
    let tree =
        MosaicNode::horizontal(MosaicNode::tile("tile1"), MosaicNode::tile("tile2"), pct(50.0));
    let layout = MosaicLayout::from_tree(tree.clone());
    let tree2 = layout.to_tree().expect("Layout should not be empty");

    // Both layouts should have the same tiles
    let layout2 = MosaicLayout::from_tree(tree2);
    assert_eq!(layout.get_all_tiles(), layout2.get_all_tiles());
}

#[test]
fn test_empty_layout_to_tree() {
    let layout = MosaicLayout::empty();
    let tree = layout.to_tree();
    assert!(tree.is_none());
}

fn describe(n: &MosaicNode) -> String {
    match n {
        MosaicNode::Leaf(t) => t.clone(),
        MosaicNode::Split {
            direction,
            first,
            second,
            split_percentage,
        } => format!(
            "({:?} {} {} {})",
            direction,
            split_percentage,
            describe(first),
            describe(second)
        ),
    }
}

#[test]
fn to_tree_gives_back_the_tree() {
    let tree = MosaicNode::vertical(
        MosaicNode::horizontal(MosaicNode::tile("a"), MosaicNode::tile("b"), 800),
        MosaicNode::tile("c"),
        7000,
    );
    let layout = MosaicLayout::from_tree(tree.clone());
    let back = layout.to_tree().unwrap();
    assert_eq!(describe(&back), describe(&tree));
    assert_eq!(describe(&back), "(Vertical 7000 (Horizontal 800 a b) c)");
}

#[test]
fn from_tree_numbers_nodes_in_preorder() {
    let tree = MosaicNode::horizontal(MosaicNode::tile("a"), MosaicNode::tile("b"), 5000);
    let layout = MosaicLayout::from_tree(tree);
    assert_eq!(layout.root(), Some(&0));
    match layout.get_node(&0) {
        Some(dioxus_mosaic::Node::Split {
            first,
            second,
            min_percentage,
            max_percentage,
            direction,
            ..
        }) => {
            assert_eq!((*first, *second), (1, 2));
            assert_eq!((*min_percentage, *max_percentage), (2000, 8000));
            assert_eq!(*direction, SplitDirection::Horizontal);
        }
        _ => panic!("expected a split at the root"),
    }
    match layout.get_node(&2) {
        Some(dioxus_mosaic::Node::Tile { tile_id, parent, .. }) => {
            assert_eq!(tile_id, "b");
            assert_eq!(*parent, Some(0));
        }
        _ => panic!("expected a tile"),
    }
    assert!(layout.get_node(&3).is_none());
}

#[test]
fn count_nodes_counts_splits_and_leaves() {
    let tree = MosaicNode::horizontal(
        MosaicNode::tile("a"),
        MosaicNode::vertical(MosaicNode::tile("b"), MosaicNode::tile("c"), 5000),
        5000,
    );
    assert_eq!(tree.count_nodes(), Some(5));
    assert_eq!(MosaicNode::tile("x").count_nodes(), Some(1));
}

#[test]
fn free_tile_helper_makes_a_leaf() {
    match dioxus_mosaic::tree_api::tile("z") {
        MosaicNode::Leaf(t) => assert_eq!(t, "z"),
        _ => panic!("expected a leaf"),
    }
}

#[test]
fn from_tree_then_to_tree_keeps_tiles_in_order() {
    let tree = MosaicNode::horizontal(
        MosaicNode::tile("x"),
        MosaicNode::vertical(MosaicNode::tile("y"), MosaicNode::tile("__temp__"), 2500),
        9000,
    );
    let layout = MosaicLayout::from_tree(tree.clone());
    assert_eq!(describe(&layout.to_tree().unwrap()), describe(&tree));
    assert_eq!(layout.get_all_tiles(), vec!["x".to_string(), "y".to_string(), "__temp__".to_string()]);
}

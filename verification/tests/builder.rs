use dioxus_mosaic::{tile, MosaicBuilder, Percent, FULL_PERCENT};

/// A percentage written as a number of percent, in the library's unit.
fn pct(p: f64) -> Percent {
    (p * 100.0).round() as Percent
}

#[test]
fn test_builder_horizontal() {
    let layout = MosaicBuilder::horizontal()
        .left(tile("a"))
        .right(tile("b"))
        .split(pct(40.0))
        .build();

    assert_eq!(
        layout.get_all_tiles(),
        vec!["a".to_string(), "b".to_string()]
    );
}

#[test]
fn test_builder_vertical() {
    let layout = MosaicBuilder::vertical()
        .top(tile("a"))
        .bottom(tile("b"))
        .split(pct(60.0))
        .build();

    assert_eq!(
        layout.get_all_tiles(),
        vec!["a".to_string(), "b".to_string()]
    );
}

#[test]
fn test_builder_nested() {
    let layout = MosaicBuilder::horizontal()
        .left(tile("sidebar"))
        .right(
            MosaicBuilder::vertical()
                .top(tile("editor"))
                .bottom(tile("terminal"))
                .split(pct(70.0))
                .build_tree(),
        )
        .split(pct(25.0))
        .build();

    assert_eq!(
        layout.get_all_tiles(),
        vec![
            "sidebar".to_string(),
            "editor".to_string(),
            "terminal".to_string()
        ]
    );
}

#[test]
fn builder_split_is_limited_to_the_whole() {
    let tree = MosaicBuilder::horizontal()
        .left(tile("a"))
        .right(tile("b"))
        .split(pct(150.0))
        .build_tree();
    match tree {
        dioxus_mosaic::MosaicNode::Split { split_percentage, .. } => {
            assert_eq!(split_percentage, FULL_PERCENT)
        }
        _ => panic!("expected a split"),
    }
}

#[test]
fn builder_defaults_to_half_and_keeps_direction() {
    let tree = MosaicBuilder::vertical()
        .first(tile("x"))
        .second(tile("y"))
        .build_tree();
    match tree {
        dioxus_mosaic::MosaicNode::Split {
            direction,
            split_percentage,
            ..
        } => {
            assert_eq!(direction, dioxus_mosaic::SplitDirection::Vertical);
            assert_eq!(split_percentage, 5000);
        }
        _ => panic!("expected a split"),
    }
}

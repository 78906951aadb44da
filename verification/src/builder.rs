use vstd::prelude::*;

use crate::layout::MosaicLayout;
use crate::tree_api::{all_unlocked, MosaicNode};
use crate::types::{Percent, SplitDirection, DEFAULT_SPLIT, FULL_PERCENT};

verus! {

/// Builder for creating mosaic layouts with a fluent API.
///
/// ```ignore
/// let layout = MosaicBuilder::horizontal()
///     .left(tile("sidebar"))
///     .right(
///         MosaicBuilder::vertical()
///             .top(tile("editor"))
///             .bottom(tile("terminal"))
///             .split(7000)
///             .build_tree(),
///     )
///     .split(2500)
///     .build();
/// ```
pub struct MosaicBuilder {
    direction: SplitDirection,
    first: Option<MosaicNode>,
    second: Option<MosaicNode>,
    split_percentage: Percent,
}

impl MosaicBuilder {
    /// Direction of the split being built.
    pub closed spec fn spec_direction(&self) -> SplitDirection {
        self.direction
    }

    /// First child, once set.
    pub closed spec fn spec_first(&self) -> Option<MosaicNode> {
        self.first
    }

    /// Second child, once set.
    pub closed spec fn spec_second(&self) -> Option<MosaicNode> {
        self.second
    }

    /// Share of the first child.
    pub closed spec fn spec_split(&self) -> Percent {
        self.split_percentage
    }

    /// The split that `build_tree` gives.
    pub open spec fn spec_tree(&self) -> MosaicNode {
        MosaicNode::Split {
            direction: self.spec_direction(),
            first: Box::new(self.spec_first()->0),
            second: Box::new(self.spec_second()->0),
            split_percentage: self.spec_split(),
        }
    }

    /// Create a horizontal split builder (left | right), split in half.
    pub fn horizontal() -> (r: Self)
        ensures
            r.spec_direction() == SplitDirection::Horizontal,
            r.spec_first() is None,
            r.spec_second() is None,
            r.spec_split() == DEFAULT_SPLIT,
    {
        Self { direction: SplitDirection::Horizontal, first: None, second: None, split_percentage: DEFAULT_SPLIT }
    }

    /// Create a vertical split builder (top | bottom), split in half.
    pub fn vertical() -> (r: Self)
        ensures
            r.spec_direction() == SplitDirection::Vertical,
            r.spec_first() is None,
            r.spec_second() is None,
            r.spec_split() == DEFAULT_SPLIT,
    {
        Self { direction: SplitDirection::Vertical, first: None, second: None, split_percentage: DEFAULT_SPLIT }
    }

    /// Set the first child (left for horizontal, top for vertical).
    pub fn first(self, node: MosaicNode) -> (r: Self)
        ensures
            r.spec_first() == Some(node),
            r.spec_second() == self.spec_second(),
            r.spec_direction() == self.spec_direction(),
            r.spec_split() == self.spec_split(),
    {
        let mut b = self;
        b.first = Some(node);
        b
    }

    /// Set the second child (right for horizontal, bottom for vertical).
    pub fn second(self, node: MosaicNode) -> (r: Self)
        ensures
            r.spec_second() == Some(node),
            r.spec_first() == self.spec_first(),
            r.spec_direction() == self.spec_direction(),
            r.spec_split() == self.spec_split(),
    {
        let mut b = self;
        b.second = Some(node);
        b
    }

    /// Set the left child (the first child).
    pub fn left(self, node: MosaicNode) -> (r: Self)
        ensures
            r.spec_first() == Some(node),
            r.spec_second() == self.spec_second(),
            r.spec_direction() == self.spec_direction(),
            r.spec_split() == self.spec_split(),
    {
        self.first(node)
    }

    /// Set the right child (the second child).
    pub fn right(self, node: MosaicNode) -> (r: Self)
        ensures
            r.spec_second() == Some(node),
            r.spec_first() == self.spec_first(),
            r.spec_direction() == self.spec_direction(),
            r.spec_split() == self.spec_split(),
    {
        self.second(node)
    }

    /// Set the top child (the first child).
    pub fn top(self, node: MosaicNode) -> (r: Self)
        ensures
            r.spec_first() == Some(node),
            r.spec_second() == self.spec_second(),
            r.spec_direction() == self.spec_direction(),
            r.spec_split() == self.spec_split(),
    {
        self.first(node)
    }

    /// Set the bottom child (the second child).
    pub fn bottom(self, node: MosaicNode) -> (r: Self)
        ensures
            r.spec_second() == Some(node),
            r.spec_first() == self.spec_first(),
            r.spec_direction() == self.spec_direction(),
            r.spec_split() == self.spec_split(),
    {
        self.second(node)
    }

    /// Set the share of the first child, limited to the whole extent.
    pub fn split(self, percentage: Percent) -> (r: Self)
        ensures
            r.spec_split() == (if percentage > FULL_PERCENT {
                FULL_PERCENT
            } else {
                percentage
            }),
            r.spec_first() == self.spec_first(),
            r.spec_second() == self.spec_second(),
            r.spec_direction() == self.spec_direction(),
    {
        let mut b = self;
        b.split_percentage = if percentage > FULL_PERCENT {
            FULL_PERCENT
        } else {
            percentage
        };
        b
    }

    /// Build the tree representation.
    pub fn build_tree(self) -> (r: MosaicNode)
        requires
            self.spec_first() is Some,
            self.spec_second() is Some,
        ensures
            r == self.spec_tree(),
    {
        let first = match self.first {
            Some(f) => f,
            None => {
                proof {
                    assert(false);
                }
                MosaicNode::Leaf(String::new())
            },
        };
        let second = match self.second {
            Some(s) => s,
            None => {
                proof {
                    assert(false);
                }
                MosaicNode::Leaf(String::new())
            },
        };
        MosaicNode::Split {
            direction: self.direction,
            first: Box::new(first),
            second: Box::new(second),
            split_percentage: self.split_percentage,
        }
    }

    /// Build the layout directly.
    pub fn build(self) -> (r: MosaicLayout)
        requires
            self.spec_first() is Some,
            self.spec_second() is Some,
            self.spec_tree().spec_node_count() <= u64::MAX,
        ensures
            r.wf(),
            r.shape() == Some(self.spec_tree()),
            r.tiles() == self.spec_tree().leaves(),
            r@ is Some,
            all_unlocked(r@->0),
    {
        let tree = self.build_tree();
        MosaicLayout::from_tree(tree)
    }
}

/// Create a tile node (helper function).
pub fn tile(tile_id: &str) -> (r: MosaicNode)
    ensures
        r matches MosaicNode::Leaf(t) && t@ == tile_id@,
{
    MosaicNode::Leaf(tile_id.to_string())
}

} // verus!

use vstd::prelude::*;

use crate::tree::relink;
use crate::types::{NodeId, Percent, SplitDirection, TileId};

verus! {

/// One entry of a layout's node table.
#[derive(Clone, Debug)]
pub enum Node {
    /// A leaf showing one tile.
    Tile { id: NodeId, tile_id: TileId, parent: Option<NodeId>, locked: bool },
    /// A binary split of a region between two children.
    Split {
        id: NodeId,
        direction: SplitDirection,
        first: NodeId,
        second: NodeId,
        split_percentage: Percent,
        parent: Option<NodeId>,
        locked: bool,
        min_percentage: Percent,
        max_percentage: Percent,
    },
}

impl Node {
    pub open spec fn spec_id(&self) -> NodeId {
        match self {
            Node::Tile { id, .. } => *id,
            Node::Split { id, .. } => *id,
        }
    }

    pub open spec fn spec_parent(&self) -> Option<NodeId> {
        match self {
            Node::Tile { parent, .. } => *parent,
            Node::Split { parent, .. } => *parent,
        }
    }

    /// The node's own identifier.
    #[verifier::when_used_as_spec(spec_id)]
    pub fn id(&self) -> (r: NodeId)
        ensures
            r == self.spec_id(),
    {
        match self {
            Node::Tile { id, .. } => *id,
            Node::Split { id, .. } => *id,
        }
    }

    /// The identifier of the split that holds this node, if any.
    #[verifier::when_used_as_spec(spec_parent)]
    pub fn parent(&self) -> (r: Option<NodeId>)
        ensures
            r == self.spec_parent(),
    {
        match self {
            Node::Tile { parent, .. } => *parent,
            Node::Split { parent, .. } => *parent,
        }
    }

    /// The same entry naming `p` as its parent.
    pub open spec fn spec_with_parent(self, p: Option<NodeId>) -> Node {
        match self {
            Node::Tile { id, tile_id, locked, .. } => Node::Tile { id, tile_id, parent: p, locked },
            Node::Split {
                id,
                direction,
                first,
                second,
                split_percentage,
                locked,
                min_percentage,
                max_percentage,
                ..
            } => Node::Split {
                id,
                direction,
                first,
                second,
                split_percentage,
                parent: p,
                locked,
                min_percentage,
                max_percentage,
            },
        }
    }

    /// The same entry naming `p` as its parent.
    pub fn with_parent(self, p: Option<NodeId>) -> (r: Node)
        ensures
            r == self.spec_with_parent(p),
    {
        match self {
            Node::Tile { id, tile_id, locked, .. } => Node::Tile { id, tile_id, parent: p, locked },
            Node::Split {
                id,
                direction,
                first,
                second,
                split_percentage,
                locked,
                min_percentage,
                max_percentage,
                ..
            } => Node::Split {
                id,
                direction,
                first,
                second,
                split_percentage,
                parent: p,
                locked,
                min_percentage,
                max_percentage,
            },
        }
    }

    /// A split entry whose child `old` is replaced by `new`.
    pub fn relinked(self, old: NodeId, new: NodeId) -> (r: Node)
        ensures
            r == relink(self, old, new),
    {
        match self {
            Node::Split {
                id,
                direction,
                first,
                second,
                split_percentage,
                parent,
                locked,
                min_percentage,
                max_percentage,
            } => Node::Split {
                id,
                direction,
                first: if first == old {
                    new
                } else {
                    first
                },
                second: if first != old && second == old {
                    new
                } else {
                    second
                },
                split_percentage,
                parent,
                locked,
                min_percentage,
                max_percentage,
            },
            Node::Tile { .. } => self,
        }
    }
}

} // verus!

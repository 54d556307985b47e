//! Where a node sits in the feed-forward order.

use vstd::prelude::*;

verus! {

/// The layer of a node. Inputs come first and outputs last; a hidden node
/// carries its depth; a node from which no output can be reached has no
/// place in the order.
#[derive(Copy, Clone, PartialEq, Eq, Debug, Structural)]
pub enum Layer {
    Input,
    Hidden(u16),
    Output,
    Unreachable,
}

impl Layer {
    /// The rank of a layer: 0 for the inputs, depth + 1 for a hidden layer,
    /// then the outputs, then the unreachable nodes.
    pub open spec fn number(self) -> int {
        match self {
            Layer::Input => 0,
            Layer::Hidden(i) => i + 1,
            Layer::Output => 0x1_0000,
            Layer::Unreachable => 0x1_0001,
        }
    }

    /// Whether `self` comes strictly before `other`, where that is known.
    /// An unreachable node is known to come before every output and after
    /// every input, and nothing else is known of it.
    pub open spec fn precedes(self, other: Layer) -> Option<bool> {
        if self == Layer::Unreachable {
            if other == Layer::Output {
                Some(true)
            } else if other == Layer::Input {
                Some(false)
            } else {
                None
            }
        } else if other == Layer::Unreachable {
            if self == Layer::Input {
                Some(true)
            } else if self == Layer::Output {
                Some(false)
            } else {
                None
            }
        } else {
            Some(self.number() < other.number())
        }
    }

    /// Whether the node has a place in the order.
    pub open spec fn is_placed(self) -> bool {
        self != Layer::Unreachable
    }

    pub fn to_number(self) -> (n: usize)
        ensures
            n == self.number(),
    {
        match self {
            Layer::Input => 0,
            Layer::Hidden(i) => i as usize + 1,
            Layer::Output => u16::MAX as usize + 1,
            Layer::Unreachable => u16::MAX as usize + 2,
        }
    }

    /// `Some(true)` when `self` comes before `other`, `Some(false)` when it
    /// is in the same layer or comes after, `None` when one of the two is
    /// unreachable and the other is neither input nor output.
    pub fn comes_before(self, other: Layer) -> (r: Option<bool>)
        ensures
            r == self.precedes(other),
    {
        if self == Layer::Unreachable {
            return if other == Layer::Output {
                Some(true)
            } else if other == Layer::Input {
                Some(false)
            } else {
                None
            };
        } else if other == Layer::Unreachable {
            return if self == Layer::Input {
                Some(true)
            } else if self == Layer::Output {
                Some(false)
            } else {
                None
            };
        }
        Some(self.to_number() < other.to_number())
    }
}

} // verus!

//! Handing out identifiers.

use vstd::prelude::*;

verus! {

/// The source of every identifier: one counter each for node genes,
/// connection genes and genomes. An identifier is the value of its counter
/// at the moment it was handed out, so no counter hands out a value twice
/// and every identifier handed out lies below the counter.
#[derive(Copy, Clone, Debug)]
pub struct IdAllocator {
    pub next_node: usize,
    pub next_connection: usize,
    pub next_net: usize,
}

impl IdAllocator {
    /// An allocator whose three counters start at 1.
    pub fn new() -> (ids: IdAllocator)
        ensures
            ids.next_node == 1,
            ids.next_connection == 1,
            ids.next_net == 1,
    {
        IdAllocator { next_node: 1, next_connection: 1, next_net: 1 }
    }

    /// An allocator whose counters start at the given values, for genomes
    /// that were built with identifiers chosen by hand.
    pub fn starting_at(next_node: usize, next_connection: usize, next_net: usize) -> (ids:
        IdAllocator)
        ensures
            ids.next_node == next_node,
            ids.next_connection == next_connection,
            ids.next_net == next_net,
    {
        IdAllocator { next_node, next_connection, next_net }
    }

    /// Whether `nodes` node identifiers and `connections` connection
    /// identifiers can still be handed out.
    pub open spec fn has_room(self, nodes: int, connections: int) -> bool {
        &&& self.next_node + nodes <= usize::MAX
        &&& self.next_connection + connections <= usize::MAX
    }

    /// Whether `later` can be this allocator after some identifiers were
    /// handed out.
    pub open spec fn no_later_than(self, later: IdAllocator) -> bool {
        &&& self.next_node <= later.next_node
        &&& self.next_connection <= later.next_connection
        &&& self.next_net <= later.next_net
    }

    /// Tells whether `nodes` node identifiers and `connections` connection
    /// identifiers can still be handed out.
    pub fn check_room(&self, nodes: usize, connections: usize) -> (r: bool)
        ensures
            r == self.has_room(nodes as int, connections as int),
    {
        nodes <= usize::MAX - self.next_node && connections <= usize::MAX - self.next_connection
    }
}

} // verus!

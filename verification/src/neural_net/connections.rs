//! Connection genes.

use crate::neural_net::ids::IdAllocator;
use crate::neural_net::nets::{ConnectionIndex, NodeIndex};
use vstd::prelude::*;

verus! {

/// The stable identifier of a connection gene. It stays with the gene
/// through clones and crossovers.
#[derive(Copy, Clone, PartialEq, Eq, Hash, Debug, Structural)]
pub struct ConnectionId(pub usize);

impl ConnectionId {
    /// Hands out the next connection identifier.
    pub fn new_unique(ids: &mut IdAllocator) -> (id: ConnectionId)
        requires
            old(ids).next_connection < usize::MAX,
        ensures
            id.0 == old(ids).next_connection,
            final(ids).next_connection == old(ids).next_connection + 1,
            final(ids).next_node == old(ids).next_node,
            final(ids).next_net == old(ids).next_net,
    {
        let id = ConnectionId(ids.next_connection);
        ids.next_connection = ids.next_connection + 1;
        id
    }
}

/// A connection gene: a weighted edge from one node of a genome to another.
#[derive(Copy, Clone, Debug)]
pub struct Connection {
    /// Where the connection sits in its genome.
    pub index: ConnectionIndex,
    pub id: ConnectionId,
    pub input_node: NodeIndex,
    pub output_node: NodeIndex,
    /// The bits of the weight.
    pub weight: u32,
    pub is_enabled: bool,
}

} // verus!

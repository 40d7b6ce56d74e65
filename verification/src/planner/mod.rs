//! The scheduling planner: assembles the dependency structure reachable
//! from a graph's entry node and derives a layered, maximally parallel
//! execution plan, failing fatally on any malformed configuration.
pub mod dfs;
pub mod props;
pub mod schedule;

use vstd::prelude::*;
use crate::resolver::rir::{Node, NodeV};
use crate::symbol::DefId;

verus! {

/// A fatal configuration error found at plan-construction time. A
/// malformed graph must not produce a plan.
#[derive(Clone, Copy, PartialEq, Eq, Structural, Debug)]
pub enum PlanError {
    /// An edge or an entry names a definition id with no node behind it.
    UnknownNode(DefId),
    /// The entry node has a declared incoming edge.
    EntryHasIncoming,
    /// A second reachable node with no outgoing edges.
    DuplicateExit,
    /// No reachable node with outgoing edges ever became ready.
    MissingExit,
    /// The ready queue drained with edges still undischarged: a cycle, or
    /// a node whose predecessors can never all complete.
    ResidualInDegree,
}

/// The node table as the planner reads it.
pub open spec fn table_view(t: Seq<Option<Node>>) -> Seq<Option<NodeV>> {
    t.map_values(
        |o: Option<Node>|
            match o {
                Some(n) => Some(n@),
                None => None::<NodeV>,
            },
    )
}

/// Whether an id has a node behind it.
pub open spec fn defined(nodes: Seq<Option<NodeV>>, d: DefId) -> bool {
    d.0 < nodes.len() && nodes[d.0 as int] is Some
}

/// The declared successors of an id; empty when the id has no node.
pub open spec fn succs_of(nodes: Seq<Option<NodeV>>, d: DefId) -> Seq<DefId> {
    if defined(nodes, d) {
        nodes[d.0 as int].unwrap().to_nodes
    } else {
        Seq::empty()
    }
}

/// How often an id occurs in an edge list: a duplicate edge counts each
/// time it is declared.
pub open spec fn count_in(s: Seq<DefId>, d: DefId) -> nat
    decreases s.len(),
{
    if s.len() == 0 {
        0
    } else {
        count_in(s.drop_last(), d) + if s.last() == d {
            1nat
        } else {
            0nat
        }
    }
}

} // verus!

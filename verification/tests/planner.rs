use static_graph::planner::dfs::build_adjacency;
use static_graph::planner::schedule::{plan_graph, NodeRole};
use static_graph::planner::PlanError;
use static_graph::resolver::rir::Node;
use static_graph::symbol::{DefId, Ident, Symbol};

fn node(name: &str, to: &[usize]) -> Option<Node> {
    Some(Node {
        name: Ident::new(Symbol(name.to_string())),
        to_nodes: to.iter().map(|i| DefId(*i)).collect(),
        fields: Vec::new(),
    })
}

#[test]
fn test_diamond_plan() {
    // A -> (B, C) -> D: D is scheduled exactly once, after both B and C,
    // and observes their results in declaration order
    let nodes = vec![node("A", &[1, 2]), node("B", &[3]), node("C", &[3]), node("D", &[])];
    let plan = plan_graph(&nodes, DefId(0)).unwrap();
    let sched: Vec<usize> = plan.steps.iter().map(|s| s.def_id.0).collect();
    assert_eq!(sched, vec![0, 1, 2, 3]);
    let d_steps: Vec<_> = plan.steps.iter().filter(|s| s.def_id == DefId(3)).collect();
    assert_eq!(d_steps.len(), 1);
    assert_eq!(d_steps[0].predecessors, vec![DefId(1), DefId(2)]);
    assert_eq!(d_steps[0].role, NodeRole::InlineExit);
    assert_eq!(plan.exit, DefId(3));
    assert_eq!(plan.layers, vec![vec![DefId(0)], vec![DefId(1), DefId(2)], vec![DefId(3)]]);
    for s in plan.steps.iter().take(3) {
        assert_eq!(s.role, NodeRole::Spawned);
    }
}

#[test]
fn test_duplicate_edges_count() {
    // a duplicate declared edge is legal and raises the in-degree, yet the
    // target still runs exactly once
    let nodes = vec![node("A", &[1, 1]), node("B", &[])];
    let plan = plan_graph(&nodes, DefId(0)).unwrap();
    let b_steps: Vec<_> = plan.steps.iter().filter(|s| s.def_id == DefId(1)).collect();
    assert_eq!(b_steps.len(), 1);
    assert_eq!(b_steps[0].predecessors, vec![DefId(0), DefId(0)]);
}

#[test]
fn test_cycle_fails() {
    // E -> A -> B -> A: the in-degree structure cannot drain
    let nodes = vec![node("E", &[1]), node("A", &[2]), node("B", &[1])];
    let r = plan_graph(&nodes, DefId(0));
    assert_eq!(r.unwrap_err(), PlanError::ResidualInDegree);
}

#[test]
fn test_entry_incoming_fails() {
    // B declares an edge back into the entry
    let nodes = vec![node("A", &[1]), node("B", &[0])];
    let r = plan_graph(&nodes, DefId(0));
    assert_eq!(r.unwrap_err(), PlanError::EntryHasIncoming);
}

#[test]
fn test_duplicate_exit_fails() {
    // both X and Y have no outgoing edges
    let nodes = vec![node("E", &[1, 2]), node("X", &[]), node("Y", &[])];
    let r = plan_graph(&nodes, DefId(0));
    assert_eq!(r.unwrap_err(), PlanError::DuplicateExit);
}

#[test]
fn test_unknown_ids_fail() {
    let nodes = vec![node("A", &[1])];
    assert_eq!(plan_graph(&nodes, DefId(0)).unwrap_err(), PlanError::UnknownNode(DefId(1)));
    assert_eq!(plan_graph(&nodes, DefId(5)).unwrap_err(), PlanError::UnknownNode(DefId(5)));
    let holed = vec![node("A", &[1]), None];
    assert_eq!(plan_graph(&holed, DefId(0)).unwrap_err(), PlanError::UnknownNode(DefId(1)));
}

#[test]
fn test_adjacency_structures() {
    let nodes = vec![node("A", &[1, 2]), node("B", &[3]), node("C", &[3]), node("D", &[])];
    let adj = build_adjacency(&nodes, DefId(0)).unwrap();
    // depth-first expansion: A, then B and its subtree, then C
    assert_eq!(adj.order, vec![DefId(0), DefId(1), DefId(3), DefId(2)]);
    assert_eq!(adj.in_degree, vec![0, 1, 1, 2]);
    assert_eq!(adj.froms[3], vec![DefId(1), DefId(2)]);
    assert_eq!(adj.tos[0], vec![DefId(1), DefId(2)]);
    assert_eq!(adj.parent, vec![None, Some(DefId(0)), Some(DefId(0)), Some(DefId(1))]);
    assert_eq!(adj.visited, vec![true, true, true, true]);
}

#[test]
fn test_adjacency_deterministic() {
    // re-deriving the structures from the same table yields identical
    // froms, tos and in-degrees
    let nodes = vec![node("A", &[1, 2]), node("B", &[3]), node("C", &[3]), node("D", &[])];
    let a1 = build_adjacency(&nodes, DefId(0)).unwrap();
    let a2 = build_adjacency(&nodes, DefId(0)).unwrap();
    assert_eq!(a1.order, a2.order);
    assert_eq!(a1.parent, a2.parent);
    assert_eq!(a1.visited, a2.visited);
    assert_eq!(a1.tos, a2.tos);
    assert_eq!(a1.froms, a2.froms);
    assert_eq!(a1.in_degree, a2.in_degree);
}

#[test]
fn test_unreachable_nodes_ignored() {
    // a node not reachable from the entry plays no part in the plan
    let nodes = vec![node("A", &[1]), node("B", &[]), node("Z", &[1])];
    let plan = plan_graph(&nodes, DefId(0)).unwrap();
    let sched: Vec<usize> = plan.steps.iter().map(|s| s.def_id.0).collect();
    assert_eq!(sched, vec![0, 1]);
    // B's predecessor list holds only the reachable parent
    assert_eq!(plan.steps[1].predecessors, vec![DefId(0)]);
}

#[test]
fn test_single_node_graph() {
    // the entry itself is the unique exit and runs inline
    let nodes = vec![node("A", &[])];
    let plan = plan_graph(&nodes, DefId(0)).unwrap();
    assert_eq!(plan.steps.len(), 1);
    assert_eq!(plan.steps[0].role, NodeRole::InlineExit);
    assert_eq!(plan.exit, DefId(0));
    assert_eq!(plan.layers, vec![vec![DefId(0)]]);
}

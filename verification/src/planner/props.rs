//! The structural laws the planner guarantees, stated on their own: what
//! must make planning fail, and that the derived structures are unique.
use vstd::prelude::*;
use vstd::seq_lib::*;
use crate::resolver::rir::NodeV;
use crate::symbol::DefId;
use super::{count_in, succs_of};
use super::dfs::{
    adjacency_post, dfs_order, dfs_pairs, froms_of, froms_upto, lemma_count_in_concat,
    lemma_count_in_repeat, repeat_id, Adjacency,
};
use super::schedule::{
    entry_clear, graph_wf, is_topo, lemma_froms_pos, plan_ok, sched_of, terminal, ExecutionPlan,
    NodeRole,
};

verus! {

/// A cycle through the nodes reachable from the entry: consecutive
/// declared edges, closing back on the first node.
pub open spec fn is_cycle(
    nodes: Seq<Option<NodeV>>,
    entry: DefId,
    path: Seq<DefId>,
) -> bool {
    &&& path.len() >= 1
    &&& forall|i: int| 0 <= i < path.len() ==> dfs_order(nodes, entry).contains(#[trigger] path[i])
    &&& forall|i: int|
        0 <= i < path.len() - 1 ==> succs_of(nodes, #[trigger] path[i]).contains(path[i + 1])
    &&& succs_of(nodes, path.last()).contains(path[0])
}

/// Along a chain of declared edges, positions in a topological order
/// strictly increase.
proof fn lemma_chain_positions(
    nodes: Seq<Option<NodeV>>,
    entry: DefId,
    ord: Seq<DefId>,
    path: Seq<DefId>,
    i: int,
)
    requires
        is_topo(nodes, entry, ord),
        is_cycle(nodes, entry, path),
        0 < i < path.len(),
    ensures
        ord.contains(path[0]),
        ord.contains(path[i]),
        ord.index_of(path[0]) < ord.index_of(path[i]),
    decreases i,
{
    assert(ord.contains(path[0]));
    assert(ord.contains(path[i]));
    assert(ord.contains(path[i - 1]));
    let a = ord.index_of(path[i - 1]);
    let b = ord.index_of(path[i]);
    assert(0 <= a < ord.len() && ord[a] == path[i - 1]);
    assert(0 <= b < ord.len() && ord[b] == path[i]);
    assert(succs_of(nodes, ord[a]).contains(ord[b]));
    assert(a < b);
    if i > 1 {
        lemma_chain_positions(nodes, entry, ord, path, i - 1);
    }
}

/// Injecting a cycle among the reachable nodes makes the graph malformed:
/// no topological order exists, so plan construction must fail fatally
/// rather than succeed.
pub proof fn lemma_cycle_not_wf(nodes: Seq<Option<NodeV>>, entry: DefId, path: Seq<DefId>)
    requires
        is_cycle(nodes, entry, path),
    ensures
        !(exists|ord: Seq<DefId>| is_topo(nodes, entry, ord)),
        !graph_wf(nodes, entry),
{
    if exists|ord: Seq<DefId>| is_topo(nodes, entry, ord) {
        let ord = choose|ord: Seq<DefId>| is_topo(nodes, entry, ord);
        assert(ord.contains(path[0]));
        assert(ord.contains(path.last()));
        let a = ord.index_of(path.last());
        let b = ord.index_of(path[0]);
        assert(0 <= a < ord.len() && ord[a] == path.last());
        assert(0 <= b < ord.len() && ord[b] == path[0]);
        assert(succs_of(nodes, ord[a]).contains(ord[b]));
        assert(a < b);
        if path.len() > 1 {
            lemma_chain_positions(nodes, entry, ord, path, path.len() - 1);
            assert(path[path.len() - 1] == path.last());
        }
        assert(false);
    }
}

/// Two reachable nodes with no outgoing edges make the graph malformed:
/// the exit would not be unique, so plan construction must fail fatally.
pub proof fn lemma_duplicate_exit_not_wf(
    nodes: Seq<Option<NodeV>>,
    entry: DefId,
    t1: DefId,
    t2: DefId,
)
    requires
        t1 != t2,
        dfs_order(nodes, entry).contains(t1),
        dfs_order(nodes, entry).contains(t2),
        terminal(nodes, t1),
        terminal(nodes, t2),
    ensures
        !graph_wf(nodes, entry),
{
    if graph_wf(nodes, entry) {
        let tt = choose|tt: DefId|
            dfs_order(nodes, entry).contains(tt) && #[trigger] terminal(nodes, tt) && forall|
                u: DefId,
            |
                dfs_order(nodes, entry).contains(u) && #[trigger] terminal(nodes, u) ==> u == tt;
        assert(t1 == tt && t2 == tt);
    }
}

/// A declared edge into the entry from a reachable node makes the graph
/// malformed: the entry's in-degree would not be zero, so plan
/// construction must fail fatally.
pub proof fn lemma_entry_incoming_not_wf(nodes: Seq<Option<NodeV>>, entry: DefId, q: DefId)
    requires
        dfs_order(nodes, entry).contains(q),
        succs_of(nodes, q).contains(entry),
    ensures
        !entry_clear(nodes, entry),
        !graph_wf(nodes, entry),
{
    let order = dfs_order(nodes, entry);
    let kq = choose|kq: int| 0 <= kq < order.len() && order[kq] == q;
    lemma_froms_pos(nodes, order, kq, entry);
}

/// Re-deriving the dependency structures from the same immutable node
/// table and entry yields identical results: the adjacency contract pins
/// every component, so any two structures satisfying it agree.
pub proof fn lemma_adjacency_deterministic(
    nodes: Seq<Option<NodeV>>,
    entry: DefId,
    a1: &Adjacency,
    a2: &Adjacency,
)
    requires
        nodes.len() <= usize::MAX,
        adjacency_post(nodes, entry, a1),
        adjacency_post(nodes, entry, a2),
    ensures
        a1.order@ == a2.order@,
        a1.visited@ == a2.visited@,
        a1.parent@ == a2.parent@,
        forall|i: int| 0 <= i < nodes.len() ==> (#[trigger] a1.tos@[i])@ == a2.tos@[i]@,
        forall|i: int| 0 <= i < nodes.len() ==> (#[trigger] a1.froms@[i])@ == a2.froms@[i]@,
        a1.in_degree@ == a2.in_degree@,
{
    assert(a1.visited@ =~= a2.visited@);
    assert(a1.in_degree@ =~= a2.in_degree@) by {
        assert forall|i: int| 0 <= i < nodes.len() implies a1.in_degree@[i] == a2.in_degree@[i] by {
            assert(a1.in_degree@[i] as nat == froms_of(
                nodes,
                dfs_order(nodes, entry),
                DefId(i as usize),
            ).len());
        }
    }
    assert(a1.parent@ =~= a2.parent@) by {
        assert forall|i: int| 0 <= i < nodes.len() implies a1.parent@[i] == a2.parent@[i] by {
            let order = dfs_order(nodes, entry);
            if order.contains(DefId(i as usize)) {
                let k = choose|k: int| 0 <= k < order.len() && order[k] == DefId(i as usize);
                assert(a1.parent@[(order[k]).0 as int] == dfs_pairs(nodes, entry)[k].1);
                assert(a2.parent@[(order[k]).0 as int] == dfs_pairs(nodes, entry)[k].1);
            } else {
                assert(!a1.visited@[i] && !a2.visited@[i]);
                assert(a1.parent@[i] is None && a2.parent@[i] is None);
            }
        }
    }
}

/// A plan schedules exactly one inline node — the exit — and every other
/// scheduled node as a spawned unit.
pub proof fn lemma_one_inline_exit(
    nodes: Seq<Option<NodeV>>,
    entry: DefId,
    plan: &ExecutionPlan,
)
    requires
        plan_ok(nodes, entry, plan),
    ensures
        exists|i: int|
            0 <= i < plan.steps@.len() && (#[trigger] plan.steps@[i]).role == NodeRole::InlineExit,
        forall|i: int, j: int|
            0 <= i < plan.steps@.len() && 0 <= j < plan.steps@.len() && (
            #[trigger] plan.steps@[i]).role == NodeRole::InlineExit && (
            #[trigger] plan.steps@[j]).role == NodeRole::InlineExit ==> i == j,
{
    let sched = sched_of(plan);
    assert(sched.contains(plan.exit));
    let i0 = choose|i0: int| 0 <= i0 < sched.len() && sched[i0] == plan.exit;
    assert(plan.steps@[i0].def_id == plan.exit);
    assert(plan.steps@[i0].role == NodeRole::InlineExit);
    assert forall|i: int, j: int|
        0 <= i < plan.steps@.len() && 0 <= j < plan.steps@.len() && (
        #[trigger] plan.steps@[i]).role == NodeRole::InlineExit && (
        #[trigger] plan.steps@[j]).role == NodeRole::InlineExit implies i == j by {
        assert(terminal(nodes, plan.steps@[i].def_id));
        assert(terminal(nodes, plan.steps@[j].def_id));
        assert(sched[i] == plan.steps@[i].def_id);
        assert(sched.contains(sched[i]));
        assert(sched.contains(sched[j]));
        assert(dfs_order(nodes, entry).contains(sched[i]));
        assert(dfs_order(nodes, entry).contains(sched[j]));
        assert(plan.steps@[i].def_id == plan.exit);
        assert(plan.steps@[j].def_id == plan.exit);
        assert(sched[i] == sched[j]);
    }
}


/// How often a node occurs as a recorded predecessor, counted up to the
/// first `k` expanded nodes.
proof fn lemma_froms_multiplicity_upto(
    nodes: Seq<Option<NodeV>>,
    order: Seq<DefId>,
    k: int,
    q: DefId,
    m: DefId,
)
    requires
        order.no_duplicates(),
        0 <= k <= order.len(),
    ensures
        count_in(froms_upto(nodes, order, k, m), q) == if exists|j: int|
            0 <= j < k && order[j] == q {
            count_in(succs_of(nodes, q), m)
        } else {
            0nat
        },
    decreases k,
{
    if k > 0 {
        lemma_froms_multiplicity_upto(nodes, order, k - 1, q, m);
        let rep = repeat_id(order[k - 1], count_in(succs_of(nodes, order[k - 1]), m));
        lemma_count_in_concat(froms_upto(nodes, order, k - 1, m), rep, q);
        lemma_count_in_repeat(order[k - 1], count_in(succs_of(nodes, order[k - 1]), m), q);
        if order[k - 1] == q {
            assert(!(exists|j: int| 0 <= j < k - 1 && order[j] == q)) by {
                if exists|j: int| 0 <= j < k - 1 && order[j] == q {
                    let j = choose|j: int| 0 <= j < k - 1 && order[j] == q;
                    assert(order[j] == order[k - 1]);
                }
            }
            assert(exists|j: int| 0 <= j < k && order[j] == q) by {
                assert(order[k - 1] == q);
            }
        } else {
            assert((exists|j: int| 0 <= j < k && order[j] == q) == (exists|j: int|
                0 <= j < k - 1 && order[j] == q)) by {
                if exists|j: int| 0 <= j < k && order[j] == q {
                    let j = choose|j: int| 0 <= j < k && order[j] == q;
                    assert(j != k - 1);
                    assert(0 <= j < k - 1 && order[j] == q);
                }
            }
        }
    }
}

/// The predecessor tuple delivered to a node matches its declared incoming
/// edges exactly: every expanded node occurs in it once per edge it
/// declares into the node, and a node outside the expansion never occurs.
/// With the tuple's order fixed by the expansion, its cardinality and
/// content are those of the declared incoming edges.
pub proof fn lemma_predecessor_multiplicity(
    nodes: Seq<Option<NodeV>>,
    entry: DefId,
    q: DefId,
    m: DefId,
)
    ensures
        count_in(froms_of(nodes, dfs_order(nodes, entry), m), q) == if dfs_order(
            nodes,
            entry,
        ).contains(q) {
            count_in(succs_of(nodes, q), m)
        } else {
            0nat
        },
{
    let order = dfs_order(nodes, entry);
    crate::planner::schedule::lemma_order_props(nodes, entry);
    lemma_froms_multiplicity_upto(nodes, order, order.len() as int, q, m);
    if order.contains(q) {
        let j = choose|j: int| 0 <= j < order.len() && order[j] == q;
        assert(exists|j: int| 0 <= j < order.len() && order[j] == q);
    } else {
        assert(!(exists|j: int| 0 <= j < order.len() && order[j] == q)) by {
            if exists|j: int| 0 <= j < order.len() && order[j] == q {
                let j = choose|j: int| 0 <= j < order.len() && order[j] == q;
                assert(order.contains(q));
            }
        }
    }
}

} // verus!

//! The layered topological scheduler: processes the ready queue layer by
//! layer, decides for each node whether it runs as an independently
//! spawned concurrent unit or inline as the unique exit, and fails fatally
//! when the in-degree structure cannot be drained (a cycle), when a second
//! exit appears, or when the entry has an incoming edge.
use vstd::prelude::*;
use crate::resolver::rir::{Node, NodeV};
use crate::symbol::DefId;
use super::{count_in, defined, succs_of, table_view, PlanError};
use super::dfs::{
    build_adjacency, adjacency_ok, adjacency_post, child_pairs, dfs, dfs_order, dfs_pairs, emits,
    emits_before, froms_of, froms_upto, lemma_count_in_contains, lemma_count_in_take_le, lemma_dfs_props,
    lemma_froms_elems, lemma_froms_upto_prefix, stack_pair_wf, Adjacency,
};

verus! {

/// How a scheduled node executes.
#[derive(Clone, Copy, PartialEq, Eq, Structural, Debug)]
pub enum NodeRole {
    /// Spawned as an independently schedulable concurrent unit; its result
    /// is broadcast once per successor.
    Spawned,
    /// The unique exit: executes inline within the caller, and its result
    /// is the run's result.
    InlineExit,
}

/// One scheduled node: its predecessors in expansion order (one entry per
/// declared incoming edge), its declared successors, and its role.
#[derive(Debug)]
pub struct NodeStep {
    pub def_id: DefId,
    pub predecessors: Vec<DefId>,
    pub successors: Vec<DefId>,
    pub role: NodeRole,
}

/// The execution plan of one graph: every reachable node exactly once in
/// schedule order, grouped into layers of simultaneously ready nodes, and
/// the unique exit node.
#[derive(Debug)]
pub struct ExecutionPlan {
    pub steps: Vec<NodeStep>,
    pub layers: Vec<Vec<DefId>>,
    pub exit: DefId,
}

/// A node with no outgoing edges.
pub open spec fn terminal(nodes: Seq<Option<NodeV>>, d: DefId) -> bool {
    succs_of(nodes, d).len() == 0
}

/// A topological order of the nodes reachable from the entry: each
/// reachable node exactly once, every edge pointing forward.
pub open spec fn is_topo(nodes: Seq<Option<NodeV>>, entry: DefId, ord: Seq<DefId>) -> bool {
    &&& ord.no_duplicates()
    &&& forall|d: DefId| ord.contains(d) <==> dfs_order(nodes, entry).contains(d)
    &&& forall|a: int, b: int|
        0 <= a < ord.len() && 0 <= b < ord.len() && #[trigger] succs_of(nodes, ord[a]).contains(
            ord[b],
        ) ==> a < b
}

/// No reachable node declares an edge into the entry.
pub open spec fn entry_clear(nodes: Seq<Option<NodeV>>, entry: DefId) -> bool {
    froms_of(nodes, dfs_order(nodes, entry), entry).len() == 0
}

/// Exactly one reachable node has no outgoing edges.
pub open spec fn unique_exit(nodes: Seq<Option<NodeV>>, entry: DefId) -> bool {
    exists|t: DefId|
        dfs_order(nodes, entry).contains(t) && #[trigger] terminal(nodes, t) && forall|u: DefId|
            dfs_order(nodes, entry).contains(u) && #[trigger] terminal(nodes, u) ==> u == t
}

/// A well-formed graph: every reached id known, no edge into the entry,
/// the reachable dependency structure acyclic (it admits a topological
/// order), and exactly one reachable exit. Planning succeeds exactly for
/// these graphs.
pub open spec fn graph_wf(nodes: Seq<Option<NodeV>>, entry: DefId) -> bool {
    &&& adjacency_ok(nodes, entry)
    &&& entry_clear(nodes, entry)
    &&& exists|ord: Seq<DefId>| is_topo(nodes, entry, ord)
    &&& unique_exit(nodes, entry)
}

/// The ids of a plan's steps, in schedule order.
pub open spec fn sched_of(plan: &ExecutionPlan) -> Seq<DefId> {
    plan.steps@.map_values(|s: NodeStep| s.def_id)
}

/// The layers flattened back into one schedule.
pub open spec fn flatten_ids(ls: Seq<Seq<DefId>>) -> Seq<DefId>
    decreases ls.len(),
{
    if ls.len() == 0 {
        Seq::empty()
    } else {
        flatten_ids(ls.drop_last()) + ls.last()
    }
}

/// What a produced plan guarantees: the schedule is a topological order of
/// the reachable nodes (so every reachable node is scheduled exactly once,
/// after all of its predecessors); each step carries exactly the node's
/// predecessor list in expansion order — one entry per declared incoming
/// edge — and its declared successors; a node with successors is spawned
/// and the unique exit runs inline; every predecessor of a step is
/// scheduled at an earlier step; and the layers flatten back into the
/// schedule.
pub open spec fn plan_ok(nodes: Seq<Option<NodeV>>, entry: DefId, plan: &ExecutionPlan) -> bool {
    let order = dfs_order(nodes, entry);
    let sched = sched_of(plan);
    &&& is_topo(nodes, entry, sched)
    &&& forall|i: int|
        0 <= i < plan.steps@.len() ==> {
            let st = #[trigger] plan.steps@[i];
            &&& st.predecessors@ == froms_of(nodes, order, st.def_id)
            &&& st.successors@ == succs_of(nodes, st.def_id)
            &&& st.role == (if succs_of(nodes, st.def_id).len() > 0 {
                NodeRole::Spawned
            } else {
                NodeRole::InlineExit
            })
        }
    &&& forall|i: int, e: int|
        0 <= i < plan.steps@.len() && 0 <= e < plan.steps@[i].predecessors@.len()
            ==> exists|j: int|
            0 <= j < i && plan.steps@[j].def_id == #[trigger] plan.steps@[i].predecessors@[e]
    &&& order.contains(plan.exit)
    &&& terminal(nodes, plan.exit)
    &&& forall|u: DefId|
        order.contains(u) && #[trigger] terminal(nodes, u) ==> u == plan.exit
    &&& flatten_ids(plan.layers@.map_values(|l: Vec<DefId>| l@)) == sched
}

/// The edges into `m` that still await their source's completion: one per
/// declared edge from a reachable node not yet processed.
pub open spec fn edges_unproc(
    nodes: Seq<Option<NodeV>>,
    order: Seq<DefId>,
    flags: Seq<bool>,
    m: DefId,
) -> nat
    decreases order.len(),
{
    if order.len() == 0 {
        0
    } else {
        edges_unproc(nodes, order.drop_last(), flags, m) + if !flags[order.last().0 as int] {
            count_in(succs_of(nodes, order.last()), m)
        } else {
            0nat
        }
    }
}

/// With nothing processed, the pending edges into `m` are exactly its
/// predecessor list.
pub proof fn lemma_edges_unproc_init(
    nodes: Seq<Option<NodeV>>,
    order: Seq<DefId>,
    flags: Seq<bool>,
    m: DefId,
)
    requires
        forall|k: int| 0 <= k < order.len() ==> (#[trigger] order[k]).0 < flags.len(),
        forall|k: int| 0 <= k < order.len() ==> !flags[(#[trigger] order[k]).0 as int],
    ensures
        edges_unproc(nodes, order, flags, m) == froms_of(nodes, order, m).len(),
    decreases order.len(),
{
    if order.len() > 0 {
        let pre = order.drop_last();
        lemma_edges_unproc_init(nodes, pre, flags, m);
        lemma_froms_upto_prefix(nodes, order, pre, pre.len() as int, m);
    }
}

/// Flipping the flag of a node that never appears in the order leaves the
/// pending-edge count unchanged.
pub proof fn lemma_edges_unproc_irrelevant(
    nodes: Seq<Option<NodeV>>,
    order: Seq<DefId>,
    flags: Seq<bool>,
    q: DefId,
    m: DefId,
)
    requires
        !order.contains(q),
        q.0 < flags.len(),
        forall|k: int| 0 <= k < order.len() ==> (#[trigger] order[k]).0 < flags.len(),
    ensures
        edges_unproc(nodes, order, flags.update(q.0 as int, true), m) == edges_unproc(
            nodes,
            order,
            flags,
            m,
        ),
    decreases order.len(),
{
    if order.len() > 0 {
        let pre = order.drop_last();
        assert(!pre.contains(q)) by {
            if pre.contains(q) {
                let k = choose|k: int| 0 <= k < pre.len() && pre[k] == q;
                assert(order[k] == q);
            }
        }
        lemma_edges_unproc_irrelevant(nodes, pre, flags, q, m);
        assert(order.last() != q) by {
            if order.last() == q {
                assert(order[order.len() - 1] == q);
            }
        }
        assert(order.last().0 != q.0) by {
            if order.last().0 == q.0 {
                assert(order.last() == q);
            }
        }
        assert(flags.update(q.0 as int, true)[order.last().0 as int] == flags[order.last().0 as int]);
    }
}

/// Processing one reachable node discharges exactly its declared edges
/// into `m`.
pub proof fn lemma_edges_unproc_update(
    nodes: Seq<Option<NodeV>>,
    order: Seq<DefId>,
    flags: Seq<bool>,
    q: DefId,
    m: DefId,
)
    requires
        order.no_duplicates(),
        order.contains(q),
        q.0 < flags.len(),
        !flags[q.0 as int],
        forall|k: int| 0 <= k < order.len() ==> (#[trigger] order[k]).0 < flags.len(),
    ensures
        edges_unproc(nodes, order, flags.update(q.0 as int, true), m) + count_in(
            succs_of(nodes, q),
            m,
        ) == edges_unproc(nodes, order, flags, m),
    decreases order.len(),
{
    let pre = order.drop_last();
    assert(forall|k: int| 0 <= k < pre.len() ==> pre[k] == order[k]);
    if order.last() == q {
        assert(!pre.contains(q)) by {
            if pre.contains(q) {
                let k = choose|k: int| 0 <= k < pre.len() && pre[k] == q;
                assert(order[k] == q);
                assert(order[order.len() - 1] == q);
            }
        }
        lemma_edges_unproc_irrelevant(nodes, pre, flags, q, m);
    } else {
        assert(pre.contains(q)) by {
            let k = choose|k: int| 0 <= k < order.len() && order[k] == q;
            assert(k < pre.len());
            assert(pre[k] == q);
        }
        assert(pre.no_duplicates());
        lemma_edges_unproc_update(nodes, pre, flags, q, m);
        assert(order.last().0 != q.0) by {
            if order.last().0 == q.0 {
                assert(order.last() == q);
            }
        }
        assert(flags.update(q.0 as int, true)[order.last().0 as int] == flags[order.last().0 as int]);
    }
}

/// When every reachable node that declares an edge into `m` is processed,
/// no edge into `m` is pending.
pub proof fn lemma_edges_unproc_zero(
    nodes: Seq<Option<NodeV>>,
    order: Seq<DefId>,
    flags: Seq<bool>,
    m: DefId,
)
    requires
        forall|k: int|
            0 <= k < order.len() && count_in(succs_of(nodes, #[trigger] order[k]), m) > 0
                ==> flags[order[k].0 as int],
    ensures
        edges_unproc(nodes, order, flags, m) == 0,
    decreases order.len(),
{
    if order.len() > 0 {
        let pre = order.drop_last();
        assert(forall|k: int| 0 <= k < pre.len() ==> pre[k] == order[k]);
        lemma_edges_unproc_zero(nodes, pre, flags, m);
        assert(order[order.len() - 1] == order.last());
    }
}

/// The predecessor list only grows as more nodes are expanded.
pub proof fn lemma_froms_upto_mono(
    nodes: Seq<Option<NodeV>>,
    order: Seq<DefId>,
    k1: int,
    k2: int,
    m: DefId,
)
    requires
        0 <= k1 <= k2,
    ensures
        froms_upto(nodes, order, k1, m).len() <= froms_upto(nodes, order, k2, m).len(),
    decreases k2 - k1,
{
    if k1 < k2 {
        lemma_froms_upto_mono(nodes, order, k1, k2 - 1, m);
    }
}

/// A node with a declared edge into `m` somewhere in the order gives `m`
/// at least one predecessor.
pub proof fn lemma_froms_pos(nodes: Seq<Option<NodeV>>, order: Seq<DefId>, jq: int, m: DefId)
    requires
        0 <= jq < order.len(),
        succs_of(nodes, order[jq]).contains(m),
    ensures
        froms_of(nodes, order, m).len() >= 1,
{
    lemma_count_in_contains(succs_of(nodes, order[jq]), m);
    assert(froms_upto(nodes, order, jq + 1, m).len() >= 1);
    lemma_froms_upto_mono(nodes, order, jq + 1, order.len() as int, m);
}

/// The total of an in-degree table.
pub open spec fn sum_usize(s: Seq<usize>) -> int
    decreases s.len(),
{
    if s.len() == 0 {
        0
    } else {
        sum_usize(s.drop_last()) + s.last()
    }
}

/// Decrementing one entry decrements the total.
pub proof fn lemma_sum_dec(s: Seq<usize>, i: int, v: usize)
    requires
        0 <= i < s.len(),
        v == s[i] - 1,
    ensures
        sum_usize(s.update(i, v)) == sum_usize(s) - 1,
    decreases s.len(),
{
    let t = s.update(i, v);
    if i == s.len() - 1 {
        assert(t.drop_last() =~= s.drop_last());
    } else {
        assert(t.drop_last() =~= s.drop_last().update(i, v));
        lemma_sum_dec(s.drop_last(), i, v);
    }
}

/// A nonnegative total: every entry contributes at least nothing.
pub proof fn lemma_sum_nonneg(s: Seq<usize>)
    ensures
        sum_usize(s) >= 0,
    decreases s.len(),
{
    if s.len() > 0 {
        lemma_sum_nonneg(s.drop_last());
    }
}

/// What the expansion order itself guarantees, unconditionally: no
/// repeats, only known nodes, the entry first when it is known, every
/// known successor of an expanded node expanded too, and every expanded
/// node but the entry the target of a declared edge from an expanded
/// node.
pub proof fn lemma_order_props(nodes: Seq<Option<NodeV>>, entry: DefId)
    ensures
        ({
            let order = dfs_order(nodes, entry);
            &&& order.no_duplicates()
            &&& forall|k: int| 0 <= k < order.len() ==> defined(nodes, #[trigger] order[k])
            &&& (defined(nodes, entry) ==> order.len() > 0 && order[0] == entry)
            &&& (!defined(nodes, entry) ==> order.len() == 0)
            &&& forall|k: int, c: DefId|
                0 <= k < order.len() && #[trigger] succs_of(nodes, order[k]).contains(c)
                    && defined(nodes, c) ==> order.contains(c)
            &&& forall|k: int|
                0 <= k < order.len() && order[k] != entry ==> exists|j: int|
                    0 <= j < order.len() && succs_of(nodes, #[trigger] order[j]).contains(order[k])
        }),
{
    let stack0 = seq![(entry, None::<DefId>)];
    let visited0 = Seq::new(nodes.len(), |i: int| false);
    let pairs = dfs_pairs(nodes, entry);
    let order = dfs_order(nodes, entry);
    assert(forall|s: int| 0 <= s < stack0.len() ==> stack_pair_wf(
        nodes,
        visited0,
        #[trigger] stack0[s],
    ));
    lemma_dfs_props(nodes, stack0, visited0);
    assert(forall|k: int| 0 <= k < order.len() ==> order[k] == pairs[k].0);
    assert(order.no_duplicates()) by {
        assert(forall|k1: int, k2: int| 0 <= k1 < k2 < pairs.len() ==> pairs[k1].0 != pairs[k2].0);
    }
    if defined(nodes, entry) {
        assert(emits(pairs, entry)) by {
            assert(defined(nodes, stack0[0].0) && !visited0[stack0[0].0.0 as int]);
        }
        assert(pairs.len() > 0);
        // the first expansion is the entry itself
        assert(dfs(nodes, stack0, visited0) == seq![(entry, None::<DefId>)] + dfs(
            nodes,
            stack0.drop_last() + child_pairs(nodes, entry),
            visited0.update(entry.0 as int, true),
        ));
        assert(order[0] == entry);
    } else {
        assert(dfs(nodes, stack0, visited0) == dfs(nodes, stack0.drop_last(), visited0));
        assert(stack0.drop_last() =~= Seq::<(DefId, Option<DefId>)>::empty());
        assert(order.len() == 0);
    }
    assert forall|k: int, c: DefId|
        0 <= k < order.len() && #[trigger] succs_of(nodes, order[k]).contains(c) && defined(
            nodes,
            c,
        ) implies order.contains(c) by {
        assert(succs_of(nodes, pairs[k].0).contains(c));
        assert(visited0[c.0 as int] || emits(pairs, c));
        let k2 = choose|k2: int| 0 <= k2 < pairs.len() && pairs[k2].0 == c;
        assert(order[k2] == c);
    }
    assert forall|k: int| 0 <= k < order.len() && order[k] != entry implies exists|j: int|
        0 <= j < order.len() && succs_of(nodes, #[trigger] order[j]).contains(order[k]) by {
        if pairs[k].1 is Some {
            let q = pairs[k].1.unwrap();
            assert(visited0[q.0 as int] || emits_before(pairs, q, k));
            let j = choose|j: int| 0 <= j < k && pairs[j].0 == q;
            assert(succs_of(nodes, order[j]).contains(order[k]));
        } else {
            let s = choose|s: int| 0 <= s < stack0.len() && stack0[s] == (pairs[k].0, None::<DefId>);
            assert(stack0[s].0 == entry);
            assert(order[k] == entry);
        }
    }
}


/// When no edge into `m` is pending, every reachable node that declares an
/// edge into `m` is processed.
pub proof fn lemma_edges_unproc_zero_inv(
    nodes: Seq<Option<NodeV>>,
    order: Seq<DefId>,
    flags: Seq<bool>,
    m: DefId,
)
    requires
        edges_unproc(nodes, order, flags, m) == 0,
    ensures
        forall|k: int|
            0 <= k < order.len() && count_in(succs_of(nodes, #[trigger] order[k]), m) > 0
                ==> flags[order[k].0 as int],
    decreases order.len(),
{
    if order.len() > 0 {
        let pre = order.drop_last();
        lemma_edges_unproc_zero_inv(nodes, pre, flags, m);
        assert forall|k: int|
            0 <= k < order.len() && count_in(succs_of(nodes, #[trigger] order[k]), m) > 0 implies
            flags[order[k].0 as int] by {
            if k < pre.len() {
                assert(pre[k] == order[k]);
            }
        }
    }
}

/// In a drained final state, every node of a topological order has been
/// processed: its predecessors precede it in the order, so by induction
/// they are processed, its pending-edge count is zero, and a reachable
/// node with no pending edges is on the queue.
proof fn lemma_topo_processed(
    nodes: Seq<Option<NodeV>>,
    entry: DefId,
    ord: Seq<DefId>,
    queue: Seq<DefId>,
    flags: Seq<bool>,
    indeg: Seq<usize>,
    i: int,
)
    requires
        is_topo(nodes, entry, ord),
        0 <= i < ord.len(),
        flags.len() == nodes.len(),
        indeg.len() == nodes.len(),
        forall|k: int|
            0 <= k < dfs_order(nodes, entry).len() ==> defined(
                nodes,
                #[trigger] dfs_order(nodes, entry)[k],
            ),
        forall|x: int|
            0 <= x < flags.len() ==> (flags[x] <==> exists|idx: int|
                0 <= idx < queue.len() && (#[trigger] queue[idx]).0 == x),
        forall|i2: int|
            0 <= i2 < indeg.len() ==> (#[trigger] indeg[i2]) as nat == edges_unproc(
                nodes,
                dfs_order(nodes, entry),
                flags,
                DefId(i2 as usize),
            ),
        forall|i2: int|
            0 <= i2 < indeg.len() && dfs_order(nodes, entry).contains(DefId(i2 as usize)) && (
            #[trigger] indeg[i2]) == 0 ==> queue.contains(DefId(i2 as usize)),
    ensures
        queue.contains(ord[i]),
    decreases i,
{
    let order = dfs_order(nodes, entry);
    assert forall|j: int| 0 <= j < i implies queue.contains(ord[j]) by {
        lemma_topo_processed(nodes, entry, ord, queue, flags, indeg, j);
    }
    let m = ord[i];
    assert(ord.contains(m));
    assert(order.contains(m));
    let km = choose|km: int| 0 <= km < order.len() && order[km] == m;
    assert(defined(nodes, m));
    assert forall|k: int|
        0 <= k < order.len() && count_in(succs_of(nodes, #[trigger] order[k]), m) > 0 implies
        flags[order[k].0 as int] by {
        lemma_count_in_contains(succs_of(nodes, order[k]), m);
        assert(order.contains(order[k]));
        assert(ord.contains(order[k]));
        let a = choose|a: int| 0 <= a < ord.len() && ord[a] == order[k];
        assert(succs_of(nodes, ord[a]).contains(ord[i]));
        assert(a < i);
        assert(queue.contains(ord[a]));
        let idx = choose|idx: int| 0 <= idx < queue.len() && queue[idx] == order[k];
        assert(queue[idx].0 == order[k].0);
        assert(defined(nodes, order[k]));
    }
    lemma_edges_unproc_zero(nodes, order, flags, m);
    assert(indeg[m.0 as int] == 0);
}

/// An exact copy of an id list.
pub(crate) fn copy_ids(v: &Vec<DefId>) -> (r: Vec<DefId>)
    ensures
        r@ == v@,
{
    let mut r: Vec<DefId> = Vec::new();
    let n = v.len();
    let mut i: usize = 0;
    while i < n
        invariant
            i <= n,
            n == v@.len(),
            r@ =~= v@.subrange(0, i as int),
        decreases n - i,
    {
        r.push(v[i]);
        i += 1;
    }
    proof {
        assert(r@ =~= v@);
    }
    r
}

/// An exact copy of an in-degree table.
fn copy_usizes(v: &Vec<usize>) -> (r: Vec<usize>)
    ensures
        r@ == v@,
{
    let mut r: Vec<usize> = Vec::new();
    let n = v.len();
    let mut i: usize = 0;
    while i < n
        invariant
            i <= n,
            n == v@.len(),
            r@ =~= v@.subrange(0, i as int),
        decreases n - i,
    {
        r.push(v[i]);
        i += 1;
    }
    proof {
        assert(r@ =~= v@);
    }
    r
}

/// A fresh all-false processed map.
fn fresh_flags(n: usize) -> (r: Vec<bool>)
    ensures
        r@.len() == n,
        forall|j: int| 0 <= j < n ==> !r@[j],
{
    let mut r: Vec<bool> = Vec::new();
    let mut i: usize = 0;
    while i < n
        invariant
            i <= n,
            r@.len() == i,
            forall|j: int| 0 <= j < i ==> !r@[j],
        decreases n - i,
    {
        r.push(false);
        i += 1;
    }
    r
}


/// Synthesize the execution plan of one graph: build the dependency
/// structure reachable from the entry, then process the ready queue layer
/// by layer, spawning every node that has successors and running the
/// unique exit inline. Fails fatally, and only, on a malformed
/// configuration: an unknown id, an edge into the entry, a second exit
/// among the processed nodes, or an in-degree structure that cannot drain.
pub fn plan_graph(nodes: &Vec<Option<Node>>, entry: DefId) -> (r: Result<ExecutionPlan, PlanError>)
    ensures
        ({
            let nv = table_view(nodes@);
            &&& ((r is Ok) <==> graph_wf(nv, entry))
            &&& match r {
                Ok(plan) => plan_ok(nv, entry, &plan),
                Err(e) => match e {
                    PlanError::UnknownNode(u) => !adjacency_ok(nv, entry),
                    PlanError::EntryHasIncoming => adjacency_ok(nv, entry) && !entry_clear(
                        nv,
                        entry,
                    ),
                    PlanError::DuplicateExit => exists|t1: DefId, t2: DefId|
                        t1 != t2 && dfs_order(nv, entry).contains(t1) && dfs_order(
                            nv,
                            entry,
                        ).contains(t2) && #[trigger] terminal(nv, t1) && #[trigger] terminal(
                            nv,
                            t2,
                        ),
                    PlanError::ResidualInDegree => !(exists|ord: Seq<DefId>|
                        is_topo(nv, entry, ord)),
                    PlanError::MissingExit => forall|u: DefId|
                        dfs_order(nv, entry).contains(u) ==> !terminal(nv, u),
                },
            }
        }),
{
    let ghost nv = table_view(nodes@);
    let n = nodes.len();
    let adj = match build_adjacency(nodes, entry) {
        Ok(a) => a,
        Err(e) => {
            proof {
                assert(!graph_wf(nv, entry));
            }
            return Err(e);
        },
    };
    let ghost order = dfs_order(nv, entry);
    proof {
        lemma_order_props(nv, entry);
        assert(adj.order@ == order);
        assert(defined(nv, entry));
        assert(order[0] == entry);
        assert(order.contains(entry));
    }
    if adj.in_degree[entry.0] != 0 {
        proof {
            assert(froms_of(nv, order, entry).len() > 0);
            assert(!entry_clear(nv, entry));
        }
        return Err(PlanError::EntryHasIncoming);
    }
    proof {
        assert(froms_of(nv, order, entry).len() == 0);
        assert(entry_clear(nv, entry));
    }
    let mut indeg: Vec<usize> = copy_usizes(&adj.in_degree);
    let mut flags: Vec<bool> = fresh_flags(n);
    let mut queue: Vec<DefId> = Vec::new();
    queue.push(entry);
    let mut head: usize = 0;
    let mut exit_found: Option<DefId> = None;
    let mut steps: Vec<NodeStep> = Vec::new();
    let mut layers: Vec<Vec<DefId>> = Vec::new();
    let mut cur_layer: Vec<DefId> = Vec::new();
    let mut layer_end: usize = 1;
    proof {
        assert forall|i: int| 0 <= i < n implies (#[trigger] indeg@[i]) as nat == edges_unproc(
            nv,
            order,
            flags@,
            DefId(i as usize),
        ) by {
            lemma_edges_unproc_init(nv, order, flags@, DefId(i as usize));
        }
        assert forall|i: int|
            0 <= i < n && order.contains(DefId(i as usize)) && (#[trigger] indeg@[i]) == 0 implies
            exists|idx: int| 0 <= idx < queue@.len() && queue@[idx] == DefId(i as usize) by {
            if DefId(i as usize) != entry {
                let k = choose|k: int| 0 <= k < order.len() && order[k] == DefId(i as usize);
                let j = choose|j: int|
                    0 <= j < order.len() && succs_of(nv, #[trigger] order[j]).contains(order[k]);
                lemma_froms_pos(nv, order, j, DefId(i as usize));
                assert(false);
            } else {
                assert(queue@[0] == DefId(i as usize));
            }
        }
        assert(queue@.take(0) =~= Seq::<DefId>::empty());
        assert(flatten_ids(layers@.map_values(|l: Vec<DefId>| l@)) + cur_layer@ =~= queue@.take(
            0,
        ));
        assert forall|idx: int, q: DefId|
            0 <= idx < queue@.len() && order.contains(q) && #[trigger] succs_of(nv, q).contains(
                queue@[idx],
            ) implies exists|idx2: int| 0 <= idx2 < idx && idx2 < head && queue@[idx2] == q by {
            assert(queue@[idx] == entry);
            let kq = choose|kq: int| 0 <= kq < order.len() && order[kq] == q;
            assert(succs_of(nv, order[kq]).contains(entry));
            lemma_froms_pos(nv, order, kq, entry);
            assert(false);
        }
    }
    while head < queue.len()
        invariant
            n == nodes@.len(),
            nv == table_view(nodes@),
            nv.len() == n,
            adjacency_post(nv, entry, &adj),
            adjacency_ok(nv, entry),
            order == dfs_order(nv, entry),
            order.no_duplicates(),
            forall|k: int| 0 <= k < order.len() ==> defined(nv, #[trigger] order[k]),
            forall|k: int, c: DefId|
                0 <= k < order.len() && #[trigger] succs_of(nv, order[k]).contains(c) && defined(
                    nv,
                    c,
                ) ==> order.contains(c),
            order.len() > 0,
            order[0] == entry,
            entry_clear(nv, entry),
            flags@.len() == n,
            indeg@.len() == n,
            head <= queue@.len(),
            queue@.len() >= 1,
            queue@[0] == entry,
            queue@.no_duplicates(),
            forall|idx: int| 0 <= idx < queue@.len() ==> order.contains(#[trigger] queue@[idx]),
            forall|x: int|
                0 <= x < n ==> (flags@[x] <==> exists|idx: int|
                    0 <= idx < head && (#[trigger] queue@[idx]).0 == x),
            forall|i: int|
                0 <= i < n ==> (#[trigger] indeg@[i]) as nat == edges_unproc(
                    nv,
                    order,
                    flags@,
                    DefId(i as usize),
                ),
            forall|idx: int|
                0 <= idx < queue@.len() ==> indeg@[(#[trigger] queue@[idx]).0 as int] == 0,
            forall|i: int|
                0 <= i < n && order.contains(DefId(i as usize)) && (#[trigger] indeg@[i]) == 0
                    ==> exists|idx: int| 0 <= idx < queue@.len() && queue@[idx] == DefId(
                    i as usize,
                ),
            forall|idx: int, q: DefId|
                0 <= idx < queue@.len() && order.contains(q) && #[trigger] succs_of(
                    nv,
                    q,
                ).contains(queue@[idx]) ==> exists|idx2: int|
                    0 <= idx2 < idx && idx2 < head && queue@[idx2] == q,
            steps@.len() == head,
            forall|i: int| 0 <= i < head ==> (#[trigger] steps@[i]).def_id == queue@[i],
            forall|i: int|
                0 <= i < head ==> {
                    let st = #[trigger] steps@[i];
                    &&& st.predecessors@ == froms_of(nv, order, queue@[i])
                    &&& st.successors@ == succs_of(nv, queue@[i])
                    &&& st.role == (if succs_of(nv, queue@[i]).len() > 0 {
                        NodeRole::Spawned
                    } else {
                        NodeRole::InlineExit
                    })
                },
            match exit_found {
                Some(x) => {
                    &&& exists|i: int| 0 <= i < head && queue@[i] == x
                    &&& terminal(nv, x)
                    &&& forall|i: int|
                        0 <= i < head && terminal(nv, #[trigger] queue@[i]) ==> queue@[i] == x
                },
                None => forall|i: int| 0 <= i < head ==> !terminal(nv, #[trigger] queue@[i]),
            },
            flatten_ids(layers@.map_values(|l: Vec<DefId>| l@)) + cur_layer@ == queue@.take(
                head as int,
            ),
            head <= layer_end,
            layer_end <= queue@.len(),
            head == layer_end ==> head == queue@.len(),
            head == layer_end ==> cur_layer@.len() == 0,
        decreases sum_usize(indeg@) + queue@.len() - head,
    {
        let ghost sum1 = sum_usize(indeg@);
        let ghost qlen1 = queue@.len() as int;
        let ghost flags_pre = flags@;
        let d = queue[head];
        proof {
            assert(order.contains(d));
            assert(defined(nv, d)) by {
                let kd = choose|kd: int| 0 <= kd < order.len() && order[kd] == d;
            }
            assert(!flags_pre[d.0 as int]) by {
                if flags_pre[d.0 as int] {
                    let idx = choose|idx: int|
                        0 <= idx < head && (#[trigger] queue@[idx]).0 == d.0 as int;
                    assert(queue@[idx] == d);
                    assert(queue@[idx] == queue@[head as int]);
                }
            }
        }
        flags[d.0] = true;
        head += 1;
        cur_layer.push(d);
        proof {
            assert(flags@ == flags_pre.update(d.0 as int, true));
            assert forall|x: int| 0 <= x < n implies (flags@[x] <==> exists|idx: int|
                0 <= idx < head && (#[trigger] queue@[idx]).0 == x) by {
                if x == d.0 as int {
                    assert((queue@[head - 1]).0 == x);
                } else {
                    if flags@[x] {
                        let idx = choose|idx: int|
                            0 <= idx < head - 1 && (#[trigger] queue@[idx]).0 == x;
                        assert(0 <= idx < head && (queue@[idx]).0 == x);
                    } else {
                        if exists|idx: int| 0 <= idx < head && (#[trigger] queue@[idx]).0 == x {
                            let idx = choose|idx: int|
                                0 <= idx < head && (#[trigger] queue@[idx]).0 == x;
                            assert(idx != head - 1);
                            assert(0 <= idx < head - 1 && (queue@[idx]).0 == x);
                            assert(flags_pre[x]);
                            assert(false);
                        }
                    }
                }
            }
            assert forall|i: int| 0 <= i < n implies (#[trigger] indeg@[i]) as nat == edges_unproc(
                nv,
                order,
                flags@,
                DefId(i as usize),
            ) + count_in(succs_of(nv, d), DefId(i as usize)) by {
                lemma_edges_unproc_update(nv, order, flags_pre, d, DefId(i as usize));
            }
            assert(queue@.take(head as int).drop_last() =~= queue@.take(head as int - 1));
            assert(flatten_ids(layers@.map_values(|l: Vec<DefId>| l@)) + cur_layer@ =~= queue@.take(
                head as int,
            ));
        }
        let preds = copy_ids(&adj.froms[d.0]);
        let succ_copy = copy_ids(&adj.tos[d.0]);
        let ghost sv = succs_of(nv, d);
        proof {
            assert(adj.visited@[d.0 as int]);
            assert(succ_copy@ == sv);
            assert(preds@ == froms_of(nv, order, d));
        }
        if succ_copy.len() > 0 {
            let m_len = adj.tos[d.0].len();
            let mut j: usize = 0;
            proof {
                assert(sv.take(0) =~= Seq::<DefId>::empty());
                assert forall|i: int| 0 <= i < n implies (#[trigger] indeg@[i]) as nat + count_in(
                    sv.take(0),
                    DefId(i as usize),
                ) == edges_unproc(nv, order, flags@, DefId(i as usize)) + count_in(
                    sv,
                    DefId(i as usize),
                ) by {}
            }
            while j < m_len
                invariant
                    j <= m_len,
                    m_len == sv.len(),
                    sv == succs_of(nv, d),
                    n == nodes@.len(),
                    nv == table_view(nodes@),
                    nv.len() == n,
                    adjacency_post(nv, entry, &adj),
                    adjacency_ok(nv, entry),
                    order == dfs_order(nv, entry),
                    order.no_duplicates(),
                    forall|k: int| 0 <= k < order.len() ==> defined(nv, #[trigger] order[k]),
                    forall|k: int, c: DefId|
                        0 <= k < order.len() && #[trigger] succs_of(nv, order[k]).contains(c)
                            && defined(nv, c) ==> order.contains(c),
                    order.contains(d),
                    defined(nv, d),
                    flags@.len() == n,
                    indeg@.len() == n,
                    1 <= head <= queue@.len(),
                    queue@[head - 1] == d,
                    queue@[0] == entry,
                    queue@.no_duplicates(),
                    forall|idx: int|
                        0 <= idx < queue@.len() ==> order.contains(#[trigger] queue@[idx]),
                    forall|x: int|
                        0 <= x < n ==> (flags@[x] <==> exists|idx: int|
                            0 <= idx < head && (#[trigger] queue@[idx]).0 == x),
                    forall|i: int|
                        0 <= i < n ==> (#[trigger] indeg@[i]) as nat + count_in(
                            sv.take(j as int),
                            DefId(i as usize),
                        ) == edges_unproc(nv, order, flags@, DefId(i as usize)) + count_in(
                            sv,
                            DefId(i as usize),
                        ),
                    forall|idx: int|
                        0 <= idx < queue@.len() ==> indeg@[(#[trigger] queue@[idx]).0 as int] == 0,
                    forall|i: int|
                        0 <= i < n && order.contains(DefId(i as usize)) && (#[trigger] indeg@[i])
                            == 0 ==> exists|idx: int|
                            0 <= idx < queue@.len() && queue@[idx] == DefId(i as usize),
                    forall|idx: int, q: DefId|
                        0 <= idx < queue@.len() && order.contains(q) && #[trigger] succs_of(
                            nv,
                            q,
                        ).contains(queue@[idx]) ==> exists|idx2: int|
                            0 <= idx2 < idx && idx2 < head && queue@[idx2] == q,
                    sum_usize(indeg@) + queue@.len() <= sum1 + qlen1,
                    sv.len() > 0,
                    steps@.len() == head - 1,
                    forall|i: int|
                        0 <= i < head - 1 ==> (#[trigger] steps@[i]).def_id == queue@[i],
                    forall|i: int|
                        0 <= i < head - 1 ==> {
                            let st = #[trigger] steps@[i];
                            &&& st.predecessors@ == froms_of(nv, order, queue@[i])
                            &&& st.successors@ == succs_of(nv, queue@[i])
                            &&& st.role == (if succs_of(nv, queue@[i]).len() > 0 {
                                NodeRole::Spawned
                            } else {
                                NodeRole::InlineExit
                            })
                        },
                    match exit_found {
                        Some(x) => {
                            &&& exists|i: int| 0 <= i < head - 1 && queue@[i] == x
                            &&& terminal(nv, x)
                            &&& forall|i: int|
                                0 <= i < head - 1 && terminal(nv, #[trigger] queue@[i])
                                    ==> queue@[i] == x
                        },
                        None => forall|i: int|
                            0 <= i < head - 1 ==> !terminal(nv, #[trigger] queue@[i]),
                    },
                    flatten_ids(layers@.map_values(|l: Vec<DefId>| l@)) + cur_layer@
                        == queue@.take(head as int),
                    head <= layer_end,
                    layer_end <= queue@.len(),
                decreases m_len - j,
            {
                let ghost q0 = queue@;
                let s = adj.tos[d.0][j];
                proof {
                    assert(adj.tos@[d.0 as int]@ == sv);
                    assert(s == sv[j as int]);
                    assert(sv.contains(s));
                    assert(defined(nv, s)) by {
                        let kd = choose|kd: int| 0 <= kd < order.len() && order[kd] == d;
                        assert(succs_of(nv, order[kd]).contains(s));
                    }
                    assert(order.contains(s)) by {
                        let kd = choose|kd: int| 0 <= kd < order.len() && order[kd] == d;
                        assert(succs_of(nv, order[kd]).contains(s));
                    }
                    assert(sv.take(j as int + 1).drop_last() =~= sv.take(j as int));
                    assert(sv.take(j as int + 1).last() == s);
                    assert(count_in(sv.take(j as int + 1), s) == count_in(sv.take(j as int), s)
                        + 1);
                    lemma_count_in_take_le(sv, j as int + 1, s);
                    assert(indeg@[s.0 as int] >= 1);
                }
                let ghost indeg_pre = indeg@;
                let cur = indeg[s.0];
                indeg[s.0] = cur - 1;
                proof {
                    assert(indeg@ == indeg_pre.update(s.0 as int, (cur - 1) as usize));
                    lemma_sum_dec(indeg_pre, s.0 as int, (cur - 1) as usize);
                }
                if indeg[s.0] == 0 {
                    proof {
                        // a node whose last pending edge was just
                        // discharged was not yet on the queue
                        assert(!queue@.contains(s)) by {
                            if queue@.contains(s) {
                                let idx = choose|idx: int|
                                    0 <= idx < queue@.len() && queue@[idx] == s;
                                assert(indeg_pre[(queue@[idx]).0 as int] == 0);
                            }
                        }
                    }
                    let ghost queue_pre = queue@;
                    queue.push(s);
                    proof {
                        assert(queue@ == queue_pre.push(s));
                        assert(forall|idx: int|
                            0 <= idx < queue_pre.len() ==> queue@[idx] == queue_pre[idx]);
                        assert(queue@.no_duplicates()) by {
                            assert forall|a: int, b: int|
                                0 <= a < b < queue@.len() implies queue@[a] != queue@[b] by {
                                if b == queue@.len() - 1 {
                                    assert(queue_pre.contains(queue_pre[a]));
                                }
                            }
                        }
                        // all pending edges into s are discharged, so all
                        // its predecessors are processed
                        assert((cur - 1) as nat + count_in(sv.take(j as int + 1), s) == edges_unproc(
                            nv,
                            order,
                            flags@,
                            s,
                        ) + count_in(sv, s));
                        lemma_count_in_take_le(sv, j as int + 1, s);
                        assert(edges_unproc(nv, order, flags@, s) == 0);
                        lemma_edges_unproc_zero_inv(nv, order, flags@, s);
                        assert forall|idx: int, q: DefId|
                            0 <= idx < queue@.len() && order.contains(q) && #[trigger] succs_of(
                                nv,
                                q,
                            ).contains(queue@[idx]) implies exists|idx2: int|
                                0 <= idx2 < idx && idx2 < head && queue@[idx2] == q by {
                            if idx < queue_pre.len() {
                                assert(succs_of(nv, q).contains(queue_pre[idx]));
                                let idx2 = choose|idx2: int|
                                    0 <= idx2 < idx && idx2 < head && queue_pre[idx2] == q;
                                assert(queue@[idx2] == q);
                            } else {
                                assert(queue@[idx] == s);
                                let kq = choose|kq: int|
                                    0 <= kq < order.len() && order[kq] == q;
                                lemma_count_in_contains(succs_of(nv, q), s);
                                assert(count_in(succs_of(nv, order[kq]), s) > 0);
                                assert(flags@[q.0 as int]);
                                let idx2 = choose|idx2: int|
                                    0 <= idx2 < head && (#[trigger] queue@[idx2]).0 == q.0 as int;
                                assert(queue@[idx2] == q);
                                assert(idx2 < head <= queue_pre.len());
                            }
                        }
                    }
                }
                j += 1;
                proof {
                    assert(queue@ == q0 || queue@ == q0.push(s));
                    assert(forall|idx: int| 0 <= idx < q0.len() ==> queue@[idx] == q0[idx]);
                    assert(queue@.take(head as int) =~= q0.take(head as int));
                    assert forall|i: int| 0 <= i < n implies (#[trigger] indeg@[i]) as nat
                        + count_in(sv.take(j as int), DefId(i as usize)) == edges_unproc(
                        nv,
                        order,
                        flags@,
                        DefId(i as usize),
                    ) + count_in(sv, DefId(i as usize)) by {
                        assert(sv.take(j as int).drop_last() =~= sv.take(j as int - 1));
                        if i == s.0 as int {
                            assert(DefId(i as usize) == s);
                        } else {
                            assert(DefId(i as usize) != s);
                            assert(count_in(sv.take(j as int), DefId(i as usize)) == count_in(
                                sv.take(j as int - 1),
                                DefId(i as usize),
                            ));
                            assert(indeg@[i] == indeg_pre[i]);
                        }
                    }
                    // queue members still have no pending edges
                    assert forall|idx: int| 0 <= idx < queue@.len() implies indeg@[(
                    #[trigger] queue@[idx]).0 as int] == 0 by {
                        if idx < q0.len() {
                            assert(indeg_pre[(q0[idx]).0 as int] == 0);
                            if (q0[idx]).0 == s.0 {
                                assert(q0[idx] == s);
                                assert(indeg_pre[s.0 as int] >= 1);
                            }
                        } else {
                            assert(queue@[idx] == s);
                        }
                    }
                    // a reachable node with no pending edges is enqueued
                    assert forall|i: int|
                        0 <= i < n && order.contains(DefId(i as usize)) && (#[trigger] indeg@[i])
                            == 0 implies exists|idx: int|
                            0 <= idx < queue@.len() && queue@[idx] == DefId(i as usize) by {
                        if i == s.0 as int && indeg_pre[i] != 0 {
                            assert(queue@[queue@.len() - 1] == s);
                        } else {
                            assert(indeg_pre[i] == 0);
                            let idx = choose|idx: int|
                                0 <= idx < q0.len() && q0[idx] == DefId(i as usize);
                            assert(queue@[idx] == DefId(i as usize));
                        }
                    }
                    // predecessors of queue members were processed first
                    assert forall|idx: int, q: DefId|
                        0 <= idx < queue@.len() && order.contains(q) && #[trigger] succs_of(
                            nv,
                            q,
                        ).contains(queue@[idx]) implies exists|idx2: int|
                            0 <= idx2 < idx && idx2 < head && queue@[idx2] == q by {
                        if idx < q0.len() {
                            assert(succs_of(nv, q).contains(q0[idx]));
                            let idx2 = choose|idx2: int|
                                0 <= idx2 < idx && idx2 < head && q0[idx2] == q;
                            assert(queue@[idx2] == q);
                        }
                    }
                    // order membership of every member
                    assert forall|idx: int| 0 <= idx < queue@.len() implies order.contains(
                        #[trigger] queue@[idx],
                    ) by {
                        if idx < q0.len() {
                            assert(order.contains(q0[idx]));
                        } else {
                            assert(queue@[idx] == s);
                        }
                    }
                }
            }
            proof {
                assert(sv.take(m_len as int) =~= sv);
                assert forall|i: int| 0 <= i < n implies (#[trigger] indeg@[i]) as nat
                    == edges_unproc(nv, order, flags@, DefId(i as usize)) by {
                    assert(indeg@[i] as nat + count_in(sv, DefId(i as usize)) == edges_unproc(
                        nv,
                        order,
                        flags@,
                        DefId(i as usize),
                    ) + count_in(sv, DefId(i as usize)));
                }
            }
            steps.push(
                NodeStep {
                    def_id: d,
                    predecessors: preds,
                    successors: succ_copy,
                    role: NodeRole::Spawned,
                },
            );
            proof {
                assert(succs_of(nv, queue@[head - 1]).len() > 0);
            }
        } else {
            proof {
                assert(terminal(nv, d));
                assert forall|i: int| 0 <= i < n implies (#[trigger] indeg@[i]) as nat
                    == edges_unproc(nv, order, flags@, DefId(i as usize)) by {
                    assert(count_in(sv, DefId(i as usize)) == 0);
                }
            }
            match exit_found {
                Some(x) => {
                    proof {
                        let i0 = choose|i0: int| 0 <= i0 < head - 1 && queue@[i0] == x;
                        assert(x != d) by {
                            assert(queue@[i0] == x);
                            assert(queue@[head - 1] == d);
                        }
                        assert(order.contains(x)) by {
                            assert(order.contains(queue@[i0]));
                        }
                        assert(terminal(nv, x) && terminal(nv, d));
                        assert(!graph_wf(nv, entry)) by {
                            if unique_exit(nv, entry) {
                                let tt = choose|tt: DefId|
                                    order.contains(tt) && #[trigger] terminal(nv, tt)
                                        && forall|u: DefId|
                                        order.contains(u) && #[trigger] terminal(nv, u) ==> u
                                            == tt;
                                assert(x == tt && d == tt);
                            }
                        }
                    }
                    return Err(PlanError::DuplicateExit);
                },
                None => {
                    exit_found = Some(d);
                },
            }
            steps.push(
                NodeStep {
                    def_id: d,
                    predecessors: preds,
                    successors: succ_copy,
                    role: NodeRole::InlineExit,
                },
            );
            proof {
                assert(queue@[head - 1] == d);
            }
        }
        if head == layer_end {
            let ghost lviews = layers@.map_values(|l: Vec<DefId>| l@);
            let ghost cview = cur_layer@;
            layers.push(cur_layer);
            cur_layer = Vec::new();
            layer_end = queue.len();
            proof {
                let lviews2 = layers@.map_values(|l: Vec<DefId>| l@);
                assert(lviews2 =~= lviews.push(cview));
                assert(lviews2.drop_last() =~= lviews);
                assert(flatten_ids(lviews2) == flatten_ids(lviews) + cview);
                assert(flatten_ids(lviews2) + cur_layer@ =~= flatten_ids(lviews) + cview);
            }
        }
        proof {
            lemma_sum_nonneg(indeg@);
        }
    }
    // the queue drained; any undischarged edge now means a dependency that
    // can never complete
    let mut residual: Option<usize> = None;
    let mut i: usize = 0;
    while i < n
        invariant
            i <= n,
            n == indeg@.len(),
            match residual {
                Some(x) => x < n && indeg@[x as int] != 0,
                None => forall|x: int| 0 <= x < i ==> indeg@[x] == 0usize,
            },
        decreases n - i,
    {
        if indeg[i] != 0 && residual.is_none() {
            residual = Some(i);
        }
        i += 1;
    }
    proof {
        assert(head == queue@.len());
    }
    if let Some(x) = residual {
        proof {
            let m = DefId(x as usize);
            assert(!(exists|ord0: Seq<DefId>| is_topo(nv, entry, ord0))) by {
                if exists|ord0: Seq<DefId>| is_topo(nv, entry, ord0) {
                    let ord0 = choose|ord0: Seq<DefId>| is_topo(nv, entry, ord0);
                    assert forall|x2: int|
                        0 <= x2 < flags@.len() implies (flags@[x2] <==> exists|idx: int|
                            0 <= idx < queue@.len() && (#[trigger] queue@[idx]).0 == x2) by {}
                    assert forall|i2: int|
                        0 <= i2 < indeg@.len() && order.contains(DefId(i2 as usize)) && (
                        #[trigger] indeg@[i2]) == 0 implies queue@.contains(DefId(i2 as usize)) by {
                        let idx = choose|idx: int|
                            0 <= idx < queue@.len() && queue@[idx] == DefId(i2 as usize);
                    }
                    assert forall|ii: int| 0 <= ii < ord0.len() implies queue@.contains(
                        #[trigger] ord0[ii],
                    ) by {
                        lemma_topo_processed(nv, entry, ord0, queue@, flags@, indeg@, ii);
                    }
                    assert forall|k: int|
                        0 <= k < order.len() && count_in(
                            succs_of(nv, #[trigger] order[k]),
                            m,
                        ) > 0 implies flags@[order[k].0 as int] by {
                        assert(order.contains(order[k]));
                        assert(ord0.contains(order[k]));
                        let a = choose|a: int| 0 <= a < ord0.len() && ord0[a] == order[k];
                        assert(queue@.contains(ord0[a]));
                        let idx = choose|idx: int|
                            0 <= idx < queue@.len() && queue@[idx] == order[k];
                        assert((queue@[idx]).0 == order[k].0);
                        assert(defined(nv, order[k]));
                    }
                    lemma_edges_unproc_zero(nv, order, flags@, m);
                    assert(indeg@[x as int] == 0);
                }
            }
            assert(!graph_wf(nv, entry));
        }
        return Err(PlanError::ResidualInDegree);
    }
    // every reachable node was processed
    proof {
        assert forall|u: DefId| order.contains(u) implies exists|idx: int|
            0 <= idx < head && queue@[idx] == u by {
            let k = choose|k: int| 0 <= k < order.len() && order[k] == u;
            assert(defined(nv, u));
            assert(indeg@[u.0 as int] == 0);
        }
    }
    let exit = match exit_found {
        Some(x) => x,
        None => {
            proof {
                assert forall|u: DefId| order.contains(u) implies !terminal(nv, u) by {
                    let idx = choose|idx: int| 0 <= idx < head && queue@[idx] == u;
                }
                assert(!graph_wf(nv, entry)) by {
                    if unique_exit(nv, entry) {
                        let tt = choose|tt: DefId|
                            order.contains(tt) && #[trigger] terminal(nv, tt) && forall|u: DefId|
                                order.contains(u) && #[trigger] terminal(nv, u) ==> u == tt;
                    }
                }
            }
            return Err(PlanError::MissingExit);
        },
    };
    let plan = ExecutionPlan { steps, layers, exit };
    proof {
        let sched = sched_of(&plan);
        assert(sched =~= queue@) by {
            assert(sched.len() == queue@.len());
            assert forall|i2: int| 0 <= i2 < sched.len() implies sched[i2] == queue@[i2] by {
                assert(plan.steps@[i2].def_id == queue@[i2]);
            }
        }
        assert(is_topo(nv, entry, sched)) by {
            assert(sched.no_duplicates());
            assert forall|dd: DefId| sched.contains(dd) <==> order.contains(dd) by {
                if sched.contains(dd) {
                    let idx = choose|idx: int| 0 <= idx < sched.len() && sched[idx] == dd;
                    assert(order.contains(queue@[idx]));
                }
                if order.contains(dd) {
                    let idx = choose|idx: int| 0 <= idx < head && queue@[idx] == dd;
                    assert(sched[idx] == dd);
                }
            }
            assert forall|a: int, b: int|
                0 <= a < sched.len() && 0 <= b < sched.len() && #[trigger] succs_of(
                    nv,
                    sched[a],
                ).contains(sched[b]) implies a < b by {
                assert(order.contains(queue@[a]));
                assert(succs_of(nv, queue@[a]).contains(queue@[b]));
                let idx2 = choose|idx2: int|
                    0 <= idx2 < b && idx2 < head && queue@[idx2] == queue@[a];
                if idx2 != a {
                    assert(queue@[idx2] == queue@[a]);
                    assert(false);
                }
            }
        }
        assert forall|i2: int, e: int|
            0 <= i2 < plan.steps@.len() && 0 <= e < plan.steps@[i2].predecessors@.len() implies
            exists|j2: int|
                0 <= j2 < i2 && plan.steps@[j2].def_id == #[trigger] plan.steps@[i2].predecessors@[e] by {
            let dd = queue@[i2];
            let q = plan.steps@[i2].predecessors@[e];
            assert(plan.steps@[i2].predecessors@ == froms_of(nv, order, dd));
            lemma_froms_elems(nv, order, order.len() as int, dd, e);
            assert(order.contains(q));
            assert(succs_of(nv, q).contains(dd));
            assert(succs_of(nv, q).contains(queue@[i2]));
            let idx2 = choose|idx2: int|
                0 <= idx2 < i2 && idx2 < head && queue@[idx2] == q;
            assert(plan.steps@[idx2].def_id == q);
        }
        assert(order.contains(plan.exit)) by {
            let i0 = choose|i0: int| 0 <= i0 < head && queue@[i0] == plan.exit;
            assert(order.contains(queue@[i0]));
        }
        assert forall|u: DefId| order.contains(u) && #[trigger] terminal(nv, u) implies u
            == plan.exit by {
            let idx = choose|idx: int| 0 <= idx < head && queue@[idx] == u;
            assert(terminal(nv, queue@[idx]));
        }
        assert(head == layer_end);
        assert(cur_layer@.len() == 0);
        assert(flatten_ids(plan.layers@.map_values(|l: Vec<DefId>| l@)) =~= queue@.take(
            head as int,
        )) by {
            assert(flatten_ids(plan.layers@.map_values(|l: Vec<DefId>| l@)) + cur_layer@
                =~= queue@.take(head as int));
            assert(flatten_ids(plan.layers@.map_values(|l: Vec<DefId>| l@)) + cur_layer@
                =~= flatten_ids(plan.layers@.map_values(|l: Vec<DefId>| l@)));
        }
        assert(queue@.take(head as int) =~= queue@);
        assert(plan_ok(nv, entry, &plan));
        assert(graph_wf(nv, entry)) by {
            assert(is_topo(nv, entry, sched));
        }
    }
    Ok(plan)
}

} // verus!

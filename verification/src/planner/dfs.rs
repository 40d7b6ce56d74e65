//! Structural expansion: a depth-first walk of the node set from the entry
//! node, recording for every node its direct predecessors (`froms`), its
//! direct successors (`tos`) and its in-degree. A node is expanded at most
//! once, but every declared edge contributes to the structures, so a node
//! reachable through several parents is expanded once yet counted with one
//! logical predecessor per declared edge.
use vstd::prelude::*;
use crate::resolver::rir::{Node, NodeV};
use crate::symbol::DefId;
use super::{count_in, defined, succs_of, table_view, PlanError};

verus! {

/// How many slots of a visited map are still unvisited.
pub open spec fn count_false(s: Seq<bool>) -> nat
    decreases s.len(),
{
    if s.len() == 0 {
        0
    } else {
        count_false(s.drop_last()) + if s.last() {
            0nat
        } else {
            1nat
        }
    }
}

/// Marking an unvisited slot strictly shrinks the unvisited count.
pub proof fn lemma_count_false_update(s: Seq<bool>, i: int)
    requires
        0 <= i < s.len(),
        !s[i],
    ensures
        count_false(s.update(i, true)) < count_false(s),
    decreases s.len(),
{
    let t = s.update(i, true);
    if i == s.len() - 1 {
        assert(t.drop_last() =~= s.drop_last());
    } else {
        assert(t.drop_last() =~= s.drop_last().update(i, true));
        lemma_count_false_update(s.drop_last(), i);
    }
}

/// The work items a node's expansion pushes: its successors in reverse,
/// each remembering the expanding node as its discovery parent, so that
/// the first declared successor is expanded first.
pub open spec fn child_pairs(nodes: Seq<Option<NodeV>>, d: DefId) -> Seq<(DefId, Option<DefId>)> {
    let cs = succs_of(nodes, d);
    Seq::new(cs.len(), |i: int| (cs[cs.len() - 1 - i], Some(d)))
}

/// The depth-first expansion itself: pairs of an expanded node and its
/// discovery parent, in expansion order. The top of the work stack is
/// expanded if it is a known, not yet expanded node, and skipped
/// otherwise.
pub open spec fn dfs(
    nodes: Seq<Option<NodeV>>,
    stack: Seq<(DefId, Option<DefId>)>,
    visited: Seq<bool>,
) -> Seq<(DefId, Option<DefId>)>
    recommends
        visited.len() == nodes.len(),
    decreases count_false(visited), stack.len(),
    when visited.len() == nodes.len()
    via dfs_decreases
{
    if stack.len() == 0 {
        Seq::empty()
    } else {
        let (d, p) = stack.last();
        let rest = stack.drop_last();
        if !defined(nodes, d) || visited[d.0 as int] {
            dfs(nodes, rest, visited)
        } else {
            seq![(d, p)] + dfs(nodes, rest + child_pairs(nodes, d), visited.update(d.0 as int, true))
        }
    }
}

#[via_fn]
proof fn dfs_decreases(
    nodes: Seq<Option<NodeV>>,
    stack: Seq<(DefId, Option<DefId>)>,
    visited: Seq<bool>,
) {
    if stack.len() > 0 {
        let (d, p) = stack.last();
        if defined(nodes, d) && !visited[d.0 as int] {
            lemma_count_false_update(visited, d.0 as int);
        }
    }
}

/// The whole expansion from the entry node of a graph.
pub open spec fn dfs_pairs(nodes: Seq<Option<NodeV>>, entry: DefId) -> Seq<(DefId, Option<DefId>)> {
    dfs(nodes, seq![(entry, None::<DefId>)], Seq::new(nodes.len(), |i: int| false))
}

/// The expansion order from the entry node of a graph.
pub open spec fn dfs_order(nodes: Seq<Option<NodeV>>, entry: DefId) -> Seq<DefId> {
    dfs_pairs(nodes, entry).map_values(|pr: (DefId, Option<DefId>)| pr.0)
}

/// Whether expansion emits a node.
pub open spec fn emits(r: Seq<(DefId, Option<DefId>)>, d: DefId) -> bool {
    exists|k: int| 0 <= k < r.len() && r[k].0 == d
}

/// Whether expansion emits a node before position `k`.
pub open spec fn emits_before(r: Seq<(DefId, Option<DefId>)>, d: DefId, k: int) -> bool {
    exists|k2: int| 0 <= k2 < k && r[k2].0 == d
}

/// A work item's recorded parent is a known, already expanded node that
/// declares the edge.
pub open spec fn stack_pair_wf(
    nodes: Seq<Option<NodeV>>,
    visited: Seq<bool>,
    pr: (DefId, Option<DefId>),
) -> bool {
    match pr.1 {
        Some(q) => defined(nodes, q) && visited[q.0 as int] && succs_of(nodes, q).contains(pr.0),
        None => true,
    }
}

/// What the depth-first expansion guarantees, for any well-formed work
/// stack: every emitted node is known and was unexpanded, no node is
/// emitted twice, every known unexpanded stack node is emitted, every
/// known successor of an emitted node is emitted or was already expanded,
/// and every emitted node's parent is an earlier emitted or already
/// expanded node declaring the edge; a parentless emission was on the
/// stack as such.
pub proof fn lemma_dfs_props(
    nodes: Seq<Option<NodeV>>,
    stack: Seq<(DefId, Option<DefId>)>,
    visited: Seq<bool>,
)
    requires
        visited.len() == nodes.len(),
        forall|s: int| 0 <= s < stack.len() ==> stack_pair_wf(nodes, visited, #[trigger] stack[s]),
    ensures
        ({
            let r = dfs(nodes, stack, visited);
            &&& forall|k: int|
                0 <= k < r.len() ==> defined(nodes, (#[trigger] r[k]).0) && !visited[r[k].0.0 as int]
            &&& forall|k1: int, k2: int| 0 <= k1 < k2 < r.len() ==> r[k1].0 != r[k2].0
            &&& forall|s: int|
                0 <= s < stack.len() && defined(nodes, (#[trigger] stack[s]).0) && !visited[stack[s].0.0 as int]
                    ==> emits(r, stack[s].0)
            &&& forall|k: int, c: DefId|
                0 <= k < r.len() && #[trigger] succs_of(nodes, r[k].0).contains(c) && defined(
                    nodes,
                    c,
                ) ==> visited[c.0 as int] || emits(r, c)
            &&& forall|k: int|
                0 <= k < r.len() && (#[trigger] r[k]).1 is Some ==> {
                    let q = r[k].1.unwrap();
                    &&& defined(nodes, q)
                    &&& succs_of(nodes, q).contains(r[k].0)
                    &&& (visited[q.0 as int] || emits_before(r, q, k))
                }
            &&& forall|k: int|
                0 <= k < r.len() && (#[trigger] r[k]).1 is None ==> exists|s: int|
                    0 <= s < stack.len() && stack[s] == (r[k].0, None::<DefId>)
        }),
    decreases count_false(visited), stack.len(),
{
    let r = dfs(nodes, stack, visited);
    if stack.len() == 0 {
    } else {
        let (d, p) = stack.last();
        let rest = stack.drop_last();
        assert(forall|s: int| 0 <= s < rest.len() ==> rest[s] == stack[s]);
        if !defined(nodes, d) || visited[d.0 as int] {
            lemma_dfs_props(nodes, rest, visited);
            assert(r == dfs(nodes, rest, visited));
            assert forall|k: int| 0 <= k < r.len() && (#[trigger] r[k]).1 is None implies exists|s: int|
                0 <= s < stack.len() && stack[s] == (r[k].0, None::<DefId>) by {
                let s = choose|s: int| 0 <= s < rest.len() && rest[s] == (r[k].0, None::<DefId>);
                assert(stack[s] == (r[k].0, None::<DefId>));
            }
        } else {
            let visited2 = visited.update(d.0 as int, true);
            let stack2 = rest + child_pairs(nodes, d);
            let cs = succs_of(nodes, d);
            assert forall|s: int| 0 <= s < stack2.len() implies stack_pair_wf(
                nodes,
                visited2,
                #[trigger] stack2[s],
            ) by {
                if s < rest.len() {
                    assert(stack_pair_wf(nodes, visited, stack[s]));
                } else {
                    let i = s - rest.len();
                    assert(stack2[s] == (cs[cs.len() - 1 - i], Some(d)));
                    assert(cs.contains(cs[cs.len() - 1 - i]));
                }
            }
            lemma_count_false_update(visited, d.0 as int);
            lemma_dfs_props(nodes, stack2, visited2);
            let r2 = dfs(nodes, stack2, visited2);
            assert(r == seq![(d, p)] + r2);
            assert(r[0] == (d, p));
            assert(forall|k: int| 1 <= k < r.len() ==> r[k] == r2[k - 1]);

            // every emitted node is known and was unexpanded; no repeats
            assert forall|k: int| 0 <= k < r.len() implies defined(nodes, (#[trigger] r[k]).0)
                && !visited[r[k].0.0 as int] by {
                if k >= 1 {
                    assert(!visited2[r2[k - 1].0.0 as int]);
                }
            }
            assert forall|k1: int, k2: int| 0 <= k1 < k2 < r.len() implies r[k1].0 != r[k2].0 by {
                if k1 == 0 {
                    assert(!visited2[r2[k2 - 1].0.0 as int]);
                    assert(visited2[d.0 as int]);
                }
            }

            // every known unexpanded stack node is emitted
            assert forall|s: int|
                0 <= s < stack.len() && defined(nodes, (#[trigger] stack[s]).0)
                    && !visited[stack[s].0.0 as int] implies emits(r, stack[s].0) by {
                if s == stack.len() - 1 {
                    assert(r[0].0 == d);
                } else {
                    let e = stack[s].0;
                    if e.0 == d.0 {
                        assert(r[0].0 == d);
                        assert(e == d);
                    } else {
                        assert(!visited2[e.0 as int]);
                        assert(stack2[s] == stack[s]);
                        assert(emits(r2, e));
                        let k = choose|k: int| 0 <= k < r2.len() && r2[k].0 == e;
                        assert(r[k + 1].0 == e);
                    }
                }
            }

            // every known successor of an emitted node is emitted or was
            // already expanded
            assert forall|k: int, c: DefId|
                0 <= k < r.len() && #[trigger] succs_of(nodes, r[k].0).contains(c) && defined(
                    nodes,
                    c,
                ) implies visited[c.0 as int] || emits(r, c) by {
                if !visited[c.0 as int] {
                    if k == 0 {
                        // c is a declared successor of d, so it is on the
                        // new stack
                        let j = choose|j: int| 0 <= j < cs.len() && cs[j] == c;
                        let s = rest.len() + (cs.len() - 1 - j);
                        assert(stack2[s] == (cs[j], Some(d)));
                        if c.0 == d.0 {
                            assert(r[0].0 == d);
                            assert(emits(r, c));
                        } else {
                            assert(!visited2[c.0 as int]);
                            assert(emits(r2, c));
                            let k2 = choose|k2: int| 0 <= k2 < r2.len() && r2[k2].0 == c;
                            assert(r[k2 + 1].0 == c);
                        }
                    } else {
                        assert(succs_of(nodes, r2[k - 1].0).contains(c));
                        if c.0 == d.0 {
                            assert(r[0].0 == d);
                            assert(emits(r, c));
                        } else {
                            assert(!visited2[c.0 as int]);
                            assert(visited2[c.0 as int] || emits(r2, c));
                            let k2 = choose|k2: int| 0 <= k2 < r2.len() && r2[k2].0 == c;
                            assert(r[k2 + 1].0 == c);
                        }
                    }
                }
            }

            // parents declare the edge and come earlier
            assert forall|k: int| 0 <= k < r.len() && (#[trigger] r[k]).1 is Some implies {
                let q = r[k].1.unwrap();
                &&& defined(nodes, q)
                &&& succs_of(nodes, q).contains(r[k].0)
                &&& (visited[q.0 as int] || emits_before(r, q, k))
            } by {
                if k == 0 {
                    assert(stack_pair_wf(nodes, visited, stack[stack.len() - 1]));
                } else {
                    let q = r2[k - 1].1.unwrap();
                    assert(visited2[q.0 as int] || emits_before(r2, q, k - 1));
                    if visited2[q.0 as int] && !visited[q.0 as int] {
                        assert(q.0 == d.0);
                        assert(r[0].0 == q);
                        assert(emits_before(r, q, k));
                    } else if !visited2[q.0 as int] {
                        let k2 = choose|k2: int| 0 <= k2 < k - 1 && r2[k2].0 == q;
                        assert(r[k2 + 1].0 == q);
                        assert(emits_before(r, q, k));
                    }
                }
            }

            // parentless emissions were on the stack as such
            assert forall|k: int| 0 <= k < r.len() && (#[trigger] r[k]).1 is None implies exists|
                s: int,
            |
                0 <= s < stack.len() && stack[s] == (r[k].0, None::<DefId>) by {
                if k == 0 {
                    assert(stack[stack.len() - 1] == (r[0].0, None::<DefId>));
                } else {
                    let s = choose|s: int|
                        0 <= s < stack2.len() && stack2[s] == (r2[k - 1].0, None::<DefId>);
                    assert(s < rest.len());
                    assert(stack[s] == (r[k].0, None::<DefId>));
                }
            }
        }
    }
}


/// The same id a number of times: one predecessor entry per declared edge.
pub open spec fn repeat_id(d: DefId, n: nat) -> Seq<DefId> {
    Seq::new(n, |i: int| d)
}

/// The predecessor list of `m` contributed by the first `k` expanded
/// nodes: each expanded node appears once per edge it declares into `m`,
/// in expansion order.
pub open spec fn froms_upto(
    nodes: Seq<Option<NodeV>>,
    order: Seq<DefId>,
    k: int,
    m: DefId,
) -> Seq<DefId>
    decreases k,
{
    if k <= 0 {
        Seq::empty()
    } else {
        froms_upto(nodes, order, k - 1, m) + repeat_id(
            order[k - 1],
            count_in(succs_of(nodes, order[k - 1]), m),
        )
    }
}

/// The whole predecessor list of `m`: every declared edge into `m` from an
/// expanded node, in expansion order, duplicates counted.
pub open spec fn froms_of(nodes: Seq<Option<NodeV>>, order: Seq<DefId>, m: DefId) -> Seq<DefId> {
    froms_upto(nodes, order, order.len() as int, m)
}

/// The predecessor list up to `k` only reads the first `k` expansion
/// slots.
pub proof fn lemma_froms_upto_prefix(
    nodes: Seq<Option<NodeV>>,
    order1: Seq<DefId>,
    order2: Seq<DefId>,
    k: int,
    m: DefId,
)
    requires
        k <= order1.len(),
        k <= order2.len(),
        forall|j: int| 0 <= j < k ==> order1[j] == order2[j],
    ensures
        froms_upto(nodes, order1, k, m) == froms_upto(nodes, order2, k, m),
    decreases k,
{
    if k > 0 {
        lemma_froms_upto_prefix(nodes, order1, order2, k - 1, m);
    }
}

/// Every recorded predecessor is an expanded node that declares an edge
/// into `m`.
pub proof fn lemma_froms_elems(
    nodes: Seq<Option<NodeV>>,
    order: Seq<DefId>,
    k: int,
    m: DefId,
    e: int,
)
    requires
        0 <= k <= order.len(),
        0 <= e < froms_upto(nodes, order, k, m).len(),
    ensures
        order.contains(froms_upto(nodes, order, k, m)[e]),
        succs_of(nodes, froms_upto(nodes, order, k, m)[e]).contains(m),
    decreases k,
{
    if k > 0 {
        let fs = froms_upto(nodes, order, k, m);
        let pre = froms_upto(nodes, order, k - 1, m);
        let cnt = count_in(succs_of(nodes, order[k - 1]), m);
        if e < pre.len() {
            lemma_froms_elems(nodes, order, k - 1, m, e);
        } else {
            assert(fs[e] == order[k - 1]);
            assert(cnt > 0);
            lemma_count_in_contains(succs_of(nodes, order[k - 1]), m);
        }
    }
}

/// An id occurs in an edge list exactly when its count there is positive.
pub proof fn lemma_count_in_contains(s: Seq<DefId>, d: DefId)
    ensures
        count_in(s, d) > 0 <==> s.contains(d),
    decreases s.len(),
{
    if s.len() > 0 {
        lemma_count_in_contains(s.drop_last(), d);
        if s.contains(d) {
            let j = choose|j: int| 0 <= j < s.len() && s[j] == d;
            if j < s.len() - 1 {
                assert(s.drop_last()[j] == d);
            }
        } else {
            assert(s.last() != d);
            assert(forall|j: int| 0 <= j < s.len() - 1 ==> s.drop_last()[j] == s[j]);
        }
    }
}

/// Occurrence counts add over concatenation.
pub proof fn lemma_count_in_concat(a: Seq<DefId>, b: Seq<DefId>, q: DefId)
    ensures
        count_in(a + b, q) == count_in(a, q) + count_in(b, q),
    decreases b.len(),
{
    if b.len() == 0 {
        assert(a + b =~= a);
    } else {
        assert((a + b).drop_last() =~= a + b.drop_last());
        assert((a + b).last() == b.last());
        lemma_count_in_concat(a, b.drop_last(), q);
    }
}

/// A repeated id counts once per repetition, and nothing else counts.
pub proof fn lemma_count_in_repeat(d: DefId, c: nat, q: DefId)
    ensures
        count_in(repeat_id(d, c), q) == if d == q {
            c
        } else {
            0nat
        },
    decreases c,
{
    if c > 0 {
        assert(repeat_id(d, c).drop_last() =~= repeat_id(d, (c - 1) as nat));
        assert(repeat_id(d, c).last() == d);
        lemma_count_in_repeat(d, (c - 1) as nat, q);
    }
}

/// Counting over a longer prefix never shrinks.
pub proof fn lemma_count_in_take_le(s: Seq<DefId>, j: int, d: DefId)
    requires
        0 <= j <= s.len(),
    ensures
        count_in(s.take(j), d) <= count_in(s, d),
    decreases s.len() - j,
{
    if j < s.len() {
        assert(s.take(j + 1).drop_last() =~= s.take(j));
        assert(count_in(s.take(j + 1), d) >= count_in(s.take(j), d));
        lemma_count_in_take_le(s, j + 1, d);
        assert(s.take(s.len() as int) =~= s);
    } else {
        assert(s.take(j) =~= s);
    }
}

/// The structural expansion can only be carried out when the entry node is
/// known and every declared edge of every expanded node names a known
/// node; a missing target is a fatal configuration error.
pub open spec fn adjacency_ok(nodes: Seq<Option<NodeV>>, entry: DefId) -> bool {
    &&& defined(nodes, entry)
    &&& forall|k: int, c: DefId|
        0 <= k < dfs_order(nodes, entry).len() && #[trigger] succs_of(
            nodes,
            dfs_order(nodes, entry)[k],
        ).contains(c) ==> defined(nodes, c)
}

/// The auxiliary indices the planner derives over the immutable node
/// table: the expansion order, each expanded node's discovery parent, and
/// per node its direct successors, direct predecessors and in-degree.
pub struct Adjacency {
    pub order: Vec<DefId>,
    pub parent: Vec<Option<DefId>>,
    pub visited: Vec<bool>,
    pub tos: Vec<Vec<DefId>>,
    pub froms: Vec<Vec<DefId>>,
    pub in_degree: Vec<usize>,
}

/// What the structural expansion guarantees: the order is exactly the
/// depth-first expansion from the entry, `visited` marks exactly the
/// expanded nodes, `tos` holds each expanded node's declared successors,
/// `froms` holds every node's predecessors in expansion order with one
/// entry per declared edge, and `in_degree` is the length of `froms`.
pub open spec fn adjacency_post(nodes: Seq<Option<NodeV>>, entry: DefId, adj: &Adjacency) -> bool {
    &&& adj.order@ == dfs_order(nodes, entry)
    &&& adj.parent@.len() == nodes.len()
    &&& forall|k: int|
        0 <= k < adj.order@.len() ==> adj.parent@[(#[trigger] adj.order@[k]).0 as int]
            == dfs_pairs(nodes, entry)[k].1
    &&& forall|i: int| 0 <= i < nodes.len() && !adj.visited@[i] ==> adj.parent@[i] is None
    &&& adj.visited@.len() == nodes.len()
    &&& forall|i: int|
        0 <= i < nodes.len() ==> (adj.visited@[i] <==> adj.order@.contains(DefId(i as usize)))
    &&& adj.tos@.len() == nodes.len()
    &&& forall|i: int|
        0 <= i < nodes.len() ==> (#[trigger] adj.tos@[i])@ == if adj.visited@[i] {
            succs_of(nodes, DefId(i as usize))
        } else {
            Seq::<DefId>::empty()
        }
    &&& adj.froms@.len() == nodes.len()
    &&& forall|i: int|
        0 <= i < nodes.len() ==> (#[trigger] adj.froms@[i])@ == froms_of(
            nodes,
            dfs_order(nodes, entry),
            DefId(i as usize),
        )
    &&& adj.in_degree@.len() == nodes.len()
    &&& forall|i: int|
        0 <= i < nodes.len() ==> (#[trigger] adj.in_degree@[i]) as nat == froms_of(
            nodes,
            dfs_order(nodes, entry),
            DefId(i as usize),
        ).len()
}


/// A fresh all-false visited map.
fn falses(n: usize) -> (r: Vec<bool>)
    ensures
        r@ =~= Seq::new(n as nat, |i: int| false),
{
    let mut r: Vec<bool> = Vec::new();
    let mut i: usize = 0;
    while i < n
        invariant
            i <= n,
            r@.len() == i,
            forall|j: int| 0 <= j < i ==> !r@[j],
        decreases n - i,
    {
        r.push(false);
        i += 1;
    }
    r
}

/// A fresh table of empty parent slots.
fn no_parents(n: usize) -> (r: Vec<Option<DefId>>)
    ensures
        r@.len() == n,
        forall|j: int| 0 <= j < n ==> r@[j] is None,
{
    let mut r: Vec<Option<DefId>> = Vec::new();
    let mut i: usize = 0;
    while i < n
        invariant
            i <= n,
            r@.len() == i,
            forall|j: int| 0 <= j < i ==> r@[j] is None,
        decreases n - i,
    {
        r.push(None);
        i += 1;
    }
    r
}

/// A fresh table of empty edge lists.
fn empty_rows(n: usize) -> (r: Vec<Vec<DefId>>)
    ensures
        r@.len() == n,
        forall|j: int| 0 <= j < n ==> (#[trigger] r@[j])@ == Seq::<DefId>::empty(),
{
    let mut r: Vec<Vec<DefId>> = Vec::new();
    let mut i: usize = 0;
    while i < n
        invariant
            i <= n,
            r@.len() == i,
            forall|j: int| 0 <= j < i ==> (#[trigger] r@[j])@ == Seq::<DefId>::empty(),
        decreases n - i,
    {
        r.push(Vec::new());
        i += 1;
    }
    r
}

/// A fresh all-zero in-degree table.
fn zeros(n: usize) -> (r: Vec<usize>)
    ensures
        r@.len() == n,
        forall|j: int| 0 <= j < n ==> r@[j] == 0usize,
{
    let mut r: Vec<usize> = Vec::new();
    let mut i: usize = 0;
    while i < n
        invariant
            i <= n,
            r@.len() == i,
            forall|j: int| 0 <= j < i ==> r@[j] == 0usize,
        decreases n - i,
    {
        r.push(0);
        i += 1;
    }
    r
}

/// Build the dependency structure reachable from the entry node: walk the
/// node set depth-first from the entry, expanding each node at most once,
/// and record every declared edge of every expanded node in both
/// directions together with the targets' in-degrees. Fails exactly when
/// the entry, or a declared edge of a node reached from it, names an id
/// with no node behind it.
pub fn build_adjacency(nodes: &Vec<Option<Node>>, entry: DefId) -> (r: Result<
    Adjacency,
    PlanError,
>)
    ensures
        ({
            let nv = table_view(nodes@);
            &&& (r is Ok) == adjacency_ok(nv, entry)
            &&& match r {
                Ok(adj) => adjacency_post(nv, entry, &adj),
                Err(e) => e is UnknownNode,
            }
        }),
{
    let ghost nv = table_view(nodes@);
    let n = nodes.len();
    if entry.0 >= n {
        proof {
            assert(!defined(nv, entry));
        }
        return Err(PlanError::UnknownNode(entry));
    }
    if nodes[entry.0].is_none() {
        proof {
            assert(!defined(nv, entry));
        }
        return Err(PlanError::UnknownNode(entry));
    }
    proof {
        assert(nv[entry.0 as int] == table_view(nodes@)[entry.0 as int]);
        assert(defined(nv, entry));
    }
    let mut visited: Vec<bool> = falses(n);
    let mut parent: Vec<Option<DefId>> = no_parents(n);
    let mut tos: Vec<Vec<DefId>> = empty_rows(n);
    let mut froms: Vec<Vec<DefId>> = empty_rows(n);
    let mut in_degree: Vec<usize> = zeros(n);
    let mut order: Vec<DefId> = Vec::new();
    let mut stack: Vec<(DefId, Option<DefId>)> = Vec::new();
    stack.push((entry, None));
    let ghost mut done: Seq<(DefId, Option<DefId>)> = Seq::empty();
    proof {
        assert(stack@ =~= seq![(entry, None::<DefId>)]);
        assert(done + dfs(nv, stack@, visited@) =~= dfs_pairs(nv, entry));
        assert(order@ =~= done.map_values(|pr: (DefId, Option<DefId>)| pr.0));
    }
    while stack.len() > 0
        invariant
            n == nodes@.len(),
            nv == table_view(nodes@),
            nv.len() == n,
            defined(nv, entry),
            visited@.len() == n,
            parent@.len() == n,
            tos@.len() == n,
            froms@.len() == n,
            in_degree@.len() == n,
            done + dfs(nv, stack@, visited@) == dfs_pairs(nv, entry),
            order@ == done.map_values(|pr: (DefId, Option<DefId>)| pr.0),
            forall|s: int|
                0 <= s < stack@.len() ==> defined(nv, (#[trigger] stack@[s]).0) && stack_pair_wf(
                    nv,
                    visited@,
                    stack@[s],
                ),
            forall|k: int| 0 <= k < done.len() ==> defined(nv, (#[trigger] done[k]).0),
            forall|k: int, c: DefId|
                0 <= k < done.len() && #[trigger] succs_of(nv, done[k].0).contains(c) ==> defined(
                    nv,
                    c,
                ),
            forall|i: int|
                0 <= i < n ==> (visited@[i] <==> order@.contains(DefId(i as usize))),
            forall|k: int|
                0 <= k < done.len() ==> parent@[(#[trigger] done[k]).0.0 as int] == done[k].1,
            forall|i: int| 0 <= i < n && !visited@[i] ==> parent@[i] is None,
            forall|i: int|
                0 <= i < n ==> (#[trigger] tos@[i])@ == if visited@[i] {
                    succs_of(nv, DefId(i as usize))
                } else {
                    Seq::<DefId>::empty()
                },
            forall|i: int|
                0 <= i < n ==> (#[trigger] froms@[i])@ == froms_of(nv, order@, DefId(i as usize)),
            forall|i: int|
                0 <= i < n ==> (#[trigger] in_degree@[i]) as nat == froms@[i]@.len(),
        decreases count_false(visited@), stack@.len(),
    {
        let ghost stack0 = stack@;
        let ghost visited0 = visited@;
        let ghost order0 = order@;
        let ghost done0 = done;
        let top = stack.pop();
        let (d, p) = match top {
            Some(x) => x,
            None => {
                proof {
                    assert(false);
                }
                return Err(PlanError::UnknownNode(entry));
            },
        };
        proof {
            assert((d, p) == stack0.last());
            assert(stack@ == stack0.drop_last());
            assert(forall|s: int| 0 <= s < stack@.len() ==> stack@[s] == stack0[s]);
        }
        if visited[d.0] {
            proof {
                assert(dfs(nv, stack0, visited@) == dfs(nv, stack@, visited@));
            }
            continue;
        }
        // expand d: record it, then every declared edge, then push its
        // successors for expansion
        visited[d.0] = true;
        order.push(d);
        parent[d.0] = p;
        proof {
            done = done0.push((d, p));
            assert(visited@ == visited0.update(d.0 as int, true));
            lemma_count_false_update(visited0, d.0 as int);
            assert(order@ == order0.push(d));
            assert(order@ =~= done.map_values(|pr: (DefId, Option<DefId>)| pr.0));
            assert forall|i: int| 0 <= i < n implies (visited@[i] <==> order@.contains(
                DefId(i as usize),
            )) by {
                if i == d.0 as int {
                    assert(order@[order@.len() - 1] == DefId(i as usize));
                    assert(order@.contains(DefId(i as usize)));
                } else {
                    if order0.contains(DefId(i as usize)) {
                        let k = choose|k: int|
                            0 <= k < order0.len() && order0[k] == DefId(i as usize);
                        assert(order@[k] == DefId(i as usize));
                    } else {
                        if order@.contains(DefId(i as usize)) {
                            let k = choose|k: int|
                                0 <= k < order@.len() && order@[k] == DefId(i as usize);
                            assert(k < order0.len() || k == order0.len());
                            assert(k < order0.len() ==> order0[k] == DefId(i as usize));
                        }
                    }
                }
            }
            assert forall|k: int| 0 <= k < done.len() implies parent@[(
            #[trigger] done[k]).0.0 as int] == done[k].1 by {
                if k < done0.len() {
                    assert(done[k] == done0[k]);
                    assert(order0[k] == done0[k].0);
                    assert(order0.contains(done0[k].0));
                    assert(visited0[done0[k].0.0 as int]);
                    assert(done0[k].0.0 != d.0);
                } else {
                    assert(done[k] == (d, p));
                }
            }
        }
        match &nodes[d.0] {
            Some(node) => {
                proof {
                    assert(nv[d.0 as int] == Some(node@));
                    assert(succs_of(nv, d) == node.to_nodes@);
                }
                let ghost sv = succs_of(nv, d);
                let m = node.to_nodes.len();
                // the declared successor list, for the `tos` table
                let mut row: Vec<DefId> = Vec::new();
                let mut j: usize = 0;
                while j < m
                    invariant
                        j <= m,
                        m == node.to_nodes@.len(),
                        row@ =~= node.to_nodes@.subrange(0, j as int),
                    decreases m - j,
                {
                    row.push(node.to_nodes[j]);
                    j += 1;
                }
                proof {
                    assert(row@ =~= sv);
                }
                tos[d.0] = row;
                // every declared edge: one predecessor entry and one
                // in-degree unit for its target
                let mut j: usize = 0;
                while j < m
                    invariant
                        j <= m,
                        m == node.to_nodes@.len(),
                        n == nodes@.len(),
                        nv == table_view(nodes@),
                        nv.len() == n,
                        nv[d.0 as int] == Some(node@),
                        sv == succs_of(nv, d),
                        sv == node.to_nodes@,
                        d.0 < n,
                        froms@.len() == n,
                        in_degree@.len() == n,
                        order@ == order0.push(d),
                        visited0.len() == nv.len(),
                        stack0.len() > 0,
                        stack0.last() == (d, p),
                        !visited0[d.0 as int],
                        done0 + dfs(nv, stack0, visited0) == dfs_pairs(nv, entry),
                        forall|x: int| 0 <= x < j ==> defined(nv, #[trigger] sv[x]),
                        forall|i: int|
                            0 <= i < n ==> (#[trigger] froms@[i])@ == froms_of(
                                nv,
                                order0,
                                DefId(i as usize),
                            ) + repeat_id(
                                d,
                                count_in(sv.take(j as int), DefId(i as usize)),
                            ),
                        forall|i: int|
                            0 <= i < n ==> (#[trigger] in_degree@[i]) as nat == froms@[i]@.len(),
                    decreases m - j,
                {
                    proof {
                        assert(sv.take(0) =~= Seq::<DefId>::empty());
                    }
                    let c = node.to_nodes[j];
                    if c.0 >= n {
                        proof {
                            lemma_unknown_child(nv, entry, done0, stack0, visited0, d, p, c, j as int);
                        }
                        return Err(PlanError::UnknownNode(c));
                    }
                    if nodes[c.0].is_none() {
                        proof {
                            assert(nv[c.0 as int] == table_view(nodes@)[c.0 as int]);
                            lemma_unknown_child(nv, entry, done0, stack0, visited0, d, p, c, j as int);
                        }
                        return Err(PlanError::UnknownNode(c));
                    }
                    proof {
                        assert(nv[c.0 as int] == table_view(nodes@)[c.0 as int]);
                        assert(defined(nv, c));
                    }
                    froms[c.0].push(d);
                    let fl = froms[c.0].len();
                    in_degree[c.0] = fl;
                    j += 1;
                    proof {
                        assert(sv.take(j as int).drop_last() =~= sv.take(j as int - 1));
                        assert(sv.take(j as int).last() == c);
                        assert forall|i: int| 0 <= i < n implies (#[trigger] froms@[i])@
                            == froms_of(nv, order0, DefId(i as usize)) + repeat_id(
                            d,
                            count_in(sv.take(j as int), DefId(i as usize)),
                        ) by {
                            if i == c.0 as int {
                                assert(count_in(sv.take(j as int), c) == count_in(
                                    sv.take(j as int - 1),
                                    c,
                                ) + 1);
                                assert(froms@[i]@ =~= froms_of(nv, order0, DefId(i as usize))
                                    + repeat_id(
                                    d,
                                    count_in(sv.take(j as int), DefId(i as usize)),
                                ));
                            } else {
                                assert(count_in(sv.take(j as int), DefId(i as usize)) == count_in(
                                    sv.take(j as int - 1),
                                    DefId(i as usize),
                                ));
                            }
                        }
                    }
                }
                // now the successors become work items, last first, so the
                // first declared successor is expanded next
                proof {
                    assert(sv.take(m as int) =~= sv);
                    assert forall|i: int| 0 <= i < n implies (#[trigger] froms@[i])@ == froms_of(
                        nv,
                        order@,
                        DefId(i as usize),
                    ) by {
                        let mm = DefId(i as usize);
                        lemma_froms_upto_prefix(nv, order@, order0, order0.len() as int, mm);
                        assert(froms_of(nv, order@, mm) == froms_upto(
                            nv,
                            order@,
                            order0.len() as int,
                            mm,
                        ) + repeat_id(d, count_in(succs_of(nv, order@[order0.len() as int]), mm)));
                    }
                }
                let ghost stack1 = stack@;
                let mut j: usize = 0;
                while j < m
                    invariant
                        j <= m,
                        m == node.to_nodes@.len(),
                        nv == table_view(nodes@),
                        nv[d.0 as int] == Some(node@),
                        sv == succs_of(nv, d),
                        sv == node.to_nodes@,
                        stack@ =~= stack1 + Seq::new(
                            j as nat,
                            |x: int| (sv[sv.len() - 1 - x], Some(d)),
                        ),
                    decreases m - j,
                {
                    let c = node.to_nodes[m - 1 - j];
                    stack.push((c, Some(d)));
                    j += 1;
                    proof {
                        assert(stack@ =~= stack1 + Seq::new(
                            j as nat,
                            |x: int| (sv[sv.len() - 1 - x], Some(d)),
                        ));
                    }
                }
                proof {
                    assert(stack@ =~= stack1 + child_pairs(nv, d));
                    assert(dfs(nv, stack0, visited0) == seq![(d, p)] + dfs(nv, stack@, visited@));
                    assert(done + dfs(nv, stack@, visited@) =~= dfs_pairs(nv, entry));
                    // stack well-formedness: old items keep their shape, new
                    // items name the just-expanded node as parent
                    assert forall|s: int|
                        0 <= s < stack@.len() implies defined(nv, (#[trigger] stack@[s]).0)
                        && stack_pair_wf(nv, visited@, stack@[s]) by {
                        if s < stack1.len() {
                            assert(stack@[s] == stack0[s]);
                            assert(stack_pair_wf(nv, visited0, stack0[s]));
                        } else {
                            let x = s - stack1.len();
                            assert(stack@[s] == (sv[sv.len() - 1 - x], Some(d)));
                            assert(sv.contains(sv[sv.len() - 1 - x]));
                            assert(defined(nv, sv[sv.len() - 1 - x]));
                        }
                    }
                    // edges of every expanded node, the new one included,
                    // name known nodes
                    assert forall|k: int, c: DefId|
                        0 <= k < done.len() && #[trigger] succs_of(nv, done[k].0).contains(c)
                        implies defined(nv, c) by {
                        if k < done0.len() {
                            assert(done[k] == done0[k]);
                            assert(succs_of(nv, done0[k].0).contains(c));
                        } else {
                            assert(done[k].0 == d);
                            let x = choose|x: int| 0 <= x < sv.len() && sv[x] == c;
                            assert(defined(nv, sv[x]));
                        }
                    }
                }
            },
            None => {
                proof {
                    assert(nv[d.0 as int] == table_view(nodes@)[d.0 as int]);
                    assert(false);
                }
                return Err(PlanError::UnknownNode(d));
            },
        }
    }
    let adj = Adjacency { order, parent, visited, tos, froms, in_degree };
    proof {
        assert(dfs(nv, stack@, visited@) =~= Seq::<(DefId, Option<DefId>)>::empty());
        assert(done =~= dfs_pairs(nv, entry));
        assert(adj.order@ =~= dfs_order(nv, entry));
        assert forall|k: int| 0 <= k < adj.order@.len() implies adj.parent@[(
        #[trigger] adj.order@[k]).0 as int] == dfs_pairs(nv, entry)[k].1 by {
            assert(adj.order@[k] == done[k].0);
        }
        // expansion reached only known nodes and known edges, so the walk
        // was completed
        assert forall|k: int, c: DefId|
            0 <= k < dfs_order(nv, entry).len() && #[trigger] succs_of(
                nv,
                dfs_order(nv, entry)[k],
            ).contains(c) implies defined(nv, c) by {
            assert(dfs_order(nv, entry)[k] == done[k].0);
        }
        assert(adjacency_ok(nv, entry));
        assert(adjacency_post(nv, entry, &adj));
    }
    Ok(adj)
}

/// An expanded node whose declared edge names an unknown id refutes the
/// structural well-formedness of the walk.
proof fn lemma_unknown_child(
    nv: Seq<Option<NodeV>>,
    entry: DefId,
    done0: Seq<(DefId, Option<DefId>)>,
    stack0: Seq<(DefId, Option<DefId>)>,
    visited0: Seq<bool>,
    d: DefId,
    p: Option<DefId>,
    c: DefId,
    j: int,
)
    requires
        visited0.len() == nv.len(),
        stack0.len() > 0,
        stack0.last() == (d, p),
        defined(nv, d),
        !visited0[d.0 as int],
        done0 + dfs(nv, stack0, visited0) == dfs_pairs(nv, entry),
        0 <= j < succs_of(nv, d).len(),
        succs_of(nv, d)[j] == c,
        !defined(nv, c),
    ensures
        !adjacency_ok(nv, entry),
{
    let r = dfs(nv, stack0, visited0);
    assert(r == seq![(d, p)] + dfs(
        nv,
        stack0.drop_last() + child_pairs(nv, d),
        visited0.update(d.0 as int, true),
    ));
    assert(r[0] == (d, p));
    let k = done0.len() as int;
    assert(dfs_pairs(nv, entry)[k] == (d, p));
    assert(dfs_order(nv, entry)[k] == d);
    assert(succs_of(nv, dfs_order(nv, entry)[k]).contains(c));
}


/// Every expanded node's discovery parent was expanded at an earlier
/// position.
pub proof fn lemma_parent_before(nodes: Seq<Option<NodeV>>, entry: DefId, k: int)
    requires
        0 <= k < dfs_pairs(nodes, entry).len(),
        dfs_pairs(nodes, entry)[k].1 is Some,
    ensures
        exists|k2: int|
            0 <= k2 < k && dfs_order(nodes, entry)[k2] == dfs_pairs(nodes, entry)[k].1.unwrap(),
{
    let stack0 = seq![(entry, None::<DefId>)];
    let visited0 = Seq::new(nodes.len(), |i: int| false);
    let pairs = dfs_pairs(nodes, entry);
    assert(forall|s: int| 0 <= s < stack0.len() ==> stack_pair_wf(
        nodes,
        visited0,
        #[trigger] stack0[s],
    ));
    lemma_dfs_props(nodes, stack0, visited0);
    let q = pairs[k].1.unwrap();
    assert(defined(nodes, q));
    assert(visited0[q.0 as int] || emits_before(pairs, q, k));
    let k2 = choose|k2: int| 0 <= k2 < k && pairs[k2].0 == q;
    assert(dfs_order(nodes, entry)[k2] == q);
}

} // verus!

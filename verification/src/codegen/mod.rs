//! The contract emitter: derives from the planner's decisions the typed
//! per-node capability and the structured orchestration description that
//! the textual emission collaborator renders. Each node's contract carries
//! its rendered names, its predecessor tuple in declaration order, its
//! fan-out, its access path along the discovery tree, and its typed
//! fields with their construction rule.
pub mod ty;

use vstd::prelude::*;
use crate::context::Context;
use crate::planner::dfs::{
    adjacency_post, build_adjacency, dfs_order, dfs_pairs, froms_of, lemma_froms_elems,
    lemma_parent_before,
};
use crate::planner::schedule::{
    copy_ids, flatten_ids, graph_wf, is_topo, lemma_order_props, plan_graph, plan_ok, sched_of,
    terminal, NodeRole,
};
use vstd::seq_lib::*;
use crate::planner::{defined, succs_of, table_view, PlanError};
use crate::resolver::rir::{Node, NodeV};
use crate::resolver::{construct_of, editable_of};
use crate::symbol::{snake_of, to_snake_str, to_upper_camel_str, upper_camel_of, DefId, TagId};
use crate::tags::{Construct, Editable, TagKind, TagValue, Tags};
use self::ty::CodegenTy;

verus! {

/// How a field's value is constructed in the generated plan.
#[derive(Debug)]
pub enum FieldInit {
    /// The language's ordinary default mechanism.
    Defaulted,
    /// The user-supplied zero-argument constructor path, treated as an
    /// opaque named reference.
    Constructed(String),
    /// The constructor's value published through the shared-mutable cell.
    SharedConstructed(String),
}

/// One typed field of a node's generated struct.
#[derive(Debug)]
pub struct FieldContract {
    pub name: String,
    pub ty: CodegenTy,
    pub init: FieldInit,
}

/// The typed capability of one scheduled node: the handler takes the
/// cloned request and the tuple of its predecessors' responses, in
/// predecessor order, and its own response is broadcast once per
/// successor.
#[derive(Debug)]
pub struct NodeContract {
    pub def_id: DefId,
    pub snake_name: String,
    pub camel_name: String,
    pub predecessors: Vec<DefId>,
    pub pred_snake_names: Vec<String>,
    pub pred_camel_names: Vec<String>,
    pub successors: Vec<DefId>,
    pub succ_snake_names: Vec<String>,
    pub succ_camel_names: Vec<String>,
    pub role: NodeRole,
    pub access_path: Vec<String>,
    pub fields: Vec<FieldContract>,
}

/// Everything the emission collaborator needs for one graph: the graph's
/// and entry's rendered names, one contract per reachable node in schedule
/// order, the layer structure, and the unique exit.
#[derive(Debug)]
pub struct GraphContract {
    pub graph_id: DefId,
    pub graph_camel: String,
    pub entry_id: DefId,
    pub entry_snake: String,
    pub entry_camel: String,
    pub nodes: Vec<NodeContract>,
    pub layers: Vec<Vec<DefId>>,
    pub exit: DefId,
}

/// The name of a known node.
pub open spec fn name_of(nodes: Seq<Option<NodeV>>, d: DefId) -> Seq<char> {
    nodes[d.0 as int].unwrap().name
}

/// A field's construction rule follows its annotation set: a `default`
/// annotation supplies the constructor path, published through the
/// shared-mutable cell when the field is also `editable = true`; without
/// one the ordinary default mechanism is used.
pub open spec fn field_init_ok(
    tags: Seq<Map<TagKind, TagValue>>,
    tag_id: TagId,
    init: FieldInit,
) -> bool {
    if tag_id.0 < tags.len() {
        let tg = tags[tag_id.0 as int];
        match construct_of(tg) {
            Some(p) => {
                if editable_of(tg) == Some(true) {
                    init matches FieldInit::SharedConstructed(s) && s@ == p
                } else {
                    init matches FieldInit::Constructed(s) && s@ == p
                }
            },
            None => init is Defaulted,
        }
    } else {
        init is Defaulted
    }
}

/// The access path of the node expanded at position `k` of the expansion
/// order: the entry hangs directly off the graph value, every other node
/// off its discovery parent's path, each step named by the node's rendered
/// name.
pub open spec fn nested_path(nodes: Seq<Option<NodeV>>, entry: DefId, k: int) -> Seq<Seq<char>>
    decreases k,
    when 0 <= k < dfs_order(nodes, entry).len()
    via nested_path_decreases
{
    let order = dfs_order(nodes, entry);
    match dfs_pairs(nodes, entry)[k].1 {
        None => seq!["self"@, snake_of(name_of(nodes, order[k]))],
        Some(q) => nested_path(nodes, entry, order.index_of(q)).push(
            snake_of(name_of(nodes, order[k])),
        ),
    }
}

#[via_fn]
proof fn nested_path_decreases(nodes: Seq<Option<NodeV>>, entry: DefId, k: int) {
    let order = dfs_order(nodes, entry);
    if 0 <= k < order.len() && dfs_pairs(nodes, entry)[k].1 is Some {
        let q = dfs_pairs(nodes, entry)[k].1.unwrap();
        lemma_parent_before(nodes, entry, k);
        lemma_order_props(nodes, entry);
        let k2 = choose|k2: int| 0 <= k2 < k && dfs_order(nodes, entry)[k2] == q;
        assert(order.contains(q)) by {
            assert(order[k2] == q);
        }
        let io = order.index_of(q);
        assert(0 <= io < order.len() && order[io] == q);
        assert(io == k2);
    }
}

/// The scheduled ids of a graph contract.
pub open spec fn contract_sched(gc: &GraphContract) -> Seq<DefId> {
    gc.nodes@.map_values(|nc: NodeContract| nc.def_id)
}

/// One node's emitted contract is faithful: its names render the node's
/// own name, its predecessor tuple is exactly the node's predecessor list
/// — same cardinality and order as its declared incoming edges — its
/// successors are its declared edges, it is spawned exactly when it has
/// successors, its access path is exactly the discovery-parent chain from
/// the graph value down to the node, and each field carries its declared
/// type and construction rule.
pub open spec fn node_contract_ok(
    nodes: Seq<Option<NodeV>>,
    tags: Seq<Map<TagKind, TagValue>>,
    entry: DefId,
    nc: NodeContract,
) -> bool {
    let order = dfs_order(nodes, entry);
    &&& defined(nodes, nc.def_id)
    &&& order.contains(nc.def_id)
    &&& nc.snake_name@ == snake_of(name_of(nodes, nc.def_id))
    &&& nc.camel_name@ == upper_camel_of(name_of(nodes, nc.def_id))
    &&& nc.predecessors@ == froms_of(nodes, order, nc.def_id)
    &&& nc.pred_snake_names@.len() == nc.predecessors@.len()
    &&& nc.pred_camel_names@.len() == nc.predecessors@.len()
    &&& forall|e: int|
        0 <= e < nc.predecessors@.len() ==> (#[trigger] nc.pred_snake_names@[e])@ == snake_of(
            name_of(nodes, nc.predecessors@[e]),
        ) && nc.pred_camel_names@[e]@ == upper_camel_of(name_of(nodes, nc.predecessors@[e]))
    &&& nc.successors@ == succs_of(nodes, nc.def_id)
    &&& nc.succ_snake_names@.len() == nc.successors@.len()
    &&& nc.succ_camel_names@.len() == nc.successors@.len()
    &&& forall|e: int|
        0 <= e < nc.successors@.len() ==> (#[trigger] nc.succ_snake_names@[e])@ == snake_of(
            name_of(nodes, nc.successors@[e]),
        ) && nc.succ_camel_names@[e]@ == upper_camel_of(name_of(nodes, nc.successors@[e]))
    &&& nc.role == (if succs_of(nodes, nc.def_id).len() > 0 {
        NodeRole::Spawned
    } else {
        NodeRole::InlineExit
    })
    &&& nc.access_path@.map_values(|x: String| x@) == nested_path(
        nodes,
        entry,
        order.index_of(nc.def_id),
    )
    &&& nc.fields@.len() == nodes[nc.def_id.0 as int].unwrap().fields.len()
    &&& forall|k: int|
        0 <= k < nc.fields@.len() ==> {
            let fv = nodes[nc.def_id.0 as int].unwrap().fields[k];
            &&& (#[trigger] nc.fields@[k]).name@ == snake_of(fv.name)
            &&& nc.fields@[k].ty@ == fv.ty
            &&& field_init_ok(tags, fv.tag_id, nc.fields@[k].init)
        }
}

/// A graph's emitted contract is faithful: the entry is the declared one
/// with its rendered names, the scheduled contracts form a topological
/// order of the reachable nodes, each one faithful to its node, the
/// layers flatten back into the schedule, and the exit is the unique
/// reachable node without successors.
pub open spec fn graph_contract_ok(
    nodes: Seq<Option<NodeV>>,
    tags: Seq<Map<TagKind, TagValue>>,
    entry: DefId,
    gc: &GraphContract,
) -> bool {
    let order = dfs_order(nodes, entry);
    let sched = contract_sched(gc);
    &&& defined(nodes, entry)
    &&& gc.entry_id == entry
    &&& gc.entry_snake@ == snake_of(name_of(nodes, entry))
    &&& gc.entry_camel@ == upper_camel_of(name_of(nodes, entry))
    &&& is_topo(nodes, entry, sched)
    &&& forall|i: int|
        0 <= i < gc.nodes@.len() ==> node_contract_ok(nodes, tags, entry, #[trigger] gc.nodes@[i])
    &&& order.contains(gc.exit)
    &&& terminal(nodes, gc.exit)
    &&& forall|u: DefId| order.contains(u) && #[trigger] terminal(nodes, u) ==> u == gc.exit
    &&& flatten_ids(gc.layers@.map_values(|l: Vec<DefId>| l@)) == sched
}

/// A graph id can be planned: it names a declared graph whose dependency
/// structure is well formed.
pub open spec fn graph_plannable(cx: &Context, gid: DefId) -> bool {
    &&& gid.0 < cx.graphs@.len()
    &&& cx.graphs@[gid.0 as int] is Some
    &&& graph_wf(table_view(cx.nodes@), cx.graphs@[gid.0 as int].unwrap().entry_node)
}

/// An exact copy of a rendered-name list.
fn copy_strings(v: &Vec<String>) -> (r: Vec<String>)
    ensures
        r@ == v@,
{
    let mut r: Vec<String> = Vec::new();
    let n = v.len();
    let mut i: usize = 0;
    while i < n
        invariant
            i <= n,
            n == v@.len(),
            r@ =~= v@.subrange(0, i as int),
        decreases n - i,
    {
        r.push(v[i].clone());
        i += 1;
    }
    proof {
        assert(r@ =~= v@);
    }
    r
}

/// An exact copy of the layer structure.
fn copy_layers(v: &Vec<Vec<DefId>>) -> (r: Vec<Vec<DefId>>)
    ensures
        r@.len() == v@.len(),
        forall|i: int| 0 <= i < v@.len() ==> (#[trigger] r@[i])@ == v@[i]@,
{
    let mut r: Vec<Vec<DefId>> = Vec::new();
    let n = v.len();
    let mut i: usize = 0;
    while i < n
        invariant
            i <= n,
            n == v@.len(),
            r@.len() == i,
            forall|k: int| 0 <= k < i ==> (#[trigger] r@[k])@ == v@[k]@,
        decreases n - i,
    {
        r.push(copy_ids(&v[i]));
        i += 1;
    }
    r
}

/// Derives the emitted contracts over the immutable context.
#[derive(Debug)]
pub struct Codegen {
    pub cx: Context,
}

impl Codegen {
    /// Wrap a finished context for emission.
    pub fn new(cx: Context) -> (r: Codegen)
        ensures
            r.cx == cx,
    {
        Codegen { cx }
    }

    /// The rendered names of a list of known nodes.
    fn node_names(&self, ids: &Vec<DefId>) -> (r: (Vec<String>, Vec<String>))
        requires
            forall|e: int|
                0 <= e < ids@.len() ==> defined(table_view(self.cx.nodes@), #[trigger] ids@[e]),
        ensures
            r.0@.len() == ids@.len(),
            r.1@.len() == ids@.len(),
            forall|e: int|
                0 <= e < ids@.len() ==> (#[trigger] r.0@[e])@ == snake_of(
                    name_of(table_view(self.cx.nodes@), ids@[e]),
                ) && r.1@[e]@ == upper_camel_of(name_of(table_view(self.cx.nodes@), ids@[e])),
    {
        let ghost nv = table_view(self.cx.nodes@);
        let mut snakes: Vec<String> = Vec::new();
        let mut camels: Vec<String> = Vec::new();
        let n = ids.len();
        let mut e: usize = 0;
        while e < n
            invariant
                e <= n,
                n == ids@.len(),
                nv == table_view(self.cx.nodes@),
                forall|x: int| 0 <= x < n ==> defined(nv, #[trigger] ids@[x]),
                snakes@.len() == e,
                camels@.len() == e,
                forall|x: int|
                    0 <= x < e ==> (#[trigger] snakes@[x])@ == snake_of(name_of(nv, ids@[x]))
                        && camels@[x]@ == upper_camel_of(name_of(nv, ids@[x])),
            decreases n - e,
        {
            let d = ids[e];
            match &self.cx.nodes[d.0] {
                Some(node) => {
                    proof {
                        assert(nv[d.0 as int] == Some(node@));
                    }
                    snakes.push(to_snake_str(node.name.sym.0.as_str()));
                    camels.push(to_upper_camel_str(node.name.sym.0.as_str()));
                },
                None => {
                    proof {
                        assert(nv[d.0 as int] == table_view(self.cx.nodes@)[d.0 as int]);
                        assert(false);
                    }
                },
            }
            e += 1;
        }
        (snakes, camels)
    }

    /// The field contracts of one node: name, declared type descriptor and
    /// construction rule, read from the node's annotation sets.
    fn field_contracts(&self, node: &Node) -> (r: Vec<FieldContract>)
        ensures
            r@.len() == node.fields@.len(),
            forall|k: int|
                0 <= k < r@.len() ==> {
                    let fv = node@.fields[k];
                    &&& (#[trigger] r@[k]).name@ == snake_of(fv.name)
                    &&& r@[k].ty@ == fv.ty
                    &&& field_init_ok(
                        self.cx.tags@.map_values(|t: Tags| t@),
                        fv.tag_id,
                        r@[k].init,
                    )
                },
    {
        let ghost tagsv = self.cx.tags@.map_values(|t: Tags| t@);
        let mut out: Vec<FieldContract> = Vec::new();
        let n = node.fields.len();
        let mut k: usize = 0;
        while k < n
            invariant
                k <= n,
                n == node.fields@.len(),
                tagsv == self.cx.tags@.map_values(|t: Tags| t@),
                out@.len() == k,
                forall|x: int|
                    0 <= x < k ==> {
                        let fv = node@.fields[x];
                        &&& (#[trigger] out@[x]).name@ == snake_of(fv.name)
                        &&& out@[x].ty@ == fv.ty
                        &&& field_init_ok(tagsv, fv.tag_id, out@[x].init)
                    },
            decreases n - k,
        {
            let f = &node.fields[k];
            let name = to_snake_str(f.name.sym.0.as_str());
            let cgty = f.ty.to_codegen_ty();
            let init = match self.cx.tag(f.tag_id) {
                Some(tg) => {
                    proof {
                        assert(tg@ == tagsv[f.tag_id.0 as int]);
                    }
                    match tg.get::<Construct>() {
                        Some(c) => {
                            let editable = match tg.get::<Editable>() {
                                Some(e) => e.0,
                                None => false,
                            };
                            if editable {
                                FieldInit::SharedConstructed(c.0)
                            } else {
                                FieldInit::Constructed(c.0)
                            }
                        },
                        None => FieldInit::Defaulted,
                    }
                },
                None => FieldInit::Defaulted,
            };
            proof {
                assert(node@.fields[k as int] == node.fields@[k as int]@);
            }
            out.push(FieldContract { name, ty: cgty, init });
            k += 1;
        }
        out
    }

    /// Emit the contract of one graph: resolve the graph, synthesize its
    /// execution plan, derive each scheduled node's access path along the
    /// discovery tree, and render every name. Succeeds exactly when the
    /// graph is declared and well formed.
    pub fn emit_graph(&self, graph_id: DefId) -> (r: Result<GraphContract, PlanError>)
        ensures
            ({
                let nv = table_view(self.cx.nodes@);
                let tagsv = self.cx.tags@.map_values(|t: Tags| t@);
                &&& ((r is Ok) <==> graph_plannable(&self.cx, graph_id))
                &&& match r {
                    Ok(gc) => {
                        &&& gc.graph_id == graph_id
                        &&& gc.graph_camel@ == upper_camel_of(
                            self.cx.graphs@[graph_id.0 as int].unwrap()@.name,
                        )
                        &&& graph_contract_ok(
                            nv,
                            tagsv,
                            self.cx.graphs@[graph_id.0 as int].unwrap().entry_node,
                            &gc,
                        )
                    },
                    Err(_) => true,
                }
            }),
    {
        let ghost nv = table_view(self.cx.nodes@);
        let ghost tagsv = self.cx.tags@.map_values(|t: Tags| t@);
        let graph = match self.cx.graph(graph_id) {
            Some(g) => g,
            None => {
                return Err(PlanError::UnknownNode(graph_id));
            },
        };
        let entry = graph.entry_node;
        let plan = match plan_graph(&self.cx.nodes, entry) {
            Ok(p) => p,
            Err(e) => {
                return Err(e);
            },
        };
        let ghost order = dfs_order(nv, entry);
        proof {
            crate::planner::schedule::lemma_order_props(nv, entry);
        }
        let adj = match build_adjacency(&self.cx.nodes, entry) {
            Ok(a) => a,
            Err(e) => {
                proof {
                    assert(false);
                }
                return Err(e);
            },
        };
        let n = self.cx.nodes.len();
        // access paths along the discovery tree: the entry hangs off the
        // graph value, every other node off its discovery parent
        let mut paths: Vec<Option<Vec<String>>> = Vec::new();
        let mut i0: usize = 0;
        while i0 < n
            invariant
                i0 <= n,
                paths@.len() == i0,
                forall|x: int| 0 <= x < i0 ==> paths@[x] is None,
            decreases n - i0,
        {
            paths.push(None);
            i0 += 1;
        }
        let olen = adj.order.len();
        let mut k: usize = 0;
        while k < olen
            invariant
                k <= olen,
                n == self.cx.nodes@.len(),
                nv == table_view(self.cx.nodes@),
                nv.len() == n,
                adjacency_post(nv, entry, &adj),
                order == dfs_order(nv, entry),
                olen == adj.order@.len(),
                order.no_duplicates(),
                forall|x: int| 0 <= x < order.len() ==> defined(nv, #[trigger] order[x]),
                paths@.len() == n,
                forall|x: int|
                    0 <= x < k ==> (#[trigger] paths@[(order[x].0) as int]) is Some,
                forall|x: int|
                    0 <= x < k ==> (#[trigger] paths@[(order[x].0) as int]).unwrap()@.map_values(
                        |y: String| y@,
                    ) == nested_path(nv, entry, x),
                forall|x: int|
                    0 <= x < n && (#[trigger] paths@[x]) is Some ==> exists|x2: int|
                        0 <= x2 < k && (order[x2].0) as int == x,
            decreases olen - k,
        {
            let d = adj.order[k];
            proof {
                assert(order[k as int] == d);
                assert(defined(nv, d));
            }
            let node = match &self.cx.nodes[d.0] {
                Some(nd) => nd,
                None => {
                    proof {
                        assert(nv[d.0 as int] == table_view(self.cx.nodes@)[d.0 as int]);
                        assert(false);
                    }
                    return Err(PlanError::UnknownNode(d));
                },
            };
            proof {
                assert(nv[d.0 as int] == Some(node@));
            }
            let snake = to_snake_str(node.name.sym.0.as_str());
            let parent = adj.parent[d.0];
            let path: Vec<String> = match parent {
                None => {
                    let mut p: Vec<String> = Vec::new();
                    p.push("self".to_owned());
                    p.push(snake);
                    proof {
                        assert(adj.parent@[(order[k as int]).0 as int] == dfs_pairs(
                            nv,
                            entry,
                        )[k as int].1);
                        assert(p@.map_values(|y: String| y@) =~= nested_path(
                            nv,
                            entry,
                            k as int,
                        ));
                    }
                    p
                },
                Some(q) => {
                    let ghost k2 = choose|k2: int|
                        0 <= k2 < k && dfs_order(nv, entry)[k2] == q;
                    proof {
                        assert(adj.parent@[(order[k as int]).0 as int] == dfs_pairs(
                            nv,
                            entry,
                        )[k as int].1);
                        lemma_parent_before(nv, entry, k as int);
                        assert(0 <= k2 < k && dfs_order(nv, entry)[k2] == q);
                        assert(paths@[(order[k2].0) as int] is Some);
                        assert(defined(nv, q));
                    }
                    match &paths[q.0] {
                        Some(pp) => {
                            let mut p = copy_strings(pp);
                            p.push(snake);
                            proof {
                                assert(order.contains(q)) by {
                                    assert(order[k2] == q);
                                }
                                let io = order.index_of(q);
                                assert(0 <= io < order.len() && order[io] == q);
                                assert(io == k2);
                                assert(pp@.map_values(|y: String| y@) == nested_path(
                                    nv,
                                    entry,
                                    k2,
                                ));
                                assert(p@.map_values(|y: String| y@) =~= pp@.map_values(
                                    |y: String| y@,
                                ).push(snake@));
                                assert(p@.map_values(|y: String| y@) == nested_path(
                                    nv,
                                    entry,
                                    k as int,
                                ));
                            }
                            p
                        },
                        None => {
                            proof {
                                assert(false);
                            }
                            return Err(PlanError::UnknownNode(d));
                        },
                    }
                },
            };
            let ghost pre_paths = paths@;
            paths[d.0] = Some(path);
            k += 1;
            proof {
                assert forall|x: int| 0 <= x < k implies (#[trigger] paths@[(order[x].0) as int])
                    is Some by {
                    if x < k - 1 {
                        assert((order[x].0) as int != d.0 as int || order[x] == d);
                        if order[x] == d {
                        } else {
                            assert(pre_paths[(order[x].0) as int] is Some);
                        }
                    }
                }
                assert forall|x: int| 0 <= x < k implies (
                #[trigger] paths@[(order[x].0) as int]).unwrap()@.map_values(|y: String| y@)
                    == nested_path(nv, entry, x) by {
                    if x < k - 1 {
                        if order[x] == d {
                            assert(false);
                        } else {
                            assert(paths@[(order[x].0) as int] == pre_paths[(order[x].0) as int]);
                        }
                    } else {
                        assert(order[x] == d);
                        assert(paths@[(d.0) as int] == Some(path));
                    }
                }
                assert forall|x: int|
                    0 <= x < n && (#[trigger] paths@[x]) is Some implies exists|x2: int|
                        0 <= x2 < k && (order[x2].0) as int == x by {
                    if x == d.0 as int {
                        assert((order[k - 1].0) as int == x);
                    } else {
                        assert(pre_paths[x] is Some);
                        let x2 = choose|x2: int| 0 <= x2 < k - 1 && (order[x2].0) as int == x;
                    }
                }
            }
        }
        // one contract per scheduled node
        let slen = plan.steps.len();
        let mut nodes_out: Vec<NodeContract> = Vec::new();
        let mut i: usize = 0;
        while i < slen
            invariant
                i <= slen,
                n == self.cx.nodes@.len(),
                nv == table_view(self.cx.nodes@),
                nv.len() == n,
                tagsv == self.cx.tags@.map_values(|t: Tags| t@),
                order == dfs_order(nv, entry),
                order.no_duplicates(),
                forall|x: int| 0 <= x < order.len() ==> defined(nv, #[trigger] order[x]),
                forall|x: int, c: DefId|
                    0 <= x < order.len() && #[trigger] succs_of(nv, order[x]).contains(c)
                        ==> defined(nv, c),
                plan_ok(nv, entry, &plan),
                slen == plan.steps@.len(),
                paths@.len() == n,
                forall|x: int|
                    0 <= x < order.len() ==> (#[trigger] paths@[(order[x].0) as int]) is Some,
                forall|x: int|
                    0 <= x < order.len() ==> (
                    #[trigger] paths@[(order[x].0) as int]).unwrap()@.map_values(|y: String| y@)
                        == nested_path(nv, entry, x),
                nodes_out@.len() == i,
                forall|x: int|
                    0 <= x < i ==> (#[trigger] nodes_out@[x]).def_id == plan.steps@[x].def_id,
                forall|x: int|
                    0 <= x < i ==> node_contract_ok(nv, tagsv, entry, #[trigger] nodes_out@[x]),
            decreases slen - i,
        {
            let st = &plan.steps[i];
            let d = st.def_id;
            proof {
                assert(plan.steps@[i as int].def_id == sched_of(&plan)[i as int]);
                assert(sched_of(&plan).contains(sched_of(&plan)[i as int]));
                assert(order.contains(d));
                let kd = choose|kd: int| 0 <= kd < order.len() && order[kd] == d;
                assert(defined(nv, d));
                assert(paths@[(order[kd].0) as int] is Some);
                assert forall|e: int| 0 <= e < st.predecessors@.len() implies defined(
                    nv,
                    #[trigger] st.predecessors@[e],
                ) by {
                    assert(st.predecessors@ == froms_of(nv, order, d));
                    lemma_froms_elems(nv, order, order.len() as int, d, e);
                    let kq = choose|kq: int|
                        0 <= kq < order.len() && order[kq] == st.predecessors@[e];
                }
                assert forall|e: int| 0 <= e < st.successors@.len() implies defined(
                    nv,
                    #[trigger] st.successors@[e],
                ) by {
                    assert(st.successors@ == succs_of(nv, d));
                    let kd2 = choose|kd2: int| 0 <= kd2 < order.len() && order[kd2] == d;
                    assert(succs_of(nv, order[kd2]).contains(st.successors@[e]));
                }
            }
            let node = match &self.cx.nodes[d.0] {
                Some(nd) => nd,
                None => {
                    proof {
                        assert(nv[d.0 as int] == table_view(self.cx.nodes@)[d.0 as int]);
                        assert(false);
                    }
                    return Err(PlanError::UnknownNode(d));
                },
            };
            proof {
                assert(nv[d.0 as int] == Some(node@));
            }
            let snake_name = to_snake_str(node.name.sym.0.as_str());
            let camel_name = to_upper_camel_str(node.name.sym.0.as_str());
            let predecessors = copy_ids(&st.predecessors);
            let (pred_snake_names, pred_camel_names) = self.node_names(&st.predecessors);
            let successors = copy_ids(&st.successors);
            let (succ_snake_names, succ_camel_names) = self.node_names(&st.successors);
            let role = st.role;
            let access_path = match &paths[d.0] {
                Some(p) => copy_strings(p),
                None => {
                    proof {
                        let kd = choose|kd: int| 0 <= kd < order.len() && order[kd] == d;
                        assert(paths@[(order[kd].0) as int] is Some);
                        assert(false);
                    }
                    return Err(PlanError::UnknownNode(d));
                },
            };
            let fields = self.field_contracts(node);
            let nc = NodeContract {
                def_id: d,
                snake_name,
                camel_name,
                predecessors,
                pred_snake_names,
                pred_camel_names,
                successors,
                succ_snake_names,
                succ_camel_names,
                role,
                access_path,
                fields,
            };
            proof {
                let kd = choose|kd: int| 0 <= kd < order.len() && order[kd] == d;
                assert(node_contract_ok(nv, tagsv, entry, nc)) by {
                    assert(nc.access_path@ == paths@[(order[kd].0) as int].unwrap()@);
                    let io = order.index_of(d);
                    assert(0 <= io < order.len() && order[io] == d);
                    assert(io == kd);
                    assert(nc.access_path@.map_values(|y: String| y@) == nested_path(
                        nv,
                        entry,
                        kd,
                    ));
                    assert(nc.fields@.len() == node@.fields.len());
                    assert(nv[d.0 as int].unwrap() == node@);
                }
            }
            nodes_out.push(nc);
            i += 1;
        }
        let layers = copy_layers(&plan.layers);
        let entry_node = match &self.cx.nodes[entry.0] {
            Some(nd) => nd,
            None => {
                proof {
                    assert(nv[entry.0 as int] == table_view(self.cx.nodes@)[entry.0 as int]);
                    assert(false);
                }
                return Err(PlanError::UnknownNode(entry));
            },
        };
        proof {
            assert(nv[entry.0 as int] == Some(entry_node@));
        }
        let gc = GraphContract {
            graph_id,
            graph_camel: to_upper_camel_str(graph.name.sym.0.as_str()),
            entry_id: entry,
            entry_snake: to_snake_str(entry_node.name.sym.0.as_str()),
            entry_camel: to_upper_camel_str(entry_node.name.sym.0.as_str()),
            nodes: nodes_out,
            layers,
            exit: plan.exit,
        };
        proof {
            assert(contract_sched(&gc) =~= sched_of(&plan));
            assert(flatten_ids(gc.layers@.map_values(|l: Vec<DefId>| l@)) == contract_sched(&gc))
                by {
                assert(gc.layers@.map_values(|l: Vec<DefId>| l@) =~= plan.layers@.map_values(
                    |l: Vec<DefId>| l@,
                ));
            }
            assert(graph_contract_ok(nv, tagsv, entry, &gc));
        }
        Ok(gc)
    }

    /// Emit the contracts of a whole document, one graph at a time in
    /// declaration order; the first malformed graph aborts emission.
    pub fn emit_document(&self, entrys: &Vec<DefId>) -> (r: Result<Vec<GraphContract>, PlanError>)
        ensures
            ({
                let nv = table_view(self.cx.nodes@);
                let tagsv = self.cx.tags@.map_values(|t: Tags| t@);
                &&& ((r is Ok) <==> forall|g: int|
                    0 <= g < entrys@.len() ==> graph_plannable(&self.cx, #[trigger] entrys@[g]))
                &&& match r {
                    Ok(v) => {
                        &&& v@.len() == entrys@.len()
                        &&& forall|g: int|
                            0 <= g < entrys@.len() ==> (#[trigger] v@[g]).graph_id == entrys@[g]
                                && graph_contract_ok(
                                nv,
                                tagsv,
                                self.cx.graphs@[entrys@[g].0 as int].unwrap().entry_node,
                                &v@[g],
                            )
                    },
                    Err(_) => true,
                }
            }),
    {
        let ghost nv = table_view(self.cx.nodes@);
        let ghost tagsv = self.cx.tags@.map_values(|t: Tags| t@);
        let mut out: Vec<GraphContract> = Vec::new();
        let n = entrys.len();
        let mut g: usize = 0;
        while g < n
            invariant
                g <= n,
                n == entrys@.len(),
                nv == table_view(self.cx.nodes@),
                tagsv == self.cx.tags@.map_values(|t: Tags| t@),
                out@.len() == g,
                forall|x: int|
                    0 <= x < g ==> graph_plannable(&self.cx, #[trigger] entrys@[x]),
                forall|x: int|
                    0 <= x < g ==> (#[trigger] out@[x]).graph_id == entrys@[x]
                        && graph_contract_ok(
                        nv,
                        tagsv,
                        self.cx.graphs@[entrys@[x].0 as int].unwrap().entry_node,
                        &out@[x],
                    ),
            decreases n - g,
        {
            match self.emit_graph(entrys[g]) {
                Ok(gc) => {
                    out.push(gc);
                },
                Err(e) => {
                    return Err(e);
                },
            }
            g += 1;
        }
        Ok(out)
    }
}

} // verus!

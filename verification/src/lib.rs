//! Build-time compiler for a small DSL describing directed acyclic task
//! graphs. A document declares named nodes, the edges between them and typed
//! payload fields; the library resolves names into an intermediate
//! representation with dense interned ids, assembles the dependency structure
//! reachable from each graph's entry node, and synthesizes a maximally
//! parallel execution plan with exactly one entry and one exit per graph.
//!
//! The planner proves the load-bearing guarantees: a plan exists exactly for
//! well-formed acyclic single-entry/single-exit graphs, every scheduled node
//! runs exactly once after all of its predecessors, and the predecessor
//! tuple handed to a node matches its declared incoming edges in order.
pub mod codegen;
pub mod context;
pub mod parser;
pub mod planner;
pub mod resolver;
pub mod symbol;
pub mod tags;

use vstd::prelude::*;
use crate::codegen::{graph_contract_ok, graph_plannable, Codegen, GraphContract};
use crate::context::Context;
use crate::parser::document::{empty_doc, spec_document, Document, DocumentPV};
use crate::parser::graph::GraphPV;
use crate::parser::node::NodePV;
use crate::parser::{opt_blank_at, spec_blank_end, ParseError};
use crate::planner::schedule::graph_wf;
use crate::planner::{table_view, PlanError};
use crate::resolver::rir::{GraphV, Node, NodeV};
use crate::resolver::{
    field_ty_of, has_sym, sym_view, syms_distinct, ResolveResult, Resolver,
};
use crate::symbol::DefId;
use crate::tags::Tags;

verus! {

/// Why a compilation failed: the text does not match the grammar, or a
/// graph's structure is malformed.
#[derive(Clone, Copy, PartialEq, Eq, Structural, Debug)]
pub enum CompileError {
    Parse(ParseError),
    Plan(PlanError),
}

/// A fully compiled document: the interned names, the declared graphs' ids
/// in declaration order, one emitted contract per graph, and the context
/// the contracts were derived over.
#[derive(Debug)]
pub struct CompiledDocument {
    pub symbols: Vec<String>,
    pub entrys: Vec<DefId>,
    pub contracts: Vec<GraphContract>,
    pub codegen: Codegen,
}

/// The document an input text declares.
pub open spec fn parsed_doc(input: Seq<char>) -> DocumentPV {
    spec_document(input, 0, empty_doc()).1
}

/// The input parses cleanly: only blank text follows its declarations.
pub open spec fn parse_clean(input: Seq<char>) -> bool {
    spec_blank_end(input, spec_document(input, 0, empty_doc()).0) == input.len()
}

/// A lowered node is faithful to a declaration's content: the same name,
/// one resolved edge per declared edge in declaration order (each id
/// naming the declared target), and one field per declared field in
/// order, each typed as declared and wrapped when annotated editable.
pub open spec fn lowered_node_matches(syms: Seq<Seq<char>>, nv: NodeV, n: NodePV) -> bool {
    &&& nv.name == n.name
    &&& nv.to_nodes.len() == n.to_nodes.len()
    &&& forall|k: int|
        0 <= k < nv.to_nodes.len() ==> (#[trigger] nv.to_nodes[k]).0 < syms.len()
            && syms[nv.to_nodes[k].0 as int] == n.to_nodes[k]
    &&& nv.fields.len() == n.fields.len()
    &&& forall|k: int|
        0 <= k < nv.fields.len() ==> (#[trigger] nv.fields[k]).name == n.fields[k].name
            && nv.fields[k].ty == field_ty_of(n.fields[k].ty, n.fields[k].annotations)
}

/// A lowered graph is faithful to a declaration's content: the same name,
/// and an entry id naming the declared entry node.
pub open spec fn lowered_graph_matches(syms: Seq<Seq<char>>, gv: GraphV, g: GraphPV) -> bool {
    &&& gv.name == g.name
    &&& gv.entry_node.0 < syms.len()
    &&& syms[gv.entry_node.0 as int] == g.entry_node
}

/// No later node declaration (before `upto`) reuses this one's name.
pub open spec fn last_node_decl(nodes: Seq<NodePV>, k: int, upto: int) -> bool {
    forall|k2: int| k < k2 < upto ==> (#[trigger] nodes[k2]).name != nodes[k].name
}

/// No later graph declaration (before `upto`) reuses this one's name.
pub open spec fn last_graph_decl(graphs: Seq<GraphPV>, k: int, upto: int) -> bool {
    forall|k2: int| k < k2 < upto ==> (#[trigger] graphs[k2]).name != graphs[k].name
}

/// Some definition id holds this declaration's faithfully lowered node.
pub open spec fn node_entry_matches(
    syms: Seq<Seq<char>>,
    rnv: Seq<Option<NodeV>>,
    n: NodePV,
) -> bool {
    exists|did: int|
        0 <= did < syms.len() && did < rnv.len() && #[trigger] syms[did] == n.name
            && rnv[did] is Some && lowered_node_matches(syms, rnv[did].unwrap(), n)
}

/// The node table of a resolution, as the planner reads it.
pub open spec fn result_nodes_view(rr: ResolveResult) -> Seq<Option<NodeV>> {
    rr.nodes@.map_values(
        |o: Option<Node>|
            match o {
                Some(n) => Some(n@),
                None => None::<NodeV>,
            },
    )
}

/// The tables are a resolution of the document: distinct names, every
/// table as long as the interning table, one graph id per declaration
/// mapping to its name, every declared node name interned, and — for the
/// last declaration of each name — a faithful lowered node or graph
/// behind its id.
pub open spec fn resolution_matches(doc: DocumentPV, rr: ResolveResult) -> bool {
    let syms = sym_view(rr.symbols@);
    &&& syms_distinct(syms)
    &&& rr.graphs@.len() == rr.symbols@.len()
    &&& rr.nodes@.len() == rr.symbols@.len()
    &&& rr.entrys@.len() == doc.graphs.len()
    &&& forall|g: int|
        0 <= g < doc.graphs.len() ==> (#[trigger] rr.entrys@[g]).0 < syms.len()
            && syms[rr.entrys@[g].0 as int] == doc.graphs[g].name
    &&& forall|k: int| 0 <= k < doc.nodes.len() ==> has_sym(syms, (#[trigger] doc.nodes[k]).name)
    &&& forall|k: int|
        0 <= k < doc.nodes.len() && last_node_decl(doc.nodes, k, doc.nodes.len() as int)
            ==> node_entry_matches(syms, result_nodes_view(rr), #[trigger] doc.nodes[k])
    &&& forall|g: int|
        0 <= g < doc.graphs.len() && last_graph_decl(doc.graphs, g, doc.graphs.len() as int)
            ==> (#[trigger] rr.entrys@[g]).0 < rr.graphs@.len()
            && rr.graphs@[rr.entrys@[g].0 as int] is Some && lowered_graph_matches(
            syms,
            rr.graphs@[rr.entrys@[g].0 as int].unwrap()@,
            doc.graphs[g],
        )
}

/// Every declared graph of a resolution can be planned: its id names a
/// declared graph whose dependency structure is well formed.
pub open spec fn all_graphs_plannable(rr: ResolveResult) -> bool {
    forall|g: int|
        0 <= g < rr.entrys@.len() ==> {
            let gid = #[trigger] rr.entrys@[g];
            &&& gid.0 < rr.graphs@.len()
            &&& rr.graphs@[gid.0 as int] is Some
            &&& graph_wf(result_nodes_view(rr), rr.graphs@[gid.0 as int].unwrap().entry_node)
        }
}

/// Compile a source text end to end: parse the document (text no
/// declaration can be read from is a fatal grammar error), resolve it into
/// the intermediate representation, and emit one faithful contract per
/// declared graph.
///
/// The failure conditions are exact: a parse error comes exactly when the
/// input does not parse cleanly; a planning error only when the input's
/// resolution holds a graph that is not well formed; and when every graph
/// of every resolution of the parsed document is plannable, compilation
/// succeeds. On success the result ties back to the parsed document: one
/// entry id and one faithful contract per declared graph, over tables that
/// are a resolution of that document.
pub fn compile_source(input: &str) -> (r: Result<CompiledDocument, CompileError>)
    ensures
        ((r matches Err(e) && e matches CompileError::Parse(_)) <==> !parse_clean(input@)),
        (parse_clean(input@) && (forall|rr: ResolveResult|
            resolution_matches(parsed_doc(input@), rr) ==> all_graphs_plannable(rr))) ==> r is Ok,
        match r {
            Ok(c) => {
                let nv = table_view(c.codegen.cx.nodes@);
                let tagsv = c.codegen.cx.tags@.map_values(|t: Tags| t@);
                &&& parse_clean(input@)
                &&& resolution_matches(
                    parsed_doc(input@),
                    ResolveResult {
                        graphs: c.codegen.cx.graphs,
                        nodes: c.codegen.cx.nodes,
                        fields: c.codegen.cx.fields,
                        tags: c.codegen.cx.tags,
                        entrys: c.entrys,
                        symbols: c.symbols,
                    },
                )
                &&& c.contracts@.len() == c.entrys@.len()
                &&& c.entrys@.len() == parsed_doc(input@).graphs.len()
                &&& forall|g: int|
                    0 <= g < c.entrys@.len() ==> graph_plannable(
                        &c.codegen.cx,
                        #[trigger] c.entrys@[g],
                    ) && c.contracts@[g].graph_id == c.entrys@[g] && graph_contract_ok(
                        nv,
                        tagsv,
                        c.codegen.cx.graphs@[c.entrys@[g].0 as int].unwrap().entry_node,
                        &c.contracts@[g],
                    )
            },
            Err(e) => match e {
                CompileError::Parse(_) => true,
                CompileError::Plan(_) => parse_clean(input@) && exists|rr: ResolveResult|
                    resolution_matches(parsed_doc(input@), rr) && !all_graphs_plannable(rr),
            },
        },
{
    let (j, document) = Document::parse_at(input, 0);
    // what follows the declarations must be blank: the first stretch of
    // text no declaration can be read from is fatal
    let j2 = opt_blank_at(input, j);
    if j2 < input.unicode_len() {
        return Err(CompileError::Parse(ParseError));
    }
    proof {
        assert(parse_clean(input@));
        assert(document@ == parsed_doc(input@));
    }
    let resolver = Resolver::default();
    let rr = resolver.resolve_document(&document);
    let ghost rr_snapshot = rr;
    proof {
        lemma_resolution_bridge(&document, rr_snapshot);
    }
    let mut cx = Context::new();
    cx.set_graphs(rr.graphs);
    cx.set_nodes(rr.nodes);
    cx.set_fields(rr.fields);
    cx.set_tags(rr.tags);
    let cg = Codegen::new(cx);
    match cg.emit_document(&rr.entrys) {
        Ok(contracts) => {
            let c = CompiledDocument {
                symbols: rr.symbols,
                entrys: rr.entrys,
                contracts,
                codegen: cg,
            };
            proof {
                assert(ResolveResult {
                    graphs: c.codegen.cx.graphs,
                    nodes: c.codegen.cx.nodes,
                    fields: c.codegen.cx.fields,
                    tags: c.codegen.cx.tags,
                    entrys: c.entrys,
                    symbols: c.symbols,
                } == rr_snapshot);
            }
            Ok(c)
        },
        Err(e) => {
            proof {
                assert(!all_graphs_plannable(rr_snapshot)) by {
                    if all_graphs_plannable(rr_snapshot) {
                        assert forall|g: int|
                            0 <= g < rr_snapshot.entrys@.len() implies graph_plannable(
                            &cg.cx,
                            #[trigger] rr_snapshot.entrys@[g],
                        ) by {
                            assert(rr_snapshot.entrys@[g].0 < rr_snapshot.graphs@.len());
                        }
                    }
                }
                assert(resolution_matches(parsed_doc(input@), rr_snapshot)
                    && !all_graphs_plannable(rr_snapshot));
            }
            Err(CompileError::Plan(e))
        },
    }
}

/// The tables `resolve_document` hands back are a resolution of the
/// document it was given, stated over the document's content.
proof fn lemma_resolution_bridge(document: &Document, rr: ResolveResult)
    requires
        crate::resolver::resolved_ok(&rr),
        rr.entrys@.len() == document.graphs@.len(),
        forall|g: int|
            0 <= g < document.graphs@.len() ==> (#[trigger] rr.entrys@[g]).0 < sym_view(
                rr.symbols@,
            ).len() && sym_view(rr.symbols@)[rr.entrys@[g].0 as int]
                == document.graphs@[g].name@,
        forall|k: int|
            0 <= k < document.nodes@.len() ==> has_sym(
                sym_view(rr.symbols@),
                document.nodes@[k].name@,
            ),
        forall|k: int|
            0 <= k < document.nodes@.len() && crate::resolver::last_named_node_before(
                document.nodes@,
                k,
                document.nodes@.len() as int,
            ) ==> crate::resolver::node_entry_ok(
                sym_view(rr.symbols@),
                rr.nodes@.map_values(
                    |o: Option<Node>|
                        match o {
                            Some(n) => Some(n@),
                            None => None::<NodeV>,
                        },
                ),
                #[trigger] document.nodes@[k],
            ),
        forall|g: int|
            0 <= g < document.graphs@.len() && crate::resolver::last_named_graph_before(
                document.graphs@,
                g,
                document.graphs@.len() as int,
            ) ==> (#[trigger] rr.entrys@[g]).0 < rr.graphs@.len()
                && rr.graphs@[rr.entrys@[g].0 as int] is Some
                && crate::resolver::lowered_graph_ok(
                sym_view(rr.symbols@),
                rr.graphs@[rr.entrys@[g].0 as int].unwrap()@,
                document.graphs@[g],
            ),
    ensures
        resolution_matches(document@, rr),
{
    let doc = document@;
    let syms = sym_view(rr.symbols@);
    let rnv = rr.nodes@.map_values(
        |o: Option<Node>|
            match o {
                Some(n) => Some(n@),
                None => None::<NodeV>,
            },
    );
    assert(result_nodes_view(rr) =~= rnv) by {
        assert forall|x: int| 0 <= x < rr.nodes@.len() implies result_nodes_view(rr)[x]
            == rnv[x] by {}
    }
    assert(doc.graphs.len() == document.graphs@.len());
    assert(doc.nodes.len() == document.nodes@.len());
    assert forall|g: int| 0 <= g < doc.graphs.len() implies (#[trigger] rr.entrys@[g]).0
        < syms.len() && syms[rr.entrys@[g].0 as int] == doc.graphs[g].name by {
        assert(doc.graphs[g] == document.graphs@[g]@);
    }
    assert forall|k: int| 0 <= k < doc.nodes.len() implies has_sym(
        syms,
        (#[trigger] doc.nodes[k]).name,
    ) by {
        assert(doc.nodes[k] == document.nodes@[k]@);
    }
    assert forall|k: int|
        0 <= k < doc.nodes.len() && last_node_decl(doc.nodes, k, doc.nodes.len() as int) implies
        node_entry_matches(syms, result_nodes_view(rr), #[trigger] doc.nodes[k]) by {
        assert(doc.nodes[k] == document.nodes@[k]@);
        assert(crate::resolver::last_named_node_before(
            document.nodes@,
            k,
            document.nodes@.len() as int,
        )) by {
            assert forall|k2: int| k < k2 < document.nodes@.len() implies (
            #[trigger] document.nodes@[k2]).name@ != document.nodes@[k].name@ by {
                assert(doc.nodes[k2] == document.nodes@[k2]@);
                assert(doc.nodes[k2].name != doc.nodes[k].name);
            }
        }
        let did = choose|did: int|
            0 <= did < syms.len() && did < rnv.len() && syms[did] == document.nodes@[k].name@
                && rnv[did] is Some && crate::resolver::lowered_node_ok(
                syms,
                rnv[did].unwrap(),
                document.nodes@[k],
            );
        assert(result_nodes_view(rr)[did] == rnv[did]);
        assert(lowered_node_matches(syms, result_nodes_view(rr)[did].unwrap(), doc.nodes[k]))
            by {
            let nv = result_nodes_view(rr)[did].unwrap();
            let n = document.nodes@[k];
            assert forall|x: int| 0 <= x < nv.to_nodes.len() implies (
            #[trigger] nv.to_nodes[x]).0 < syms.len() && syms[nv.to_nodes[x].0 as int]
                == doc.nodes[k].to_nodes[x] by {
                assert(syms[nv.to_nodes[x].0 as int] == n.to_nodes@[x]@);
                assert(doc.nodes[k].to_nodes[x] == n@.to_nodes[x]);
            }
            assert forall|x: int| 0 <= x < nv.fields.len() implies (
            #[trigger] nv.fields[x]).name == doc.nodes[k].fields[x].name && nv.fields[x].ty
                == field_ty_of(
                doc.nodes[k].fields[x].ty,
                doc.nodes[k].fields[x].annotations,
            ) by {
                assert(nv.fields[x].name == n.fields@[x].name@);
                assert(doc.nodes[k].fields[x] == n@.fields[x]);
                assert(n@.fields[x] == n.fields@[x]@);
            }
        }
        assert(doc.nodes[k].name == document.nodes@[k].name@);
        assert(0 <= did < syms.len() && did < result_nodes_view(rr).len() && syms[did]
            == doc.nodes[k].name && result_nodes_view(rr)[did] is Some && lowered_node_matches(
            syms,
            result_nodes_view(rr)[did].unwrap(),
            doc.nodes[k],
        ));
        assert(node_entry_matches(syms, result_nodes_view(rr), doc.nodes[k]));
    }
    assert forall|g: int|
        0 <= g < doc.graphs.len() && last_graph_decl(doc.graphs, g, doc.graphs.len() as int)
        implies (#[trigger] rr.entrys@[g]).0 < rr.graphs@.len() && rr.graphs@[rr.entrys@[g].0
        as int] is Some && lowered_graph_matches(
        syms,
        rr.graphs@[rr.entrys@[g].0 as int].unwrap()@,
        doc.graphs[g],
    ) by {
        assert(doc.graphs[g] == document.graphs@[g]@);
        assert(crate::resolver::last_named_graph_before(
            document.graphs@,
            g,
            document.graphs@.len() as int,
        )) by {
            assert forall|g2: int| g < g2 < document.graphs@.len() implies (
            #[trigger] document.graphs@[g2]).name@ != document.graphs@[g].name@ by {
                assert(doc.graphs[g2] == document.graphs@[g2]@);
                assert(doc.graphs[g2].name != doc.graphs[g].name);
            }
        }
        let gv = rr.graphs@[rr.entrys@[g].0 as int].unwrap()@;
        assert(crate::resolver::lowered_graph_ok(syms, gv, document.graphs@[g]));
        assert(doc.graphs[g].name == document.graphs@[g].name@);
        assert(doc.graphs[g].entry_node == document.graphs@[g].entry_node@);
        assert(lowered_graph_matches(syms, gv, doc.graphs[g]));
    }
}

} // verus!

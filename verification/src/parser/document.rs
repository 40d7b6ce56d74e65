//! A whole document: any interleaving of node and graph declarations.
use vstd::prelude::*;
use super::graph::{lemma_spec_graph, spec_graph, Graph, GraphPV};
use super::node::{lemma_spec_node, spec_node, Node, NodePV};
use super::{lemma_spec_blank_end, opt_blank_at, spec_blank_end, ParseError, rest_of};

verus! {

/// All declarations of one compilation unit, in source order within each
/// kind.
#[derive(Debug)]
pub struct Document {
    pub graphs: Vec<Graph>,
    pub nodes: Vec<Node>,
}

/// The mathematical content of a document.
pub struct DocumentPV {
    pub graphs: Seq<GraphPV>,
    pub nodes: Seq<NodePV>,
}

impl View for Document {
    type V = DocumentPV;

    open spec fn view(&self) -> DocumentPV {
        DocumentPV {
            graphs: self.graphs@.map_values(|g: Graph| g@),
            nodes: self.nodes@.map_values(|n: Node| n@),
        }
    }
}

/// The declarations readable from `i` on: after optional blank, a node or
/// a graph declaration joins its sequence (nodes tried first) and reading
/// continues after it and its trailing blank; reading stops, without
/// consuming the blank, where neither stands.
pub open spec fn spec_document(s: Seq<char>, i: int, acc: DocumentPV) -> (int, DocumentPV)
    decreases s.len() - i,
    when 0 <= i <= s.len()
    via spec_document_decreases
{
    let a = spec_blank_end(s, i);
    match spec_node(s, a) {
        Some((b, n)) => spec_document(
            s,
            spec_blank_end(s, b),
            DocumentPV { graphs: acc.graphs, nodes: acc.nodes.push(n) },
        ),
        None => match spec_graph(s, a) {
            Some((b, g)) => spec_document(
                s,
                spec_blank_end(s, b),
                DocumentPV { graphs: acc.graphs.push(g), nodes: acc.nodes },
            ),
            None => (i, acc),
        },
    }
}

#[via_fn]
proof fn spec_document_decreases(s: Seq<char>, i: int, acc: DocumentPV) {
    lemma_spec_blank_end(s, i);
    let a = spec_blank_end(s, i);
    lemma_spec_node(s, a);
    lemma_spec_graph(s, a);
    match spec_node(s, a) {
        Some((b, n)) => {
            lemma_spec_blank_end(s, b);
        },
        None => {
            match spec_graph(s, a) {
                Some((b, g)) => {
                    lemma_spec_blank_end(s, b);
                },
                None => {},
            }
        },
    }
}

/// Reading a document only moves the position forward.
pub proof fn lemma_spec_document(s: Seq<char>, i: int, acc: DocumentPV)
    requires
        0 <= i <= s.len(),
    ensures
        ({
            let (j, doc) = spec_document(s, i, acc);
            i <= j <= s.len()
        }),
    decreases s.len() - i,
{
    lemma_spec_blank_end(s, i);
    let a = spec_blank_end(s, i);
    lemma_spec_node(s, a);
    lemma_spec_graph(s, a);
    match spec_node(s, a) {
        Some((b, n)) => {
            lemma_spec_blank_end(s, b);
            lemma_spec_document(
                s,
                spec_blank_end(s, b),
                DocumentPV { graphs: acc.graphs, nodes: acc.nodes.push(n) },
            );
        },
        None => {
            match spec_graph(s, a) {
                Some((b, g)) => {
                    lemma_spec_blank_end(s, b);
                    lemma_spec_document(
                        s,
                        spec_blank_end(s, b),
                        DocumentPV { graphs: acc.graphs.push(g), nodes: acc.nodes },
                    );
                },
                None => {},
            }
        },
    }
}

/// The empty document to start reading from.
pub open spec fn empty_doc() -> DocumentPV {
    DocumentPV { graphs: Seq::empty(), nodes: Seq::empty() }
}

impl Document {
    /// Consume declarations from `i` for as long as one matches; what
    /// follows the last match is left unconsumed.
    pub fn parse_at(s: &str, i: usize) -> (r: (usize, Document))
        requires
            i <= s@.len(),
        ensures
            i <= r.0 <= s@.len(),
            spec_document(s@, i as int, empty_doc()) == (r.0 as int, r.1@),
    {
        proof {
            lemma_spec_document(s@, i as int, empty_doc());
        }
        let mut graphs: Vec<Graph> = Vec::new();
        let mut nodes: Vec<Node> = Vec::new();
        let mut cur: usize = i;
        proof {
            assert((Document { graphs, nodes })@.graphs =~= empty_doc().graphs);
            assert((Document { graphs, nodes })@.nodes =~= empty_doc().nodes);
            assert(graphs@.map_values(|g: Graph| g@) =~= empty_doc().graphs);
            assert(nodes@.map_values(|n: Node| n@) =~= empty_doc().nodes);
        }
        loop
            invariant
                i <= cur <= s@.len(),
                spec_document(s@, i as int, empty_doc()) == spec_document(
                    s@,
                    cur as int,
                    DocumentPV {
                        graphs: graphs@.map_values(|g: Graph| g@),
                        nodes: nodes@.map_values(|n: Node| n@),
                    },
                ),
            decreases s@.len() - cur,
        {
            let a = opt_blank_at(s, cur);
            match Node::parse_at(s, a) {
                Some((b, node)) => {
                    proof {
                        assert(nodes@.push(node).map_values(|n: Node| n@) =~= nodes@.map_values(
                            |n: Node| n@,
                        ).push(node@));
                    }
                    nodes.push(node);
                    cur = opt_blank_at(s, b);
                },
                None => {
                    match Graph::parse_at(s, a) {
                        Some((b, graph)) => {
                            proof {
                                assert(graphs@.push(graph).map_values(|g: Graph| g@)
                                    =~= graphs@.map_values(|g: Graph| g@).push(graph@));
                            }
                            graphs.push(graph);
                            cur = opt_blank_at(s, b);
                        },
                        None => {
                            proof {
                                assert(spec_document(
                                    s@,
                                    cur as int,
                                    DocumentPV {
                                        graphs: graphs@.map_values(|g: Graph| g@),
                                        nodes: nodes@.map_values(|n: Node| n@),
                                    },
                                ) == (
                                    cur as int,
                                    DocumentPV {
                                        graphs: graphs@.map_values(|g: Graph| g@),
                                        nodes: nodes@.map_values(|n: Node| n@),
                                    },
                                ));
                            }
                            return (cur, Document { graphs, nodes });
                        },
                    }
                },
            }
        }
    }

    /// Parse a document from the front of `input`, returning the remaining
    /// input beside it. A remainder other than blank means the input held
    /// text no declaration could be read from.
    pub fn parse(input: &str) -> (r: Result<(&str, Document), ParseError>)
        ensures
            r is Ok,
            match r {
                Ok((rem, doc)) => spec_document(input@, 0, empty_doc()) == (
                    input@.len() - rem@.len(),
                    doc@,
                ) && rem@ == input@.subrange(
                    input@.len() - rem@.len(),
                    input@.len() as int,
                ),
                Err(_) => false,
            },
    {
        let (j, doc) = Document::parse_at(input, 0);
        Ok((rest_of(input, j), doc))
    }
}

} // verus!

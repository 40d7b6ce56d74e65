//! Graph declarations: `graph Name(EntryNode)`.
use vstd::prelude::*;
use super::ident::{lemma_spec_ident, spec_ident, Ident};
use super::{blank_at, lemma_spec_blank_end, spec_blank_end, spec_tag, tag_at, ParseError,
    rest_of};

verus! {

/// A graph declaration: a name and the node a run begins at.
#[derive(Debug)]
pub struct Graph {
    pub name: Ident,
    pub entry_node: Ident,
}

/// The mathematical content of a graph declaration.
pub struct GraphPV {
    pub name: Seq<char>,
    pub entry_node: Seq<char>,
}

impl View for Graph {
    type V = GraphPV;

    open spec fn view(&self) -> GraphPV {
        GraphPV { name: self.name@, entry_node: self.entry_node@ }
    }
}

/// The graph declaration starting at `i`, if one stands there: the
/// keyword, required blank, the graph's name, and the entry node's name in
/// parentheses.
pub open spec fn spec_graph(s: Seq<char>, i: int) -> Option<(int, GraphPV)> {
    if spec_tag(s, i, "graph"@) {
        let a = i + 5;
        let b = spec_blank_end(s, a);
        if b == a {
            None
        } else {
            match spec_ident(s, b) {
                Some((c, name)) => {
                    if spec_tag(s, c, "("@) {
                        match spec_ident(s, c + 1) {
                            Some((e, entry)) => {
                                if spec_tag(s, e, ")"@) {
                                    Some((e + 1, GraphPV { name, entry_node: entry }))
                                } else {
                                    None
                                }
                            },
                            None => None,
                        }
                    } else {
                        None
                    }
                },
                None => None,
            }
        }
    } else {
        None
    }
}

/// A graph declaration consumes at least its keyword and stays in the
/// text.
pub proof fn lemma_spec_graph(s: Seq<char>, i: int)
    requires
        0 <= i <= s.len(),
    ensures
        match spec_graph(s, i) {
            Some((j, _)) => i < j <= s.len(),
            None => true,
        },
{
    reveal_strlit("graph");
    reveal_strlit("(");
    reveal_strlit(")");
    if spec_tag(s, i, "graph"@) {
        let a = i + 5;
        lemma_spec_blank_end(s, a);
        let b = spec_blank_end(s, a);
        lemma_spec_ident(s, b);
        match spec_ident(s, b) {
            Some((c, name)) => {
                if spec_tag(s, c, "("@) {
                    lemma_spec_ident(s, c + 1);
                }
            },
            None => {},
        }
    }
}

impl Graph {
    /// Consume one graph declaration starting at `i`.
    pub fn parse_at(s: &str, i: usize) -> (r: Option<(usize, Graph)>)
        requires
            i <= s@.len(),
        ensures
            match r {
                Some((j, g)) => {
                    &&& i < j <= s@.len()
                    &&& spec_graph(s@, i as int) == Some((j as int, g@))
                },
                None => spec_graph(s@, i as int) is None,
            },
    {
        proof {
            reveal_strlit("graph");
            reveal_strlit("(");
            reveal_strlit(")");
            lemma_spec_graph(s@, i as int);
        }
        match tag_at(s, i, "graph") {
            None => None,
            Some(a) => {
                match blank_at(s, a) {
                    None => None,
                    Some(b) => {
                        match Ident::parse_at(s, b) {
                            None => None,
                            Some((c, name)) => {
                                match tag_at(s, c, "(") {
                                    None => None,
                                    Some(d) => {
                                        match Ident::parse_at(s, d) {
                                            None => None,
                                            Some((e, entry_node)) => {
                                                match tag_at(s, e, ")") {
                                                    None => None,
                                                    Some(j) => Some(
                                                        (j, Graph { name, entry_node }),
                                                    ),
                                                }
                                            },
                                        }
                                    },
                                }
                            },
                        }
                    },
                }
            },
        }
    }

    /// Parse one graph declaration from the front of `input`, returning
    /// the remaining input beside it.
    pub fn parse(input: &str) -> (r: Result<(&str, Graph), ParseError>)
        ensures
            match r {
                Ok((rem, g)) => spec_graph(input@, 0) matches Some((j, gv)) && g@ == gv && rem@
                    == input@.subrange(j, input@.len() as int),
                Err(_) => spec_graph(input@, 0) is None,
            },
    {
        match Graph::parse_at(input, 0) {
            Some((j, g)) => Ok((rest_of(input, j), g)),
            None => Err(ParseError),
        }
    }
}

} // verus!

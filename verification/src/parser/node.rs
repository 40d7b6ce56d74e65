//! Node declarations: `node Name -> (Succ, ...) { fields }`.
use vstd::prelude::*;
use super::field::{lemma_spec_field, spec_field, Field, FieldPV};
use super::ident::{lemma_spec_ident, spec_ident, Ident};
use super::{
    blank_at, lemma_spec_blank_end, opt_blank_at, opt_sep_at, spec_blank_end, spec_opt_sep,
    spec_tag, tag_at, ParseError, rest_of,
};

verus! {

/// A node declaration: a name, its outgoing edges in declaration order,
/// and its typed payload fields.
#[derive(Debug)]
pub struct Node {
    pub name: Ident,
    pub to_nodes: Vec<Ident>,
    pub fields: Vec<Field>,
}

/// The mathematical content of a node declaration.
pub struct NodePV {
    pub name: Seq<char>,
    pub to_nodes: Seq<Seq<char>>,
    pub fields: Seq<FieldPV>,
}

impl View for Node {
    type V = NodePV;

    open spec fn view(&self) -> NodePV {
        NodePV {
            name: self.name@,
            to_nodes: self.to_nodes@.map_values(|x: Ident| x@),
            fields: self.fields@.map_values(|f: Field| f@),
        }
    }
}

/// The successor names listed after `->`, from `i`: identifiers with
/// optional blank before and optional separator after each, for as long as
/// one stands there.
pub open spec fn spec_succ_list(s: Seq<char>, i: int, acc: Seq<Seq<char>>) -> (int, Seq<
    Seq<char>,
>)
    decreases s.len() - i,
    when 0 <= i <= s.len()
    via spec_succ_list_decreases
{
    let d = spec_blank_end(s, i);
    match spec_ident(s, d) {
        Some((e, text)) => spec_succ_list(s, spec_opt_sep(s, e), acc.push(text)),
        None => (i, acc),
    }
}

#[via_fn]
proof fn spec_succ_list_decreases(s: Seq<char>, i: int, acc: Seq<Seq<char>>) {
    lemma_spec_blank_end(s, i);
    lemma_spec_ident(s, spec_blank_end(s, i));
}

/// Listing successors only moves the position forward.
pub proof fn lemma_spec_succ_list(s: Seq<char>, i: int, acc: Seq<Seq<char>>)
    requires
        0 <= i <= s.len(),
    ensures
        ({
            let (j, items) = spec_succ_list(s, i, acc);
            &&& i <= j <= s.len()
            &&& items.len() >= acc.len()
        }),
    decreases s.len() - i,
{
    lemma_spec_blank_end(s, i);
    let d = spec_blank_end(s, i);
    lemma_spec_ident(s, d);
    match spec_ident(s, d) {
        Some((e, text)) => {
            lemma_spec_succ_list(s, spec_opt_sep(s, e), acc.push(text));
        },
        None => {},
    }
}

/// The successor clause at `i`: absent entirely without `->`; with it, an
/// optional opening parenthesis, the listed names, an optional closing
/// parenthesis and optional blank.
pub open spec fn spec_successors(s: Seq<char>, i: int) -> (int, Seq<Seq<char>>) {
    if spec_tag(s, i, "->"@) {
        let b = spec_blank_end(s, i + 2);
        let c = if spec_tag(s, b, "("@) {
            b + 1
        } else {
            b
        };
        let (j0, names) = spec_succ_list(s, c, Seq::empty());
        let f = if spec_tag(s, j0, ")"@) {
            j0 + 1
        } else {
            j0
        };
        (spec_blank_end(s, f), names)
    } else {
        (i, Seq::empty())
    }
}

/// The successor clause only moves the position forward.
pub proof fn lemma_spec_successors(s: Seq<char>, i: int)
    requires
        0 <= i <= s.len(),
    ensures
        ({
            let (j, names) = spec_successors(s, i);
            i <= j <= s.len()
        }),
{
    reveal_strlit("->");
    reveal_strlit("(");
    reveal_strlit(")");
    if spec_tag(s, i, "->"@) {
        lemma_spec_blank_end(s, i + 2);
        let b = spec_blank_end(s, i + 2);
        let c = if spec_tag(s, b, "("@) {
            b + 1
        } else {
            b
        };
        lemma_spec_succ_list(s, c, Seq::empty());
        let (j0, names) = spec_succ_list(s, c, Seq::empty());
        let f = if spec_tag(s, j0, ")"@) {
            j0 + 1
        } else {
            j0
        };
        lemma_spec_blank_end(s, f);
    }
}

/// The further fields of a node body from `i`: another field joins only
/// after a required blank separator; the separator is not consumed when no
/// field follows it.
pub open spec fn spec_field_list(s: Seq<char>, i: int, acc: Seq<FieldPV>) -> (int, Seq<FieldPV>)
    decreases s.len() - i,
    when 0 <= i <= s.len()
    via spec_field_list_decreases
{
    let b = spec_blank_end(s, i);
    if b > i {
        match spec_field(s, b) {
            Some((c, f)) => spec_field_list(s, c, acc.push(f)),
            None => (i, acc),
        }
    } else {
        (i, acc)
    }
}

#[via_fn]
proof fn spec_field_list_decreases(s: Seq<char>, i: int, acc: Seq<FieldPV>) {
    lemma_spec_blank_end(s, i);
    lemma_spec_field(s, spec_blank_end(s, i));
}

/// Listing fields only moves the position forward.
pub proof fn lemma_spec_field_list(s: Seq<char>, i: int, acc: Seq<FieldPV>)
    requires
        0 <= i <= s.len(),
    ensures
        ({
            let (j, items) = spec_field_list(s, i, acc);
            i <= j <= s.len()
        }),
    decreases s.len() - i,
{
    lemma_spec_blank_end(s, i);
    let b = spec_blank_end(s, i);
    if b > i {
        lemma_spec_field(s, b);
        match spec_field(s, b) {
            Some((c, f)) => {
                lemma_spec_field_list(s, c, acc.push(f));
            },
            None => {},
        }
    }
}

/// The field list of a node body at `i`: zero or more fields separated by
/// blank.
pub open spec fn spec_fields(s: Seq<char>, i: int) -> (int, Seq<FieldPV>) {
    match spec_field(s, i) {
        Some((a, f)) => spec_field_list(s, a, seq![f]),
        None => (i, Seq::empty()),
    }
}

/// The field list only moves the position forward.
pub proof fn lemma_spec_fields(s: Seq<char>, i: int)
    requires
        0 <= i <= s.len(),
    ensures
        ({
            let (j, items) = spec_fields(s, i);
            i <= j <= s.len()
        }),
{
    lemma_spec_field(s, i);
    match spec_field(s, i) {
        Some((a, f)) => {
            lemma_spec_field_list(s, a, seq![f]);
        },
        None => {},
    }
}

/// The node declaration starting at `i`, if one stands there: the
/// keyword, required blank, the name, the optional successor clause, and
/// the field body in braces.
pub open spec fn spec_node(s: Seq<char>, i: int) -> Option<(int, NodePV)> {
    if spec_tag(s, i, "node"@) {
        let a = i + 4;
        let b = spec_blank_end(s, a);
        if b == a {
            None
        } else {
            match spec_ident(s, b) {
                Some((c, name)) => {
                    let d = spec_blank_end(s, c);
                    let (e, to_nodes) = spec_successors(s, d);
                    if spec_tag(s, e, "{"@) {
                        let g = spec_blank_end(s, e + 1);
                        let (h, fields) = spec_fields(s, g);
                        let k = spec_blank_end(s, h);
                        if spec_tag(s, k, "}"@) {
                            Some((k + 1, NodePV { name, to_nodes, fields }))
                        } else {
                            None
                        }
                    } else {
                        None
                    }
                },
                None => None,
            }
        }
    } else {
        None
    }
}

/// A node declaration consumes at least its keyword and stays in the
/// text.
pub proof fn lemma_spec_node(s: Seq<char>, i: int)
    requires
        0 <= i <= s.len(),
    ensures
        match spec_node(s, i) {
            Some((j, _)) => i < j <= s.len(),
            None => true,
        },
{
    reveal_strlit("node");
    reveal_strlit("{");
    reveal_strlit("}");
    if spec_tag(s, i, "node"@) {
        let a = i + 4;
        lemma_spec_blank_end(s, a);
        let b = spec_blank_end(s, a);
        lemma_spec_ident(s, b);
        match spec_ident(s, b) {
            Some((c, name)) => {
                lemma_spec_blank_end(s, c);
                let d = spec_blank_end(s, c);
                lemma_spec_successors(s, d);
                let (e, to_nodes) = spec_successors(s, d);
                if spec_tag(s, e, "{"@) {
                    lemma_spec_blank_end(s, e + 1);
                    let g = spec_blank_end(s, e + 1);
                    lemma_spec_fields(s, g);
                    let (h, fields) = spec_fields(s, g);
                    lemma_spec_blank_end(s, h);
                }
            },
            None => {},
        }
    }
}

/// Consume the successor clause `-> (A, B, ...)`, the parentheses each
/// optional; absent entirely when there is no `->`.
fn successors_at(s: &str, i: usize) -> (r: (usize, Vec<Ident>))
    requires
        i <= s@.len(),
    ensures
        i <= r.0 <= s@.len(),
        spec_successors(s@, i as int) == (r.0 as int, r.1@.map_values(|x: Ident| x@)),
{
    proof {
        reveal_strlit("->");
        reveal_strlit("(");
        reveal_strlit(")");
        lemma_spec_successors(s@, i as int);
    }
    match tag_at(s, i, "->") {
        None => {
            let empty: Vec<Ident> = Vec::new();
            proof {
                assert(empty@.map_values(|x: Ident| x@) =~= Seq::<Seq<char>>::empty());
            }
            (i, empty)
        },
        Some(a) => {
            let b = opt_blank_at(s, a);
            let c = match tag_at(s, b, "(") {
                Some(c) => c,
                None => b,
            };
            let mut to_nodes: Vec<Ident> = Vec::new();
            let mut cur: usize = c;
            proof {
                assert(to_nodes@.map_values(|x: Ident| x@) =~= Seq::<Seq<char>>::empty());
            }
            loop
                invariant
                    i <= cur <= s@.len(),
                    c <= s@.len(),
                    i + 2 <= s@.len(),
                    spec_tag(s@, i as int, "->"@),
                    c as int == (if spec_tag(s@, spec_blank_end(s@, i as int + 2), "("@) {
                        spec_blank_end(s@, i as int + 2) + 1
                    } else {
                        spec_blank_end(s@, i as int + 2)
                    }),
                    spec_succ_list(s@, c as int, Seq::empty()) == spec_succ_list(
                        s@,
                        cur as int,
                        to_nodes@.map_values(|x: Ident| x@),
                    ),
                decreases s@.len() - cur,
            {
                let d = opt_blank_at(s, cur);
                match Ident::parse_at(s, d) {
                    None => {
                        proof {
                            reveal_strlit("->");
                            reveal_strlit("(");
                            reveal_strlit(")");
                            assert(spec_succ_list(
                                s@,
                                cur as int,
                                to_nodes@.map_values(|x: Ident| x@),
                            ) == (cur as int, to_nodes@.map_values(|x: Ident| x@)));
                        }
                        let f = match tag_at(s, cur, ")") {
                            Some(f) => f,
                            None => cur,
                        };
                        let j = opt_blank_at(s, f);
                        return (j, to_nodes);
                    },
                    Some((e, id)) => {
                        proof {
                            assert(to_nodes@.push(id).map_values(|x: Ident| x@)
                                =~= to_nodes@.map_values(|x: Ident| x@).push(id@));
                        }
                        to_nodes.push(id);
                        cur = opt_sep_at(s, e);
                    },
                }
            }
        },
    }
}

/// Consume zero or more fields separated by blank.
fn fields_at(s: &str, i: usize) -> (r: (usize, Vec<Field>))
    requires
        i <= s@.len(),
    ensures
        i <= r.0 <= s@.len(),
        spec_fields(s@, i as int) == (r.0 as int, r.1@.map_values(|f: Field| f@)),
{
    proof {
        lemma_spec_fields(s@, i as int);
    }
    let mut fields: Vec<Field> = Vec::new();
    let mut cur: usize = i;
    match Field::parse_at(s, cur) {
        None => {
            proof {
                assert(fields@.map_values(|f: Field| f@) =~= Seq::<FieldPV>::empty());
            }
            return (cur, fields);
        },
        Some((a, f)) => {
            let ghost f0 = f@;
            fields.push(f);
            cur = a;
            proof {
                assert(fields@.map_values(|f2: Field| f2@) =~= seq![f0]);
            }
        },
    }
    let ghost first = spec_field(s@, i as int).unwrap();
    loop
        invariant
            i < cur <= s@.len(),
            spec_field(s@, i as int) is Some,
            spec_field_list(s@, first.0, seq![first.1]) == spec_field_list(
                s@,
                cur as int,
                fields@.map_values(|f: Field| f@),
            ),
            spec_field(s@, i as int) == Some(first),
        decreases s@.len() - cur,
    {
        match blank_at(s, cur) {
            None => {
                proof {
                    assert(spec_field_list(s@, cur as int, fields@.map_values(|f: Field| f@)) == (
                    cur as int, fields@.map_values(|f: Field| f@)));
                }
                return (cur, fields);
            },
            Some(b) => {
                match Field::parse_at(s, b) {
                    None => {
                        proof {
                            assert(spec_field_list(
                                s@,
                                cur as int,
                                fields@.map_values(|f: Field| f@),
                            ) == (cur as int, fields@.map_values(|f: Field| f@)));
                        }
                        return (cur, fields);
                    },
                    Some((c, f)) => {
                        proof {
                            assert(fields@.push(f).map_values(|f2: Field| f2@)
                                =~= fields@.map_values(|f2: Field| f2@).push(f@));
                        }
                        fields.push(f);
                        cur = c;
                    },
                }
            },
        }
    }
}

impl Node {
    /// Consume one node declaration starting at `i`.
    pub fn parse_at(s: &str, i: usize) -> (r: Option<(usize, Node)>)
        requires
            i <= s@.len(),
        ensures
            match r {
                Some((j, n)) => {
                    &&& i < j <= s@.len()
                    &&& spec_node(s@, i as int) == Some((j as int, n@))
                },
                None => spec_node(s@, i as int) is None,
            },
    {
        proof {
            reveal_strlit("node");
            reveal_strlit("{");
            reveal_strlit("}");
            lemma_spec_node(s@, i as int);
        }
        match tag_at(s, i, "node") {
            None => None,
            Some(a) => {
                match blank_at(s, a) {
                    None => None,
                    Some(b) => {
                        match Ident::parse_at(s, b) {
                            None => None,
                            Some((c, name)) => {
                                let d = opt_blank_at(s, c);
                                let (e, to_nodes) = successors_at(s, d);
                                match tag_at(s, e, "{") {
                                    None => None,
                                    Some(f) => {
                                        let g = opt_blank_at(s, f);
                                        let (h, fields) = fields_at(s, g);
                                        let k = opt_blank_at(s, h);
                                        match tag_at(s, k, "}") {
                                            None => None,
                                            Some(j) => Some(
                                                (j, Node { name, to_nodes, fields }),
                                            ),
                                        }
                                    },
                                }
                            },
                        }
                    },
                }
            },
        }
    }

    /// Parse one node declaration from the front of `input`, returning the
    /// remaining input beside it.
    pub fn parse(input: &str) -> (r: Result<(&str, Node), ParseError>)
        ensures
            match r {
                Ok((rem, n)) => spec_node(input@, 0) matches Some((j, nv)) && n@ == nv && rem@
                    == input@.subrange(j, input@.len() as int),
                Err(_) => spec_node(input@, 0) is None,
            },
    {
        match Node::parse_at(input, 0) {
            Some((j, n)) => Ok((rest_of(input, j), n)),
            None => Err(ParseError),
        }
    }
}

} // verus!

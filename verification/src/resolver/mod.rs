//! The resolver: interns identifiers into dense ids and lowers the parsed
//! document into the intermediate representation.
//!
//! The first use of a name anywhere (a node declaration or an edge
//! reference) reserves its definition id; later uses reuse it, so identical
//! text always means the identical id and forward references resolve. The
//! resolver is deliberately permissive: structural validation (cycles,
//! duplicate exits, entry in-degree) is deferred to the planner.
pub mod rir;

use vstd::prelude::*;
use crate::parser::annotations::Annotations;
use crate::parser::document::Document;
use crate::symbol::{str_eq, DefId, Ident, Symbol, TagId};
use crate::tags::{Construct, Editable, TagKind, TagValue, Tags};
use crate::codegen::ty::TyV;
use self::rir::{Field, FieldV, Graph, GraphV, Node, NodeV, Path, Type};

verus! {

/// The texts of an interning table.
pub open spec fn sym_view(symbols: Seq<String>) -> Seq<Seq<char>> {
    symbols.map_values(|s: String| s@)
}

/// Whether a name is already interned.
pub open spec fn has_sym(t: Seq<Seq<char>>, name: Seq<char>) -> bool {
    exists|i: int| 0 <= i < t.len() && t[i] == name
}

/// No name is interned twice: identical text means identical id.
pub open spec fn syms_distinct(t: Seq<Seq<char>>) -> bool {
    forall|i: int, j: int| 0 <= i < j < t.len() ==> t[i] != t[j]
}

/// The old table is an unchanged prefix of the new one: interning only
/// grows the table and never moves an id.
pub open spec fn syms_prefix(old_t: Seq<Seq<char>>, new_t: Seq<Seq<char>>) -> bool {
    &&& old_t.len() <= new_t.len()
    &&& forall|i: int| 0 <= i < old_t.len() ==> new_t[i] == old_t[i]
}

/// A definition table grew only by empty slots.
pub open spec fn padded_with_none<T>(old_t: Seq<Option<T>>, new_t: Seq<Option<T>>) -> bool {
    &&& old_t.len() <= new_t.len()
    &&& forall|i: int| 0 <= i < old_t.len() ==> new_t[i] == old_t[i]
    &&& forall|i: int| old_t.len() <= i < new_t.len() ==> new_t[i] is None
}

/// A definition table grew only by empty slots and changed at most at `at`.
pub open spec fn padded_except<T>(old_t: Seq<Option<T>>, new_t: Seq<Option<T>>, at: int) -> bool {
    &&& old_t.len() <= new_t.len()
    &&& forall|i: int| 0 <= i < old_t.len() && i != at ==> new_t[i] == old_t[i]
    &&& forall|i: int| old_t.len() <= i < new_t.len() && i != at ==> new_t[i] is None
}

/// The value of the last annotation with the given key, if any: a later
/// annotation with the same key overrides an earlier one.
pub open spec fn last_value_of(anns: Seq<(Seq<char>, Seq<char>)>, key: Seq<char>) -> Option<
    Seq<char>,
>
    decreases anns.len(),
{
    if anns.len() == 0 {
        None
    } else if anns.last().0 == key {
        Some(anns.last().1)
    } else {
        last_value_of(anns.drop_last(), key)
    }
}

/// The constructor path a tag set holds, if any.
pub open spec fn construct_of(m: Map<TagKind, TagValue>) -> Option<Seq<char>> {
    if m.contains_key(TagKind::Construct) {
        match m[TagKind::Construct] {
            TagValue::Construct(c) => Some(c.0@),
            TagValue::Editable(_) => None,
        }
    } else {
        None
    }
}

/// The editable flag a tag set holds, if any.
pub open spec fn editable_of(m: Map<TagKind, TagValue>) -> Option<bool> {
    if m.contains_key(TagKind::Editable) {
        match m[TagKind::Editable] {
            TagValue::Editable(e) => Some(e.0),
            TagValue::Construct(_) => None,
        }
    } else {
        None
    }
}

/// A tag set holds exactly what the annotation list declares: the last
/// `default` value as the constructor path, the last `editable` value as
/// the flag, and nothing else; unrecognized keys are ignored.
pub open spec fn tags_match(anns: Seq<(Seq<char>, Seq<char>)>, m: Map<TagKind, TagValue>) -> bool {
    &&& construct_of(m) == last_value_of(anns, "default"@)
    &&& m.contains_key(TagKind::Construct) == (last_value_of(anns, "default"@) is Some)
    &&& editable_of(m) == match last_value_of(anns, "editable"@) {
        Some(v) => Some(v == "true"@),
        None => None::<bool>,
    }
    &&& m.contains_key(TagKind::Editable) == (last_value_of(anns, "editable"@) is Some)
}

/// The lowered type of a field: wrapped in the shared-mutable cell exactly
/// when the field is annotated editable.
pub open spec fn field_ty_of(ty: TyV, anns: Seq<(Seq<char>, Seq<char>)>) -> TyV {
    if last_value_of(anns, "editable"@) == Some("true"@) {
        TyV::ArcSwap(Box::new(ty))
    } else {
        ty
    }
}

/// Interns names and builds the definition tables, all keyed by dense ids
/// assigned at a name's first appearance.
pub struct Resolver {
    graphs: Vec<Option<Graph>>,
    nodes: Vec<Option<Node>>,
    fields: Vec<Option<Field>>,
    tags: Vec<Tags>,
    symbol_table: Vec<String>,
}

/// Everything resolution produces: the definition tables and, for each
/// declared graph, its definition id in declaration order.
pub struct ResolveResult {
    pub graphs: Vec<Option<Graph>>,
    pub nodes: Vec<Option<Node>>,
    pub fields: Vec<Option<Field>>,
    pub tags: Vec<Tags>,
    pub entrys: Vec<DefId>,
    pub symbols: Vec<String>,
}

impl Resolver {
    /// The interned names, by id.
    pub closed spec fn syms(&self) -> Seq<Seq<char>> {
        sym_view(self.symbol_table@)
    }

    /// The node table, by id.
    pub closed spec fn nodes_view(&self) -> Seq<Option<NodeV>> {
        self.nodes@.map_values(
            |o: Option<Node>|
                match o {
                    Some(n) => Some(n@),
                    None => None::<NodeV>,
                },
        )
    }

    /// The graph table, by id.
    pub closed spec fn graphs_view(&self) -> Seq<Option<GraphV>> {
        self.graphs@.map_values(
            |o: Option<Graph>|
                match o {
                    Some(g) => Some(g@),
                    None => None::<GraphV>,
                },
        )
    }

    /// The field table, by id.
    pub closed spec fn fields_view(&self) -> Seq<Option<FieldV>> {
        self.fields@.map_values(
            |o: Option<Field>|
                match o {
                    Some(f) => Some(f@),
                    None => None::<FieldV>,
                },
        )
    }

    /// The annotation sets, by tag id.
    pub closed spec fn tags_view(&self) -> Seq<Map<TagKind, TagValue>> {
        self.tags@.map_values(|t: Tags| t@)
    }

    /// Names are distinct, every definition table is as long as the
    /// interning table (so a definition id indexes every table), and every
    /// id stored in a table is itself in bounds.
    pub closed spec fn wf(&self) -> bool {
        &&& syms_distinct(self.syms())
        &&& self.graphs@.len() == self.symbol_table@.len()
        &&& self.nodes@.len() == self.symbol_table@.len()
        &&& self.fields@.len() == self.symbol_table@.len()
        &&& forall|i: int|
            0 <= i < self.nodes@.len() && self.nodes@[i] is Some ==> node_ids_bounded(
                (#[trigger] self.nodes@[i]).unwrap()@,
                self.symbol_table@.len() as int,
            )
        &&& forall|i: int|
            0 <= i < self.graphs@.len() && self.graphs@[i] is Some ==> (
            #[trigger] self.graphs@[i]).unwrap().entry_node.0 < self.symbol_table@.len()
    }
}

/// Growth steps compose: a table that grew by empty slots twice grew by
/// empty slots overall.
pub proof fn lemma_padded_trans<T>(a: Seq<Option<T>>, b: Seq<Option<T>>, c: Seq<Option<T>>)
    requires
        padded_with_none(a, b),
        padded_with_none(b, c),
    ensures
        padded_with_none(a, c),
{
    assert forall|i: int| 0 <= i < a.len() implies c[i] == a[i] by {
        assert(b[i] == a[i]);
    }
    assert forall|i: int| a.len() <= i < c.len() implies c[i] is None by {
        if i < b.len() {
            assert(c[i] == b[i]);
        }
    }
}

/// Growth by empty slots followed by one change at `at` is growth with one
/// change at `at`.
pub proof fn lemma_padded_then_except<T>(
    a: Seq<Option<T>>,
    b: Seq<Option<T>>,
    c: Seq<Option<T>>,
    at: int,
)
    requires
        padded_with_none(a, b),
        padded_except(b, c, at),
    ensures
        padded_except(a, c, at),
{
    assert forall|i: int| 0 <= i < a.len() && i != at implies c[i] == a[i] by {
        assert(b[i] == a[i]);
    }
    assert forall|i: int| a.len() <= i < c.len() && i != at implies c[i] is None by {
        if i < b.len() {
            assert(c[i] == b[i]);
        }
    }
}

impl Default for Resolver {
    /// An empty resolver: no names interned, all tables empty.
    fn default() -> (r: Resolver)
        ensures
            r.wf(),
            r.syms() == Seq::<Seq<char>>::empty(),
            r.tags_view() == Seq::<Map<TagKind, TagValue>>::empty(),
    {
        let r = Resolver {
            graphs: Vec::new(),
            nodes: Vec::new(),
            fields: Vec::new(),
            tags: Vec::new(),
            symbol_table: Vec::new(),
        };
        proof {
            assert(r.syms() =~= Seq::<Seq<char>>::empty());
            assert(r.tags_view() =~= Seq::<Map<TagKind, TagValue>>::empty());
        }
        r
    }
}

impl Resolver {
    /// Find a name in the interning table.
    fn find_sym(&self, name: &Ident) -> (r: Option<usize>)
        ensures
            match r {
                Some(i) => i < self.syms().len() && self.syms()[i as int] == name@,
                None => !has_sym(self.syms(), name@),
            },
    {
        let n = self.symbol_table.len();
        let mut i: usize = 0;
        while i < n
            invariant
                i <= n,
                n == self.symbol_table@.len(),
                forall|j: int| 0 <= j < i ==> self.syms()[j] != name@,
            decreases n - i,
        {
            if str_eq(self.symbol_table[i].as_str(), name.sym.0.as_str()) {
                assert(self.syms()[i as int] == name@);
                return Some(i);
            }
            assert(self.syms()[i as int] != name@);
            i += 1;
        }
        None
    }

    /// The definition id of a name: the id it was first interned under, or
    /// a fresh one reserved now. Interning never moves an existing id and
    /// grows every definition table alongside.
    fn get_did(&mut self, name: &Ident) -> (r: DefId)
        requires
            old(self).wf(),
        ensures
            final(self).wf(),
            syms_prefix(old(self).syms(), final(self).syms()),
            r.0 < final(self).syms().len(),
            final(self).syms()[r.0 as int] == name@,
            has_sym(old(self).syms(), name@) ==> final(self).syms() == old(self).syms(),
            !has_sym(old(self).syms(), name@) ==> final(self).syms() =~= old(self).syms().push(name@)
                && r.0 == old(self).syms().len(),
            padded_with_none(old(self).nodes_view(), final(self).nodes_view()),
            padded_with_none(old(self).graphs_view(), final(self).graphs_view()),
            padded_with_none(old(self).fields_view(), final(self).fields_view()),
            final(self).tags_view() == old(self).tags_view(),
    {
        match self.find_sym(name) {
            Some(i) => DefId(i),
            None => {
                let r = DefId(self.symbol_table.len());
                self.symbol_table.push(name.sym.0.clone());
                self.graphs.push(None);
                self.nodes.push(None);
                self.fields.push(None);
                proof {
                    assert(self.syms() =~= old(self).syms().push(name@));
                    assert forall|i: int, j: int| 0 <= i < j < self.syms().len() implies self.syms()[i]
                        != self.syms()[j] by {
                        if j == self.syms().len() - 1 {
                            assert(self.syms()[i] == old(self).syms()[i]);
                        }
                    }
                    assert(padded_with_none(old(self).nodes_view(), self.nodes_view()));
                    assert(padded_with_none(old(self).graphs_view(), self.graphs_view()));
                    assert(padded_with_none(old(self).fields_view(), self.fields_view()));
                }
                r
            },
        }
    }

    /// Lower a written identifier into a resolved one: the text carries
    /// over unchanged.
    fn lower_ident(ident: &crate::parser::ident::Ident) -> (r: Ident)
        ensures
            r@ == ident@,
    {
        Ident::new(Symbol(ident.0.clone()))
    }

    /// Lower a written path: the segment texts carry over unchanged.
    fn lower_path(path: &crate::parser::path::Path) -> (r: Path)
        ensures
            r@ == path@,
    {
        let n = path.segments.len();
        let mut segments: Vec<Ident> = Vec::new();
        let mut i: usize = 0;
        while i < n
            invariant
                i <= n,
                n == path.segments@.len(),
                segments@.len() == i,
                forall|k: int| 0 <= k < i ==> segments@[k]@ == #[trigger] path.segments@[k]@,
            decreases n - i,
        {
            segments.push(Self::lower_ident(&path.segments[i]));
            i += 1;
        }
        let r = Path { segments };
        proof {
            assert(r@ =~= path@);
        }
        r
    }

    /// Lower a written type: the shape carries over unchanged.
    fn lower_type(ty: &crate::parser::ty::Type) -> (r: Type)
        ensures
            r@ == ty@,
        decreases ty,
    {
        match ty {
            crate::parser::ty::Type::String => Type::String,
            crate::parser::ty::Type::Void => Type::Void,
            crate::parser::ty::Type::Byte => Type::U8,
            crate::parser::ty::Type::Bool => Type::Bool,
            crate::parser::ty::Type::Binary => Type::Bytes,
            crate::parser::ty::Type::I8 => Type::I8,
            crate::parser::ty::Type::I16 => Type::I16,
            crate::parser::ty::Type::I32 => Type::I32,
            crate::parser::ty::Type::I64 => Type::I64,
            crate::parser::ty::Type::Double => Type::F64,
            crate::parser::ty::Type::List { value } => Type::List(
                Box::new(Self::lower_type(value)),
            ),
            crate::parser::ty::Type::SetOf { value } => Type::SetOf(
                Box::new(Self::lower_type(value)),
            ),
            crate::parser::ty::Type::MapOf { key, value } => Type::MapOf(
                Box::new(Self::lower_type(key)),
                Box::new(Self::lower_type(value)),
            ),
            crate::parser::ty::Type::Path(p) => Type::Path(Self::lower_path(p)),
        }
    }

    /// Extract the recognized annotations of a field into a tag set: the
    /// `default` and `editable` keys are read, later occurrences override
    /// earlier ones, and unrecognized keys are silently ignored.
    fn extract_tags(annotations: &Annotations) -> (r: Tags)
        ensures
            tags_match(annotations@, r@),
    {
        proof {
            reveal_strlit("default");
            reveal_strlit("editable");
            assert("default"@.len() != "editable"@.len());
            assert("default"@ != "editable"@);
        }
        let mut tags = Tags::new();
        let n = annotations.0.len();
        let mut i: usize = 0;
        proof {
            assert(annotations@.subrange(0, 0) =~= Seq::<(Seq<char>, Seq<char>)>::empty());
        }
        while i < n
            invariant
                i <= n,
                n == annotations.0@.len(),
                "default"@ != "editable"@,
                tags_match(annotations@.subrange(0, i as int), tags@),
            decreases n - i,
        {
            let ghost pre = annotations@.subrange(0, i as int);
            let ghost m0 = tags@;
            let ann = &annotations.0[i];
            let ghost key = ann.key@;
            let ghost val = ann.value@;
            proof {
                assert(annotations@[i as int] == annotations.0@[i as int]@);
            }
            if str_eq(ann.key.as_str(), "default") {
                tags.insert(Construct::from_value(ann.value.0.as_str()));
            } else if str_eq(ann.key.as_str(), "editable") {
                tags.insert(Editable::from_value(ann.value.0.as_str()));
            }
            i += 1;
            proof {
                let post = annotations@.subrange(0, i as int);
                assert(post.drop_last() =~= pre);
                assert(post.last() == annotations@[i - 1]);
                assert(post.last() == (key, val));
                if key == "default"@ {
                    assert(last_value_of(post, "default"@) == Some(val));
                    assert(last_value_of(post, "editable"@) == last_value_of(pre, "editable"@));
                    assert(construct_of(tags@) == Some(val));
                    assert(editable_of(tags@) == editable_of(m0));
                    assert(tags@.contains_key(TagKind::Editable) == m0.contains_key(
                        TagKind::Editable,
                    ));
                } else if key == "editable"@ {
                    assert(last_value_of(post, "editable"@) == Some(val));
                    assert(last_value_of(post, "default"@) == last_value_of(pre, "default"@));
                    assert(editable_of(tags@) == Some(val == "true"@));
                    assert(construct_of(tags@) == construct_of(m0));
                    assert(tags@.contains_key(TagKind::Construct) == m0.contains_key(
                        TagKind::Construct,
                    ));
                } else {
                    assert(last_value_of(post, "default"@) == last_value_of(pre, "default"@));
                    assert(last_value_of(post, "editable"@) == last_value_of(pre, "editable"@));
                }
                assert(tags_match(post, tags@));
            }
        }
        proof {
            assert(annotations@.subrange(0, n as int) =~= annotations@);
        }
        tags
    }

    /// Lower one field: reserve the next tag id for its extracted
    /// annotation set, intern its name, lower its type (wrapped in the
    /// shared-mutable cell when annotated editable), and record the field
    /// under its name's id.
    fn lower_field(&mut self, f: &crate::parser::field::Field) -> (r: Field)
        requires
            old(self).wf(),
        ensures
            final(self).wf(),
            syms_prefix(old(self).syms(), final(self).syms()),
            r@.name == f.name@,
            r@.tag_id == TagId(old(self).tags_view().len() as usize),
            r@.ty == field_ty_of(f.ty@, f.annotations@),
            final(self).tags_view().len() == old(self).tags_view().len() + 1,
            forall|i: int| 0 <= i < old(self).tags_view().len() ==> final(self).tags_view()[i] == old(
                self,
            ).tags_view()[i],
            tags_match(f.annotations@, final(self).tags_view().last()),
            padded_with_none(old(self).nodes_view(), final(self).nodes_view()),
            padded_with_none(old(self).graphs_view(), final(self).graphs_view()),
            exists|did: int|
                0 <= did < final(self).syms().len() && #[trigger] final(self).syms()[did]
                    == f.name@ && did < final(self).fields_view().len()
                    && final(self).fields_view()[did] == Some(r@) && padded_except(
                    old(self).fields_view(),
                    final(self).fields_view(),
                    did,
                ),
    {
        let tag_id = TagId(self.tags.len());
        let tags = Self::extract_tags(&f.annotations);
        self.tags.push(tags);
        proof {
            assert(self.tags_view() =~= old(self).tags_view().push(self.tags@.last()@));
        }
        let name = Self::lower_ident(&f.name);
        let def_id = self.get_did(&name);
        let lowered = Self::lower_type(&f.ty);
        let ghost m = self.tags_view().last();
        proof {
            assert(self.tags@[self.tags@.len() - 1]@ == m);
            assert(tags_match(f.annotations@, m));
        }
        let is_editable = match self.tags[self.tags.len() - 1].get::<Editable>() {
            Some(e) => e.0,
            None => false,
        };
        proof {
            assert(is_editable == (last_value_of(f.annotations@, "editable"@) == Some("true"@)))
                by {
                match editable_of(m) {
                    Some(b) => {
                        assert(m.contains_key(TagKind::Editable));
                    },
                    None => {},
                }
            }
        }
        let ty = if is_editable {
            Type::ArcSwap(Box::new(lowered))
        } else {
            lowered
        };
        let field = Field { name, ty, tag_id };
        let dup = field.duplicate();
        let ghost pre_view = self.fields_view();
        let ghost pre_fields = self.fields@;
        self.fields[def_id.0] = Some(dup);
        proof {
            assert(self.fields@ == pre_fields.update(def_id.0 as int, Some(dup)));
            assert(self.fields_view()[def_id.0 as int] == Some(dup@));
            assert(dup@ == field@);
            assert forall|i: int|
                0 <= i < self.fields_view().len() && i != def_id.0 as int implies self.fields_view()[i]
                == pre_view[i] by {
                assert(self.fields@[i] == pre_fields[i]);
            }
            assert(padded_except(pre_view, self.fields_view(), def_id.0 as int));
            lemma_padded_then_except(
                old(self).fields_view(),
                pre_view,
                self.fields_view(),
                def_id.0 as int,
            );
            assert(self.syms()[def_id.0 as int] == f.name@);
        }
        field
    }

    /// Lower one node declaration: intern its name, resolve each declared
    /// outgoing edge to a definition id (forward references included),
    /// lower each field in order, and record the node under its name's id.
    /// A later declaration with the same name replaces an earlier one.
    fn lower_node(&mut self, n: &crate::parser::node::Node) -> (did: DefId)
        requires
            old(self).wf(),
        ensures
            final(self).wf(),
            syms_prefix(old(self).syms(), final(self).syms()),
            forall|i: int| 0 <= i < old(self).tags_view().len() ==> final(self).tags_view()[i] == old(
                self,
            ).tags_view()[i],
            padded_with_none(old(self).graphs_view(), final(self).graphs_view()),
            padded_except(old(self).nodes_view(), final(self).nodes_view(), did.0 as int),
            did.0 < final(self).syms().len(),
            final(self).syms()[did.0 as int] == n.name@,
            final(self).nodes_view()[did.0 as int] is Some,
            lowered_node_ok(final(self).syms(), final(self).nodes_view()[did.0 as int].unwrap(), *n),
    {
        let name = Self::lower_ident(&n.name);
        let def_id = self.get_did(&name);
        let m = n.to_nodes.len();
        let mut to_nodes: Vec<DefId> = Vec::new();
        let mut i: usize = 0;
        while i < m
            invariant
                old(self).wf(),
                self.wf(),
                i <= m,
                m == n.to_nodes@.len(),
                syms_prefix(old(self).syms(), self.syms()),
                def_id.0 < self.syms().len(),
                self.syms()[def_id.0 as int] == n.name@,
                to_nodes@.len() == i,
                forall|k: int|
                    0 <= k < i ==> (#[trigger] to_nodes@[k]).0 < self.syms().len()
                        && self.syms()[to_nodes@[k].0 as int] == n.to_nodes@[k]@,
                padded_with_none(old(self).graphs_view(), self.graphs_view()),
                padded_with_none(old(self).nodes_view(), self.nodes_view()),
                self.tags_view() == old(self).tags_view(),
            decreases m - i,
        {
            let ghost mid = self.syms();
            let ident = Self::lower_ident(&n.to_nodes[i]);
            let to_id = self.get_did(&ident);
            proof {
                assert forall|k: int| 0 <= k < i implies (#[trigger] to_nodes@[k]).0
                    < self.syms().len() && self.syms()[to_nodes@[k].0 as int]
                    == n.to_nodes@[k]@ by {
                    assert(to_nodes@[k].0 < mid.len());
                    assert(self.syms()[to_nodes@[k].0 as int] == mid[to_nodes@[k].0 as int]);
                }
            }
            to_nodes.push(to_id);
            i += 1;
        }
        let f_len = n.fields.len();
        let mut fields: Vec<Field> = Vec::new();
        let mut k: usize = 0;
        while k < f_len
            invariant
                old(self).wf(),
                self.wf(),
                k <= f_len,
                f_len == n.fields@.len(),
                m == n.to_nodes@.len(),
                syms_prefix(old(self).syms(), self.syms()),
                def_id.0 < self.syms().len(),
                self.syms()[def_id.0 as int] == n.name@,
                to_nodes@.len() == m,
                forall|x: int|
                    0 <= x < m ==> (#[trigger] to_nodes@[x]).0 < self.syms().len()
                        && self.syms()[to_nodes@[x].0 as int] == n.to_nodes@[x]@,
                fields@.len() == k,
                forall|x: int|
                    0 <= x < k ==> (#[trigger] fields@[x])@.name == n.fields@[x].name@
                        && fields@[x]@.ty == field_ty_of(n.fields@[x].ty@, n.fields@[x].annotations@),
                old(self).tags_view().len() <= self.tags_view().len(),
                forall|i: int| 0 <= i < old(self).tags_view().len() ==> self.tags_view()[i] == old(
                    self,
                ).tags_view()[i],
                padded_with_none(old(self).graphs_view(), self.graphs_view()),
                padded_with_none(old(self).nodes_view(), self.nodes_view()),
            decreases f_len - k,
        {
            let ghost mid = self.syms();
            let ghost mid_tags = self.tags_view();
            let ghost mid_graphs = self.graphs_view();
            let ghost mid_nodes = self.nodes_view();
            let field = self.lower_field(&n.fields[k]);
            proof {
                assert forall|x: int| 0 <= x < m implies (#[trigger] to_nodes@[x]).0
                    < self.syms().len() && self.syms()[to_nodes@[x].0 as int]
                    == n.to_nodes@[x]@ by {
                    assert(to_nodes@[x].0 < mid.len());
                    assert(self.syms()[to_nodes@[x].0 as int] == mid[to_nodes@[x].0 as int]);
                }
                assert forall|i: int| 0 <= i < old(self).tags_view().len() implies self.tags_view()[i]
                    == old(self).tags_view()[i] by {
                    assert(self.tags_view()[i] == mid_tags[i]);
                }
                lemma_padded_trans(old(self).graphs_view(), mid_graphs, self.graphs_view());
                lemma_padded_trans(old(self).nodes_view(), mid_nodes, self.nodes_view());
            }
            fields.push(field);
            k += 1;
        }
        let node = Node { name, to_nodes, fields };
        let ghost nv = node@;
        let ghost pre_view = self.nodes_view();
        let ghost pre_nodes = self.nodes@;
        self.nodes[def_id.0] = Some(node);
        proof {
            assert(self.nodes@ == pre_nodes.update(def_id.0 as int, Some(node)));
            assert(self.nodes_view()[def_id.0 as int] == Some(nv));
            assert forall|i: int|
                0 <= i < self.nodes_view().len() && i != def_id.0 as int implies self.nodes_view()[i]
                == pre_view[i] by {
                assert(self.nodes@[i] == pre_nodes[i]);
            }
            assert(padded_except(pre_view, self.nodes_view(), def_id.0 as int));
            lemma_padded_then_except(
                old(self).nodes_view(),
                pre_view,
                self.nodes_view(),
                def_id.0 as int,
            );
        }
        def_id
    }

    /// Lower one graph declaration: intern the graph's name and its entry
    /// node's name, record the graph under its own name's id, and return
    /// that id. A later declaration with the same name replaces an earlier
    /// one.
    fn lower_graph(&mut self, g: &crate::parser::graph::Graph) -> (did: DefId)
        requires
            old(self).wf(),
        ensures
            final(self).wf(),
            syms_prefix(old(self).syms(), final(self).syms()),
            final(self).tags_view() == old(self).tags_view(),
            padded_with_none(old(self).nodes_view(), final(self).nodes_view()),
            padded_except(old(self).graphs_view(), final(self).graphs_view(), did.0 as int),
            did.0 < final(self).syms().len(),
            final(self).syms()[did.0 as int] == g.name@,
            final(self).graphs_view()[did.0 as int] is Some,
            lowered_graph_ok(final(self).syms(), final(self).graphs_view()[did.0 as int].unwrap(), *g),
    {
        let name = Self::lower_ident(&g.name);
        let def_id = self.get_did(&name);
        let ghost mid_graphs = self.graphs_view();
        let ghost mid_nodes = self.nodes_view();
        let entry_name = Self::lower_ident(&g.entry_node);
        let entry_id = self.get_did(&entry_name);
        proof {
            lemma_padded_trans(old(self).graphs_view(), mid_graphs, self.graphs_view());
            lemma_padded_trans(old(self).nodes_view(), mid_nodes, self.nodes_view());
        }
        let graph = Graph { name, entry_node: entry_id };
        let ghost gv = graph@;
        let ghost pre_view = self.graphs_view();
        let ghost pre_graphs = self.graphs@;
        self.graphs[def_id.0] = Some(graph);
        proof {
            assert(self.graphs@ == pre_graphs.update(def_id.0 as int, Some(graph)));
            assert(self.graphs_view()[def_id.0 as int] == Some(gv));
            assert forall|i: int|
                0 <= i < self.graphs_view().len() && i != def_id.0 as int implies self.graphs_view()[i]
                == pre_view[i] by {
                assert(self.graphs@[i] == pre_graphs[i]);
            }
            assert(padded_except(pre_view, self.graphs_view(), def_id.0 as int));
            lemma_padded_then_except(
                old(self).graphs_view(),
                pre_view,
                self.graphs_view(),
                def_id.0 as int,
            );
        }
        def_id
    }

    /// Resolve a whole document: lower every node first (so graphs can name
    /// any node regardless of declaration order), then every graph, and
    /// hand the tables over together with each graph's id.
    pub fn resolve_document(self, document: &Document) -> (r: ResolveResult)
        requires
            self.wf(),
        ensures
            resolved_ok(&r),
            r.entrys@.len() == document.graphs@.len(),
            forall|g: int|
                0 <= g < document.graphs@.len() ==> (#[trigger] r.entrys@[g]).0
                    < sym_view(r.symbols@).len() && sym_view(r.symbols@)[r.entrys@[g].0 as int]
                    == document.graphs@[g].name@,
            forall|k: int|
                0 <= k < document.nodes@.len() ==> has_sym(
                    sym_view(r.symbols@),
                    document.nodes@[k].name@,
                ),
            forall|k: int|
                0 <= k < document.nodes@.len() && last_named_node_before(
                    document.nodes@,
                    k,
                    document.nodes@.len() as int,
                ) ==> node_entry_ok(
                    sym_view(r.symbols@),
                    r.nodes@.map_values(
                        |o: Option<Node>|
                            match o {
                                Some(n) => Some(n@),
                                None => None::<NodeV>,
                            },
                    ),
                    #[trigger] document.nodes@[k],
                ),
            forall|g: int|
                0 <= g < document.graphs@.len() && last_named_graph_before(
                    document.graphs@,
                    g,
                    document.graphs@.len() as int,
                ) ==> (#[trigger] r.entrys@[g]).0 < r.graphs@.len()
                    && r.graphs@[r.entrys@[g].0 as int] is Some && lowered_graph_ok(
                    sym_view(r.symbols@),
                    r.graphs@[r.entrys@[g].0 as int].unwrap()@,
                    document.graphs@[g],
                ),
    {
        let mut this = self;
        let n_nodes = document.nodes.len();
        let mut i: usize = 0;
        while i < n_nodes
            invariant
                this.wf(),
                i <= n_nodes,
                n_nodes == document.nodes@.len(),
                forall|k: int|
                    0 <= k < i ==> has_sym(this.syms(), #[trigger] document.nodes@[k].name@),
                forall|k: int|
                    0 <= k < i && last_named_node_before(document.nodes@, k, i as int)
                        ==> node_entry_ok(
                        this.syms(),
                        this.nodes_view(),
                        #[trigger] document.nodes@[k],
                    ),
            decreases n_nodes - i,
        {
            let ghost mid = this.syms();
            let ghost mid_nodes = this.nodes_view();
            let did = this.lower_node(&document.nodes[i]);
            i += 1;
            proof {
                assert forall|k: int| 0 <= k < i implies has_sym(
                    this.syms(),
                    #[trigger] document.nodes@[k].name@,
                ) by {
                    if k < i - 1 {
                        let w = choose|w: int|
                            0 <= w < mid.len() && mid[w] == document.nodes@[k].name@;
                        assert(this.syms()[w] == document.nodes@[k].name@);
                    } else {
                        assert(this.syms()[did.0 as int] == document.nodes@[k].name@);
                    }
                }
                assert forall|k: int|
                    0 <= k < i && last_named_node_before(document.nodes@, k, i as int) implies
                    node_entry_ok(this.syms(), this.nodes_view(), #[trigger] document.nodes@[k]) by {
                    if k == i - 1 {
                        assert(this.syms()[did.0 as int] == document.nodes@[k].name@);
                        assert(this.nodes_view()[did.0 as int] is Some);
                    } else {
                        // an earlier declaration that keeps a distinct name
                        // keeps its entry: the new node landed at a
                        // different id
                        assert(last_named_node_before(document.nodes@, k, i - 1));
                        assert(document.nodes@[i - 1].name@ != document.nodes@[k].name@);
                        let did_k = choose|did_k: int|
                            0 <= did_k < mid.len() && did_k < mid_nodes.len() && mid[did_k]
                                == document.nodes@[k].name@ && mid_nodes[did_k] is Some
                                && lowered_node_ok(
                                mid,
                                mid_nodes[did_k].unwrap(),
                                document.nodes@[k],
                            );
                        assert(this.syms()[did_k] == document.nodes@[k].name@);
                        assert(did_k != did.0 as int) by {
                            assert(this.syms()[did.0 as int] == document.nodes@[i - 1].name@);
                        }
                        assert(this.nodes_view()[did_k] == mid_nodes[did_k]);
                        lemma_lowered_node_prefix(
                            mid,
                            this.syms(),
                            mid_nodes[did_k].unwrap(),
                            document.nodes@[k],
                        );
                        assert(did_k < this.nodes_view().len());
                    }
                }
            }
        }
        let n_graphs = document.graphs.len();
        let mut entrys: Vec<DefId> = Vec::new();
        let mut g: usize = 0;
        while g < n_graphs
            invariant
                this.wf(),
                g <= n_graphs,
                n_graphs == document.graphs@.len(),
                entrys@.len() == g,
                forall|x: int|
                    0 <= x < g ==> (#[trigger] entrys@[x]).0 < this.syms().len()
                        && this.syms()[entrys@[x].0 as int] == document.graphs@[x].name@,
                forall|k: int|
                    0 <= k < document.nodes@.len() ==> has_sym(
                        this.syms(),
                        #[trigger] document.nodes@[k].name@,
                    ),
                forall|k: int|
                    0 <= k < document.nodes@.len() && last_named_node_before(
                        document.nodes@,
                        k,
                        document.nodes@.len() as int,
                    ) ==> node_entry_ok(
                        this.syms(),
                        this.nodes_view(),
                        #[trigger] document.nodes@[k],
                    ),
                forall|x: int|
                    0 <= x < g && last_named_graph_before(document.graphs@, x, g as int) ==> (
                    #[trigger] entrys@[x]).0 < this.graphs_view().len()
                        && this.graphs_view()[entrys@[x].0 as int] is Some && lowered_graph_ok(
                        this.syms(),
                        this.graphs_view()[entrys@[x].0 as int].unwrap(),
                        document.graphs@[x],
                    ),
            decreases n_graphs - g,
        {
            let ghost mid = this.syms();
            let ghost mid_nodes = this.nodes_view();
            let ghost mid_graphs = this.graphs_view();
            let did = this.lower_graph(&document.graphs[g]);
            entrys.push(did);
            g += 1;
            proof {
                assert forall|x: int| 0 <= x < g implies (#[trigger] entrys@[x]).0
                    < this.syms().len() && this.syms()[entrys@[x].0 as int]
                    == document.graphs@[x].name@ by {
                    if x < g - 1 {
                        assert(entrys@[x].0 < mid.len());
                    }
                }
                assert forall|k: int| 0 <= k < document.nodes@.len() implies has_sym(
                    this.syms(),
                    #[trigger] document.nodes@[k].name@,
                ) by {
                    let w = choose|w: int|
                        0 <= w < mid.len() && mid[w] == document.nodes@[k].name@;
                    assert(this.syms()[w] == document.nodes@[k].name@);
                }
                assert forall|k: int|
                    0 <= k < document.nodes@.len() && last_named_node_before(
                        document.nodes@,
                        k,
                        document.nodes@.len() as int,
                    ) implies node_entry_ok(
                    this.syms(),
                    this.nodes_view(),
                    #[trigger] document.nodes@[k],
                ) by {
                    let did_k = choose|did_k: int|
                        0 <= did_k < mid.len() && did_k < mid_nodes.len() && mid[did_k]
                            == document.nodes@[k].name@ && mid_nodes[did_k] is Some
                            && lowered_node_ok(mid, mid_nodes[did_k].unwrap(), document.nodes@[k]);
                    assert(this.syms()[did_k] == document.nodes@[k].name@);
                    assert(this.nodes_view()[did_k] == mid_nodes[did_k]);
                    lemma_lowered_node_prefix(
                        mid,
                        this.syms(),
                        mid_nodes[did_k].unwrap(),
                        document.nodes@[k],
                    );
                }
                assert forall|x: int|
                    0 <= x < g && last_named_graph_before(document.graphs@, x, g as int) implies (
                #[trigger] entrys@[x]).0 < this.graphs_view().len()
                    && this.graphs_view()[entrys@[x].0 as int] is Some && lowered_graph_ok(
                    this.syms(),
                    this.graphs_view()[entrys@[x].0 as int].unwrap(),
                    document.graphs@[x],
                ) by {
                    if x == g - 1 {
                        assert(entrys@[x] == did);
                    } else {
                        assert(last_named_graph_before(document.graphs@, x, g - 1));
                        assert(document.graphs@[g - 1].name@ != document.graphs@[x].name@);
                        assert(entrys@[x].0 < mid.len());
                        assert(mid[entrys@[x].0 as int] == document.graphs@[x].name@);
                        assert(this.syms()[entrys@[x].0 as int] == document.graphs@[x].name@);
                        assert(entrys@[x].0 as int != did.0 as int) by {
                            assert(this.syms()[did.0 as int] == document.graphs@[g - 1].name@);
                        }
                        assert(this.graphs_view()[entrys@[x].0 as int] == mid_graphs[entrys@[x].0 as int]);
                        lemma_lowered_graph_prefix(
                            mid,
                            this.syms(),
                            mid_graphs[entrys@[x].0 as int].unwrap(),
                            document.graphs@[x],
                        );
                    }
                }
            }
        }
        let r = ResolveResult {
            graphs: this.graphs,
            nodes: this.nodes,
            fields: this.fields,
            tags: this.tags,
            entrys,
            symbols: this.symbol_table,
        };
        r
    }
}

/// The definition id of every edge target and graph entry is in bounds, so
/// the planner can index the tables with any id it meets.
pub open spec fn resolved_ok(r: &ResolveResult) -> bool {
    &&& syms_distinct(sym_view(r.symbols@))
    &&& r.graphs@.len() == r.symbols@.len()
    &&& r.nodes@.len() == r.symbols@.len()
    &&& r.fields@.len() == r.symbols@.len()
    &&& forall|i: int|
        0 <= i < r.nodes@.len() && r.nodes@[i] is Some ==> node_ids_bounded(
            #[trigger] r.nodes@[i].unwrap()@,
            r.nodes@.len() as int,
        )
    &&& forall|i: int|
        0 <= i < r.graphs@.len() && r.graphs@[i] is Some ==> (
        #[trigger] r.graphs@[i].unwrap()@).entry_node.0 < r.graphs@.len()
    &&& forall|g: int| 0 <= g < r.entrys@.len() ==> (#[trigger] r.entrys@[g]).0 < r.symbols@.len()
}

/// Every edge target of a node is in bounds.
pub open spec fn node_ids_bounded(nv: NodeV, len: int) -> bool {
    forall|k: int| 0 <= k < nv.to_nodes.len() ==> (#[trigger] nv.to_nodes[k]).0 < len
}

/// A lowered node carries its declaration's name, one resolved edge per
/// declared edge in declaration order (each id naming the declared
/// target), and one lowered field per declared field in order, each typed
/// as declared and wrapped when annotated editable.
pub open spec fn lowered_node_ok(
    syms: Seq<Seq<char>>,
    nv: NodeV,
    n: crate::parser::node::Node,
) -> bool {
    &&& nv.name == n.name@
    &&& nv.to_nodes.len() == n.to_nodes@.len()
    &&& forall|k: int|
        0 <= k < nv.to_nodes.len() ==> (#[trigger] nv.to_nodes[k]).0 < syms.len()
            && syms[nv.to_nodes[k].0 as int] == n.to_nodes@[k]@
    &&& nv.fields.len() == n.fields@.len()
    &&& forall|k: int|
        0 <= k < nv.fields.len() ==> (#[trigger] nv.fields[k]).name == n.fields@[k].name@
            && nv.fields[k].ty == field_ty_of(n.fields@[k].ty@, n.fields@[k].annotations@)
}

/// A lowered graph carries its declaration's name and an entry id naming
/// the declared entry node.
pub open spec fn lowered_graph_ok(
    syms: Seq<Seq<char>>,
    gv: GraphV,
    g: crate::parser::graph::Graph,
) -> bool {
    &&& gv.name == g.name@
    &&& gv.entry_node.0 < syms.len()
    &&& syms[gv.entry_node.0 as int] == g.entry_node@
}


/// No later declaration (before `upto`) reuses this declaration's name: a
/// later declaration with the same name replaces an earlier one, so only
/// the last one's content is promised.
pub open spec fn last_named_node_before(
    nodes: Seq<crate::parser::node::Node>,
    k: int,
    upto: int,
) -> bool {
    forall|k2: int| k < k2 < upto ==> (#[trigger] nodes[k2]).name@ != nodes[k].name@
}

/// No later graph declaration (before `upto`) reuses this one's name.
pub open spec fn last_named_graph_before(
    graphs: Seq<crate::parser::graph::Graph>,
    k: int,
    upto: int,
) -> bool {
    forall|k2: int| k < k2 < upto ==> (#[trigger] graphs[k2]).name@ != graphs[k].name@
}

/// Some definition id holds this declaration's faithfully lowered node.
pub open spec fn node_entry_ok(
    syms: Seq<Seq<char>>,
    nodes_view: Seq<Option<NodeV>>,
    n: crate::parser::node::Node,
) -> bool {
    exists|did: int|
        0 <= did < syms.len() && did < nodes_view.len() && syms[did] == n.name@
            && nodes_view[did] is Some && lowered_node_ok(syms, nodes_view[did].unwrap(), n)
}

/// A faithfully lowered node stays faithful as the interning table grows:
/// ids never move.
pub proof fn lemma_lowered_node_prefix(
    s1: Seq<Seq<char>>,
    s2: Seq<Seq<char>>,
    nv: NodeV,
    n: crate::parser::node::Node,
)
    requires
        lowered_node_ok(s1, nv, n),
        syms_prefix(s1, s2),
    ensures
        lowered_node_ok(s2, nv, n),
{
    assert forall|k: int| 0 <= k < nv.to_nodes.len() implies (#[trigger] nv.to_nodes[k]).0
        < s2.len() && s2[nv.to_nodes[k].0 as int] == n.to_nodes@[k]@ by {
        assert(nv.to_nodes[k].0 < s1.len());
        assert(s2[nv.to_nodes[k].0 as int] == s1[nv.to_nodes[k].0 as int]);
    }
}

/// A faithfully lowered graph stays faithful as the interning table grows.
pub proof fn lemma_lowered_graph_prefix(
    s1: Seq<Seq<char>>,
    s2: Seq<Seq<char>>,
    gv: GraphV,
    g: crate::parser::graph::Graph,
)
    requires
        lowered_graph_ok(s1, gv, g),
        syms_prefix(s1, s2),
    ensures
        lowered_graph_ok(s2, gv, g),
{
    assert(s2[gv.entry_node.0 as int] == s1[gv.entry_node.0 as int]);
}

} // verus!

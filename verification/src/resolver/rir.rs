//! The intermediate representation: entities with names resolved to dense
//! definition ids. Built once by the resolver and immutable afterwards; the
//! planner only derives auxiliary indices over it.
use vstd::prelude::*;
use crate::codegen::ty::{Adt, CodegenTy, TyV};
use crate::symbol::{DefId, Ident, TagId};

verus! {

/// A graph: its name and the definition id of its entry node. The exit
/// node is derived structurally as the unique reachable node with no
/// outgoing edges.
#[derive(Debug)]
pub struct Graph {
    pub name: Ident,
    pub entry_node: DefId,
}

/// The mathematical content of a graph declaration.
pub struct GraphV {
    pub name: Seq<char>,
    pub entry_node: DefId,
}

impl View for Graph {
    type V = GraphV;

    open spec fn view(&self) -> GraphV {
        GraphV { name: self.name@, entry_node: self.entry_node }
    }
}

/// A node: its name, its outgoing edges in declaration order (duplicates
/// are legal and each counts), and its payload fields.
#[derive(Debug)]
pub struct Node {
    pub name: Ident,
    pub to_nodes: Vec<DefId>,
    pub fields: Vec<Field>,
}

/// The mathematical content of a node.
pub struct NodeV {
    pub name: Seq<char>,
    pub to_nodes: Seq<DefId>,
    pub fields: Seq<FieldV>,
}

impl View for Node {
    type V = NodeV;

    open spec fn view(&self) -> NodeV {
        NodeV {
            name: self.name@,
            to_nodes: self.to_nodes@,
            fields: self.fields@.map_values(|f: Field| f@),
        }
    }
}

/// A payload field: its name, lowered type and the id of its annotation
/// set.
#[derive(Debug)]
pub struct Field {
    pub name: Ident,
    pub ty: Type,
    pub tag_id: TagId,
}

/// The mathematical content of a field.
pub struct FieldV {
    pub name: Seq<char>,
    pub ty: TyV,
    pub tag_id: TagId,
}

impl View for Field {
    type V = FieldV;

    open spec fn view(&self) -> FieldV {
        FieldV { name: self.name@, ty: self.ty@, tag_id: self.tag_id }
    }
}

/// A qualified reference to an externally-defined type or constructor.
#[derive(Debug)]
pub struct Path {
    pub segments: Vec<Ident>,
}

impl View for Path {
    type V = Seq<Seq<char>>;

    open spec fn view(&self) -> Seq<Seq<char>> {
        self.segments@.map_values(|i: Ident| i@)
    }
}

/// A lowered field type.
#[derive(Debug)]
pub enum Type {
    String,
    Void,
    U8,
    Bool,
    Bytes,
    I8,
    I16,
    I32,
    I64,
    F64,
    List(Box<Type>),
    SetOf(Box<Type>),
    MapOf(Box<Type>, Box<Type>),
    ArcSwap(Box<Type>),
    Path(Path),
}

/// The shape of a lowered type.
pub open spec fn ty_view(t: Type) -> TyV
    decreases t,
{
    match t {
        Type::String => TyV::String,
        Type::Void => TyV::Void,
        Type::U8 => TyV::U8,
        Type::Bool => TyV::Bool,
        Type::Bytes => TyV::Bytes,
        Type::I8 => TyV::I8,
        Type::I16 => TyV::I16,
        Type::I32 => TyV::I32,
        Type::I64 => TyV::I64,
        Type::F64 => TyV::F64,
        Type::List(inner) => TyV::List(Box::new(ty_view(*inner))),
        Type::SetOf(inner) => TyV::SetOf(Box::new(ty_view(*inner))),
        Type::MapOf(k, v) => TyV::MapOf(Box::new(ty_view(*k)), Box::new(ty_view(*v))),
        Type::ArcSwap(inner) => TyV::ArcSwap(Box::new(ty_view(*inner))),
        Type::Path(p) => TyV::Path(p@),
    }
}

impl View for Type {
    type V = TyV;

    open spec fn view(&self) -> TyV {
        ty_view(*self)
    }
}

impl Path {
    /// A copy holding the same segments.
    pub fn duplicate(&self) -> (r: Path)
        ensures
            r@ == self@,
    {
        let mut segments: Vec<Ident> = Vec::new();
        let n = self.segments.len();
        let mut i: usize = 0;
        while i < n
            invariant
                i <= n,
                n == self.segments@.len(),
                segments@ =~= self.segments@.subrange(0, i as int),
            decreases n - i,
        {
            segments.push(self.segments[i].duplicate());
            i += 1;
        }
        proof {
            assert(segments@ =~= self.segments@);
        }
        Path { segments }
    }
}

impl Type {
    /// A copy holding the same shape.
    pub fn duplicate(&self) -> (r: Type)
        ensures
            r@ == self@,
        decreases self,
    {
        match self {
            Type::String => Type::String,
            Type::Void => Type::Void,
            Type::U8 => Type::U8,
            Type::Bool => Type::Bool,
            Type::Bytes => Type::Bytes,
            Type::I8 => Type::I8,
            Type::I16 => Type::I16,
            Type::I32 => Type::I32,
            Type::I64 => Type::I64,
            Type::F64 => Type::F64,
            Type::List(inner) => Type::List(Box::new(inner.duplicate())),
            Type::SetOf(inner) => Type::SetOf(Box::new(inner.duplicate())),
            Type::MapOf(k, v) => Type::MapOf(Box::new(k.duplicate()), Box::new(v.duplicate())),
            Type::ArcSwap(inner) => Type::ArcSwap(Box::new(inner.duplicate())),
            Type::Path(p) => Type::Path(p.duplicate()),
        }
    }

    /// Map this lowered type to its target type descriptor: primitives map
    /// directly, containers map to the corresponding container descriptor,
    /// the shared-mutable wrapper to the atomically-swappable cell, and a
    /// path to a reference to an externally-defined type. Lowering
    /// preserves the type's shape exactly.
    pub fn to_codegen_ty(&self) -> (r: CodegenTy)
        ensures
            r@ == self@,
        decreases self,
    {
        match self {
            Type::String => CodegenTy::String,
            Type::Void => CodegenTy::Void,
            Type::U8 => CodegenTy::U8,
            Type::Bool => CodegenTy::Bool,
            Type::Bytes => CodegenTy::Bytes,
            Type::I8 => CodegenTy::I8,
            Type::I16 => CodegenTy::I16,
            Type::I32 => CodegenTy::I32,
            Type::I64 => CodegenTy::I64,
            Type::F64 => CodegenTy::F64,
            Type::List(inner) => CodegenTy::List(Box::new(inner.to_codegen_ty())),
            Type::SetOf(inner) => CodegenTy::SetOf(Box::new(inner.to_codegen_ty())),
            Type::MapOf(k, v) => CodegenTy::MapOf(
                Box::new(k.to_codegen_ty()),
                Box::new(v.to_codegen_ty()),
            ),
            Type::ArcSwap(inner) => CodegenTy::ArcSwap(Box::new(inner.to_codegen_ty())),
            Type::Path(p) => CodegenTy::Adt(Adt { segments: p.duplicate().segments }),
        }
    }
}

impl Field {
    /// A copy holding the same contents.
    pub fn duplicate(&self) -> (r: Field)
        ensures
            r@ == self@,
    {
        Field { name: self.name.duplicate(), ty: self.ty.duplicate(), tag_id: self.tag_id }
    }
}

impl Graph {
    /// A copy holding the same contents.
    pub fn duplicate(&self) -> (r: Graph)
        ensures
            r@ == self@,
    {
        Graph { name: self.name.duplicate(), entry_node: self.entry_node }
    }
}

impl Node {
    /// A copy holding the same contents.
    pub fn duplicate(&self) -> (r: Node)
        ensures
            r@ == self@,
    {
        let mut to_nodes: Vec<DefId> = Vec::new();
        let mut i: usize = 0;
        let n = self.to_nodes.len();
        while i < n
            invariant
                i <= n,
                n == self.to_nodes@.len(),
                to_nodes@ =~= self.to_nodes@.subrange(0, i as int),
            decreases n - i,
        {
            to_nodes.push(self.to_nodes[i]);
            i += 1;
        }
        let mut fields: Vec<Field> = Vec::new();
        let m = self.fields.len();
        let mut k: usize = 0;
        while k < m
            invariant
                k <= m,
                m == self.fields@.len(),
                fields@.len() == k,
                forall|x: int| 0 <= x < k ==> fields@[x]@ == #[trigger] self.fields@[x]@,
            decreases m - k,
        {
            fields.push(self.fields[k].duplicate());
            k += 1;
        }
        let r = Node { name: self.name.duplicate(), to_nodes, fields };
        proof {
            assert(to_nodes@ =~= self.to_nodes@);
            assert(r@.fields =~= self@.fields);
        }
        r
    }
}

} // verus!

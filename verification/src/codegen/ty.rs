//! Target type descriptors: what a lowered field type renders to in the
//! generated artifact. The textual rendering itself is left to the
//! emission collaborator outside the library.
use vstd::prelude::*;
use crate::symbol::Ident;

verus! {

/// The mathematical shape of a type: the abstraction both the lowered type
/// and its target descriptor are viewed through. Lowering preserves it.
pub enum TyV {
    String,
    Void,
    U8,
    Bool,
    Bytes,
    I8,
    I16,
    I32,
    I64,
    F32,
    F64,
    List(Box<TyV>),
    SetOf(Box<TyV>),
    MapOf(Box<TyV>, Box<TyV>),
    ArcSwap(Box<TyV>),
    Path(Seq<Seq<char>>),
}

/// A descriptor of a target-language type.
#[derive(Debug)]
pub enum CodegenTy {
    String,
    Void,
    U8,
    Bool,
    Bytes,
    I8,
    I16,
    I32,
    I64,
    F32,
    F64,
    List(Box<CodegenTy>),
    SetOf(Box<CodegenTy>),
    MapOf(Box<CodegenTy>, Box<CodegenTy>),
    ArcSwap(Box<CodegenTy>),
    Adt(Adt),
}

/// A reference to an externally-defined type by qualified name.
#[derive(Debug)]
pub struct Adt {
    pub segments: Vec<Ident>,
}

impl View for Adt {
    type V = Seq<Seq<char>>;

    open spec fn view(&self) -> Seq<Seq<char>> {
        self.segments@.map_values(|i: Ident| i@)
    }
}

impl View for CodegenTy {
    type V = TyV;

    open spec fn view(&self) -> TyV {
        codegen_ty_view(*self)
    }
}

/// The shape of a target type descriptor.
pub open spec fn codegen_ty_view(t: CodegenTy) -> TyV
    decreases t,
{
    match t {
        CodegenTy::String => TyV::String,
        CodegenTy::Void => TyV::Void,
        CodegenTy::U8 => TyV::U8,
        CodegenTy::Bool => TyV::Bool,
        CodegenTy::Bytes => TyV::Bytes,
        CodegenTy::I8 => TyV::I8,
        CodegenTy::I16 => TyV::I16,
        CodegenTy::I32 => TyV::I32,
        CodegenTy::I64 => TyV::I64,
        CodegenTy::F32 => TyV::F32,
        CodegenTy::F64 => TyV::F64,
        CodegenTy::List(inner) => TyV::List(Box::new(codegen_ty_view(*inner))),
        CodegenTy::SetOf(inner) => TyV::SetOf(Box::new(codegen_ty_view(*inner))),
        CodegenTy::MapOf(k, v) => TyV::MapOf(
            Box::new(codegen_ty_view(*k)),
            Box::new(codegen_ty_view(*v)),
        ),
        CodegenTy::ArcSwap(inner) => TyV::ArcSwap(Box::new(codegen_ty_view(*inner))),
        CodegenTy::Adt(adt) => TyV::Path(adt@),
    }
}

} // verus!

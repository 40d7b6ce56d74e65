//! Fields: an optionally annotated `name: type` pair.
use vstd::prelude::*;
use crate::codegen::ty::TyV;
use super::annotations::{lemma_spec_annotations, spec_annotations, Annotations};
use super::ident::{lemma_spec_ident, spec_ident, Ident};
use super::ty::{lemma_spec_ty, spec_ty, Type};
use super::{
    lemma_spec_blank_end, opt_blank_at, opt_sep_at, spec_blank_end, spec_opt_sep, spec_tag,
    tag_at, ParseError, rest_of,
};

verus! {

/// One typed payload field of a node.
#[derive(Debug)]
pub struct Field {
    pub name: Ident,
    pub ty: Type,
    pub annotations: Annotations,
}

/// The mathematical content of a written field.
pub struct FieldPV {
    pub name: Seq<char>,
    pub ty: TyV,
    pub annotations: Seq<(Seq<char>, Seq<char>)>,
}

impl View for Field {
    type V = FieldPV;

    open spec fn view(&self) -> FieldPV {
        FieldPV { name: self.name@, ty: self.ty@, annotations: self.annotations@ }
    }
}

/// The field starting at `i`, if one stands there: an optional annotation
/// block, the name, a colon, the type, and an optional trailing
/// separator, blanks between.
pub open spec fn spec_field(s: Seq<char>, i: int) -> Option<(int, FieldPV)> {
    let (a, anns) = match spec_annotations(s, i) {
        Some((a, anns)) => (a, anns),
        None => (i, Seq::<(Seq<char>, Seq<char>)>::empty()),
    };
    let b = spec_blank_end(s, a);
    match spec_ident(s, b) {
        Some((c, name)) => {
            if spec_tag(s, c, ":"@) {
                let e = spec_blank_end(s, c + 1);
                match spec_ty(s, e) {
                    Some((f, ty)) => {
                        let g = spec_blank_end(s, f);
                        Some((spec_opt_sep(s, g), FieldPV { name, ty, annotations: anns }))
                    },
                    None => None,
                }
            } else {
                None
            }
        },
        None => None,
    }
}

/// A field consumes at least one character and stays in the text.
pub proof fn lemma_spec_field(s: Seq<char>, i: int)
    requires
        0 <= i <= s.len(),
    ensures
        match spec_field(s, i) {
            Some((j, _)) => i < j <= s.len(),
            None => true,
        },
{
    reveal_strlit(":");
    lemma_spec_annotations(s, i);
    let a = match spec_annotations(s, i) {
        Some((a, anns)) => a,
        None => i,
    };
    lemma_spec_blank_end(s, a);
    let b = spec_blank_end(s, a);
    lemma_spec_ident(s, b);
    match spec_ident(s, b) {
        Some((c, name)) => {
            if spec_tag(s, c, ":"@) {
                lemma_spec_blank_end(s, c + 1);
                let e = spec_blank_end(s, c + 1);
                lemma_spec_ty(s, e);
                match spec_ty(s, e) {
                    Some((f, ty)) => {
                        lemma_spec_blank_end(s, f);
                    },
                    None => {},
                }
            }
        },
        None => {},
    }
}

impl Field {
    /// Consume one field starting at `i`: optional annotations, the name,
    /// a colon, the type, and an optional trailing separator.
    pub fn parse_at(s: &str, i: usize) -> (r: Option<(usize, Field)>)
        requires
            i <= s@.len(),
        ensures
            match r {
                Some((j, f)) => {
                    &&& i < j <= s@.len()
                    &&& spec_field(s@, i as int) == Some((j as int, f@))
                },
                None => spec_field(s@, i as int) is None,
            },
    {
        proof {
            reveal_strlit(":");
            lemma_spec_field(s@, i as int);
        }
        let (a, annotations) = match Annotations::parse_at(s, i) {
            Some((a, anns)) => (a, anns),
            None => (i, Annotations(Vec::new())),
        };
        proof {
            assert(annotations@ =~= (match spec_annotations(s@, i as int) {
                Some((a2, anns2)) => anns2,
                None => Seq::<(Seq<char>, Seq<char>)>::empty(),
            }));
        }
        let b = opt_blank_at(s, a);
        match Ident::parse_at(s, b) {
            None => None,
            Some((c, name)) => {
                match tag_at(s, c, ":") {
                    None => None,
                    Some(d) => {
                        let e = opt_blank_at(s, d);
                        match Type::parse_at(s, e) {
                            None => None,
                            Some((f, ty)) => {
                                let g = opt_blank_at(s, f);
                                let j = opt_sep_at(s, g);
                                Some((j, Field { name, ty, annotations }))
                            },
                        }
                    },
                }
            },
        }
    }

    /// Parse one field from the front of `input`, returning the remaining
    /// input beside it.
    pub fn parse(input: &str) -> (r: Result<(&str, Field), ParseError>)
        ensures
            match r {
                Ok((rem, f)) => spec_field(input@, 0) matches Some((j, fv)) && f@ == fv && rem@
                    == input@.subrange(j, input@.len() as int),
                Err(_) => spec_field(input@, 0) is None,
            },
    {
        match Field::parse_at(input, 0) {
            Some((j, f)) => Ok((rest_of(input, j), f)),
            None => Err(ParseError),
        }
    }
}

} // verus!

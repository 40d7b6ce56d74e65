//! Field types: primitives, containers and qualified paths.
use vstd::prelude::*;
use crate::codegen::ty::TyV;
use super::path::{lemma_spec_path, spec_path, Path};
use super::{
    lemma_spec_blank_end, opt_blank_at, sep_at, spec_blank_end, spec_tag, tag_at, ParseError,
    rest_of,
};

verus! {

/// A type as written in the source text.
#[derive(Debug)]
pub enum Type {
    String,
    Void,
    Byte,
    Bool,
    Binary,
    I8,
    I16,
    I32,
    I64,
    Double,
    List { value: Box<Type> },
    SetOf { value: Box<Type> },
    MapOf { key: Box<Type>, value: Box<Type> },
    Path(Path),
}

/// The shape a written type denotes: `byte` is an unsigned octet, `binary`
/// a byte string, `double` a 64-bit floating-point number.
pub open spec fn parsed_ty_view(t: Type) -> TyV
    decreases t,
{
    match t {
        Type::String => TyV::String,
        Type::Void => TyV::Void,
        Type::Byte => TyV::U8,
        Type::Bool => TyV::Bool,
        Type::Binary => TyV::Bytes,
        Type::I8 => TyV::I8,
        Type::I16 => TyV::I16,
        Type::I32 => TyV::I32,
        Type::I64 => TyV::I64,
        Type::Double => TyV::F64,
        Type::List { value } => TyV::List(Box::new(parsed_ty_view(*value))),
        Type::SetOf { value } => TyV::SetOf(Box::new(parsed_ty_view(*value))),
        Type::MapOf { key, value } => TyV::MapOf(
            Box::new(parsed_ty_view(*key)),
            Box::new(parsed_ty_view(*value)),
        ),
        Type::Path(p) => TyV::Path(p@),
    }
}

impl View for Type {
    type V = TyV;

    open spec fn view(&self) -> TyV {
        parsed_ty_view(*self)
    }
}

/// One element type in angle brackets after a container keyword:
/// `< inner >` with optional blanks, the inner type parsed recursively.
pub open spec fn spec_angle_one(s: Seq<char>, i: int) -> Option<(int, TyV)>
    decreases s.len() - i, 1int,
    when 0 <= i <= s.len()
    via spec_angle_one_decreases
{
    let a = spec_blank_end(s, i);
    if spec_tag(s, a, "<"@) {
        let c = spec_blank_end(s, a + 1);
        match spec_ty(s, c) {
            Some((d, inner)) => {
                if c < d <= s.len() {
                    let e = spec_blank_end(s, d);
                    if spec_tag(s, e, ">"@) {
                        Some((e + 1, inner))
                    } else {
                        None
                    }
                } else {
                    None
                }
            },
            None => None,
        }
    } else {
        None
    }
}

#[via_fn]
proof fn spec_angle_one_decreases(s: Seq<char>, i: int) {
    reveal_strlit("<");
    assert forall|x: int| 0 <= x <= s.len() implies x <= #[trigger] spec_blank_end(s, x)
        <= s.len() by {
        lemma_spec_blank_end(s, x);
    }
}

/// A key and a value type in angle brackets after the keyed-container
/// keyword: `< key , value >` with optional blanks, each side parsed
/// recursively.
pub open spec fn spec_angle_two(s: Seq<char>, i: int) -> Option<(int, (TyV, TyV))>
    decreases s.len() - i, 1int,
    when 0 <= i <= s.len()
    via spec_angle_two_decreases
{
    let a = spec_blank_end(s, i);
    if spec_tag(s, a, "<"@) {
        let c = spec_blank_end(s, a + 1);
        match spec_ty(s, c) {
            Some((d, key)) => {
                if c < d <= s.len() {
                    let e = spec_blank_end(s, d);
                    if e < s.len() && super::is_sep_char(s[e]) {
                        let g = spec_blank_end(s, e + 1);
                        match spec_ty(s, g) {
                            Some((h, value)) => {
                                if g < h <= s.len() {
                                    let k = spec_blank_end(s, h);
                                    if spec_tag(s, k, ">"@) {
                                        Some((k + 1, (key, value)))
                                    } else {
                                        None
                                    }
                                } else {
                                    None
                                }
                            },
                            None => None,
                        }
                    } else {
                        None
                    }
                } else {
                    None
                }
            },
            None => None,
        }
    } else {
        None
    }
}

#[via_fn]
proof fn spec_angle_two_decreases(s: Seq<char>, i: int) {
    reveal_strlit("<");
    assert forall|x: int| 0 <= x <= s.len() implies x <= #[trigger] spec_blank_end(s, x)
        <= s.len() by {
        lemma_spec_blank_end(s, x);
    }
}

/// The type starting at `i`, if one stands there: keywords are tried
/// first, in order, each matching as a prefix; a container keyword only
/// matches together with its angle-bracketed element types; what matches
/// none of them is read as a qualified path.
pub open spec fn spec_ty(s: Seq<char>, i: int) -> Option<(int, TyV)>
    decreases s.len() - i, 0int,
    when 0 <= i <= s.len()
    via spec_ty_decreases
{
    if spec_tag(s, i, "string"@) {
        Some((i + 6, TyV::String))
    } else if spec_tag(s, i, "void"@) {
        Some((i + 4, TyV::Void))
    } else if spec_tag(s, i, "byte"@) {
        Some((i + 4, TyV::U8))
    } else if spec_tag(s, i, "bool"@) {
        Some((i + 4, TyV::Bool))
    } else if spec_tag(s, i, "binary"@) {
        Some((i + 6, TyV::Bytes))
    } else if spec_tag(s, i, "i8"@) {
        Some((i + 2, TyV::I8))
    } else if spec_tag(s, i, "i16"@) {
        Some((i + 3, TyV::I16))
    } else if spec_tag(s, i, "i32"@) {
        Some((i + 3, TyV::I32))
    } else if spec_tag(s, i, "i64"@) {
        Some((i + 3, TyV::I64))
    } else if spec_tag(s, i, "double"@) {
        Some((i + 6, TyV::F64))
    } else if spec_tag(s, i, "list"@) && spec_angle_one(s, i + 4) is Some {
        let (j, inner) = spec_angle_one(s, i + 4).unwrap();
        Some((j, TyV::List(Box::new(inner))))
    } else if spec_tag(s, i, "set"@) && spec_angle_one(s, i + 3) is Some {
        let (j, inner) = spec_angle_one(s, i + 3).unwrap();
        Some((j, TyV::SetOf(Box::new(inner))))
    } else if spec_tag(s, i, "map"@) && spec_angle_two(s, i + 3) is Some {
        let (j, kv) = spec_angle_two(s, i + 3).unwrap();
        Some((j, TyV::MapOf(Box::new(kv.0), Box::new(kv.1))))
    } else {
        match spec_path(s, i) {
            Some((j, segs)) => Some((j, TyV::Path(segs))),
            None => None,
        }
    }
}

#[via_fn]
proof fn spec_ty_decreases(s: Seq<char>, i: int) {
    reveal_strlit("list");
    reveal_strlit("set");
    reveal_strlit("map");
}

/// An angle-bracketed element consumes at least its brackets.
pub proof fn lemma_spec_angle_one(s: Seq<char>, i: int)
    requires
        0 <= i <= s.len(),
    ensures
        match spec_angle_one(s, i) {
            Some((j, _)) => i < j <= s.len(),
            None => true,
        },
    decreases s.len() - i, 3int,
{
    reveal_strlit("<");
    reveal_strlit(">");
    lemma_spec_blank_end(s, i);
    let a = spec_blank_end(s, i);
    if spec_tag(s, a, "<"@) {
        lemma_spec_blank_end(s, a + 1);
        let c = spec_blank_end(s, a + 1);
        lemma_spec_ty(s, c);
        match spec_ty(s, c) {
            Some((d, _)) => {
                if c < d <= s.len() {
                    lemma_spec_blank_end(s, d);
                }
            },
            None => {},
        }
    }
}

/// An angle-bracketed pair consumes at least its brackets.
pub proof fn lemma_spec_angle_two(s: Seq<char>, i: int)
    requires
        0 <= i <= s.len(),
    ensures
        match spec_angle_two(s, i) {
            Some((j, _)) => i < j <= s.len(),
            None => true,
        },
    decreases s.len() - i, 3int,
{
    reveal_strlit("<");
    reveal_strlit(">");
    lemma_spec_blank_end(s, i);
    let a = spec_blank_end(s, i);
    if spec_tag(s, a, "<"@) {
        lemma_spec_blank_end(s, a + 1);
        let c = spec_blank_end(s, a + 1);
        lemma_spec_ty(s, c);
        match spec_ty(s, c) {
            Some((d, _)) => {
                if c < d <= s.len() {
                    lemma_spec_blank_end(s, d);
                    let e = spec_blank_end(s, d);
                    if e < s.len() && super::is_sep_char(s[e]) {
                        lemma_spec_blank_end(s, e + 1);
                        let g = spec_blank_end(s, e + 1);
                        lemma_spec_ty(s, g);
                        match spec_ty(s, g) {
                            Some((h, _)) => {
                                if g < h <= s.len() {
                                    lemma_spec_blank_end(s, h);
                                }
                            },
                            None => {},
                        }
                    }
                }
            },
            None => {},
        }
    }
}

/// A type consumes at least one character and stays in the text.
pub proof fn lemma_spec_ty(s: Seq<char>, i: int)
    requires
        0 <= i <= s.len(),
    ensures
        match spec_ty(s, i) {
            Some((j, _)) => i < j <= s.len(),
            None => true,
        },
    decreases s.len() - i, 2int,
{
    reveal_strlit("string");
    reveal_strlit("void");
    reveal_strlit("byte");
    reveal_strlit("bool");
    reveal_strlit("binary");
    reveal_strlit("i8");
    reveal_strlit("i16");
    reveal_strlit("i32");
    reveal_strlit("i64");
    reveal_strlit("double");
    reveal_strlit("list");
    reveal_strlit("set");
    reveal_strlit("map");
    if spec_tag(s, i, "list"@) {
        lemma_spec_angle_one(s, i + 4);
    }
    if spec_tag(s, i, "set"@) {
        lemma_spec_angle_one(s, i + 3);
    }
    if spec_tag(s, i, "map"@) {
        lemma_spec_angle_two(s, i + 3);
    }
    lemma_spec_path(s, i);
}

/// Consume `< inner >` after a container keyword.
fn angle_one_at(s: &str, i: usize) -> (r: Option<(usize, Type)>)
    requires
        i <= s@.len(),
    ensures
        match r {
            Some((j, t)) => i < j <= s@.len() && spec_angle_one(s@, i as int) == Some(
                (j as int, t@),
            ),
            None => spec_angle_one(s@, i as int) is None,
        },
    decreases s@.len() - i, 1int,
{
    proof {
        reveal_strlit("<");
        reveal_strlit(">");
        lemma_spec_angle_one(s@, i as int);
    }
    let a = opt_blank_at(s, i);
    match tag_at(s, a, "<") {
        None => None,
        Some(b) => {
            let c = opt_blank_at(s, b);
            match Type::parse_at(s, c) {
                None => None,
                Some((d, inner)) => {
                    let e = opt_blank_at(s, d);
                    match tag_at(s, e, ">") {
                        None => None,
                        Some(j) => Some((j, inner)),
                    }
                },
            }
        },
    }
}

/// Consume `< key , value >` after the keyed-container keyword.
fn angle_two_at(s: &str, i: usize) -> (r: Option<(usize, (Type, Type))>)
    requires
        i <= s@.len(),
    ensures
        match r {
            Some((j, kv)) => i < j <= s@.len() && spec_angle_two(s@, i as int) == Some(
                (j as int, (kv.0@, kv.1@)),
            ),
            None => spec_angle_two(s@, i as int) is None,
        },
    decreases s@.len() - i, 1int,
{
    proof {
        reveal_strlit("<");
        reveal_strlit(">");
        lemma_spec_angle_two(s@, i as int);
    }
    let a = opt_blank_at(s, i);
    match tag_at(s, a, "<") {
        None => None,
        Some(b) => {
            let c = opt_blank_at(s, b);
            match Type::parse_at(s, c) {
                None => None,
                Some((d, key)) => {
                    let e = opt_blank_at(s, d);
                    match sep_at(s, e) {
                        None => None,
                        Some(f) => {
                            let g = opt_blank_at(s, f);
                            match Type::parse_at(s, g) {
                                None => None,
                                Some((h, value)) => {
                                    let k = opt_blank_at(s, h);
                                    match tag_at(s, k, ">") {
                                        None => None,
                                        Some(j) => Some((j, (key, value))),
                                    }
                                },
                            }
                        },
                    }
                },
            }
        },
    }
}

impl Type {
    /// Consume one type starting at `i`. Keywords are tried first, in
    /// order; what matches none of them is read as a qualified path.
    pub fn parse_at(s: &str, i: usize) -> (r: Option<(usize, Type)>)
        requires
            i <= s@.len(),
        ensures
            match r {
                Some((j, t)) => i < j <= s@.len() && spec_ty(s@, i as int) == Some((j as int, t@)),
                None => spec_ty(s@, i as int) is None,
            },
        decreases s@.len() - i, 0int,
    {
        proof {
            reveal_strlit("string");
            reveal_strlit("void");
            reveal_strlit("byte");
            reveal_strlit("bool");
            reveal_strlit("binary");
            reveal_strlit("i8");
            reveal_strlit("i16");
            reveal_strlit("i32");
            reveal_strlit("i64");
            reveal_strlit("double");
            reveal_strlit("list");
            reveal_strlit("set");
            reveal_strlit("map");
            lemma_spec_ty(s@, i as int);
        }
        if let Some(j) = tag_at(s, i, "string") {
            return Some((j, Type::String));
        }
        if let Some(j) = tag_at(s, i, "void") {
            return Some((j, Type::Void));
        }
        if let Some(j) = tag_at(s, i, "byte") {
            return Some((j, Type::Byte));
        }
        if let Some(j) = tag_at(s, i, "bool") {
            return Some((j, Type::Bool));
        }
        if let Some(j) = tag_at(s, i, "binary") {
            return Some((j, Type::Binary));
        }
        if let Some(j) = tag_at(s, i, "i8") {
            return Some((j, Type::I8));
        }
        if let Some(j) = tag_at(s, i, "i16") {
            return Some((j, Type::I16));
        }
        if let Some(j) = tag_at(s, i, "i32") {
            return Some((j, Type::I32));
        }
        if let Some(j) = tag_at(s, i, "i64") {
            return Some((j, Type::I64));
        }
        if let Some(j) = tag_at(s, i, "double") {
            return Some((j, Type::Double));
        }
        if let Some(j) = tag_at(s, i, "list") {
            if let Some((k, inner)) = angle_one_at(s, j) {
                return Some((k, Type::List { value: Box::new(inner) }));
            }
        }
        if let Some(j) = tag_at(s, i, "set") {
            if let Some((k, inner)) = angle_one_at(s, j) {
                return Some((k, Type::SetOf { value: Box::new(inner) }));
            }
        }
        if let Some(j) = tag_at(s, i, "map") {
            if let Some((k, kv)) = angle_two_at(s, j) {
                let (key, value) = kv;
                return Some((k, Type::MapOf { key: Box::new(key), value: Box::new(value) }));
            }
        }
        match Path::parse_at(s, i) {
            Some((j, p)) => Some((j, Type::Path(p))),
            None => None,
        }
    }

    /// Parse one type from the front of `input`, returning the remaining
    /// input beside it.
    pub fn parse(input: &str) -> (r: Result<(&str, Type), ParseError>)
        ensures
            match r {
                Ok((rem, t)) => spec_ty(input@, 0) matches Some((j, tv)) && t@ == tv && rem@
                    == input@.subrange(j, input@.len() as int),
                Err(_) => spec_ty(input@, 0) is None,
            },
    {
        match Type::parse_at(input, 0) {
            Some((j, t)) => Ok((rest_of(input, j), t)),
            None => Err(ParseError),
        }
    }
}

} // verus!

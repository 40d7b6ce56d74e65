//! Interned names and the dense index types that identify definitions.
use vstd::prelude::*;
use vstd::string::StrSliceExecFns;
use heck::ToSnakeCase;
use heck::ToUpperCamelCase;

verus! {

/// Dense integer key uniquely identifying a node, graph or field definition.
/// Assigned monotonically by the resolver and never reused within one
/// compilation.
#[derive(Clone, Copy, PartialEq, Eq, Structural, Hash, Debug)]
pub struct DefId(pub usize);

/// Dense integer key identifying one field's annotation set.
#[derive(Clone, Copy, PartialEq, Eq, Structural, Hash, Debug)]
pub struct TagId(pub usize);

/// An interned name. Identical text always resolves to the identical
/// definition id; the resolver's symbol table enforces this.
#[derive(Debug)]
pub struct Symbol(pub String);

impl View for Symbol {
    type V = Seq<char>;

    open spec fn view(&self) -> Seq<char> {
        self.0@
    }
}

impl Symbol {
    /// A copy holding the same text.
    pub fn duplicate(&self) -> (r: Symbol)
        ensures
            r == *self,
    {
        Symbol(self.0.clone())
    }
}

/// A resolved identifier: a symbol as it appears in the intermediate
/// representation.
#[derive(Debug)]
pub struct Ident {
    pub sym: Symbol,
}

impl View for Ident {
    type V = Seq<char>;

    open spec fn view(&self) -> Seq<char> {
        self.sym@
    }
}

impl Ident {
    pub fn new(sym: Symbol) -> (r: Ident)
        ensures
            r@ == sym@,
    {
        Ident { sym }
    }

    /// A copy holding the same text.
    pub fn duplicate(&self) -> (r: Ident)
        ensures
            r == *self,
    {
        Ident { sym: self.sym.duplicate() }
    }
}

/// Character-for-character equality of two string slices.
pub fn str_eq(a: &str, b: &str) -> (r: bool)
    ensures
        r == (a@ == b@),
{
    let n = a.unicode_len();
    if n != b.unicode_len() {
        return false;
    }
    let mut i: usize = 0;
    while i < n
        invariant
            i <= n,
            n == a@.len(),
            n == b@.len(),
            forall|j: int| 0 <= j < i ==> a@[j] == b@[j],
        decreases n - i,
    {
        if a.get_char(i) != b.get_char(i) {
            return false;
        }
        i += 1;
    }
    proof {
        assert(a@ =~= b@);
    }
    true
}

/// The snake_case rendering of a sequence of characters, as the case
/// conversion library defines it.
pub uninterp spec fn snake_of(s: Seq<char>) -> Seq<char>;

/// The UpperCamelCase rendering of a sequence of characters, as the case
/// conversion library defines it.
pub uninterp spec fn upper_camel_of(s: Seq<char>) -> Seq<char>;

/// Relies on heck's `ToSnakeCase` for `str`: the result is a pure function
/// of the input characters, and an input without words (such as the empty
/// string) produces an empty output.
#[verifier::external_body]
pub(crate) fn to_snake_str(s: &str) -> (r: String)
    ensures
        r@ == snake_of(s@),
        s@.len() == 0 ==> r@.len() == 0,
{
    s.to_snake_case()
}

/// Relies on heck's `ToUpperCamelCase` for `str`: the result is a pure
/// function of the input characters, and an input without words (such as
/// the empty string) produces an empty output.
#[verifier::external_body]
pub(crate) fn to_upper_camel_str(s: &str) -> (r: String)
    ensures
        r@ == upper_camel_of(s@),
        s@.len() == 0 ==> r@.len() == 0,
{
    s.to_upper_camel_case()
}

} // verus!

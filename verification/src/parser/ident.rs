//! Identifiers: optional leading underscores, one ASCII letter, then
//! letters, digits and underscores, consumed maximally.
use vstd::prelude::*;
use vstd::string::StrSliceExecFns;
use super::{
    is_alpha, is_alpha_char, is_ident, is_ident_char, lemma_scan_while, lemma_scan_while_is,
    scan_while, ParseError, rest_of,
};

verus! {

/// An identifier as written in the source text.
#[derive(Debug)]
pub struct Ident(pub String);

impl View for Ident {
    type V = Seq<char>;

    open spec fn view(&self) -> Seq<char> {
        self.0@
    }
}

/// The identifier starting at `i`, if one stands there: its end position
/// and its text, which is exactly the consumed span.
pub open spec fn spec_ident(s: Seq<char>, i: int) -> Option<(int, Seq<char>)> {
    let u = scan_while(s, i, |c: char| c == '_');
    if u < s.len() && is_alpha_char(s[u]) {
        let j = scan_while(s, u + 1, |c: char| is_ident_char(c));
        Some((j, s.subrange(i, j)))
    } else {
        None
    }
}

/// An identifier consumes at least one character and stays in the text.
pub proof fn lemma_spec_ident(s: Seq<char>, i: int)
    requires
        0 <= i <= s.len(),
    ensures
        match spec_ident(s, i) {
            Some((j, text)) => i < j <= s.len() && text == s.subrange(i, j),
            None => true,
        },
{
    lemma_scan_while(s, i, |c: char| c == '_');
    let u = scan_while(s, i, |c: char| c == '_');
    if u < s.len() && is_alpha_char(s[u]) {
        lemma_scan_while(s, u + 1, |c: char| is_ident_char(c));
    }
}

impl Ident {
    /// Consume one identifier starting at `i`; the returned text is
    /// exactly what was consumed.
    pub fn parse_at(s: &str, i: usize) -> (r: Option<(usize, Ident)>)
        requires
            i <= s@.len(),
        ensures
            match r {
                Some((j, id)) => {
                    &&& i < j <= s@.len()
                    &&& spec_ident(s@, i as int) == Some((j as int, id@))
                },
                None => spec_ident(s@, i as int) is None,
            },
    {
        proof {
            lemma_spec_ident(s@, i as int);
        }
        let n = s.unicode_len();
        let mut k: usize = i;
        while k < n && s.get_char(k) == '_'
            invariant
                i <= k <= n,
                n == s@.len(),
                forall|x: int| i <= x < k ==> s@[x] == '_',
            decreases n - k,
        {
            k += 1;
        }
        proof {
            lemma_scan_while_is(s@, i as int, k as int, |c: char| c == '_');
        }
        if k >= n || !is_alpha(s.get_char(k)) {
            return None;
        }
        k += 1;
        let ghost u1 = k as int;
        while k < n && is_ident(s.get_char(k))
            invariant
                i < k <= n,
                u1 <= k,
                n == s@.len(),
                forall|x: int| u1 <= x < k ==> is_ident_char(s@[x]),
            decreases n - k,
        {
            k += 1;
        }
        proof {
            lemma_scan_while_is(s@, u1, k as int, |c: char| is_ident_char(c));
        }
        let text = s.substring_char(i, k).to_owned();
        Some((k, Ident(text)))
    }

    /// Parse one identifier from the front of `input`, returning the
    /// remaining input beside it.
    pub fn parse(input: &str) -> (r: Result<(&str, Ident), ParseError>)
        ensures
            match r {
                Ok((rem, id)) => spec_ident(input@, 0) matches Some((j, text)) && id@ == text
                    && rem@ == input@.subrange(j, input@.len() as int),
                Err(_) => spec_ident(input@, 0) is None,
            },
    {
        match Ident::parse_at(input, 0) {
            Some((j, id)) => Ok((rest_of(input, j), id)),
            None => Err(ParseError),
        }
    }
}

} // verus!

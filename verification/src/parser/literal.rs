//! Quoted string literals, single- or double-quoted, with backslash
//! escapes. The stored value is the raw text between the quotes.
use vstd::prelude::*;
use vstd::string::StrSliceExecFns;
use super::{ParseError, rest_of};

verus! {

/// A string literal's contents, escapes left as written.
#[derive(Debug)]
pub struct Literal(pub String);

impl View for Literal {
    type V = Seq<char>;

    open spec fn view(&self) -> Seq<char> {
        self.0@
    }
}

/// A character a backslash may escape.
pub open spec fn is_escapable_char(c: char) -> bool {
    c == '\'' || c == '"' || c == 'n' || c == '\\'
}

/// The position of the literal's closing quote, scanning its body from
/// `i`: ordinary characters pass one by one, a backslash must be followed
/// by an escapable character and passes as a pair, and an unterminated
/// body has no end.
pub open spec fn spec_quoted_end(s: Seq<char>, i: int, quote: char) -> Option<int>
    decreases s.len() - i,
    when 0 <= i <= s.len()
{
    if i >= s.len() {
        None
    } else if s[i] == quote {
        Some(i)
    } else if s[i] == '\\' {
        if i + 1 < s.len() && is_escapable_char(s[i + 1]) {
            spec_quoted_end(s, i + 2, quote)
        } else {
            None
        }
    } else {
        spec_quoted_end(s, i + 1, quote)
    }
}

/// A body's end lies at or beyond its start, within the text, on the
/// quote.
pub proof fn lemma_spec_quoted_end(s: Seq<char>, i: int, quote: char)
    requires
        0 <= i <= s.len(),
    ensures
        match spec_quoted_end(s, i, quote) {
            Some(e) => i <= e < s.len() && s[e] == quote,
            None => true,
        },
    decreases s.len() - i,
{
    if i < s.len() && s[i] != quote {
        if s[i] == '\\' {
            if i + 1 < s.len() && is_escapable_char(s[i + 1]) {
                lemma_spec_quoted_end(s, i + 2, quote);
            }
        } else {
            lemma_spec_quoted_end(s, i + 1, quote);
        }
    }
}

/// The literal delimited by `quote` starting at `i`, if one stands there:
/// the position after the closing quote, and the raw text between the
/// quotes.
pub open spec fn spec_quoted(s: Seq<char>, i: int, quote: char) -> Option<(int, Seq<char>)> {
    if i < s.len() && s[i] == quote {
        match spec_quoted_end(s, i + 1, quote) {
            Some(e) => Some((e + 1, s.subrange(i + 1, e))),
            None => None,
        }
    } else {
        None
    }
}

/// The literal starting at `i`: single-quoted if it opens with a single
/// quote, else double-quoted.
pub open spec fn spec_literal(s: Seq<char>, i: int) -> Option<(int, Seq<char>)> {
    match spec_quoted(s, i, '\'') {
        Some(r) => Some(r),
        None => spec_quoted(s, i, '"'),
    }
}

/// A literal consumes at least its two quotes and stays in the text.
pub proof fn lemma_spec_literal(s: Seq<char>, i: int)
    requires
        0 <= i <= s.len(),
    ensures
        match spec_literal(s, i) {
            Some((j, _)) => i + 2 <= j <= s.len(),
            None => true,
        },
{
    if i < s.len() {
        lemma_spec_quoted_end(s, i + 1, '\'');
        lemma_spec_quoted_end(s, i + 1, '"');
    }
}

/// Consume a literal delimited by `quote`.
fn quoted_at(s: &str, i: usize, quote: char) -> (r: Option<(usize, Literal)>)
    requires
        i <= s@.len(),
    ensures
        match r {
            Some((j, lit)) => {
                &&& i + 2 <= j <= s@.len()
                &&& spec_quoted(s@, i as int, quote) == Some((j as int, lit@))
            },
            None => spec_quoted(s@, i as int, quote) is None,
        },
{
    let n = s.unicode_len();
    if i >= n || s.get_char(i) != quote {
        return None;
    }
    proof {
        lemma_spec_quoted_end(s@, i as int + 1, quote);
    }
    let mut k: usize = i + 1;
    while k < n
        invariant
            i + 1 <= k <= n,
            n == s@.len(),
            i < n,
            s@[i as int] == quote,
            spec_quoted_end(s@, i as int + 1, quote) == spec_quoted_end(s@, k as int, quote),
        decreases n - k,
    {
        let c = s.get_char(k);
        if c == quote {
            proof {
                assert(spec_quoted_end(s@, k as int, quote) == Some(k as int));
                lemma_spec_quoted_end(s@, i as int + 1, quote);
            }
            let text = s.substring_char(i + 1, k).to_owned();
            return Some((k + 1, Literal(text)));
        }
        if c == '\\' {
            if k + 1 >= n {
                return None;
            }
            let e = s.get_char(k + 1);
            if e == '\'' || e == '"' || e == 'n' || e == '\\' {
                k += 2;
            } else {
                return None;
            }
        } else {
            k += 1;
        }
    }
    None
}

impl Literal {
    /// Consume one literal starting at `i`, single- or double-quoted.
    pub fn parse_at(s: &str, i: usize) -> (r: Option<(usize, Literal)>)
        requires
            i <= s@.len(),
        ensures
            match r {
                Some((j, lit)) => {
                    &&& i + 2 <= j <= s@.len()
                    &&& spec_literal(s@, i as int) == Some((j as int, lit@))
                },
                None => spec_literal(s@, i as int) is None,
            },
    {
        match quoted_at(s, i, '\'') {
            Some(r) => Some(r),
            None => quoted_at(s, i, '"'),
        }
    }

    /// Parse one literal from the front of `input`, returning the
    /// remaining input beside it.
    pub fn parse(input: &str) -> (r: Result<(&str, Literal), ParseError>)
        ensures
            match r {
                Ok((rem, lit)) => spec_literal(input@, 0) matches Some((j, text)) && lit@ == text
                    && rem@ == input@.subrange(j, input@.len() as int),
                Err(_) => spec_literal(input@, 0) is None,
            },
    {
        match Literal::parse_at(input, 0) {
            Some((j, lit)) => Ok((rest_of(input, j), lit)),
            None => Err(ParseError),
        }
    }
}

} // verus!

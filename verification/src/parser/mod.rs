//! Hand-written recursive-descent parser for the graph DSL.
//!
//! A document holds `node` and `graph` declarations. Parsing works over a
//! string slice and a character position; every internal parser returns the
//! position after what it consumed, and its contract equates its result
//! with a spec-level parsing function of the text, so what is parsed —
//! value, consumed span and determinism — is pinned exactly. Grammar
//! errors are fatal: the first failure aborts with no recovery.
pub mod annotations;
pub mod document;
pub mod field;
pub mod graph;
pub mod ident;
pub mod literal;
pub mod node;
pub mod path;
pub mod ty;

use vstd::prelude::*;
use vstd::string::StrSliceExecFns;

verus! {

/// A grammar error: the input does not match the DSL.
#[derive(Clone, Copy, PartialEq, Eq, Structural, Debug)]
pub struct ParseError;

/// Whitespace accepted between tokens.
pub open spec fn is_space_char(c: char) -> bool {
    c == ' ' || c == '\t' || c == '\n' || c == '\r'
}

/// An ASCII letter.
pub open spec fn is_alpha_char(c: char) -> bool {
    ('a' <= c && c <= 'z') || ('A' <= c && c <= 'Z')
}

/// An ASCII digit.
pub open spec fn is_digit_char(c: char) -> bool {
    '0' <= c && c <= '9'
}

/// A character allowed inside an identifier after its first letter.
pub open spec fn is_ident_char(c: char) -> bool {
    is_alpha_char(c) || is_digit_char(c) || c == '_'
}

/// A list separator.
pub open spec fn is_sep_char(c: char) -> bool {
    c == ',' || c == ';'
}

pub fn is_space(c: char) -> (r: bool)
    ensures
        r == is_space_char(c),
{
    c == ' ' || c == '\t' || c == '\n' || c == '\r'
}

pub fn is_alpha(c: char) -> (r: bool)
    ensures
        r == is_alpha_char(c),
{
    ('a' <= c && c <= 'z') || ('A' <= c && c <= 'Z')
}

pub fn is_digit(c: char) -> (r: bool)
    ensures
        r == is_digit_char(c),
{
    '0' <= c && c <= '9'
}

pub fn is_ident(c: char) -> (r: bool)
    ensures
        r == is_ident_char(c),
{
    is_alpha(c) || is_digit(c) || c == '_'
}

/// The first position at or after `i` whose character fails `pred`, or the
/// end of the text: a maximal scan.
pub open spec fn scan_while(s: Seq<char>, i: int, pred: spec_fn(char) -> bool) -> int
    decreases s.len() - i,
    when 0 <= i <= s.len()
{
    if i >= s.len() {
        i
    } else if !pred(s[i]) {
        i
    } else {
        scan_while(s, i + 1, pred)
    }
}

/// What a maximal scan means: it moves only forward, never past the end,
/// every character it passed satisfies the predicate, and it stops exactly
/// at the first failure.
pub proof fn lemma_scan_while(s: Seq<char>, i: int, pred: spec_fn(char) -> bool)
    requires
        0 <= i <= s.len(),
    ensures
        i <= scan_while(s, i, pred) <= s.len(),
        forall|x: int| i <= x < scan_while(s, i, pred) ==> pred(s[x]),
        scan_while(s, i, pred) == s.len() || !pred(s[scan_while(s, i, pred)]),
    decreases s.len() - i,
{
    if i < s.len() && pred(s[i]) {
        lemma_scan_while(s, i + 1, pred);
    }
}

/// A position with the stopping shape is the maximal scan's result.
pub proof fn lemma_scan_while_is(s: Seq<char>, i: int, k: int, pred: spec_fn(char) -> bool)
    requires
        0 <= i <= k <= s.len(),
        forall|x: int| i <= x < k ==> pred(s[x]),
        k == s.len() || !pred(s[k]),
    ensures
        scan_while(s, i, pred) == k,
    decreases k - i,
{
    if i < k {
        lemma_scan_while_is(s, i + 1, k, pred);
    }
}

/// The fixed token `t` stands at `i`.
pub open spec fn spec_tag(s: Seq<char>, i: int, t: Seq<char>) -> bool {
    &&& i + t.len() <= s.len()
    &&& s.subrange(i, i + t.len()) == t
}

/// Consume a fixed token at `i`, returning the position after it; fails
/// exactly when the token does not stand there.
pub fn tag_at(s: &str, i: usize, t: &str) -> (r: Option<usize>)
    requires
        i <= s@.len(),
    ensures
        match r {
            Some(j) => {
                &&& j == i + t@.len()
                &&& j <= s@.len()
                &&& spec_tag(s@, i as int, t@)
            },
            None => !spec_tag(s@, i as int, t@),
        },
{
    let n = t.unicode_len();
    let sn = s.unicode_len();
    if n > sn - i || i > sn {
        return None;
    }
    let mut k: usize = 0;
    while k < n
        invariant
            k <= n,
            i + n <= s@.len(),
            s@.len() <= usize::MAX,
            n == t@.len(),
            forall|m: int| 0 <= m < k ==> s@[i + m] == t@[m],
        decreases n - k,
    {
        if s.get_char(i + k) != t.get_char(k) {
            proof {
                assert(s@.subrange(i as int, i + n) != t@) by {
                    if s@.subrange(i as int, i + n) == t@ {
                        assert(s@.subrange(i as int, i + n)[k as int] == t@[k as int]);
                    }
                }
            }
            return None;
        }
        k += 1;
    }
    proof {
        assert(s@.subrange(i as int, (i + n) as int) =~= t@);
    }
    Some(i + n)
}

/// The end of a block comment's body: the position after the first `*/`
/// at or beyond `i`, if the text holds one.
pub open spec fn spec_block_end(s: Seq<char>, i: int) -> Option<int>
    decreases s.len() - i,
    when 0 <= i <= s.len()
{
    if spec_tag(s, i, "*/"@) {
        Some(i + 2)
    } else if i >= s.len() {
        None
    } else {
        spec_block_end(s, i + 1)
    }
}

/// A block comment's end lies beyond its start and within the text.
pub proof fn lemma_spec_block_end(s: Seq<char>, i: int)
    requires
        0 <= i <= s.len(),
    ensures
        match spec_block_end(s, i) {
            Some(j) => i < j <= s.len(),
            None => true,
        },
    decreases s.len() - i,
{
    reveal_strlit("*/");
    if !spec_tag(s, i, "*/"@) && i < s.len() {
        lemma_spec_block_end(s, i + 1);
    }
}

/// One comment at `i`: a line comment running to the end of the line, or
/// a block comment running to its closing token.
pub open spec fn spec_comment(s: Seq<char>, i: int) -> Option<int> {
    if spec_tag(s, i, "//"@) {
        Some(scan_while(s, i + 2, |c: char| c != '\n'))
    } else if spec_tag(s, i, "/*"@) {
        spec_block_end(s, i + 2)
    } else {
        None
    }
}

/// A comment consumes at least its opening token.
pub proof fn lemma_spec_comment(s: Seq<char>, i: int)
    requires
        0 <= i <= s.len(),
    ensures
        match spec_comment(s, i) {
            Some(j) => i < j <= s.len(),
            None => true,
        },
{
    reveal_strlit("//");
    reveal_strlit("/*");
    if spec_tag(s, i, "//"@) {
        lemma_scan_while(s, i + 2, |c: char| c != '\n');
    } else if spec_tag(s, i, "/*"@) {
        lemma_spec_block_end(s, i + 2);
    }
}

/// The position after every comment and whitespace run starting at `i`:
/// the separator the grammar calls blank, consumed greedily; equal to `i`
/// when no blank stands there.
pub open spec fn spec_blank_end(s: Seq<char>, i: int) -> int
    decreases s.len() - i,
    when 0 <= i <= s.len()
    via spec_blank_end_decreases
{
    match spec_comment(s, i) {
        Some(j) => spec_blank_end(s, j),
        None => if i < s.len() && is_space_char(s[i]) {
            spec_blank_end(s, i + 1)
        } else {
            i
        },
    }
}

#[via_fn]
proof fn spec_blank_end_decreases(s: Seq<char>, i: int) {
    lemma_spec_comment(s, i);
}

/// Blank only moves forward, never past the end.
pub proof fn lemma_spec_blank_end(s: Seq<char>, i: int)
    requires
        0 <= i <= s.len(),
    ensures
        i <= spec_blank_end(s, i) <= s.len(),
    decreases s.len() - i,
{
    lemma_spec_comment(s, i);
    match spec_comment(s, i) {
        Some(j) => {
            lemma_spec_blank_end(s, j);
        },
        None => {
            if i < s.len() && is_space_char(s[i]) {
                lemma_spec_blank_end(s, i + 1);
            }
        },
    }
}

/// Consume one line comment (`//` to end of line) or one block comment
/// (`/*` to `*/`), as a comment is consumed between tokens.
pub fn comment_at(s: &str, i: usize) -> (r: Option<usize>)
    requires
        i <= s@.len(),
    ensures
        match r {
            Some(j) => i < j <= s@.len() && spec_comment(s@, i as int) == Some(j as int),
            None => spec_comment(s@, i as int) is None,
        },
{
    proof {
        reveal_strlit("//");
        reveal_strlit("/*");
        reveal_strlit("*/");
        lemma_spec_comment(s@, i as int);
    }
    let n = s.unicode_len();
    if let Some(j) = tag_at(s, i, "//") {
        let mut k: usize = j;
        while k < n && s.get_char(k) != '\n'
            invariant
                j <= k <= n,
                n == s@.len(),
                forall|x: int| j <= x < k ==> s@[x] != '\n',
            decreases n - k,
        {
            k += 1;
        }
        proof {
            lemma_scan_while_is(s@, j as int, k as int, |c: char| c != '\n');
        }
        return Some(k);
    }
    if let Some(j) = tag_at(s, i, "/*") {
        let mut k: usize = j;
        while k < n
            invariant
                j <= k <= n,
                n == s@.len(),
                i + 2 == j,
                !spec_tag(s@, i as int, "//"@),
                spec_tag(s@, i as int, "/*"@),
                spec_comment(s@, i as int) == spec_block_end(s@, k as int),
            decreases n - k,
        {
            if let Some(m) = tag_at(s, k, "*/") {
                proof {
                    reveal_strlit("*/");
                    assert(spec_block_end(s@, k as int) == Some(k as int + 2));
                }
                return Some(m);
            }
            k += 1;
        }
        proof {
            assert(spec_block_end(s@, k as int) is None) by {
                reveal_strlit("*/");
            }
        }
        return None;
    }
    None
}

/// Consume at least one run of whitespace or comments (the separator the
/// grammar calls blank).
pub fn blank_at(s: &str, i: usize) -> (r: Option<usize>)
    requires
        i <= s@.len(),
    ensures
        match r {
            Some(j) => i < j <= s@.len() && j == spec_blank_end(s@, i as int),
            None => spec_blank_end(s@, i as int) == i,
        },
{
    let n = s.unicode_len();
    let mut k: usize = i;
    loop
        invariant
            i <= k <= n,
            n == s@.len(),
            spec_blank_end(s@, i as int) == spec_blank_end(s@, k as int),
        decreases n - k,
    {
        if let Some(j) = comment_at(s, k) {
            k = j;
        } else if k < n && is_space(s.get_char(k)) {
            k += 1;
        } else {
            proof {
                assert(spec_blank_end(s@, k as int) == k as int);
            }
            if k > i {
                return Some(k);
            } else {
                return None;
            }
        }
    }
}

/// Consume blank if present; never fails.
pub fn opt_blank_at(s: &str, i: usize) -> (j: usize)
    requires
        i <= s@.len(),
    ensures
        i <= j <= s@.len(),
        j == spec_blank_end(s@, i as int),
{
    match blank_at(s, i) {
        Some(j) => j,
        None => i,
    }
}

/// The position after an optional list separator at `i`.
pub open spec fn spec_opt_sep(s: Seq<char>, i: int) -> int {
    if i < s.len() && is_sep_char(s[i]) {
        i + 1
    } else {
        i
    }
}

/// Consume one list separator (`,` or `;`) if present.
pub fn opt_sep_at(s: &str, i: usize) -> (j: usize)
    requires
        i <= s@.len(),
    ensures
        i <= j <= s@.len(),
        j == spec_opt_sep(s@, i as int),
{
    let n = s.unicode_len();
    if i < n {
        let c = s.get_char(i);
        if c == ',' || c == ';' {
            return i + 1;
        }
    }
    i
}

/// Consume one required list separator (`,` or `;`).
pub fn sep_at(s: &str, i: usize) -> (r: Option<usize>)
    requires
        i <= s@.len(),
    ensures
        match r {
            Some(j) => j == i + 1 && j <= s@.len() && i < s@.len() && is_sep_char(s@[i as int]),
            None => i >= s@.len() || !is_sep_char(s@[i as int]),
        },
{
    let n = s.unicode_len();
    if i < n {
        let c = s.get_char(i);
        if c == ',' || c == ';' {
            return Some(i + 1);
        }
    }
    None
}

/// The remainder of `s` from position `j` on, as a string slice.
pub fn rest_of(s: &str, j: usize) -> (r: &str)
    requires
        j <= s@.len(),
    ensures
        r@ == s@.subrange(j as int, s@.len() as int),
        r@.len() == s@.len() - j,
{
    let n = s.unicode_len();
    s.substring_char(j, n)
}

} // verus!

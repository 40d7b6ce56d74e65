//! Field annotations: `#[key = "value", ...]` attached ahead of a field.
use vstd::prelude::*;
use vstd::string::StrSliceExecFns;
use super::literal::{lemma_spec_literal, spec_literal, Literal};
use super::{
    is_alpha, is_alpha_char, is_ident_char, lemma_scan_while, lemma_scan_while_is,
    lemma_spec_blank_end, opt_blank_at, opt_sep_at, scan_while, spec_blank_end, spec_opt_sep,
    spec_tag, tag_at, ParseError, rest_of,
};

verus! {

/// One `key = "value"` pair.
#[derive(Debug)]
pub struct Annotation {
    pub key: String,
    pub value: Literal,
}

impl View for Annotation {
    type V = (Seq<char>, Seq<char>);

    open spec fn view(&self) -> (Seq<char>, Seq<char>) {
        (self.key@, self.value@)
    }
}

/// The ordered annotation list of one field.
#[derive(Debug)]
pub struct Annotations(pub Vec<Annotation>);

impl View for Annotations {
    type V = Seq<(Seq<char>, Seq<char>)>;

    open spec fn view(&self) -> Seq<(Seq<char>, Seq<char>)> {
        self.0@.map_values(|a: Annotation| a@)
    }
}

/// A character allowed inside an annotation key after its first letter.
pub open spec fn is_key_char(c: char) -> bool {
    is_ident_char(c) || c == '.'
}

fn is_key(c: char) -> (r: bool)
    ensures
        r == is_key_char(c),
{
    super::is_ident(c) || c == '.'
}

/// The annotation key starting at `i`, if one stands there: a letter or
/// underscore, then letters, digits, underscores and dots, consumed
/// maximally; the text is exactly the consumed span.
pub open spec fn spec_key(s: Seq<char>, i: int) -> Option<(int, Seq<char>)> {
    if i < s.len() && (is_alpha_char(s[i]) || s[i] == '_') {
        let j = scan_while(s, i + 1, |c: char| is_key_char(c));
        Some((j, s.subrange(i, j)))
    } else {
        None
    }
}

/// A key consumes at least one character and stays in the text.
pub proof fn lemma_spec_key(s: Seq<char>, i: int)
    requires
        0 <= i <= s.len(),
    ensures
        match spec_key(s, i) {
            Some((j, text)) => i < j <= s.len() && text == s.subrange(i, j),
            None => true,
        },
{
    if i < s.len() && (is_alpha_char(s[i]) || s[i] == '_') {
        lemma_scan_while(s, i + 1, |c: char| is_key_char(c));
    }
}

/// One `key = "value"` pair at `i`, with optional blanks around the
/// equals sign and an optional trailing separator.
pub open spec fn spec_annotation(s: Seq<char>, i: int) -> Option<(int, (Seq<char>, Seq<char>))> {
    let a = spec_blank_end(s, i);
    match spec_key(s, a) {
        Some((b, key)) => {
            let c = spec_blank_end(s, b);
            if spec_tag(s, c, "="@) {
                let d = spec_blank_end(s, c + 1);
                match spec_literal(s, d) {
                    Some((f, val)) => {
                        let g = spec_blank_end(s, f);
                        Some((spec_opt_sep(s, g), (key, val)))
                    },
                    None => None,
                }
            } else {
                None
            }
        },
        None => None,
    }
}

/// A pair consumes at least one character and stays in the text.
pub proof fn lemma_spec_annotation(s: Seq<char>, i: int)
    requires
        0 <= i <= s.len(),
    ensures
        match spec_annotation(s, i) {
            Some((j, _)) => i < j <= s.len(),
            None => true,
        },
{
    reveal_strlit("=");
    lemma_spec_blank_end(s, i);
    let a = spec_blank_end(s, i);
    lemma_spec_key(s, a);
    match spec_key(s, a) {
        Some((b, key)) => {
            lemma_spec_blank_end(s, b);
            let c = spec_blank_end(s, b);
            if spec_tag(s, c, "="@) {
                lemma_spec_blank_end(s, c + 1);
                let d = spec_blank_end(s, c + 1);
                lemma_spec_literal(s, d);
                match spec_literal(s, d) {
                    Some((f, val)) => {
                        lemma_spec_blank_end(s, f);
                    },
                    None => {},
                }
            }
        },
        None => {},
    }
}

/// The further pairs of an annotation block from `i`: pairs join the list
/// for as long as one stands there.
pub open spec fn spec_ann_list(s: Seq<char>, i: int, acc: Seq<(Seq<char>, Seq<char>)>) -> (
    int,
    Seq<(Seq<char>, Seq<char>)>,
)
    decreases s.len() - i,
    when 0 <= i <= s.len()
    via spec_ann_list_decreases
{
    match spec_annotation(s, i) {
        Some((j, p)) => spec_ann_list(s, j, acc.push(p)),
        None => (i, acc),
    }
}

#[via_fn]
proof fn spec_ann_list_decreases(s: Seq<char>, i: int, acc: Seq<(Seq<char>, Seq<char>)>) {
    lemma_spec_annotation(s, i);
}

/// Listing pairs only moves the position forward and keeps at least the
/// accumulated pairs.
pub proof fn lemma_spec_ann_list(s: Seq<char>, i: int, acc: Seq<(Seq<char>, Seq<char>)>)
    requires
        0 <= i <= s.len(),
    ensures
        ({
            let (j, items) = spec_ann_list(s, i, acc);
            &&& i <= j <= s.len()
            &&& items.len() >= acc.len()
        }),
    decreases s.len() - i,
{
    lemma_spec_annotation(s, i);
    match spec_annotation(s, i) {
        Some((j, p)) => {
            lemma_spec_ann_list(s, j, acc.push(p));
        },
        None => {},
    }
}

/// The annotation block starting at `i`, if one stands there: `#[`, one
/// pair or more, `]`; its end position and its pairs in order.
pub open spec fn spec_annotations(s: Seq<char>, i: int) -> Option<(int, Seq<(Seq<char>, Seq<
    char,
>)>)> {
    if spec_tag(s, i, "#["@) {
        match spec_annotation(s, i + 2) {
            Some((j0, p0)) => {
                let (j, items) = spec_ann_list(s, j0, seq![p0]);
                if spec_tag(s, j, "]"@) {
                    Some((j + 1, items))
                } else {
                    None
                }
            },
            None => None,
        }
    } else {
        None
    }
}

/// A block consumes at least its brackets and holds at least one pair.
pub proof fn lemma_spec_annotations(s: Seq<char>, i: int)
    requires
        0 <= i <= s.len(),
    ensures
        match spec_annotations(s, i) {
            Some((j, items)) => i < j <= s.len() && items.len() >= 1,
            None => true,
        },
{
    reveal_strlit("#[");
    reveal_strlit("]");
    if spec_tag(s, i, "#["@) {
        lemma_spec_annotation(s, i + 2);
        match spec_annotation(s, i + 2) {
            Some((j0, p0)) => {
                lemma_spec_ann_list(s, j0, seq![p0]);
            },
            None => {},
        }
    }
}

/// Consume one `key = "value"` pair with optional blanks and an optional
/// trailing separator.
fn annotation_at(s: &str, i: usize) -> (r: Option<(usize, Annotation)>)
    requires
        i <= s@.len(),
    ensures
        match r {
            Some((j, ann)) => i < j <= s@.len() && spec_annotation(s@, i as int) == Some(
                (j as int, ann@),
            ),
            None => spec_annotation(s@, i as int) is None,
        },
{
    proof {
        lemma_spec_annotation(s@, i as int);
    }
    let a = opt_blank_at(s, i);
    let key = key_at(s, a);
    match key {
        None => None,
        Some((b, key)) => {
            let c = opt_blank_at(s, b);
            match tag_at(s, c, "=") {
                None => None,
                Some(d) => {
                    proof {
                        reveal_strlit("=");
                    }
                    let e = opt_blank_at(s, d);
                    match Literal::parse_at(s, e) {
                        None => None,
                        Some((f, value)) => {
                            let g = opt_blank_at(s, f);
                            let j = opt_sep_at(s, g);
                            Some((j, Annotation { key, value }))
                        },
                    }
                },
            }
        },
    }
}

/// Consume one annotation key.
fn key_at(s: &str, i: usize) -> (r: Option<(usize, String)>)
    requires
        i <= s@.len(),
    ensures
        match r {
            Some((j, key)) => i < j <= s@.len() && spec_key(s@, i as int) == Some((j as int, key@)),
            None => spec_key(s@, i as int) is None,
        },
{
    proof {
        lemma_spec_key(s@, i as int);
    }
    let n = s.unicode_len();
    if i >= n {
        return None;
    }
    let c = s.get_char(i);
    if !(is_alpha(c) || c == '_') {
        return None;
    }
    let mut k: usize = i + 1;
    while k < n && is_key(s.get_char(k))
        invariant
            i < k <= n,
            n == s@.len(),
            forall|x: int| i + 1 <= x < k ==> is_key_char(s@[x]),
        decreases n - k,
    {
        k += 1;
    }
    proof {
        lemma_scan_while_is(s@, i as int + 1, k as int, |c: char| is_key_char(c));
    }
    Some((k, s.substring_char(i, k).to_owned()))
}

impl Annotations {
    /// Consume one annotation block `#[ ... ]` with at least one pair.
    pub fn parse_at(s: &str, i: usize) -> (r: Option<(usize, Annotations)>)
        requires
            i <= s@.len(),
        ensures
            match r {
                Some((j, anns)) => {
                    &&& i < j <= s@.len()
                    &&& anns.0@.len() >= 1
                    &&& spec_annotations(s@, i as int) == Some((j as int, anns@))
                },
                None => spec_annotations(s@, i as int) is None,
            },
    {
        proof {
            reveal_strlit("#[");
            reveal_strlit("]");
            lemma_spec_annotations(s@, i as int);
        }
        match tag_at(s, i, "#[") {
            None => None,
            Some(open_end) => {
                match annotation_at(s, open_end) {
                    None => None,
                    Some((j0, ann0)) => {
                        let ghost p0 = ann0@;
                        let mut items: Vec<Annotation> = Vec::new();
                        items.push(ann0);
                        let mut cur: usize = j0;
                        proof {
                            assert(items@.map_values(|a: Annotation| a@) =~= seq![p0]);
                        }
                        loop
                            invariant
                                i < j0 <= s@.len(),
                                i < cur <= s@.len(),
                                spec_tag(s@, i as int, "#["@),
                                i + 2 <= s@.len(),
                                spec_annotation(s@, i as int + 2) == Some((j0 as int, p0)),
                                items@.len() >= 1,
                                spec_ann_list(s@, j0 as int, seq![p0]) == spec_ann_list(
                                    s@,
                                    cur as int,
                                    items@.map_values(|a: Annotation| a@),
                                ),
                            decreases s@.len() - cur,
                        {
                            match annotation_at(s, cur) {
                                None => {
                                    proof {
                                        reveal_strlit("#[");
                                        reveal_strlit("]");
                                        assert(spec_ann_list(
                                            s@,
                                            cur as int,
                                            items@.map_values(|a: Annotation| a@),
                                        ) == (
                                            cur as int,
                                            items@.map_values(|a: Annotation| a@),
                                        ));
                                    }
                                    match tag_at(s, cur, "]") {
                                        None => {
                                            return None;
                                        },
                                        Some(j) => {
                                            proof {
                                                reveal_strlit("]");
                                            }
                                            return Some((j, Annotations(items)));
                                        },
                                    }
                                },
                                Some((j, ann)) => {
                                    proof {
                                        assert(items@.push(ann).map_values(|a: Annotation| a@)
                                            =~= items@.map_values(|a: Annotation| a@).push(ann@));
                                    }
                                    items.push(ann);
                                    cur = j;
                                },
                            }
                        }
                    },
                }
            },
        }
    }

    /// Parse one annotation block from the front of `input`, returning the
    /// remaining input beside it.
    pub fn parse(input: &str) -> (r: Result<(&str, Annotations), ParseError>)
        ensures
            match r {
                Ok((rem, anns)) => spec_annotations(input@, 0) matches Some((j, items))
                    && anns@ == items && rem@ == input@.subrange(j, input@.len() as int),
                Err(_) => spec_annotations(input@, 0) is None,
            },
    {
        match Annotations::parse_at(input, 0) {
            Some((j, anns)) => Ok((rest_of(input, j), anns)),
            None => Err(ParseError),
        }
    }
}

} // verus!

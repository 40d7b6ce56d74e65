//! Qualified paths: identifiers separated by `::`, denoting an
//! externally-defined type or constructor.
use vstd::prelude::*;
use super::ident::{lemma_spec_ident, spec_ident, Ident};
use super::{lemma_spec_blank_end, opt_blank_at, spec_blank_end, spec_tag, tag_at, ParseError,
    rest_of};

verus! {

/// A qualified name, one segment per identifier.
#[derive(Debug)]
pub struct Path {
    pub segments: Vec<Ident>,
}

impl View for Path {
    type V = Seq<Seq<char>>;

    open spec fn view(&self) -> Seq<Seq<char>> {
        self.segments@.map_values(|i: Ident| i@)
    }
}

/// The further segments of a path from `i`: as long as a `::` token (with
/// optional blanks around it) followed by an identifier stands there, the
/// identifier joins the segments.
pub open spec fn spec_path_rest(s: Seq<char>, i: int, acc: Seq<Seq<char>>) -> (int, Seq<
    Seq<char>,
>)
    decreases s.len() - i,
    when 0 <= i <= s.len()
    via spec_path_rest_decreases
{
    let a = spec_blank_end(s, i);
    if spec_tag(s, a, "::"@) {
        let b = spec_blank_end(s, a + 2);
        match spec_ident(s, b) {
            Some((j, text)) => spec_path_rest(s, j, acc.push(text)),
            None => (i, acc),
        }
    } else {
        (i, acc)
    }
}

#[via_fn]
proof fn spec_path_rest_decreases(s: Seq<char>, i: int, acc: Seq<Seq<char>>) {
    reveal_strlit("::");
    lemma_spec_blank_end(s, i);
    let a = spec_blank_end(s, i);
    if spec_tag(s, a, "::"@) {
        lemma_spec_blank_end(s, a + 2);
        lemma_spec_ident(s, spec_blank_end(s, a + 2));
    }
}

/// The path starting at `i`, if one stands there: its end position and
/// its segment texts in order.
pub open spec fn spec_path(s: Seq<char>, i: int) -> Option<(int, Seq<Seq<char>>)> {
    match spec_ident(s, i) {
        Some((j, text)) => Some(spec_path_rest(s, j, seq![text])),
        None => None,
    }
}

/// A path's further segments only move the position forward, keep the
/// accumulated segments as a prefix, and hold at least them.
pub proof fn lemma_spec_path_rest(s: Seq<char>, i: int, acc: Seq<Seq<char>>)
    requires
        0 <= i <= s.len(),
    ensures
        ({
            let (j, segs) = spec_path_rest(s, i, acc);
            &&& i <= j <= s.len()
            &&& segs.len() >= acc.len()
        }),
    decreases s.len() - i,
{
    reveal_strlit("::");
    lemma_spec_blank_end(s, i);
    let a = spec_blank_end(s, i);
    if spec_tag(s, a, "::"@) {
        lemma_spec_blank_end(s, a + 2);
        let b = spec_blank_end(s, a + 2);
        lemma_spec_ident(s, b);
        match spec_ident(s, b) {
            Some((j, text)) => {
                lemma_spec_path_rest(s, j, acc.push(text));
            },
            None => {},
        }
    }
}

/// A path consumes at least one character and holds at least one segment.
pub proof fn lemma_spec_path(s: Seq<char>, i: int)
    requires
        0 <= i <= s.len(),
    ensures
        match spec_path(s, i) {
            Some((j, segs)) => i < j <= s.len() && segs.len() >= 1,
            None => true,
        },
{
    lemma_spec_ident(s, i);
    match spec_ident(s, i) {
        Some((j, text)) => {
            lemma_spec_path_rest(s, j, seq![text]);
        },
        None => {},
    }
}

impl Path {
    /// Consume one path starting at `i`: at least one identifier, further
    /// ones joined by `::` with optional blanks around the separator.
    pub fn parse_at(s: &str, i: usize) -> (r: Option<(usize, Path)>)
        requires
            i <= s@.len(),
        ensures
            match r {
                Some((j, p)) => {
                    &&& i < j <= s@.len()
                    &&& spec_path(s@, i as int) == Some((j as int, p@))
                },
                None => spec_path(s@, i as int) is None,
            },
    {
        proof {
            lemma_spec_path(s@, i as int);
        }
        let first = Ident::parse_at(s, i);
        match first {
            None => None,
            Some((j0, id0)) => {
                let mut segments: Vec<Ident> = Vec::new();
                segments.push(id0);
                let mut j: usize = j0;
                proof {
                    assert(segments@.map_values(|x: Ident| x@) =~= seq![id0@]);
                }
                loop
                    invariant
                        i < j0 <= s@.len(),
                        i < j <= s@.len(),
                        spec_ident(s@, i as int) == Some((j0 as int, id0@)),
                        segments@.len() >= 1,
                        spec_path_rest(s@, j0 as int, seq![id0@]) == spec_path_rest(
                            s@,
                            j as int,
                            segments@.map_values(|x: Ident| x@),
                        ),
                    decreases s@.len() - j,
                {
                    let a = opt_blank_at(s, j);
                    let sep = tag_at(s, a, "::");
                    match sep {
                        None => {
                            proof {
                                assert(spec_path_rest(
                                    s@,
                                    j as int,
                                    segments@.map_values(|x: Ident| x@),
                                ) == (j as int, segments@.map_values(|x: Ident| x@)));
                            }
                            return Some((j, Path { segments }));
                        },
                        Some(b) => {
                            let c = opt_blank_at(s, b);
                            match Ident::parse_at(s, c) {
                                None => {
                                    proof {
                                        reveal_strlit("::");
                                        assert(spec_path_rest(
                                            s@,
                                            j as int,
                                            segments@.map_values(|x: Ident| x@),
                                        ) == (j as int, segments@.map_values(|x: Ident| x@)));
                                    }
                                    return Some((j, Path { segments }));
                                },
                                Some((j2, id)) => {
                                    proof {
                                        reveal_strlit("::");
                                        assert(segments@.push(id).map_values(|x: Ident| x@)
                                            =~= segments@.map_values(|x: Ident| x@).push(id@));
                                    }
                                    segments.push(id);
                                    j = j2;
                                },
                            }
                        },
                    }
                }
            },
        }
    }

    /// Parse one path from the front of `input`, returning the remaining
    /// input beside it.
    pub fn parse(input: &str) -> (r: Result<(&str, Path), ParseError>)
        ensures
            match r {
                Ok((rem, p)) => spec_path(input@, 0) matches Some((j, segs)) && p@ == segs
                    && rem@ == input@.subrange(j, input@.len() as int),
                Err(_) => spec_path(input@, 0) is None,
            },
    {
        match Path::parse_at(input, 0) {
            Some((j, p)) => Ok((rest_of(input, j), p)),
            None => Err(ParseError),
        }
    }
}

} // verus!

//! Parser for the decomposer's answer format.
//!
//! The LLM is asked for a region of the form
//! `<queries><query><question>...</question>
//! <need_expand>true|false</need_expand></query>...</queries>`,
//! optionally labelling each entry with a `<dimension>` facet.  The parser
//! walks the `<query>` elements in order, keeps every entry whose question
//! has an accepted length, and tolerates whitespace and stray text between
//! elements.  Its whole behaviour is the spec function
//! [`subqueries_from`].

use vstd::prelude::*;

use crate::error::SearchError;
use crate::llm::valid_query_spec;
use crate::text::{chars_eq, chars_to_string, copy_range, find_from, find_pattern, str_to_chars, trim_chars, trim_spec};
use crate::types::{SubQuery, SubQueryView};

verus! {

pub open spec fn query_open() -> Seq<char> {
    seq!['<', 'q', 'u', 'e', 'r', 'y', '>']
}

pub open spec fn query_close() -> Seq<char> {
    seq!['<', '/', 'q', 'u', 'e', 'r', 'y', '>']
}

pub open spec fn question_open() -> Seq<char> {
    seq!['<', 'q', 'u', 'e', 's', 't', 'i', 'o', 'n', '>']
}

pub open spec fn question_close() -> Seq<char> {
    seq!['<', '/', 'q', 'u', 'e', 's', 't', 'i', 'o', 'n', '>']
}

pub open spec fn expand_open() -> Seq<char> {
    seq!['<', 'n', 'e', 'e', 'd', '_', 'e', 'x', 'p', 'a', 'n', 'd', '>']
}

pub open spec fn expand_close() -> Seq<char> {
    seq!['<', '/', 'n', 'e', 'e', 'd', '_', 'e', 'x', 'p', 'a', 'n', 'd', '>']
}

pub open spec fn dimension_open() -> Seq<char> {
    seq!['<', 'd', 'i', 'm', 'e', 'n', 's', 'i', 'o', 'n', '>']
}

pub open spec fn dimension_close() -> Seq<char> {
    seq!['<', '/', 'd', 'i', 'm', 'e', 'n', 's', 'i', 'o', 'n', '>']
}

pub open spec fn true_chars() -> Seq<char> {
    seq!['t', 'r', 'u', 'e']
}

/// Content of the first `open`...`close` element of `b`: the text strictly
/// between the first occurrence of `open` and the next occurrence of
/// `close` after it.
pub open spec fn element_content(b: Seq<char>, open: Seq<char>, close: Seq<char>) -> Option<
    Seq<char>,
> {
    match find_from(b, open, 0) {
        None => None,
        Some(i) => match find_from(b, close, i + open.len()) {
            None => None,
            Some(j) => Some(b.subrange(i + open.len(), j)),
        },
    }
}

/// The sub-question described by one `<query>` block, if the block holds a
/// question of accepted length and a `need_expand` flag.  The flag is true
/// exactly when its trimmed text is `true`; the facet label is optional
/// and trimmed.
pub open spec fn block_subquery(b: Seq<char>) -> Option<SubQueryView> {
    match element_content(b, question_open(), question_close()) {
        None => None,
        Some(q) => match element_content(b, expand_open(), expand_close()) {
            None => None,
            Some(ne) => if valid_query_spec(q) {
                Some(
                    SubQueryView {
                        dimension: match element_content(b, dimension_open(), dimension_close()) {
                            Some(d) => trim_spec(d),
                            None => Seq::empty(),
                        },
                        query: q,
                        need_expand: trim_spec(ne) == true_chars(),
                    },
                )
            } else {
                None
            },
        },
    }
}

/// The sub-questions of every well-delimited `<query>` block of `s` at or
/// after `pos`, in order.  A block without a closing tag ends the walk.
pub open spec fn subqueries_from(s: Seq<char>, pos: int) -> Seq<SubQueryView>
    decreases s.len() - pos + 1,
{
    match find_from(s, query_open(), pos) {
        None => Seq::empty(),
        Some(qs) => match find_from(s, query_close(), qs + query_open().len()) {
            None => Seq::empty(),
            Some(qe) => {
                if pos <= qs && qs + query_open().len() <= qe && qe + query_close().len()
                    <= s.len() {
                    let rest = subqueries_from(s, qe + query_close().len());
                    match block_subquery(s.subrange(qs + query_open().len(), qe)) {
                        Some(sq) => seq![sq] + rest,
                        None => rest,
                    }
                } else {
                    Seq::empty()
                }
            },
        },
    }
}

/// The sub-questions of a whole decomposition region.
pub open spec fn subqueries_spec(s: Seq<char>) -> Seq<SubQueryView> {
    subqueries_from(s, 0)
}

/// Content of the first `open`...`close` element of `b`.
fn element_content_exec(b: &Vec<char>, open: &Vec<char>, close: &Vec<char>) -> (r: Option<
    Vec<char>,
>)
    ensures
        match r {
            Some(c) => element_content(b@, open@, close@) == Some(c@),
            None => element_content(b@, open@, close@) is None,
        },
{
    let bn = b.len();
    match find_pattern(b, open, 0) {
        None => None,
        Some(i) => {
            proof {
                assert(i + open@.len() <= bn);
            }
            let content_start = i + open.len();
            match find_pattern(b, close, content_start) {
                None => None,
                Some(j) => Some(copy_range(b, content_start, j)),
            }
        },
    }
}

/// Whether a question's trimmed length lies in the accepted range.
fn valid_query_chars(q: &Vec<char>) -> (r: bool)
    ensures
        r == valid_query_spec(q@),
{
    let t = trim_chars(q);
    let n = t.len();
    5 <= n && n <= 300
}

/// Parse one `<query>` block.
fn parse_block(block: &Vec<char>) -> (r: Option<SubQuery>)
    ensures
        match r {
            Some(sq) => block_subquery(block@) == Some(sq@),
            None => block_subquery(block@) is None,
        },
{
    let question_open_v = str_to_chars("<question>");
    let question_close_v = str_to_chars("</question>");
    let expand_open_v = str_to_chars("<need_expand>");
    let expand_close_v = str_to_chars("</need_expand>");
    let dimension_open_v = str_to_chars("<dimension>");
    let dimension_close_v = str_to_chars("</dimension>");
    let true_v = str_to_chars("true");
    proof {
        reveal_strlit("<question>");
        reveal_strlit("</question>");
        reveal_strlit("<need_expand>");
        reveal_strlit("</need_expand>");
        reveal_strlit("<dimension>");
        reveal_strlit("</dimension>");
        reveal_strlit("true");
        assert(question_open_v@ =~= question_open());
        assert(question_close_v@ =~= question_close());
        assert(expand_open_v@ =~= expand_open());
        assert(expand_close_v@ =~= expand_close());
        assert(dimension_open_v@ =~= dimension_open());
        assert(dimension_close_v@ =~= dimension_close());
        assert(true_v@ =~= true_chars());
    }
    let q = match element_content_exec(block, &question_open_v, &question_close_v) {
        Some(q) => q,
        None => {
            return None;
        },
    };
    let ne = match element_content_exec(block, &expand_open_v, &expand_close_v) {
        Some(ne) => ne,
        None => {
            return None;
        },
    };
    if !valid_query_chars(&q) {
        return None;
    }
    let dimension = match element_content_exec(block, &dimension_open_v, &dimension_close_v) {
        Some(d) => {
            let t = trim_chars(&d);
            chars_to_string(&t)
        },
        None => {
            let empty: Vec<char> = Vec::new();
            proof {
                assert(empty@ =~= Seq::<char>::empty());
            }
            chars_to_string(&empty)
        },
    };
    let ne_trimmed = trim_chars(&ne);
    let need_expand = chars_eq(&ne_trimmed, &true_v);
    let sq = SubQuery { dimension, query: chars_to_string(&q), need_expand };
    proof {
        assert(block_subquery(block@) == Some(sq@)) by {
            assert(block_subquery(block@).unwrap() =~= sq@);
        }
    }
    Some(sq)
}

/// Parse the sub-questions out of a decomposition region.  The answer is
/// exactly [`subqueries_spec`]; a region describing no acceptable
/// sub-question at all is reported as an empty decomposition.
pub fn parse_decomposition_xml(xml: &str) -> (r: Result<Vec<SubQuery>, SearchError>)
    ensures
        match r {
            Ok(subs) => {
                &&& subs@.map_values(|sq: SubQuery| sq@) == subqueries_spec(xml@)
                &&& subs@.len() > 0
            },
            Err(e) => {
                &&& e == SearchError::DecompositionEmpty
                &&& subqueries_spec(xml@).len() == 0
            },
        },
{
    let v = str_to_chars(xml);
    let n = v.len();
    let query_open_v = str_to_chars("<query>");
    let query_close_v = str_to_chars("</query>");
    proof {
        reveal_strlit("<query>");
        reveal_strlit("</query>");
        assert(query_open_v@ =~= query_open());
        assert(query_close_v@ =~= query_close());
    }
    let mut out: Vec<SubQuery> = Vec::new();
    let mut pos: usize = 0;
    let mut done: bool = false;
    while !done
        invariant
            n == v@.len(),
            v@ == xml@,
            pos <= n + 8,
            query_open_v@ == query_open(),
            query_close_v@ == query_close(),
            subqueries_spec(xml@) == out@.map_values(|sq: SubQuery| sq@) + subqueries_from(
                v@,
                pos as int,
            ),
            done ==> subqueries_from(v@, pos as int).len() == 0,
        decreases n + 8 - pos, (if done {
            0int
        } else {
            1int
        }),
    {
        match find_pattern(&v, &query_open_v, pos) {
            None => {
                done = true;
            },
            Some(qs) => {
                proof {
                    assert(qs + query_open().len() <= n);
                }
                let content_start = qs + 7;
                match find_pattern(&v, &query_close_v, content_start) {
                    None => {
                        done = true;
                    },
                    Some(qe) => {
                        proof {
                            assert(qe + query_close().len() <= n);
                        }
                        let block = copy_range(&v, content_start, qe);
                        let ghost old_out = out@;
                        match parse_block(&block) {
                            Some(sq) => {
                                out.push(sq);
                                proof {
                                    assert(out@.map_values(|sq: SubQuery| sq@) =~= old_out.map_values(
                                        |sq: SubQuery| sq@,
                                    ).push(out@[out@.len() - 1]@));
                                }
                            },
                            None => {},
                        }
                        pos = qe + 8;
                    },
                }
            },
        }
    }
    if out.len() == 0 {
        return Err(SearchError::DecompositionEmpty);
    }
    Ok(out)
}

} // verus!

//! Text handling around the LLM: escaping user input, validating
//! sub-questions, and cutting the decomposition region out of a chat
//! answer.
//!
//! The decomposer asks the model for a `<queries>` region holding one
//! `<query>` element per sub-question; see [`crate::parse`] for the
//! element grammar.

use vstd::prelude::*;

use crate::error::SearchError;
use crate::text::{
    chars_to_string, copy_range, find_from, find_pattern, str_eq, str_to_chars, trim_spec,
};

verus! {

/// The XML escape of one character: the five special characters become
/// entities, everything else stands as itself.
pub open spec fn escape_char(c: char) -> Seq<char> {
    if c == '&' {
        seq!['&', 'a', 'm', 'p', ';']
    } else if c == '<' {
        seq!['&', 'l', 't', ';']
    } else if c == '>' {
        seq!['&', 'g', 't', ';']
    } else if c == '"' {
        seq!['&', 'q', 'u', 'o', 't', ';']
    } else if c == '\'' {
        seq!['&', 'a', 'p', 'o', 's', ';']
    } else {
        seq![c]
    }
}

/// The XML escape of the text from position `i` on.
pub open spec fn escape_from(s: Seq<char>, i: int) -> Seq<char>
    decreases s.len() - i,
{
    if i < 0 || i >= s.len() {
        Seq::empty()
    } else {
        escape_char(s[i]) + escape_from(s, i + 1)
    }
}

/// The XML escape of a whole text.
pub open spec fn escape_spec(s: Seq<char>) -> Seq<char> {
    escape_from(s, 0)
}

/// Escape the XML special characters (`&`, `<`, `>`, `"`, `'`) so that user
/// text can be interpolated into a prompt without opening it to injection.
pub fn escape_xml(input: &str) -> (r: String)
    ensures
        r@ == escape_spec(input@),
{
    let v = str_to_chars(input);
    let n = v.len();
    let mut out: Vec<char> = Vec::new();
    let mut i: usize = 0;
    while i < n
        invariant
            n == v@.len(),
            v@ == input@,
            i <= n,
            escape_spec(input@) == out@ + escape_from(v@, i as int),
        decreases n - i,
    {
        let ghost out0 = out@;
        let c = v[i];
        if c == '&' {
            out.push('&');
            out.push('a');
            out.push('m');
            out.push('p');
            out.push(';');
        } else if c == '<' {
            out.push('&');
            out.push('l');
            out.push('t');
            out.push(';');
        } else if c == '>' {
            out.push('&');
            out.push('g');
            out.push('t');
            out.push(';');
        } else if c == '"' {
            out.push('&');
            out.push('q');
            out.push('u');
            out.push('o');
            out.push('t');
            out.push(';');
        } else if c == '\'' {
            out.push('&');
            out.push('a');
            out.push('p');
            out.push('o');
            out.push('s');
            out.push(';');
        } else {
            out.push(c);
        }
        proof {
            assert(out@ =~= out0 + escape_char(v@[i as int]));
            assert(escape_spec(input@) == out@ + escape_from(v@, i + 1));
        }
        i = i + 1;
    }
    proof {
        assert(out@ =~= out@ + escape_from(v@, n as int));
    }
    chars_to_string(&out)
}

/// The five search facets a decomposition may label its sub-questions
/// with.
pub open spec fn valid_dimension_spec(s: Seq<char>) -> bool {
    s == "core"@ || s == "why"@ || s == "how"@ || s == "case"@ || s == "note"@
}

/// Whether a facet label is one of the five known dimensions.
pub fn is_valid_dimension(dim: &str) -> (r: bool)
    ensures
        r == valid_dimension_spec(dim@),
{
    str_eq(dim, "core") || str_eq(dim, "why") || str_eq(dim, "how") || str_eq(dim, "case")
        || str_eq(dim, "note")
}

/// A sub-question is accepted when its trimmed length lies between 5 and
/// 300 characters.
pub open spec fn valid_query_spec(s: Seq<char>) -> bool {
    5 <= trim_spec(s).len() <= 300
}

/// Whether a sub-question's trimmed length lies in the accepted range.
pub fn is_valid_query(query: &str) -> (r: bool)
    ensures
        r == valid_query_spec(query@),
{
    let v = str_to_chars(query);
    let t = crate::text::trim_chars(&v);
    let n = t.len();
    5 <= n && n <= 300
}

/// The opening delimiter of the decomposition region.
pub open spec fn queries_open() -> Seq<char> {
    "<queries>"@
}

/// The closing delimiter of the decomposition region.
pub open spec fn queries_close() -> Seq<char> {
    "</queries>"@
}

/// Cut the `<queries>...</queries>` region out of an LLM answer, both
/// delimiters included.  Text outside the delimiters is tolerated and
/// dropped.  An answer without the region, or with a closing delimiter
/// only before the opening one, is malformed.
pub fn extract_decomposition_xml(output: &str) -> (r: Result<String, SearchError>)
    ensures
        match r {
            Ok(region) => {
                &&& find_from(output@, queries_open(), 0) matches Some(s)
                &&& find_from(output@, queries_close(), find_from(
                    output@,
                    queries_open(),
                    0,
                ).unwrap()) matches Some(e)
                &&& region@ == output@.subrange(
                    find_from(output@, queries_open(), 0).unwrap(),
                    find_from(
                        output@,
                        queries_close(),
                        find_from(output@, queries_open(), 0).unwrap(),
                    ).unwrap() + queries_close().len(),
                )
            },
            Err(e) => {
                &&& e == SearchError::ProviderProtocol
                &&& (find_from(output@, queries_open(), 0) is None || find_from(
                    output@,
                    queries_close(),
                    find_from(output@, queries_open(), 0).unwrap(),
                ) is None)
            },
        },
{
    let v = str_to_chars(output);
    let open_tag = str_to_chars("<queries>");
    let close_tag = str_to_chars("</queries>");
    let start = match find_pattern(&v, &open_tag, 0) {
        Some(s) => s,
        None => {
            return Err(SearchError::ProviderProtocol);
        },
    };
    let close_start = match find_pattern(&v, &close_tag, start) {
        Some(e) => e,
        None => {
            return Err(SearchError::ProviderProtocol);
        },
    };
    let total = v.len();
    proof {
        assert(close_start + close_tag@.len() <= total);
    }
    let end = close_start + close_tag.len();
    let region = copy_range(&v, start, end);
    Ok(chars_to_string(&region))
}

} // verus!

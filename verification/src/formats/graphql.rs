//! `.graphql` files, posted as the JSON document GraphQL servers expect.
//!
//! A file may be the operation alone, or the operation between a header and a
//! variables block:
//!
//! ```text
//! # URL: https://api.example.com/graphql
//! # Header: Authorization: Bearer {{TOKEN}}
//! ---
//! query UserById($id: ID!) {
//!   user(id: $id) { name email }
//! }
//! ---
//! { "id": "42" }
//! ```

use vstd::prelude::*;

use crate::body::BodyKind;
use crate::encoding::{json_compact, json_compacted, json_quote, json_quoted};
use crate::request::{set_header, with_header, Request};
use crate::text::{
    append, chars_of, crlf_to_lf, crlf_to_lf_chars, eq_ignore_case, lines, lines_of, same_ignoring_case,
    slice, split_once, split_once_chars, split_once_seq, split_once_seq_chars, string_of, trim, trim_chars,
    trim_start_char, trim_start_char_chars, views,
};
use crate::varmap::{pair_views, Vars};

verus! {

/// What separates the header, the operation and the variables.
pub open spec fn separator() -> Seq<char> {
    "\n---\n"@
}

/// The file's three parts: the header when there is one, the operation, and
/// the variables when there are any.
pub open spec fn graphql_parts(text: Seq<char>) -> (Option<Seq<char>>, Seq<char>, Option<Seq<char>>) {
    match split_once_seq(text, separator()) {
        None => (None, text, None),
        Some((meta, rest)) => match split_once_seq(rest, separator()) {
            None => (Some(meta), rest, None),
            Some((query, variables)) => (Some(meta), query, Some(variables)),
        },
    }
}

/// `text` without `prefix`, compared without regard to ASCII case.
pub open spec fn strip_prefix_ignoring_case(text: Seq<char>, prefix: Seq<char>) -> Option<Seq<char>> {
    if text.len() >= prefix.len() && eq_ignore_case(text.take(prefix.len() as int), prefix) {
        Some(text.skip(prefix.len() as int))
    } else {
        None
    }
}

/// A header line with its `#` marks and the spaces round them taken off.
pub open spec fn meta_text(raw: Seq<char>) -> Seq<char> {
    trim(trim_start_char(trim(raw), '#'))
}

/// What one header line does to the URL and the headers: `URL:` sets the
/// one, `Header: Name: value` sets one of the others.
pub open spec fn read_meta_line(st: (Seq<char>, Seq<(Seq<char>, Seq<char>)>), raw: Seq<char>) -> (Seq<char>, Seq<(Seq<char>, Seq<char>)>) {
    let line = meta_text(raw);
    match strip_prefix_ignoring_case(line, "url:"@) {
        Some(url) => (trim(url), st.1),
        None => match strip_prefix_ignoring_case(line, "header:"@) {
            Some(header) => match split_once(header, ':') {
                Some((name, value)) => if trim(name).len() > 0 {
                    (st.0, with_header(st.1, trim(name), trim(value)))
                } else {
                    st
                },
                None => st,
            },
            None => st,
        },
    }
}

pub open spec fn read_meta(lines: Seq<Seq<char>>) -> (Seq<char>, Seq<(Seq<char>, Seq<char>)>)
    decreases lines.len(),
{
    if lines.len() == 0 {
        (Seq::empty(), seq![("Content-Type"@, "application/json"@)])
    } else {
        read_meta_line(read_meta(lines.drop_last()), lines.last())
    }
}

/// The JSON document posted: the operation, trimmed, and the variables when
/// there are some and they are JSON.
pub open spec fn graphql_document(query: Seq<char>, variables: Option<Seq<char>>) -> Seq<char> {
    let vars = match variables {
        Some(v) => if trim(v).len() > 0 { json_compacted(trim(v)) } else { None },
        None => None,
    };
    match vars {
        Some(json) => "\u{7b}\u{22}query\u{22}:"@ + json_quoted(trim(query)) + ",\u{22}variables\u{22}:"@ + json + "\u{7d}"@,
        None => "\u{7b}\u{22}query\u{22}:"@ + json_quoted(trim(query)) + "\u{7d}"@,
    }
}

/// `r` is the request a `.graphql` file's text posts.
pub open spec fn graphql_request(r: Request, text: Seq<char>) -> bool {
    let (meta, query, variables) = graphql_parts(crlf_to_lf(text));
    let (url, headers) = read_meta(match meta { Some(m) => lines(m), None => Seq::empty() });
    &&& r.method@ == "POST"@
    &&& r.url@ == url
    &&& r.header_pairs() == headers
    &&& r.body@ == graphql_document(query, variables)
    &&& r.kind == Some(BodyKind::Json)
    &&& r.vars@ == Map::<Seq<char>, Seq<char>>::empty()
}

/// A `.graphql` file as the request it posts: `POST`, JSON, the URL and
/// headers its header gives, and the operation and variables as the body.
pub fn parse(text: &str) -> (r: Request)
    ensures
        graphql_request(r, text@),
{
    let text = crlf_to_lf_chars(&chars_of(text));
    let sep = chars_of("\n---\n");
    proof {
        reveal_strlit("\n---\n");
    }
    let (meta, query, variables) = match split_once_seq_chars(&text, &sep) {
        None => (None, slice(&text, 0, text.len()), None),
        Some((meta, rest)) => match split_once_seq_chars(&rest, &sep) {
            None => (Some(meta), rest, None),
            Some((query, variables)) => (Some(meta), query, Some(variables)),
        },
    };
    assert(text@.subrange(0, text@.len() as int) == text@);
    let meta_lines = match &meta {
        Some(m) => lines_of(m),
        None => Vec::new(),
    };
    let ghost seen = views(meta_lines@);
    assert(seen == match opt_chars(meta) { Some(m) => lines(m), None => Seq::<Seq<char>>::empty() });
    let mut url: Vec<char> = Vec::new();
    let mut headers: Vec<(String, String)> = Vec::new();
    headers.push(("Content-Type".to_string(), "application/json".to_string()));
    proof {
        reveal_strlit("Content-Type");
        reveal_strlit("application/json");
        reveal_strlit("url:");
        reveal_strlit("header:");
        assert(seen.take(0) =~= Seq::<Seq<char>>::empty());
        assert(pair_views(headers@) =~= seq![("Content-Type"@, "application/json"@)]);
    }
    let mut i: usize = 0;
    while i < meta_lines.len()
        invariant
            i <= meta_lines@.len(),
            seen == views(meta_lines@),
            read_meta(seen.take(i as int)) == (url@, pair_views(headers@)),
        decreases meta_lines@.len() - i,
    {
        assert(seen.take(i + 1).drop_last() == seen.take(i as int));
        assert(seen.take(i + 1).last() == meta_lines@[i as int]@);
        let line = trim_chars(&trim_start_char_chars(&trim_chars(&meta_lines[i]), '#'));
        i += 1;
        match strip_prefix_ci(&line, &chars_of("url:")) {
            Some(rest) => {
                url = trim_chars(&rest);
            },
            None => match strip_prefix_ci(&line, &chars_of("header:")) {
                Some(header) => match split_once_chars(&header, ':') {
                    Some((name, value)) => {
                        let name = trim_chars(&name);
                        if name.len() > 0 {
                            let value = trim_chars(&value);
                            set_header(&mut headers, string_of(&name).as_str(), string_of(&value).as_str());
                        }
                    },
                    None => {},
                },
                None => {},
            },
        }
    }
    assert(seen.take(seen.len() as int) == seen);
    let body = document(&query, &variables);
    let vars = Vars::new();
    Request {
        method: "POST".to_string(),
        url: string_of(&url),
        headers,
        body: string_of(&body),
        kind: Some(BodyKind::Json),
        vars,
    }
}

pub open spec fn opt_chars(o: Option<Vec<char>>) -> Option<Seq<char>> {
    match o {
        Some(v) => Some(v@),
        None => None,
    }
}

fn strip_prefix_ci(text: &Vec<char>, prefix: &Vec<char>) -> (r: Option<Vec<char>>)
    ensures
        opt_chars(r) == strip_prefix_ignoring_case(text@, prefix@),
{
    if text.len() >= prefix.len() && same_ignoring_case(&slice(text, 0, prefix.len()), prefix) {
        assert(text@.subrange(0, prefix@.len() as int) == text@.take(prefix@.len() as int));
        let rest = slice(text, prefix.len(), text.len());
        assert(rest@ == text@.skip(prefix@.len() as int));
        Some(rest)
    } else {
        proof {
            if text@.len() >= prefix@.len() {
                assert(text@.subrange(0, prefix@.len() as int) == text@.take(prefix@.len() as int));
            }
        }
        None
    }
}

fn document(query: &Vec<char>, variables: &Option<Vec<char>>) -> (r: Vec<char>)
    ensures
        r@ == graphql_document(query@, opt_chars(*variables)),
{
    let quoted = json_quote(string_of(&trim_chars(query)).as_str());
    let mut body = chars_of("\u{7b}\u{22}query\u{22}:");
    append(&mut body, &chars_of(quoted.as_str()));
    let vars = match variables {
        Some(v) => {
            let t = trim_chars(v);
            if t.len() > 0 {
                json_compact(string_of(&t).as_str())
            } else {
                None
            }
        },
        None => None,
    };
    if let Some(json) = vars {
        append(&mut body, &chars_of(",\u{22}variables\u{22}:"));
        append(&mut body, &chars_of(json.as_str()));
    }
    append(&mut body, &chars_of("\u{7d}"));
    body
}

} // verus!

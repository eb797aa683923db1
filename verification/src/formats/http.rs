//! Plain `.http` files: the request line, headers until a blank line, then the
//! body.
//!
//! ```text
//! POST https://api.example.com/users
//! Content-Type: application/json
//!
//! { "name": "Jane" }
//! ```
//!
//! Also read the way VS Code and JetBrains write them: comments before the
//! request line, a trailing `HTTP/1.1`, a bare URL meaning GET, and `###`
//! ending the request. Only the first request in a file is read.

use vstd::prelude::*;

use crate::request::{Request, is_method, names_method};
use crate::text::{
    append, chars_of, contains_chars, contains_seq, crlf_to_lf, crlf_to_lf_chars, ends_with, join,
    join_chars, rsplit_once, rsplit_once_chars, slice, split, split_chars, split_once,
    split_once_chars, split_once_space, split_once_space_chars, starts_with, starts_with_chars,
    string_of, trim, trim_chars, trim_end, trim_end_chars, trim_start, trim_start_chars, upper,
    upper_chars, views,
};
use crate::varmap::{Vars, pair_views};

verus! {

/// A line that starts, after its indent, with `#` or `//`.
pub open spec fn is_comment(line: Seq<char>) -> bool {
    starts_with(trim_start(line), "#"@) || starts_with(trim_start(line), "//"@)
}

/// Passed over before the request line: blank, or a comment.
pub open spec fn is_skipped(line: Seq<char>) -> bool {
    trim(line).len() == 0 || is_comment(line)
}

/// `https://x HTTP/1.1` is the URL `https://x`.
pub open spec fn without_version(url: Seq<char>) -> Seq<char> {
    match rsplit_once(url, ' ') {
        Some((head, tail)) => if starts_with(tail, "HTTP/"@) {
            trim_end(head)
        } else {
            url
        },
        None => url,
    }
}

/// The method and URL a request line names. A line that starts with a URL
/// is a GET.
pub open spec fn request_line_of(line: Seq<char>) -> (Seq<char>, Seq<char>) {
    let (first, rest) = match split_once_space(line) {
        Some((first, rest)) => (first, trim(rest)),
        None => (line, Seq::empty()),
    };
    if !names_method(first) && contains_seq(first, "://"@) {
        ("GET"@, without_version(line))
    } else {
        (upper(first), without_version(rest))
    }
}

/// The headers from line `i` to the first blank line, and the line after
/// that blank one, where the body starts.
pub open spec fn headers_from(lines: Seq<Seq<char>>, i: int) -> (Seq<(Seq<char>, Seq<char>)>, int)
    decreases lines.len() - i,
{
    if i < 0 || i >= lines.len() {
        (Seq::empty(), i)
    } else if trim(lines[i]).len() == 0 {
        (Seq::empty(), i + 1)
    } else {
        let (rest, start) = headers_from(lines, i + 1);
        if is_comment(lines[i]) {
            (rest, start)
        } else {
            match split_once(lines[i], ':') {
                Some((name, value)) => if trim(name).len() > 0 {
                    (seq![(trim(name), trim(value))] + rest, start)
                } else {
                    (rest, start)
                },
                None => (rest, start),
            }
        }
    }
}

/// The lines up to the first that starts, after its indent, with `###`.
pub open spec fn until_separator(lines: Seq<Seq<char>>) -> Seq<Seq<char>>
    decreases lines.len(),
{
    if lines.len() == 0 || starts_with(trim_start(lines[0]), "###"@) {
        Seq::empty()
    } else {
        seq![lines[0]] + until_separator(lines.drop_first())
    }
}

/// `k` is the request line: the first line that is not skipped.
pub open spec fn request_line_at(lines: Seq<Seq<char>>, k: int) -> bool {
    &&& 0 <= k < lines.len()
    &&& !is_skipped(lines[k])
    &&& forall|j: int| 0 <= j < k ==> is_skipped(#[trigger] lines[j])
}

/// What a `.http` file says: its method, URL, headers and body.
pub open spec fn http_parsed(text: Seq<char>) -> (Seq<char>, Seq<char>, Seq<(Seq<char>, Seq<char>)>, Seq<char>) {
    let lines = split(crlf_to_lf(text), '\n');
    if exists|k: int| request_line_at(lines, k) {
        let k = choose|k: int| request_line_at(lines, k);
        let (method, url) = request_line_of(trim(lines[k]));
        let (headers, start) = headers_from(lines, k + 1);
        let body = trim(join(until_separator(lines.skip(start)), "\n"@));
        (method, url, headers, body)
    } else {
        (Seq::empty(), Seq::empty(), Seq::empty(), Seq::empty())
    }
}

fn is_comment_line(line: &[char]) -> (r: bool)
    ensures
        r == is_comment(line@),
{
    let start = trim_start_chars(line);
    starts_with_chars(&start, &chars_of("#")) || starts_with_chars(&start, &chars_of("//"))
}

fn is_skipped_line(line: &[char]) -> (r: bool)
    ensures
        r == is_skipped(line@),
{
    trim_chars(line).len() == 0 || is_comment_line(line)
}

fn strip_version(url: &[char]) -> (r: Vec<char>)
    ensures
        r@ == without_version(url@),
{
    match rsplit_once_chars(url, ' ') {
        Some((head, tail)) => if starts_with_chars(&tail, &chars_of("HTTP/")) {
            trim_end_chars(&head)
        } else {
            let r = slice(url, 0, url.len());
            assert(r@ == url@);
            r
        },
        None => {
            let r = slice(url, 0, url.len());
            assert(r@ == url@);
            r
        },
    }
}

fn request_line(line: &[char]) -> (r: (Vec<char>, Vec<char>))
    ensures
        request_line_of(line@) == (r.0@, r.1@),
{
    let (first, rest) = match split_once_space_chars(line) {
        Some((first, rest)) => (first, trim_chars(&rest)),
        None => (slice(line, 0, line.len()), Vec::new()),
    };
    assert(line@.subrange(0, line@.len() as int) == line@);
    let first_text = string_of(&first);
    if !is_method(first_text.as_str()) && contains_chars(&first, &chars_of("://")) {
        (chars_of("GET"), strip_version(line))
    } else {
        (upper_chars(&first), strip_version(&rest))
    }
}

/// `r` is the request an `.http` file's text reads as.
pub open spec fn http_request(r: Request, text: Seq<char>) -> bool {
    &&& (r.method@, r.url@, r.header_pairs(), r.body@) == http_parsed(text)
    &&& r.kind is None
    &&& r.vars@ == Map::<Seq<char>, Seq<char>>::empty()
}

pub fn parse(text: &str) -> (r: Request)
    ensures
        http_request(r, text@),
{
    let chars = crlf_to_lf_chars(&chars_of(text));
    let lines = split_chars(&chars, '\n');
    let ghost all = views(lines@);
    let mut request = Request::empty();

    let mut index: usize = 0;
    while index < lines.len() && is_skipped_line(&lines[index])
        invariant
            index <= lines@.len(),
            all == views(lines@),
            forall|j: int| 0 <= j < index ==> is_skipped(#[trigger] all[j]),
        decreases lines@.len() - index,
    {
        index += 1;
    }
    if index == lines.len() {
        assert(!exists|k: int| request_line_at(all, k));
        assert(request.header_pairs() =~= Seq::<(Seq<char>, Seq<char>)>::empty());
        assert(request.method@ =~= Seq::<char>::empty());
        assert(request.url@ =~= Seq::<char>::empty());
        assert(request.body@ =~= Seq::<char>::empty());
        assert(all == split(crlf_to_lf(text@), '\n'));
        return request;
    }
    proof {
        assert(request_line_at(all, index as int));
        let k = choose|k: int| request_line_at(all, k);
        if k < index {
            assert(is_skipped(all[k]));
        }
        if index < k {
            assert(is_skipped(all[index as int]));
        }
    }
    let (method, url) = request_line(&trim_chars(&lines[index]));
    request.method = string_of(&method);
    request.url = string_of(&url);
    index += 1;
    let ghost header_start = index as int;

    let mut headers: Vec<(String, String)> = Vec::new();
    loop
        invariant_except_break
            pair_views(headers@) + headers_from(all, index as int).0 == headers_from(all, header_start).0,
            headers_from(all, index as int).1 == headers_from(all, header_start).1,
        invariant
            index <= lines@.len(),
            all == views(lines@),
            header_start <= index,
        ensures
            pair_views(headers@) == headers_from(all, header_start).0,
            index == headers_from(all, header_start).1,
            index <= lines@.len(),
        decreases lines@.len() - index,
    {
        if index >= lines.len() {
            assert(pair_views(headers@) + Seq::empty() == pair_views(headers@));
            break;
        }
        let line = &lines[index];
        assert(line@ == all[index as int]);
        index += 1;
        if trim_chars(line).len() == 0 {
            assert(pair_views(headers@) + Seq::empty() == pair_views(headers@));
            break;
        }
        if is_comment_line(line) {
            continue;
        }
        if let Some((name, value)) = split_once_chars(line, ':') {
            let name = trim_chars(&name);
            if name.len() > 0 {
                let value = trim_chars(&value);
                let ghost before = pair_views(headers@);
                headers.push((string_of(&name), string_of(&value)));
                assert(pair_views(headers@) == before.push((name@, value@)));
                assert(before.push((name@, value@)) + headers_from(all, index as int).0
                    == before + (seq![(name@, value@)] + headers_from(all, index as int).0));
            }
        }
    }
    request.headers = headers;

    let ghost rest = all.skip(index as int);
    let mut body_lines: Vec<Vec<char>> = Vec::new();
    let mut j = index;
    while j < lines.len() && !starts_with_chars(&trim_start_chars(&lines[j]), &chars_of("###"))
        invariant
            index <= j <= lines@.len(),
            all == views(lines@),
            rest == all.skip(index as int),
            views(body_lines@) + until_separator(all.skip(j as int)) == until_separator(rest),
        decreases lines@.len() - j,
    {
        let copy = slice(&lines[j], 0, lines[j].len());
        assert(lines[j as int]@.subrange(0, lines[j as int]@.len() as int) == lines[j as int]@);
        assert(all.skip(j as int)[0] == all[j as int]);
        assert(all.skip(j as int).drop_first() == all.skip(j + 1));
        let ghost before = views(body_lines@);
        body_lines.push(copy);
        assert(views(body_lines@) == before.push(copy@));
        assert(before.push(copy@) + until_separator(all.skip(j + 1)) == before + (seq![copy@] + until_separator(all.skip(j + 1))));
        j += 1;
    }
    proof {
        if j < lines@.len() {
            assert(all.skip(j as int)[0] == all[j as int]);
        } else {
            assert(all.skip(j as int).len() == 0);
        }
        assert(views(body_lines@) + Seq::<Seq<char>>::empty() == views(body_lines@));
    }
    let body = trim_chars(&join_chars(&body_lines, &chars_of("\n")));
    request.body = string_of(&body);
    request
}

/// What [`format`] writes: the request line, one line per header, and the
/// body after a blank line, ending in a line break.
pub open spec fn http_formatted(method: Seq<char>, url: Seq<char>, headers: Seq<(Seq<char>, Seq<char>)>, body: Seq<char>) -> Seq<char> {
    let method = if method.len() == 0 { "GET"@ } else { method };
    let head = method + " "@ + url + "\n"@ + header_lines(headers);
    if body.len() == 0 {
        head
    } else if ends_with(body, "\n"@) {
        head + "\n"@ + body
    } else {
        head + "\n"@ + body + "\n"@
    }
}

/// `name: value` lines.
pub open spec fn header_lines(headers: Seq<(Seq<char>, Seq<char>)>) -> Seq<char>
    decreases headers.len(),
{
    if headers.len() == 0 {
        Seq::empty()
    } else {
        header_lines(headers.drop_last()) + headers.last().0 + ": "@ + headers.last().1 + "\n"@
    }
}

pub fn format(request: &Request) -> (r: String)
    ensures
        r@ == http_formatted(request.method@, request.url@, request.header_pairs(), request.body@),
{
    let mut out: Vec<char> = if request.method.as_str().is_empty() {
        chars_of("GET")
    } else {
        chars_of(request.method.as_str())
    };
    append(&mut out, &chars_of(" "));
    append(&mut out, &chars_of(request.url.as_str()));
    append(&mut out, &chars_of("\n"));
    let ghost head = out@;
    let ghost all = request.header_pairs();
    let mut i: usize = 0;
    while i < request.headers.len()
        invariant
            i <= request.headers@.len(),
            all == request.header_pairs(),
            out@ == head + header_lines(all.take(i as int)),
        decreases request.headers@.len() - i,
    {
        let ghost t = all.take(i + 1);
        assert(t.drop_last() == all.take(i as int));
        append(&mut out, &chars_of(request.headers[i].0.as_str()));
        append(&mut out, &chars_of(": "));
        append(&mut out, &chars_of(request.headers[i].1.as_str()));
        append(&mut out, &chars_of("\n"));
        i += 1;
    }
    assert(all.take(request.headers@.len() as int) == all);
    let body = chars_of(request.body.as_str());
    if body.len() > 0 {
        append(&mut out, &chars_of("\n"));
        append(&mut out, &body);
        if !crate::text::ends_with_chars(&body, &chars_of("\n")) {
            append(&mut out, &chars_of("\n"));
        }
    }
    string_of(&out)
}

} // verus!

//! What `.http` formatting and reading promise of each other: a request
//! written by `format` reads back as the same request.

use vstd::prelude::*;

use crate::formats::http::{
    headers_from, http_formatted, http_parsed, is_comment, is_skipped, request_line_at, request_line_of,
    header_lines, until_separator, without_version,
};
use crate::request::{methods, names_method};
use crate::text::{
    crlf_to_lf, ends_with, eq_ignore_case, first_at, first_space_at, is_space, join, last_at, lemma_join_split,
    lemma_split_join, lemma_split_once_at, lower, lower_char, split, split_once, split_once_space, starts_with, trim,
    trim_end, trim_start, upper, upper_char,
};

verus! {

pub(crate) proof fn lemma_crlf_unchanged(s: Seq<char>)
    requires
        forall|i: int| 0 <= i < s.len() ==> s[i] != '\r',
    ensures
        crlf_to_lf(s) == s,
    decreases s.len(),
{
    if s.len() > 0 {
        lemma_crlf_unchanged(s.drop_last());
        assert(s.drop_last().push(s.last()) == s);
    }
}

pub(crate) proof fn lemma_trim_start_len(s: Seq<char>)
    ensures
        trim_start(s).len() <= s.len(),
    decreases s.len(),
{
    if s.len() > 0 && is_space(s[0]) {
        lemma_trim_start_len(s.drop_first());
    }
}

pub(crate) proof fn lemma_trim_end_len(s: Seq<char>)
    ensures
        trim_end(s).len() <= s.len(),
    decreases s.len(),
{
    if s.len() > 0 && is_space(s.last()) {
        lemma_trim_end_len(s.drop_last());
    }
}

/// Trimmed text neither starts nor ends with whitespace.
pub(crate) proof fn lemma_trimmed_ends(s: Seq<char>)
    requires
        trim(s) == s,
    ensures
        s.len() > 0 ==> !is_space(s[0]) && !is_space(s.last()),
        trim_start(s) == s,
        trim_end(s) == s,
{
    if s.len() > 0 && is_space(s[0]) {
        lemma_trim_start_len(s.drop_first());
        lemma_trim_end_len(trim_start(s));
        assert(false);
    }
    if s.len() > 0 && is_space(s.last()) {
        assert(trim_start(s) == s);
        lemma_trim_end_len(s.drop_last());
        assert(false);
    }
}

/// Text with no whitespace at either end is its own trim.
pub(crate) proof fn lemma_trim_same(s: Seq<char>)
    requires
        s.len() > 0 ==> !is_space(s[0]) && !is_space(s.last()),
    ensures
        trim(s) == s,
        trim_start(s) == s,
        trim_end(s) == s,
{
}

proof fn lemma_trim_end_keeps(s: Seq<char>)
    requires
        s.len() > 0,
        !is_space(s[0]),
    ensures
        trim_end(s).len() > 0,
    decreases s.len(),
{
    if is_space(s.last()) {
        assert(s.len() >= 2);
        lemma_trim_end_keeps(s.drop_last());
    }
}

pub(crate) proof fn lemma_join_append(p: Seq<Seq<char>>, q: Seq<Seq<char>>, sep: Seq<char>)
    requires
        p.len() >= 1,
        q.len() >= 1,
    ensures
        join(p + q, sep) == join(p, sep) + sep + join(q, sep),
    decreases q.len(),
{
    if q.len() == 1 {
        assert((p + q).drop_last() == p);
        assert((p + q).last() == q[0]);
    } else {
        lemma_join_append(p, q.drop_last(), sep);
        assert((p + q).drop_last() == p + q.drop_last());
        assert((p + q).last() == q.last());
    }
}

pub(crate) proof fn lemma_split_pieces(s: Seq<char>, c: char)
    ensures
        forall|k: int, i: int| 0 <= k < split(s, c).len() && 0 <= i < split(s, c)[k].len() ==> #[trigger] split(s, c)[k][i] != c,
    decreases s.len(),
{
    if s.len() > 0 {
        lemma_split_pieces(s.drop_last(), c);
        crate::text::lemma_split_not_empty(s.drop_last(), c);
    }
}

/// Pieces of text without `x` are without `x`.
pub(crate) proof fn lemma_split_avoids(s: Seq<char>, c: char, x: char)
    requires
        forall|i: int| 0 <= i < s.len() ==> s[i] != x,
    ensures
        forall|k: int, i: int| 0 <= k < split(s, c).len() && 0 <= i < split(s, c)[k].len() ==> #[trigger] split(s, c)[k][i] != x,
    decreases s.len(),
{
    if s.len() > 0 {
        lemma_split_avoids(s.drop_last(), c, x);
        crate::text::lemma_split_not_empty(s.drop_last(), c);
    }
}

pub open spec fn is_letter(c: char) -> bool {
    ('A' <= c && c <= 'Z') || ('a' <= c && c <= 'z')
}

/// A method name is made of letters.
proof fn lemma_method_letters(m: Seq<char>)
    requires
        names_method(m),
    ensures
        m.len() > 0,
        forall|j: int| 0 <= j < m.len() ==> is_letter(#[trigger] m[j]),
{
    reveal_strlit("GET");
    reveal_strlit("POST");
    reveal_strlit("PUT");
    reveal_strlit("PATCH");
    reveal_strlit("DELETE");
    reveal_strlit("HEAD");
    reveal_strlit("OPTIONS");
    let i = choose|i: int| 0 <= i < 7 && eq_ignore_case(#[trigger] methods()[i], m);
    let lit = methods()[i];
    assert(forall|j: int| 0 <= j < lit.len() ==> 'A' <= #[trigger] lit[j] <= 'Z');
    assert(lower(lit) == lower(m));
    assert(lower(lit).len() == lit.len() && lower(m).len() == m.len());
    assert forall|j: int| 0 <= j < m.len() implies is_letter(#[trigger] m[j]) by {
        assert(lower(lit)[j] == lower_char(lit[j]));
        assert(lower(m)[j] == lower_char(m[j]));
    }
}

/// The request line `format` writes reads as its method and URL.
proof fn lemma_request_line(m: Seq<char>, u: Seq<char>)
    requires
        names_method(m),
        upper(m) == m,
        u.len() > 0,
        forall|i: int| 0 <= i < u.len() ==> !is_space(#[trigger] u[i]),
    ensures
        ({
            let line = m + " "@ + u;
            &&& trim(line) == line
            &&& !is_skipped(line)
            &&& request_line_of(line) == (m, u)
            &&& forall|i: int| 0 <= i < line.len() ==> #[trigger] line[i] != '\n' && line[i] != '\r'
        }),
{
    reveal_strlit(" ");
    reveal_strlit("#");
    reveal_strlit("//");
    reveal_strlit("://");
    lemma_method_letters(m);
    let line = m + " "@ + u;
    assert(line[0] == m[0]);
    assert(line.last() == u.last());
    assert(!is_space(u[u.len() - 1]));
    lemma_trim_same(line);
    assert(forall|i: int| 0 <= i < line.len() ==> #[trigger] line[i] != '\n' && line[i] != '\r') by {
        assert forall|i: int| 0 <= i < line.len() implies #[trigger] line[i] != '\n' && line[i] != '\r' by {
            if i < m.len() {
                assert(line[i] == m[i]);
            } else if i == m.len() {
                assert(line[i] == ' ');
            } else {
                assert(line[i] == u[i - m.len() - 1]);
            }
        }
    }
    assert(!starts_with(line, "#"@)) by {
        if starts_with(line, "#"@) {
            assert(line.take(1)[0] == '#');
        }
    }
    assert(!starts_with(line, "//"@)) by {
        if starts_with(line, "//"@) {
            assert(line.take(2)[0] == '/');
        }
    }
    assert(!is_comment(line));
    let n = m.len() as int;
    assert(first_space_at(line, n)) by {
        assert(line[n] == ' ');
        assert forall|j: int| 0 <= j < n implies !is_space(#[trigger] line[j]) by {
            assert(line[j] == m[j]);
        }
    }
    let i = choose|i: int| first_space_at(line, i);
    assert(i == n) by {
        if i < n {
            assert(line[i] == m[i]);
        }
        if i > n {
            assert(!is_space(line[n]));
        }
    }
    assert(line.take(n) == m);
    assert(line.skip(n + 1) == u);
    assert(split_once_space(line) == Some((m, u)));
    lemma_trim_same(u);
    assert(!(exists|k: int| last_at(u, ' ', k))) by {
        if exists|k: int| last_at(u, ' ', k) {
            let k = choose|k: int| last_at(u, ' ', k);
            assert(is_space(u[k]));
        }
    }
    assert(without_version(u) == u);
}

/// A header as `format` writes it.
pub open spec fn header_line(h: (Seq<char>, Seq<char>)) -> Seq<char> {
    h.0 + ": "@ + h.1
}

pub open spec fn header_text_lines(headers: Seq<(Seq<char>, Seq<char>)>) -> Seq<Seq<char>> {
    headers.map_values(|h: (Seq<char>, Seq<char>)| header_line(h))
}

pub open spec fn no_line_break(s: Seq<char>) -> bool {
    forall|i: int| 0 <= i < s.len() ==> #[trigger] s[i] != '\n' && s[i] != '\r'
}

/// A header that reads back as it was written: a trimmed name, neither
/// empty nor holding `:`, that does not read as a comment, and a trimmed
/// value, neither of them breaking the line.
pub open spec fn plain_header(h: (Seq<char>, Seq<char>)) -> bool {
    &&& h.0.len() > 0
    &&& trim(h.0) == h.0
    &&& no_line_break(h.0)
    &&& forall|i: int| 0 <= i < h.0.len() ==> #[trigger] h.0[i] != ':'
    &&& !starts_with(h.0, "#"@)
    &&& !starts_with(h.0, "//"@)
    &&& trim(h.1) == h.1
    &&& no_line_break(h.1)
}

proof fn lemma_header_line(h: (Seq<char>, Seq<char>))
    requires
        plain_header(h),
    ensures
        trim(header_line(h)).len() > 0,
        !is_comment(header_line(h)),
        split_once(header_line(h), ':') == Some((h.0, " "@ + h.1)),
        trim(" "@ + h.1) == h.1,
        no_line_break(header_line(h)),
{
    reveal_strlit(": ");
    reveal_strlit(" ");
    reveal_strlit("#");
    reveal_strlit("//");
    let (name, value) = h;
    let line = header_line(h);
    let n = name.len() as int;
    lemma_trimmed_ends(name);
    lemma_trimmed_ends(value);
    assert(line[0] == name[0]);
    assert(trim_start(line) == line);
    lemma_trim_end_keeps(line);
    assert(!starts_with(line, "#"@)) by {
        if starts_with(line, "#"@) {
            assert(line.take(1)[0] == '#');
            assert(name.take(1) =~= "#"@);
        }
    }
    assert(!starts_with(line, "//"@)) by {
        if starts_with(line, "//"@) {
            assert(line.take(2)[0] == '/' && line.take(2)[1] == '/');
            if n >= 2 {
                assert(name.take(2) == line.take(2));
            } else {
                assert(line[1] == ':');
            }
        }
    }
    assert(first_at(line, ':', n)) by {
        assert(line[n] == ':');
        assert forall|j: int| 0 <= j < n implies line[j] != ':' by {
            assert(line[j] == name[j]);
        }
    }
    lemma_split_once_at(line, ':', n);
    assert(line.take(n) == name);
    assert(line.skip(n + 1) == " "@ + value);
    let sv = " "@ + value;
    assert(sv.drop_first() == value);
    assert(trim_start(sv) == trim_start(value));
    if value.len() > 0 {
        assert(sv.last() == value.last());
    }
    assert(trim_end(value) == value);
    assert forall|i: int| 0 <= i < line.len() implies #[trigger] line[i] != '\n' && line[i] != '\r' by {
        if i < n {
            assert(line[i] == name[i]);
        } else if i == n {
        } else if i == n + 1 {
        } else {
            assert(line[i] == value[i - n - 2]);
        }
    }
}

proof fn lemma_headers_from(lines: Seq<Seq<char>>, headers: Seq<(Seq<char>, Seq<char>)>, j: int)
    requires
        0 <= j <= headers.len(),
        lines.len() > headers.len() + 1,
        forall|k: int| 0 <= k < headers.len() ==> lines[1 + k] == header_line(#[trigger] headers[k]) && plain_header(headers[k]),
        lines[1 + headers.len() as int] == Seq::<char>::empty(),
    ensures
        headers_from(lines, 1 + j) == (headers.skip(j), headers.len() + 2int),
    decreases headers.len() - j,
{
    if j == headers.len() {
        assert(trim(Seq::<char>::empty()).len() == 0);
        assert(headers.skip(j) == Seq::<(Seq<char>, Seq<char>)>::empty());
    } else {
        lemma_headers_from(lines, headers, j + 1);
        let h = headers[j];
        assert(lines[1 + j] == header_line(h));
        lemma_header_line(h);
        lemma_trimmed_ends(h.0);
        assert(trim(h.0) == h.0);
        assert(seq![(h.0, h.1)] + headers.skip(j + 1) == headers.skip(j));
    }
}

/// The request line and the header lines, as one text.
proof fn lemma_head(line: Seq<char>, headers: Seq<(Seq<char>, Seq<char>)>)
    ensures
        line + "\n"@ + header_lines(headers) == join(seq![line] + header_text_lines(headers) + seq![Seq::<char>::empty()], "\n"@),
    decreases headers.len(),
{
    reveal_strlit("\n");
    reveal_strlit(": ");
    let e = Seq::<char>::empty();
    if headers.len() == 0 {
        assert(header_text_lines(headers) == Seq::<Seq<char>>::empty());
        assert(seq![line] + header_text_lines(headers) + seq![e] == seq![line, e]);
        assert(seq![line, e].drop_last() == seq![line]);
        assert(line + "\n"@ + header_lines(headers) == line + "\n"@ + e);
        assert(join(seq![line, e], "\n"@) == join(seq![line], "\n"@) + "\n"@ + e);
        assert(join(seq![line], "\n"@) == line);
    } else {
        let init = headers.drop_last();
        lemma_head(line, init);
        let lines = seq![line] + header_text_lines(headers) + seq![e];
        let before = seq![line] + header_text_lines(init);
        assert(header_text_lines(headers) == header_text_lines(init).push(header_line(headers.last())));
        assert(lines.drop_last() == before.push(header_line(headers.last())));
        assert(before.push(header_line(headers.last())).drop_last() == before);
        assert((seq![line] + header_text_lines(init) + seq![e]).drop_last() == before);
        let hl = header_line(headers.last());
        assert(join(before.push(hl), "\n"@) == join(before, "\n"@) + "\n"@ + hl);
        assert(join(lines, "\n"@) == join(before.push(hl), "\n"@) + "\n"@ + e);
        assert(header_lines(headers) == header_lines(init) + hl + "\n"@);
        assert(join(seq![line] + header_text_lines(init) + seq![e], "\n"@) == join(before, "\n"@) + "\n"@ + e);
        assert(line + "\n"@ + header_lines(headers) =~= join(before, "\n"@) + "\n"@ + e + hl + "\n"@);
        assert(join(lines, "\n"@) =~= join(before, "\n"@) + "\n"@ + hl + "\n"@ + e);
        assert(join(before, "\n"@) + "\n"@ + e + hl + "\n"@ =~= join(before, "\n"@) + "\n"@ + hl + "\n"@ + e);
    }
}

proof fn lemma_until_whole(lines: Seq<Seq<char>>)
    requires
        forall|k: int| 0 <= k < lines.len() ==> !starts_with(trim_start(#[trigger] lines[k]), "###"@),
    ensures
        until_separator(lines) == lines,
    decreases lines.len(),
{
    if lines.len() > 0 {
        assert(!starts_with(trim_start(lines[0]), "###"@));
        assert forall|k: int| 0 <= k < lines.drop_first().len() implies !starts_with(trim_start(#[trigger] lines.drop_first()[k]), "###"@) by {
            assert(lines.drop_first()[k] == lines[k + 1]);
        }
        lemma_until_whole(lines.drop_first());
        assert(seq![lines[0]] + lines.drop_first() == lines);
    }
}

pub(crate) proof fn lemma_join_avoids(parts: Seq<Seq<char>>, sep: Seq<char>, x: char)
    requires
        forall|k: int, i: int| 0 <= k < parts.len() && 0 <= i < parts[k].len() ==> #[trigger] parts[k][i] != x,
        forall|i: int| 0 <= i < sep.len() ==> sep[i] != x,
    ensures
        forall|i: int| 0 <= i < join(parts, sep).len() ==> #[trigger] join(parts, sep)[i] != x,
    decreases parts.len(),
{
    if parts.len() > 1 {
        lemma_join_avoids(parts.drop_last(), sep, x);
        let a = join(parts.drop_last(), sep);
        let whole = a + sep + parts.last();
        assert forall|i: int| 0 <= i < whole.len() implies #[trigger] whole[i] != x by {
            if i < a.len() {
            } else if i < a.len() + sep.len() {
                assert(whole[i] == sep[i - a.len()]);
            } else {
                assert(whole[i] == parts[parts.len() - 1][i - a.len() - sep.len()]);
            }
        }
    } else if parts.len() == 1 {
        assert forall|i: int| 0 <= i < parts[0].len() implies #[trigger] parts[0][i] != x by {}
    }
}

/// What a request must be for `format` and `parse` to agree on it: a
/// method name in capitals, a URL with no whitespace in it, headers that
/// read back as written, and a trimmed body with no `\r` and no line that
/// would end the request as `###` does.
pub open spec fn reads_back(method: Seq<char>, url: Seq<char>, headers: Seq<(Seq<char>, Seq<char>)>, body: Seq<char>) -> bool {
    &&& names_method(method)
    &&& upper(method) == method
    &&& url.len() > 0
    &&& forall|i: int| 0 <= i < url.len() ==> !is_space(#[trigger] url[i])
    &&& forall|k: int| 0 <= k < headers.len() ==> plain_header(#[trigger] headers[k])
    &&& trim(body) == body
    &&& forall|i: int| 0 <= i < body.len() ==> #[trigger] body[i] != '\r'
    &&& forall|k: int| 0 <= k < split(body, '\n').len() ==> !starts_with(trim_start(#[trigger] split(body, '\n')[k]), "###"@)
}

/// A request that `format` writes, `parse` reads back as the same method,
/// URL, headers in the same order, and body.
pub proof fn formatted_reads_back(method: Seq<char>, url: Seq<char>, headers: Seq<(Seq<char>, Seq<char>)>, body: Seq<char>)
    requires
        reads_back(method, url, headers, body),
    ensures
        http_parsed(http_formatted(method, url, headers, body)) == (method, url, headers, body),
{
    reveal_strlit("\n");
    reveal_strlit(" ");
    reveal_strlit("###");
    let nl = "\n"@;
    assert(nl == seq!['\n']);
    let e = Seq::<char>::empty();
    lemma_method_letters(method);
    lemma_request_line(method, url);
    let req = method + " "@ + url;
    lemma_head(req, headers);
    let hl = header_text_lines(headers);
    let p = seq![req] + hl + seq![e];
    let n = headers.len() as int;
    assert forall|k: int| 0 <= k < headers.len() implies p[1 + k] == header_line(#[trigger] headers[k]) && plain_header(headers[k]) by {
        assert(p[1 + k] == hl[k]);
    }
    assert(p[1 + n] == e);
    assert forall|k: int| 0 <= k < hl.len() implies no_line_break(#[trigger] hl[k]) by {
        lemma_header_line(headers[k]);
    }
    let text = http_formatted(method, url, headers, body);
    lemma_trimmed_ends(body);
    let lines = if body.len() == 0 {
        p
    } else {
        p + (split(body, '\n') + seq![e])
    };
    if body.len() == 0 {
        assert(text == join(p, nl));
    } else {
        assert(!ends_with(body, nl)) by {
            if ends_with(body, nl) {
                assert(body.skip(body.len() - 1)[0] == body.last());
            }
        }
        let q = split(body, '\n') + seq![e];
        crate::text::lemma_split_not_empty(body, '\n');
        lemma_join_split(body, '\n');
        assert(q.drop_last() == split(body, '\n'));
        assert(q.last() == e);
        assert(q.len() >= 2);
        assert(join(q, nl) == join(split(body, '\n'), nl) + nl + e);
        lemma_join_append(p, q, nl);
        assert(text == join(p, nl) + nl + body + nl);
        assert(text =~= join(p, nl) + nl + join(q, nl));
    }
    assert(text == join(lines, nl));
    lemma_split_pieces(body, '\n');
    lemma_split_avoids(body, '\n', '\r');
    assert forall|k: int, i: int| 0 <= k < lines.len() && 0 <= i < lines[k].len() implies #[trigger] lines[k][i] != '\n' && lines[k][i] != '\r' by {
        if k == 0 {
            assert(lines[k] == req);
        } else if k <= n {
            assert(lines[k] == hl[k - 1]);
            assert(no_line_break(hl[k - 1]));
        } else if k == n + 1 {
            assert(lines[k] == e);
        } else {
            let q = split(body, '\n') + seq![e];
            assert(lines[k] == q[k - n - 2]);
            if k - n - 2 < split(body, '\n').len() {
                assert(split(body, '\n')[k - n - 2][i] != '\n');
                assert(split(body, '\n')[k - n - 2][i] != '\r');
            }
        }
    }
    lemma_split_join(lines, '\n');
    lemma_join_avoids(lines, nl, '\r');
    lemma_crlf_unchanged(text);
    assert(split(crlf_to_lf(text), '\n') == lines);
    // The request line is the first line.
    assert(request_line_at(lines, 0));
    let k = choose|k: int| request_line_at(lines, k);
    assert(k == 0) by {
        if k > 0 {
            assert(is_skipped(lines[0]));
        }
    }
    assert(trim(lines[0]) == req);
    assert(request_line_of(req) == (method, url));
    lemma_headers_from(lines, headers, 0);
    assert(headers.skip(0) == headers);
    let rest = lines.skip(n + 2);
    if body.len() == 0 {
        assert(rest == Seq::<Seq<char>>::empty());
        assert(until_separator(rest) == Seq::<Seq<char>>::empty());
        assert(trim(join(Seq::<Seq<char>>::empty(), nl)) == e);
    } else {
        let q = split(body, '\n') + seq![e];
        assert(rest == q);
        assert forall|j: int| 0 <= j < q.len() implies !starts_with(trim_start(#[trigger] q[j]), "###"@) by {
            if j < split(body, '\n').len() {
                assert(q[j] == split(body, '\n')[j]);
            } else {
                assert(q[j] == e);
                assert(trim_start(e) == e);
            }
        }
        lemma_until_whole(q);
        lemma_join_split(body, '\n');
        assert(join(q, nl) == body + nl);
        let t = body + nl;
        assert(t[0] == body[0]);
        assert(trim_start(t) == t);
        assert(t.drop_last() == body);
        assert(trim_end(t) == trim_end(body));
    }
}


} // verus!

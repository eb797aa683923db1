//! What `.bru` formatting and reading promise of each other: a request
//! written as a fresh file by `format` reads back as that request.

use vstd::prelude::*;

use crate::body::BodyKind;
use crate::formats::bru::{
    block_at, blocks_from, bru_formatted, bru_parsed, closes_at, dedented, dedented_line, body_block_lines,
    body_text_line, disabled_lines, empty_state, headers_block_lines, indented_pairs, is_method_block_name,
    kind_of_mode_spec, lemma_close_unique, BlockView, lemma_trim_end_is_prefix, method_block_lines, method_blocks,
    method_word, mode_of, opens_block, pair_of_line, pairs_of, read_block, read_blocks, saved_method_lines,
    url_of, without_trailing, BruState,
};
use crate::formats::http_laws::{
    lemma_crlf_unchanged, lemma_join_avoids, lemma_split_avoids, lemma_split_pieces, lemma_trim_same,
    lemma_trimmed_ends, no_line_break,
};
use crate::text::{
    crlf_to_lf, ends_with, first_at, is_space, join, lemma_join_split, lemma_split_join, lemma_split_once_at,
    lines, lower, lower_char, split, split_once, starts_with, strip_cr, trim, trim_end, trim_start, upper,
};

verus! {

/// A header that a `.bru` headers block reads back as written: a trimmed
/// name, neither empty nor holding `:`, that Bruno does not read as
/// switched off (`~`) or as a comment (`//`), and a trimmed value, neither
/// of them breaking the line.
pub open spec fn bru_plain_header(h: (Seq<char>, Seq<char>)) -> bool {
    &&& h.0.len() > 0
    &&& trim(h.0) == h.0
    &&& no_line_break(h.0)
    &&& forall|i: int| 0 <= i < h.0.len() ==> #[trigger] h.0[i] != ':'
    &&& !starts_with(h.0, "~"@)
    &&& !starts_with(h.0, "//"@)
    &&& trim(h.1) == h.1
    &&& no_line_break(h.1)
}

/// `  key: value`, as the blocks of a `.bru` file write a pair.
pub open spec fn pair_line(key: Seq<char>, value: Seq<char>) -> Seq<char> {
    "  "@ + key + ": "@ + value
}

/// The text of a pair line once trimmed.
pub open spec fn trimmed_pair(key: Seq<char>, value: Seq<char>) -> Seq<char> {
    if value.len() > 0 { key + ": "@ + value } else { key + ":"@ }
}

proof fn lemma_pair_trim(key: Seq<char>, value: Seq<char>)
    requires
        bru_plain_header((key, value)),
    ensures
        trim(pair_line(key, value)) == trimmed_pair(key, value),
{
    reveal_strlit("  ");
    reveal_strlit(": ");
    reveal_strlit(":");
    reveal_strlit(" ");
    lemma_trimmed_ends(key);
    lemma_trimmed_ends(value);
    let hl = key + ": "@ + value;
    let line = pair_line(key, value);
    assert(line =~= "  "@ + hl);
    assert(line.drop_first() =~= " "@ + hl);
    assert(line.drop_first().drop_first() =~= hl);
    assert(hl[0] == key[0]);
    assert(trim_start(hl) == hl);
    assert(is_space(line[0]));
    assert(trim_start(line) == trim_start(line.drop_first()));
    assert(is_space(line.drop_first()[0]));
    assert(trim_start(line.drop_first()) == trim_start(line.drop_first().drop_first()));
    assert(trim_start(line) == hl);
    if value.len() > 0 {
        assert(hl.last() == value.last());
        assert(trim_end(hl) == hl);
    } else {
        assert(hl.drop_last() =~= key + ":"@);
        assert(hl.last() == ' ');
        assert((key + ":"@).last() == ':');
        assert(trim_end(hl.drop_last()) == hl.drop_last());
        assert(trim_end(hl) == trim_end(hl.drop_last()));
    }
}

proof fn lemma_pair_split(key: Seq<char>, value: Seq<char>)
    requires
        bru_plain_header((key, value)),
    ensures
        ({
            let t = trimmed_pair(key, value);
            &&& t.len() > 0
            &&& !starts_with(t, "//"@)
            &&& !starts_with(t, "~"@)
            &&& split_once(t, ':') matches Some((k, v)) && trim(k) == key && trim(v) == value
        }),
{
    reveal_strlit(": ");
    reveal_strlit(":");
    reveal_strlit(" ");
    reveal_strlit("~");
    reveal_strlit("//");
    lemma_trimmed_ends(key);
    lemma_trimmed_ends(value);
    let n = key.len() as int;
    let t = trimmed_pair(key, value);
    assert(t.take(n) =~= key);
    assert(t[n] == ':');
    assert(first_at(t, ':', n)) by {
        assert forall|j: int| 0 <= j < n implies t[j] != ':' by {
            assert(t[j] == key[j]);
        }
    }
    lemma_split_once_at(t, ':', n);
    let rest = t.skip(n + 1);
    if value.len() > 0 {
        assert(rest =~= " "@ + value);
        assert(rest.drop_first() =~= value);
        assert(is_space(rest[0]));
        assert(trim_start(rest) == trim_start(rest.drop_first()));
        assert(trim_start(rest) == value);
        assert(trim_end(value) == value);
    } else {
        assert(rest.len() == 0);
        assert(rest =~= value);
    }
    assert(!starts_with(t, "~"@)) by {
        if starts_with(t, "~"@) {
            assert(t.take(1)[0] == '~');
            assert(key.take(1) =~= "~"@);
        }
    }
    assert(!starts_with(t, "//"@)) by {
        if starts_with(t, "//"@) {
            assert(t.take(2)[0] == '/' && t.take(2)[1] == '/');
            if n >= 2 {
                assert(key.take(2) =~= t.take(2));
            } else {
                assert(t[1] == ':');
            }
        }
    }
}

/// A pair line reads back as its key and value.
proof fn lemma_pair_line(key: Seq<char>, value: Seq<char>)
    requires
        bru_plain_header((key, value)),
    ensures
        pair_of_line(pair_line(key, value)) == Some((key, value)),
        no_line_break(pair_line(key, value)),
        pair_line(key, value).len() > 0,
        pair_line(key, value)[0] == ' ',
{
    reveal_strlit("  ");
    reveal_strlit(": ");
    lemma_pair_trim(key, value);
    lemma_pair_split(key, value);
    let n = key.len() as int;
    let line = pair_line(key, value);
    assert forall|i: int| 0 <= i < line.len() implies #[trigger] line[i] != '\n' && line[i] != '\r' by {
        if i < 2 {
        } else if i < 2 + n {
            assert(line[i] == key[i - 2]);
        } else if i < 4 + n {
        } else {
            assert(line[i] == value[i - 4 - n]);
        }
    }
}

/// `word {` opens a block called `word`.
proof fn lemma_opening(word: Seq<char>)
    requires
        word.len() > 0,
        trim(word) == word,
        no_line_break(word),
    ensures
        opens_block(word + " \u{7b}"@),
        trim(without_trailing(trim_end(word + " \u{7b}"@), '\u{7b}')) == word,
        no_line_break(word + " \u{7b}"@),
        (word + " \u{7b}"@)[0] == word[0],
{
    reveal_strlit(" \u{7b}");
    reveal_strlit("\u{7b}");
    reveal_strlit(" ");
    lemma_trimmed_ends(word);
    let line = word + " \u{7b}"@;
    assert(line.last() == '\u{7b}');
    assert(trim_end(line) == line);
    assert(line.skip(line.len() - 1) =~= "\u{7b}"@);
    assert(line[0] == word[0]);
    let spaced = word + " "@;
    assert(line.drop_last() =~= spaced);
    assert(spaced.last() == ' ');
    assert(without_trailing(line, '\u{7b}') == without_trailing(line.drop_last(), '\u{7b}'));
    assert(without_trailing(spaced, '\u{7b}') == spaced);
    assert(without_trailing(line, '\u{7b}') == spaced);
    assert(spaced[0] == word[0]);
    assert(trim_start(spaced) == spaced);
    assert(spaced.drop_last() =~= word);
    assert(trim_end(spaced) == word);
    assert forall|i: int| 0 <= i < line.len() implies #[trigger] line[i] != '\n' && line[i] != '\r' by {
        if i < word.len() {
            assert(line[i] == word[i]);
        }
    }
}

/// A line that starts with a space, or is empty, does not close a block.
proof fn lemma_not_closing(line: Seq<char>)
    requires
        line.len() == 0 || line[0] != '\u{7d}',
    ensures
        trim_end(line) != "\u{7d}"@,
{
    reveal_strlit("\u{7d}");
    lemma_trim_end_is_prefix(line);
    if trim_end(line) == "\u{7d}"@ {
        assert(trim_end(line)[0] == line[0]);
    }
}

/// Text with no `\r` and nothing to trim reads as its lines, and they join
/// back into it.
proof fn lemma_body_lines(body: Seq<char>)
    requires
        trim(body) == body,
        forall|i: int| 0 <= i < body.len() ==> #[trigger] body[i] != '\r',
    ensures
        join(lines(body), "\n"@) == body,
        forall|k: int| 0 <= k < lines(body).len() ==> no_line_break(#[trigger] lines(body)[k]),
{
    reveal_strlit("\n");
    assert("\n"@ =~= seq!['\n']);
    lemma_trimmed_ends(body);
    let pieces = split(body, '\n');
    crate::text::lemma_split_not_empty(body, '\n');
    lemma_split_pieces(body, '\n');
    lemma_split_avoids(body, '\n', '\r');
    assert(pieces.drop_last().map_values(|p: Seq<char>| strip_cr(p)) =~= pieces.drop_last()) by {
        assert forall|k: int| 0 <= k < pieces.drop_last().len() implies strip_cr(#[trigger] pieces.drop_last()[k]) == pieces.drop_last()[k] by {
            let p = pieces[k];
            if p.len() > 0 {
                assert(p[p.len() - 1] != '\r');
            }
        }
    }
    if body.len() == 0 {
        assert(pieces == seq![Seq::<char>::empty()]);
        assert(lines(body) =~= Seq::<Seq<char>>::empty());
    } else {
        assert(body.last() != '\n');
        let init = split(body.drop_last(), '\n');
        crate::text::lemma_split_not_empty(body.drop_last(), '\n');
        assert(pieces == init.update(init.len() - 1, init.last().push(body.last())));
        assert(pieces.last().len() > 0);
        assert(lines(body) =~= pieces);
        lemma_join_split(body, '\n');
    }
    assert forall|k: int| 0 <= k < lines(body).len() implies no_line_break(#[trigger] lines(body)[k]) by {
        assert(lines(body)[k] == pieces[k]);
    }
}

/// A line that does not close a block: empty, or starting with a space.
pub open spec fn inside_line(line: Seq<char>) -> bool {
    line.len() == 0 || line[0] == ' '
}

/// A block at `s`: `word {`, the lines `inner`, and `}`.
proof fn lemma_block_here(lines: Seq<Seq<char>>, s: int, word: Seq<char>, inner: Seq<Seq<char>>)
    requires
        0 <= s,
        s + inner.len() + 1 < lines.len(),
        word.len() > 0,
        trim(word) == word,
        no_line_break(word),
        lines[s] == word + " \u{7b}"@,
        lines.subrange(s + 1, s + 1 + inner.len()) == inner,
        forall|k: int| 0 <= k < inner.len() ==> inside_line(#[trigger] inner[k]),
        lines[s + 1 + inner.len()] == "\u{7d}"@,
    ensures
        blocks_from(lines, s) == seq![block_at(lines, s)] + blocks_from(lines, s + inner.len() + 2),
        block_at(lines, s).name == word,
        block_at(lines, s).lo == s + 1,
        block_at(lines, s).hi == s + 1 + inner.len(),
{
    reveal_strlit("\u{7d}");
    lemma_opening(word);
    let c = s + 1 + inner.len();
    assert(trim_end(lines[c]) == "\u{7d}"@) by {
        assert("\u{7d}"@.last() == '\u{7d}');
    }
    assert forall|m: int| s < m < c implies trim_end(#[trigger] lines[m]) != "\u{7d}"@ by {
        assert(lines[m] == inner[m - s - 1]);
        assert(inside_line(inner[m - s - 1]));
        lemma_not_closing(lines[m]);
    }
    assert(closes_at(lines, s, c));
    lemma_close_unique(lines, s, c);
}

/// An empty line between blocks is passed over.
proof fn lemma_blank_here(lines: Seq<Seq<char>>, i: int)
    requires
        0 <= i < lines.len(),
        lines[i].len() == 0,
    ensures
        blocks_from(lines, i) == blocks_from(lines, i + 1),
{
    reveal_strlit("\u{7b}");
    assert(!ends_with(trim_end(lines[i]), "\u{7b}"@));
}

/// The lines of pairs read back as the pairs.
proof fn lemma_pairs_back(pairs: Seq<(Seq<char>, Seq<char>)>)
    requires
        forall|k: int| 0 <= k < pairs.len() ==> bru_plain_header(#[trigger] pairs[k]),
    ensures
        pairs_of(indented_pairs(pairs)) == pairs,
        forall|k: int| 0 <= k < pairs.len() ==> inside_line(#[trigger] indented_pairs(pairs)[k]) && no_line_break(indented_pairs(pairs)[k]),
    decreases pairs.len(),
{
    if pairs.len() > 0 {
        let init = pairs.drop_last();
        assert forall|k: int| 0 <= k < init.len() implies bru_plain_header(#[trigger] init[k]) by {
            assert(init[k] == pairs[k]);
        }
        lemma_pairs_back(init);
        let lines = indented_pairs(pairs);
        assert(lines.drop_last() =~= indented_pairs(init));
        let last = pairs.last();
        assert(lines.last() == pair_line(last.0, last.1));
        lemma_pair_line(last.0, last.1);
        assert(pairs_of(lines) == pairs_of(lines.drop_last()).push(last));
        assert(init.push(last) =~= pairs);
        assert forall|k: int| 0 <= k < pairs.len() implies inside_line(#[trigger] indented_pairs(pairs)[k]) && no_line_break(indented_pairs(pairs)[k]) by {
            assert(indented_pairs(pairs)[k] == pair_line(pairs[k].0, pairs[k].1));
            lemma_pair_line(pairs[k].0, pairs[k].1);
        }
    }
}

/// A word of lower-case letters, as block names and modes are written.
pub open spec fn lower_word(w: Seq<char>) -> bool {
    &&& w.len() > 0
    &&& forall|i: int| 0 <= i < w.len() ==> ('a' <= #[trigger] w[i] <= 'z' || w[i] == ':' || w[i] == '-')
}

proof fn lemma_lower_word(w: Seq<char>)
    requires
        lower_word(w),
        'a' <= w[0] <= 'z',
        'a' <= w.last() <= 'z',
    ensures
        trim(w) == w,
        no_line_break(w),
        lower(w) == w,
{
    lemma_trim_same(w);
    assert(lower(w) =~= w);
}

proof fn lemma_method_word(method: Seq<char>)
    requires
        is_method_block_name(method_word(method)),
    ensures
        ({
            let w = method_word(method);
            &&& w.len() > 0
            &&& trim(w) == w
            &&& no_line_break(w)
            &&& lower(w) == w
        }),
{
    reveal_strlit("get");
    reveal_strlit("post");
    reveal_strlit("put");
    reveal_strlit("patch");
    reveal_strlit("delete");
    reveal_strlit("head");
    reveal_strlit("options");
    reveal_strlit("connect");
    reveal_strlit("trace");
    let w = method_word(method);
    assert(lower(w) =~= w) by {
        if method.len() > 0 {
            assert forall|i: int| 0 <= i < w.len() implies lower_char(#[trigger] w[i]) == w[i] by {
                assert(w[i] == lower_char(method[i]));
            }
        }
    }
    let k = choose|k: int| 0 <= k < method_blocks().len() && method_blocks()[k] == lower(w);
    assert(method_blocks()[k] == w);
    assert(lower_word(w) && 'a' <= w[0] <= 'z' && 'a' <= w.last() <= 'z') by {
        if k == 0 { assert(w =~= "get"@); }
        else if k == 1 { assert(w =~= "post"@); }
        else if k == 2 { assert(w =~= "put"@); }
        else if k == 3 { assert(w =~= "patch"@); }
        else if k == 4 { assert(w =~= "delete"@); }
        else if k == 5 { assert(w =~= "head"@); }
        else if k == 6 { assert(w =~= "options"@); }
        else if k == 7 { assert(w =~= "connect"@); }
        else { assert(w =~= "trace"@); }
    }
    lemma_lower_word(w);
}

/// The body block's name, `body:` and the mode.
pub open spec fn body_block_name(kind: BodyKind) -> Seq<char> {
    "body:"@ + mode_of(kind)
}

proof fn lemma_mode(kind: BodyKind)
    requires
        kind != BodyKind::NoBody,
    ensures
        bru_plain_header(("body"@, mode_of(kind))),
        lower_word(body_block_name(kind)),
        trim(body_block_name(kind)) == body_block_name(kind),
        no_line_break(body_block_name(kind)),
        lower(body_block_name(kind)) == body_block_name(kind),
        !is_method_block_name(body_block_name(kind)),
        body_block_name(kind) != "headers"@,
        body_block_name(kind) != "vars"@,
        body_block_name(kind) != "vars:pre-request"@,
        body_block_name(kind) != "body:graphql"@,
        body_block_name(kind) != "body:graphql:vars"@,
        starts_with(body_block_name(kind), "body:"@),
        body_block_name(kind).skip(5) == mode_of(kind),
        kind_of_mode_spec(mode_of(kind)) == Some(kind),
{
    reveal_strlit("body:");
    reveal_strlit("body");
    reveal_strlit("json");
    reveal_strlit("form-urlencoded");
    reveal_strlit("multipart-form");
    reveal_strlit("xml");
    reveal_strlit("text");
    reveal_strlit("sparql");
    reveal_strlit("headers");
    reveal_strlit("vars");
    reveal_strlit("vars:pre-request");
    reveal_strlit("body:graphql");
    reveal_strlit("body:graphql:vars");
    reveal_strlit("~");
    reveal_strlit("//");
    let m = mode_of(kind);
    let n = body_block_name(kind);
    assert(lower_word(m) && 'a' <= m[0] <= 'z' && 'a' <= m.last() <= 'z');
    assert(lower_word(n)) by {
        assert forall|i: int| 0 <= i < n.len() implies ('a' <= #[trigger] n[i] <= 'z' || n[i] == ':' || n[i] == '-') by {
            if i >= 5 {
                assert(n[i] == m[i - 5]);
            }
        }
    }
    assert(n[0] == 'b');
    assert(n.last() == m.last());
    lemma_lower_word(n);
    lemma_lower_word(m);
    lemma_lower_word("body"@);
    assert(n.skip(5) =~= m);
    assert(n.take(5) =~= "body:"@);
    assert(!is_method_block_name(n)) by {
        assert forall|k: int| 0 <= k < method_blocks().len() implies method_blocks()[k] != n by {
            assert(method_blocks()[k].len() < 5 || method_blocks()[k][4] != ':' || method_blocks()[k][0] != 'b') by {
                reveal_strlit("get");
                reveal_strlit("post");
                reveal_strlit("put");
                reveal_strlit("patch");
                reveal_strlit("delete");
                reveal_strlit("head");
                reveal_strlit("options");
                reveal_strlit("connect");
                reveal_strlit("trace");
            }
        }
    }
    assert(n != "body:graphql"@) by {
        if n == "body:graphql"@ {
            assert(n.skip(5) =~= "graphql"@) by { reveal_strlit("graphql"); }
        }
    }
    assert(n != "body:graphql:vars"@) by {
        if n == "body:graphql:vars"@ {
            assert(n.skip(5) =~= "graphql:vars"@) by { reveal_strlit("graphql:vars"); }
        }
    }
    assert(n != "headers"@) by {
        if n == "headers"@ {
            assert(n[0] == 'h');
        }
    }
    assert(n != "vars"@) by {
        if n == "vars"@ {
            assert(n[0] == 'v');
        }
    }
    assert(n != "vars:pre-request"@) by {
        if n == "vars:pre-request"@ {
            assert(n[0] == 'v');
        }
    }
    assert(!starts_with(m, "~"@)) by {
        if starts_with(m, "~"@) { assert(m.take(1)[0] == m[0]); }
    }
    assert(!starts_with("body"@, "//"@)) by {
        if starts_with("body"@, "//"@) { assert("body"@.take(2)[0] == 'b'); }
    }
    assert(!starts_with("body"@, "~"@)) by {
        if starts_with("body"@, "~"@) { assert("body"@.take(1)[0] == 'b'); }
    }
}

/// The body's lines as a body block holds them.
pub open spec fn body_inner(body: Seq<char>) -> Seq<Seq<char>> {
    lines(body).map_values(|l: Seq<char>| body_text_line(l))
}

proof fn lemma_body_inner(body: Seq<char>)
    requires
        trim(body) == body,
        forall|i: int| 0 <= i < body.len() ==> #[trigger] body[i] != '\r',
    ensures
        dedented(body_inner(body)) == body,
        forall|k: int| 0 <= k < body_inner(body).len() ==> inside_line(#[trigger] body_inner(body)[k]) && no_line_break(body_inner(body)[k]),
{
    reveal_strlit("  ");
    reveal_strlit(" ");
    lemma_body_lines(body);
    let ls = lines(body);
    let inner = body_inner(body);
    assert(inner.map_values(|l: Seq<char>| dedented_line(l)) =~= ls) by {
        assert forall|k: int| 0 <= k < ls.len() implies dedented_line(#[trigger] inner[k]) == ls[k] by {
            let l = ls[k];
            if l.len() > 0 {
                assert(inner[k] =~= "  "@ + l);
                assert(starts_with(inner[k], "  "@)) by {
                    assert(inner[k].take(2) =~= "  "@);
                }
                assert(inner[k].skip(2) =~= l);
            } else {
                assert(inner[k].len() == 0);
                assert(!starts_with(inner[k], "  "@));
                assert(!starts_with(inner[k], " "@));
            }
        }
    }
    assert forall|k: int| 0 <= k < inner.len() implies inside_line(#[trigger] inner[k]) && no_line_break(inner[k]) by {
        let l = ls[k];
        assert(no_line_break(l));
        if l.len() > 0 {
            assert(inner[k] =~= "  "@ + l);
            assert forall|i: int| 0 <= i < inner[k].len() implies #[trigger] inner[k][i] != '\n' && inner[k][i] != '\r' by {
                if i >= 2 {
                    assert(inner[k][i] == l[i - 2]);
                }
            }
        }
    }
    lemma_trimmed_ends(body);
}

/// The method block of a fresh file: the method's word and `{`, the URL,
/// the body mode, and `}`.
proof fn lemma_method_lines(method: Seq<char>, url: Seq<char>, kind: BodyKind)
    ensures
        method_block_lines(None, method, url, kind, true)
            == seq![method_word(method) + " \u{7b}"@, pair_line("url"@, url), pair_line("body"@, mode_of(kind)), "\u{7d}"@],
{
    reveal_strlit("  url: ");
    reveal_strlit("  body: ");
    reveal_strlit("  ");
    reveal_strlit(": ");
    reveal_strlit("url");
    reveal_strlit("body");
    let e = Seq::<Seq<char>>::empty();
    assert(saved_method_lines(e, url, kind, true) == (e, false, false));
    assert(pair_line("url"@, url) =~= "  url: "@ + url);
    assert(pair_line("body"@, mode_of(kind)) =~= "  body: "@ + mode_of(kind));
    assert(method_block_lines(None, method, url, kind, true)
        =~= seq![method_word(method) + " \u{7b}"@, pair_line("url"@, url), pair_line("body"@, mode_of(kind)), "\u{7d}"@]);
}

/// The URL and a body mode stand in the method block as pairs.
proof fn lemma_method_pairs(url: Seq<char>, kind: BodyKind)
    requires
        trim(url) == url,
        no_line_break(url),
    ensures
        bru_plain_header(("url"@, url)),
        bru_plain_header(("body"@, mode_of(kind))),
{
    reveal_strlit("url");
    reveal_strlit("body");
    reveal_strlit("none");
    reveal_strlit("json");
    reveal_strlit("form-urlencoded");
    reveal_strlit("multipart-form");
    reveal_strlit("xml");
    reveal_strlit("text");
    reveal_strlit("sparql");
    reveal_strlit("~");
    reveal_strlit("//");
    let m = mode_of(kind);
    assert(lower_word(m) && 'a' <= m[0] <= 'z' && 'a' <= m.last() <= 'z');
    lemma_lower_word(m);
    lemma_lower_word("url"@);
    lemma_lower_word("body"@);
    assert(!starts_with("url"@, "~"@)) by {
        if starts_with("url"@, "~"@) { assert("url"@.take(1)[0] == 'u'); }
    }
    assert(!starts_with("url"@, "//"@)) by {
        if starts_with("url"@, "//"@) { assert("url"@.take(2)[0] == 'u'); }
    }
    assert(!starts_with("body"@, "//"@)) by {
        if starts_with("body"@, "//"@) { assert("body"@.take(2)[0] == 'b'); }
    }
    assert(!starts_with("body"@, "~"@)) by {
        if starts_with("body"@, "~"@) { assert("body"@.take(1)[0] == 'b'); }
    }
}

/// The lines of a fresh `.bru` file, before they are joined.
pub open spec fn bru_lines(method: Seq<char>, url: Seq<char>, headers: Seq<(Seq<char>, Seq<char>)>, body: Seq<char>, kind: BodyKind) -> Seq<Seq<char>> {
    let opening = method_block_lines(None, method, url, kind, true);
    let with_headers = if headers.len() > 0 {
        opening + seq![Seq::empty()] + headers_block_lines(headers, Seq::empty())
    } else {
        opening
    };
    if kind != BodyKind::NoBody {
        with_headers + seq![Seq::empty()] + body_block_lines(body, kind)
    } else {
        with_headers
    }
}

/// What a request must be for a fresh `.bru` file to give it back: a
/// method a method block is named by (an empty one is written as `get`), a
/// trimmed URL on one line, headers that read back as written, and, when
/// there is a body, a kind written as text rather than as form fields, and
/// a trimmed body with no `\r`.
pub open spec fn bru_reads_back(method: Seq<char>, url: Seq<char>, headers: Seq<(Seq<char>, Seq<char>)>, body: Seq<char>, kind: BodyKind) -> bool {
    &&& is_method_block_name(method_word(method))
    &&& trim(url) == url
    &&& no_line_break(url)
    &&& forall|k: int| 0 <= k < headers.len() ==> bru_plain_header(#[trigger] headers[k])
    &&& kind != BodyKind::Form
    &&& kind != BodyKind::Multipart
    &&& kind != BodyKind::NoBody ==> trim(body) == body
    &&& kind != BodyKind::NoBody ==> forall|i: int| 0 <= i < body.len() ==> #[trigger] body[i] != '\r'
}

/// What reading a fresh file gives: the method in capitals, the URL, the
/// headers in order, and the body with its kind when there is one.
pub open spec fn fresh_read(method: Seq<char>, url: Seq<char>, headers: Seq<(Seq<char>, Seq<char>)>, body: Seq<char>, kind: BodyKind) -> BruState {
    BruState {
        method: upper(method_word(method)),
        url: url,
        headers: headers,
        vars: Map::empty(),
        kind: if kind == BodyKind::NoBody { None } else { Some(kind) },
        body: if kind == BodyKind::NoBody { Seq::empty() } else { body },
        graphql: None,
        graphql_vars: None,
    }
}

/// The method block of a fresh file.
pub open spec fn fresh_ml(method: Seq<char>, url: Seq<char>, kind: BodyKind) -> Seq<Seq<char>> {
    seq![method_word(method) + " \u{7b}"@, pair_line("url"@, url), pair_line("body"@, mode_of(kind)), "\u{7d}"@]
}

/// The empty line and headers block of a fresh file, when it has headers.
pub open spec fn fresh_hs(headers: Seq<(Seq<char>, Seq<char>)>) -> Seq<Seq<char>> {
    if headers.len() > 0 {
        seq![Seq::empty(), "headers"@ + " \u{7b}"@] + indented_pairs(headers) + seq!["\u{7d}"@]
    } else {
        Seq::empty()
    }
}

/// The empty line and body block of a fresh file, when it has a body.
pub open spec fn fresh_bs(body: Seq<char>, kind: BodyKind) -> Seq<Seq<char>> {
    if kind != BodyKind::NoBody {
        seq![Seq::empty(), body_block_name(kind) + " \u{7b}"@] + body_inner(body) + seq!["\u{7d}"@]
    } else {
        Seq::empty()
    }
}

/// The lines a fresh file splits into: its blocks, and the empty line
/// after the last line ending.
pub open spec fn fresh_lines(method: Seq<char>, url: Seq<char>, headers: Seq<(Seq<char>, Seq<char>)>, body: Seq<char>, kind: BodyKind) -> Seq<Seq<char>> {
    fresh_ml(method, url, kind) + fresh_hs(headers) + fresh_bs(body, kind) + seq![Seq::<char>::empty()]
}

proof fn lemma_fresh_shape(method: Seq<char>, url: Seq<char>, headers: Seq<(Seq<char>, Seq<char>)>, body: Seq<char>, kind: BodyKind)
    requires
        bru_reads_back(method, url, headers, body, kind),
    ensures
        bru_lines(method, url, headers, body, kind).push(Seq::empty()) == fresh_lines(method, url, headers, body, kind),
        forall|k: int| 0 <= k < fresh_lines(method, url, headers, body, kind).len()
            ==> no_line_break(#[trigger] fresh_lines(method, url, headers, body, kind)[k]),
{
    reveal_strlit("headers \u{7b}");
    reveal_strlit(" \u{7b}");
    reveal_strlit("\u{7d}");
    reveal_strlit("headers");
    let e = Seq::<char>::empty();
    let w = method_word(method);
    let m = mode_of(kind);
    lemma_method_word(method);
    lemma_method_lines(method, url, kind);
    lemma_method_pairs(url, kind);
    lemma_pair_line("url"@, url);
    lemma_pair_line("body"@, m);
    lemma_opening(w);
    lemma_pairs_back(headers);
    lemma_lower_word("headers"@);
    lemma_opening("headers"@);
    assert("headers \u{7b}"@ =~= "headers"@ + " \u{7b}"@);
    assert(no_line_break("\u{7d}"@));
    let ml = fresh_ml(method, url, kind);
    let hs = fresh_hs(headers);
    let bs = fresh_bs(body, kind);
    let ip = indented_pairs(headers);
    let bi = body_inner(body);
    let bname = body_block_name(kind);
    let h = headers.len() as int;
    assert(disabled_lines(Seq::<Seq<char>>::empty()) == Seq::<Seq<char>>::empty());
    assert(headers_block_lines(headers, Seq::empty()) =~= seq!["headers"@ + " \u{7b}"@] + ip + seq!["\u{7d}"@]);
    if kind != BodyKind::NoBody {
        lemma_mode(kind);
        lemma_body_inner(body);
        lemma_opening(bname);
        assert(body_block_lines(body, kind) =~= seq![bname + " \u{7b}"@] + bi + seq!["\u{7d}"@]);
    }
    assert(bru_lines(method, url, headers, body, kind) =~= ml + hs + bs);
    let lines = fresh_lines(method, url, headers, body, kind);
    assert(lines =~= ml + hs + bs + seq![e]);
    let p: int = 4 + hs.len() as int;
    assert forall|k: int| 0 <= k < lines.len() implies no_line_break(#[trigger] lines[k]) by {
        if k < 4 {
            assert(lines[k] == ml[k]);
        } else if k < p {
            let j = k - 4;
            assert(lines[k] == hs[j]);
            if j >= 2 && j < 2 + h {
                assert(hs[j] == ip[j - 2]);
            } else if j == 1 {
                assert(hs[j] == "headers"@ + " \u{7b}"@);
            } else if j > 1 {
                assert(hs[j] == "\u{7d}"@);
            }
        } else if k < p + bs.len() {
            let j = k - p;
            assert(lines[k] == bs[j]);
            if j >= 2 && j < 2 + bi.len() {
                assert(bs[j] == bi[j - 2]);
            } else if j == 1 {
                assert(bs[j] == bname + " \u{7b}"@);
            } else if j > 1 {
                assert(bs[j] == "\u{7d}"@);
            }
        } else {
            assert(lines[k] == e);
        }
    }
}

proof fn lemma_fresh_split(method: Seq<char>, url: Seq<char>, headers: Seq<(Seq<char>, Seq<char>)>, body: Seq<char>, kind: BodyKind)
    requires
        bru_reads_back(method, url, headers, body, kind),
    ensures
        split(crlf_to_lf(bru_formatted(method, url, headers, body, kind)), '\n') == fresh_lines(method, url, headers, body, kind),
{
    reveal_strlit("\n");
    let nl = "\n"@;
    assert(nl =~= seq!['\n']);
    let e = Seq::<char>::empty();
    lemma_fresh_shape(method, url, headers, body, kind);
    let all = bru_lines(method, url, headers, body, kind);
    let text = bru_formatted(method, url, headers, body, kind);
    assert(text == join(all, nl) + nl);
    let lines = fresh_lines(method, url, headers, body, kind);
    assert(lines == all.push(e));
    assert(lines.len() >= 2);
    assert(lines.drop_last() =~= all);
    assert(join(lines, nl) == join(all, nl) + nl + e);
    assert(join(all, nl) + nl + e =~= text);
    assert forall|k: int, i: int| 0 <= k < lines.len() && 0 <= i < lines[k].len() implies #[trigger] lines[k][i] != '\n' by {
        assert(no_line_break(lines[k]));
    }
    lemma_split_join(lines, '\n');
    assert forall|k: int, i: int| 0 <= k < lines.len() && 0 <= i < lines[k].len() implies #[trigger] lines[k][i] != '\r' by {
        assert(no_line_break(lines[k]));
    }
    lemma_join_avoids(lines, nl, '\r');
    lemma_crlf_unchanged(text);
}

/// Where the blocks of a fresh file stand: the method block opens the
/// file, the headers block follows the empty line after it, and the body
/// block the empty line after that.
proof fn lemma_fresh_blocks(method: Seq<char>, url: Seq<char>, headers: Seq<(Seq<char>, Seq<char>)>, body: Seq<char>, kind: BodyKind)
    requires
        bru_reads_back(method, url, headers, body, kind),
    ensures
        ({
            let lines = fresh_lines(method, url, headers, body, kind);
            let h = headers.len() as int;
            let p: int = 4 + fresh_hs(headers).len() as int;
            let hblocks = if h > 0 { seq![block_at(lines, 5)] } else { Seq::<BlockView>::empty() };
            let bblocks = if kind != BodyKind::NoBody { seq![block_at(lines, p + 1)] } else { Seq::<BlockView>::empty() };
            &&& blocks_from(lines, 0) == seq![block_at(lines, 0)] + hblocks + bblocks
            &&& block_at(lines, 0).name == method_word(method)
            &&& lines.subrange(block_at(lines, 0).lo, block_at(lines, 0).hi) == seq![pair_line("url"@, url), pair_line("body"@, mode_of(kind))]
            &&& h > 0 ==> block_at(lines, 5).name == "headers"@
                && lines.subrange(block_at(lines, 5).lo, block_at(lines, 5).hi) == indented_pairs(headers)
            &&& kind != BodyKind::NoBody ==> block_at(lines, p + 1).name == body_block_name(kind)
                && lines.subrange(block_at(lines, p + 1).lo, block_at(lines, p + 1).hi) == body_inner(body)
        }),
{
    reveal_strlit("\u{7d}");
    reveal_strlit("headers");
    let e = Seq::<char>::empty();
    let w = method_word(method);
    let m = mode_of(kind);
    lemma_method_word(method);
    lemma_method_pairs(url, kind);
    lemma_pair_line("url"@, url);
    lemma_pair_line("body"@, m);
    lemma_pairs_back(headers);
    lemma_lower_word("headers"@);
    let ml = fresh_ml(method, url, kind);
    let hs = fresh_hs(headers);
    let bs = fresh_bs(body, kind);
    let ip = indented_pairs(headers);
    let bi = body_inner(body);
    let bname = body_block_name(kind);
    let h = headers.len() as int;
    let lines = fresh_lines(method, url, headers, body, kind);
    assert(lines =~= ml + hs + bs + seq![e]);
    let p: int = 4 + hs.len() as int;
    let inner0 = seq![ml[1], ml[2]];
    assert(lines.subrange(1, 3) =~= inner0);
    assert(lines[0] == w + " \u{7b}"@);
    assert(lines[3] == "\u{7d}"@);
    lemma_block_here(lines, 0, w, inner0);
    if h > 0 {
        assert(lines[4] == e);
        lemma_blank_here(lines, 4);
        assert(lines.subrange(6, 6 + h) =~= ip);
        assert(lines[5] == "headers"@ + " \u{7b}"@);
        assert(lines[6 + h] == "\u{7d}"@);
        lemma_block_here(lines, 5, "headers"@, ip);
    }
    if kind != BodyKind::NoBody {
        lemma_mode(kind);
        lemma_body_inner(body);
        assert(lines[p] == e);
        lemma_blank_here(lines, p);
        assert(lines.subrange(p + 2, p + 2 + bi.len() as int) =~= bi);
        assert(lines[p + 1] == bname + " \u{7b}"@);
        assert(lines[p + 2 + bi.len() as int] == "\u{7d}"@);
        lemma_block_here(lines, p + 1, bname, bi);
    }
    let f: int = p + bs.len() as int;
    assert(lines[f] == e);
    lemma_blank_here(lines, f);
    assert(blocks_from(lines, f + 1) == Seq::<BlockView>::empty());
    let hblocks = if h > 0 { seq![block_at(lines, 5)] } else { Seq::<BlockView>::empty() };
    let bblocks = if kind != BodyKind::NoBody { seq![block_at(lines, p + 1)] } else { Seq::<BlockView>::empty() };
    assert(blocks_from(lines, p) == bblocks) by {
        if kind != BodyKind::NoBody {
            assert(seq![block_at(lines, p + 1)] + Seq::<BlockView>::empty() =~= bblocks);
        }
    }
    assert(blocks_from(lines, 4) == hblocks + blocks_from(lines, p)) by {
        if h == 0 {
            assert(hblocks + blocks_from(lines, p) =~= blocks_from(lines, p));
        }
    }
    assert(blocks_from(lines, 0) =~= seq![block_at(lines, 0)] + hblocks + bblocks);
}

/// A request that `format` writes as a fresh `.bru` file, `parse` reads
/// back as the same request: its method in capitals, its URL, its headers
/// in the same order, and its body and body kind.
pub proof fn bru_formatted_reads_back(method: Seq<char>, url: Seq<char>, headers: Seq<(Seq<char>, Seq<char>)>, body: Seq<char>, kind: BodyKind)
    requires
        bru_reads_back(method, url, headers, body, kind),
    ensures
        bru_parsed(bru_formatted(method, url, headers, body, kind)) == fresh_read(method, url, headers, body, kind),
{
    lemma_fresh_split(method, url, headers, body, kind);
    lemma_fresh_blocks(method, url, headers, body, kind);
    lemma_method_word(method);
    lemma_method_pairs(url, kind);
    let w = method_word(method);
    let m = mode_of(kind);
    let lines = fresh_lines(method, url, headers, body, kind);
    let h = headers.len() as int;
    let p: int = 4 + fresh_hs(headers).len() as int;
    let b0 = block_at(lines, 0);
    let bh = block_at(lines, 5);
    let bbv = block_at(lines, p + 1);
    let hblocks = if h > 0 { seq![bh] } else { Seq::<BlockView>::empty() };
    let bblocks = if kind != BodyKind::NoBody { seq![bbv] } else { Seq::<BlockView>::empty() };
    let blocks = blocks_from(lines, 0);
    assert(is_method_block_name(w));
    lemma_read_method(lines, b0, w, url, m);
    let st0 = read_block(empty_state(), lines, b0);
    let st1 = if h > 0 { read_block(st0, lines, bh) } else { st0 };
    if h > 0 {
        lemma_read_headers(st0, lines, bh, headers);
    }
    let st2 = if kind != BodyKind::NoBody { read_block(st1, lines, bbv) } else { st1 };
    if kind != BodyKind::NoBody {
        lemma_read_body(st1, lines, bbv, body, kind);
    }
    assert(read_blocks(empty_state(), lines, seq![b0]) == st0) by {
        assert(seq![b0].drop_last() =~= Seq::<BlockView>::empty());
        assert(seq![b0].last() == b0);
        assert(read_blocks(empty_state(), lines, Seq::<BlockView>::empty()) == empty_state());
    }
    assert(read_blocks(empty_state(), lines, seq![b0] + hblocks) == st1) by {
        if h > 0 {
            assert((seq![b0] + hblocks).drop_last() =~= seq![b0]);
            assert((seq![b0] + hblocks).last() == bh);
        } else {
            assert(seq![b0] + hblocks =~= seq![b0]);
        }
    }
    assert(read_blocks(empty_state(), lines, blocks) == st2) by {
        if kind != BodyKind::NoBody {
            assert(blocks.drop_last() =~= seq![b0] + hblocks);
            assert(blocks.last() == bbv);
        } else {
            assert(blocks =~= seq![b0] + hblocks);
        }
    }
    assert(st0 == BruState { method: upper(w), url: url, ..empty_state() });
    if h == 0 {
        assert(headers =~= Seq::<(Seq<char>, Seq<char>)>::empty());
    }
    assert(st1 == BruState { method: upper(w), url: url, headers: headers, ..empty_state() });
    assert(st2 == fresh_read(method, url, headers, body, kind));
}

proof fn lemma_read_method(lines: Seq<Seq<char>>, b: BlockView, w: Seq<char>, url: Seq<char>, m: Seq<char>)
    requires
        b.name == w,
        lower(w) == w,
        is_method_block_name(w),
        lines.subrange(b.lo, b.hi) == seq![pair_line("url"@, url), pair_line("body"@, m)],
        bru_plain_header(("url"@, url)),
        bru_plain_header(("body"@, m)),
    ensures
        read_block(empty_state(), lines, b) == (BruState { method: upper(w), url: url, ..empty_state() }),
{
    reveal_strlit("url");
    lemma_pair_line("url"@, url);
    lemma_pair_line("body"@, m);
    let inner = seq![pair_line("url"@, url), pair_line("body"@, m)];
    assert(inner.drop_last() =~= seq![pair_line("url"@, url)]);
    assert(seq![pair_line("url"@, url)].drop_last() =~= Seq::<Seq<char>>::empty());
    let pairs = pairs_of(inner);
    assert(seq![pair_line("url"@, url)].last() == pair_line("url"@, url));
    assert(pairs_of(Seq::<Seq<char>>::empty()) == Seq::<(Seq<char>, Seq<char>)>::empty());
    assert(pairs_of(seq![pair_line("url"@, url)]) == Seq::<(Seq<char>, Seq<char>)>::empty().push(("url"@, url)));
    assert(pairs_of(seq![pair_line("url"@, url)]) =~= seq![("url"@, url)]);
    assert(inner.last() == pair_line("body"@, m));
    assert(pairs =~= seq![("url"@, url), ("body"@, m)]);
    assert(url_of(pairs) == Some(url));
}

proof fn lemma_read_headers(st: BruState, lines: Seq<Seq<char>>, b: BlockView, headers: Seq<(Seq<char>, Seq<char>)>)
    requires
        b.name == "headers"@,
        st.headers.len() == 0,
        lines.subrange(b.lo, b.hi) == indented_pairs(headers),
        forall|k: int| 0 <= k < headers.len() ==> bru_plain_header(#[trigger] headers[k]),
    ensures
        read_block(st, lines, b) == (BruState { headers: headers, ..st }),
{
    reveal_strlit("headers");
    reveal_strlit("get");
    reveal_strlit("post");
    reveal_strlit("put");
    reveal_strlit("patch");
    reveal_strlit("delete");
    reveal_strlit("head");
    reveal_strlit("options");
    reveal_strlit("connect");
    reveal_strlit("trace");
    lemma_lower_word("headers"@);
    lemma_pairs_back(headers);
    assert(!is_method_block_name("headers"@)) by {
        assert forall|k: int| 0 <= k < method_blocks().len() implies method_blocks()[k] != "headers"@ by {
            assert(method_blocks()[k].len() != 7 || method_blocks()[k][0] != 'h');
        }
    }
    assert(st.headers + headers =~= headers);
}

proof fn lemma_read_body(st: BruState, lines: Seq<Seq<char>>, b: BlockView, body: Seq<char>, kind: BodyKind)
    requires
        kind != BodyKind::NoBody,
        kind != BodyKind::Form,
        kind != BodyKind::Multipart,
        b.name == body_block_name(kind),
        lines.subrange(b.lo, b.hi) == body_inner(body),
        trim(body) == body,
        forall|i: int| 0 <= i < body.len() ==> #[trigger] body[i] != '\r',
    ensures
        read_block(st, lines, b) == (BruState { kind: Some(kind), body: body, ..st }),
{
    lemma_mode(kind);
    lemma_body_inner(body);
}

} // verus!

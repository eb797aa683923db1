//! The query string of a URL, as the pairs the Params tab edits.
//!
//! Kept as typed rather than decoded: a value written `{{id}}` or `a%20b` comes
//! back exactly as it was, so editing one parameter never re-encodes the
//! others.

use vstd::prelude::*;

use crate::text::{
    append, chars_of, first_at, join, join_chars, lemma_split_join, lemma_split_once_at, lemma_split_once_none,
    split, split_chars, split_once, split_once_chars, string_of, views,
};
use crate::varmap::pair_views;

verus! {

/// A URL cut into what comes before its query, the query, and the fragment.
pub open spec fn url_parts(url: Seq<char>) -> (Seq<char>, Option<Seq<char>>, Option<Seq<char>>) {
    let (rest, fragment) = match split_once(url, '#') {
        Some((rest, fragment)) => (rest, Some(fragment)),
        None => (url, None),
    };
    match split_once(rest, '?') {
        Some((base, query)) => (base, Some(query), fragment),
        None => (rest, None, fragment),
    }
}

/// The pieces that are not empty, in order.
pub open spec fn non_empty(pieces: Seq<Seq<char>>) -> Seq<Seq<char>>
    decreases pieces.len(),
{
    if pieces.len() == 0 {
        Seq::empty()
    } else if pieces.last().len() == 0 {
        non_empty(pieces.drop_last())
    } else {
        non_empty(pieces.drop_last()).push(pieces.last())
    }
}

/// `key=value`, or a bare `key` with an empty value.
pub open spec fn query_pair(piece: Seq<char>) -> (Seq<char>, Seq<char>) {
    match split_once(piece, '=') {
        Some((key, value)) => (key, value),
        None => (piece, Seq::empty()),
    }
}

/// The pairs of a URL's query string, as typed.
pub open spec fn query_pairs(url: Seq<char>) -> Seq<(Seq<char>, Seq<char>)> {
    match url_parts(url).1 {
        Some(query) => non_empty(split(query, '&')).map_values(|p: Seq<char>| query_pair(p)),
        None => Seq::empty(),
    }
}

/// What one character becomes in a query: only what would change the URL's
/// structure is encoded.
pub open spec fn escaped_char(c: char, key: bool) -> Seq<char> {
    if c == '&' {
        "%26"@
    } else if c == '#' {
        "%23"@
    } else if c == ' ' {
        "%20"@
    } else if c == '=' && key {
        "%3D"@
    } else {
        seq![c]
    }
}

pub open spec fn escaped(s: Seq<char>, key: bool) -> Seq<char>
    decreases s.len(),
{
    if s.len() == 0 {
        Seq::empty()
    } else {
        escaped(s.drop_last(), key) + escaped_char(s.last(), key)
    }
}

/// The pairs with a name, each written `name=value`.
pub open spec fn written_pairs(pairs: Seq<(Seq<char>, Seq<char>)>) -> Seq<Seq<char>>
    decreases pairs.len(),
{
    if pairs.len() == 0 {
        Seq::empty()
    } else if pairs.last().0.len() == 0 {
        written_pairs(pairs.drop_last())
    } else {
        written_pairs(pairs.drop_last()).push(
            escaped(pairs.last().0, true) + "="@ + escaped(pairs.last().1, false),
        )
    }
}

/// `url` with its query string replaced by `pairs`, fragment kept.
pub open spec fn url_with_pairs(url: Seq<char>, pairs: Seq<(Seq<char>, Seq<char>)>) -> Seq<char> {
    let (base, _, fragment) = url_parts(url);
    let query = written_pairs(pairs);
    let with_query = if query.len() == 0 {
        base
    } else {
        base + "?"@ + join(query, "&"@)
    };
    match fragment {
        Some(fragment) => with_query + "#"@ + fragment,
        None => with_query,
    }
}

fn parts_of(url: &[char]) -> (r: (Vec<char>, Option<Vec<char>>, Option<Vec<char>>))
    ensures
        url_parts(url@) == (r.0@, match r.1 { Some(q) => Some(q@), None => None }, match r.2 { Some(f) => Some(f@), None => None }),
{
    let (rest, fragment) = match split_once_chars(url, '#') {
        Some((rest, fragment)) => (rest, Some(fragment)),
        None => (crate::text::slice(url, 0, url.len()), None),
    };
    assert(url@.subrange(0, url@.len() as int) == url@);
    match split_once_chars(&rest, '?') {
        Some((base, query)) => (base, Some(query), fragment),
        None => (rest, None, fragment),
    }
}

/// The pairs of `url`'s query string, as typed.
pub fn pairs(url: &str) -> (r: Vec<(String, String)>)
    ensures
        pair_views(r@) == query_pairs(url@),
{
    let chars = chars_of(url);
    let (_, query, _) = parts_of(&chars);
    let query = match query {
        Some(query) => query,
        None => {
            let r: Vec<(String, String)> = Vec::new();
            assert(pair_views(r@) =~= Seq::<(Seq<char>, Seq<char>)>::empty());
            return r;
        },
    };
    let pieces = split_chars(&query, '&');
    let ghost all = views(pieces@);
    let mut out: Vec<(String, String)> = Vec::new();
    let mut i: usize = 0;
    while i < pieces.len()
        invariant
            i <= pieces@.len(),
            all == views(pieces@),
            pair_views(out@) == non_empty(all.take(i as int)).map_values(|p: Seq<char>| query_pair(p)),
        decreases pieces@.len() - i,
    {
        let piece = &pieces[i];
        let ghost t = all.take(i + 1);
        assert(t.drop_last() == all.take(i as int));
        assert(t.last() == piece@);
        if piece.len() > 0 {
            let pair = match split_once_chars(piece, '=') {
                Some((key, value)) => (string_of(&key), string_of(&value)),
                None => (string_of(piece), String::new()),
            };
            let ghost before = pair_views(out@);
            out.push(pair);
            assert(pair_views(out@) == before.push((pair.0@, pair.1@)));
        }
        i += 1;
    }
    assert(all.take(pieces@.len() as int) == all);
    out
}

/// Encodes only what would change the URL's structure — a `&` typed into a
/// value would otherwise split it into two parameters.
fn escape(text: &str, key: bool) -> (r: Vec<char>)
    ensures
        r@ == escaped(text@, key),
{
    let chars = chars_of(text);
    let mut out: Vec<char> = Vec::new();
    let mut i: usize = 0;
    while i < chars.len()
        invariant
            i <= chars@.len(),
            chars@ == text@,
            out@ == escaped(chars@.take(i as int), key),
        decreases chars@.len() - i,
    {
        let c = chars[i];
        let ghost before = out@;
        if c == '&' {
            append(&mut out, &chars_of("%26"));
        } else if c == '#' {
            append(&mut out, &chars_of("%23"));
        } else if c == ' ' {
            append(&mut out, &chars_of("%20"));
        } else if c == '=' && key {
            append(&mut out, &chars_of("%3D"));
        } else {
            out.push(c);
            assert(out@ == before + seq![c]);
        }
        assert(chars@.take(i + 1).drop_last() == chars@.take(i as int));
        i += 1;
    }
    assert(chars@.take(chars@.len() as int) == chars@);
    out
}

/// `url` with its query string replaced by `pairs`, fragment kept.
pub fn with_pairs(url: &str, pairs: &[(String, String)]) -> (r: String)
    ensures
        r@ == url_with_pairs(url@, pair_views(pairs@)),
{
    let chars = chars_of(url);
    let (base, _, fragment) = parts_of(&chars);
    let ghost all = pair_views(pairs@);
    let mut query: Vec<Vec<char>> = Vec::new();
    let mut i: usize = 0;
    while i < pairs.len()
        invariant
            i <= pairs@.len(),
            all == pair_views(pairs@),
            views(query@) == written_pairs(all.take(i as int)),
        decreases pairs@.len() - i,
    {
        let ghost t = all.take(i + 1);
        assert(t.drop_last() == all.take(i as int));
        assert(t.last() == (pairs@[i as int].0@, pairs@[i as int].1@));
        let (key, value) = (&pairs[i].0, &pairs[i].1);
        if !key.as_str().is_empty() {
            let mut written = escape(key.as_str(), true);
            written.push('=');
            let value_text = escape(value.as_str(), false);
            append(&mut written, &value_text);
            proof {
                reveal_strlit("=");
            }
            assert(written@ == escaped(key@, true) + "="@ + escaped(value@, false));
            let ghost before = views(query@);
            query.push(written);
            assert(views(query@) == before.push(written@));
        }
        i += 1;
    }
    assert(all.take(pairs@.len() as int) == all);
    let mut out = base;
    if query.len() > 0 {
        out.push('?');
        let joined = join_chars(&query, &chars_of("&"));
        append(&mut out, &joined);
    }
    if let Some(fragment) = fragment {
        out.push('#');
        append(&mut out, &fragment);
    }
    proof {
        reveal_strlit("?");
        reveal_strlit("#");
        reveal_strlit("=");
    }
    string_of(&out)
}

/// Text that the query keeps as it is: nothing in it would change the URL's
/// structure, so escaping leaves it alone.
pub open spec fn as_typed(s: Seq<char>, key: bool) -> bool {
    forall|i: int| 0 <= i < s.len() ==> s[i] != '&' && s[i] != '#' && s[i] != ' ' && (key ==> s[i] != '=')
}

proof fn lemma_escaped_as_typed(s: Seq<char>, key: bool)
    requires
        as_typed(s, key),
    ensures
        escaped(s, key) == s,
    decreases s.len(),
{
    if s.len() > 0 {
        assert(as_typed(s.drop_last(), key));
        lemma_escaped_as_typed(s.drop_last(), key);
        assert(s.drop_last() + seq![s.last()] =~= s);
    }
}

/// `key=value`.
pub open spec fn pair_text(p: (Seq<char>, Seq<char>)) -> Seq<char> {
    p.0 + "="@ + p.1
}

proof fn lemma_written_as_typed(pairs: Seq<(Seq<char>, Seq<char>)>)
    requires
        forall|i: int| 0 <= i < pairs.len() ==> (#[trigger] pairs[i]).0.len() > 0 && as_typed(pairs[i].0, true) && as_typed(pairs[i].1, false),
    ensures
        written_pairs(pairs) == pairs.map_values(|p: (Seq<char>, Seq<char>)| pair_text(p)),
    decreases pairs.len(),
{
    if pairs.len() > 0 {
        let init = pairs.drop_last();
        assert forall|i: int| 0 <= i < init.len() implies (#[trigger] init[i]).0.len() > 0 && as_typed(init[i].0, true) && as_typed(init[i].1, false) by {
            assert(init[i] == pairs[i]);
        }
        lemma_written_as_typed(init);
        let last = pairs.last();
        assert(as_typed(last.0, true) && as_typed(last.1, false));
        lemma_escaped_as_typed(last.0, true);
        lemma_escaped_as_typed(last.1, false);
        assert(pairs.map_values(|p: (Seq<char>, Seq<char>)| pair_text(p))
            =~= init.map_values(|p: (Seq<char>, Seq<char>)| pair_text(p)).push(pair_text(last)));
    }
}

proof fn lemma_non_empty_keeps(pieces: Seq<Seq<char>>)
    requires
        forall|i: int| 0 <= i < pieces.len() ==> (#[trigger] pieces[i]).len() > 0,
    ensures
        non_empty(pieces) == pieces,
    decreases pieces.len(),
{
    if pieces.len() > 0 {
        let init = pieces.drop_last();
        assert forall|i: int| 0 <= i < init.len() implies (#[trigger] init[i]).len() > 0 by {
            assert(init[i] == pieces[i]);
        }
        lemma_non_empty_keeps(init);
        assert(init.push(pieces.last()) =~= pieces);
    }
}

proof fn lemma_query_pair_of_text(p: (Seq<char>, Seq<char>))
    requires
        as_typed(p.0, true),
    ensures
        query_pair(pair_text(p)) == p,
{
    reveal_strlit("=");
    let t = pair_text(p);
    assert(t[p.0.len() as int] == '=');
    assert forall|j: int| 0 <= j < p.0.len() implies t[j] != '=' by {
        assert(t[j] == p.0[j]);
    }
    assert(first_at(t, '=', p.0.len() as int));
    lemma_split_once_at(t, '=', p.0.len() as int);
    assert(t.take(p.0.len() as int) =~= p.0);
    assert(t.skip(p.0.len() as int + 1) =~= p.1);
}

/// The part of a URL before its query holds neither `?` nor `#`.
proof fn lemma_base_plain(url: Seq<char>)
    ensures
        forall|i: int| 0 <= i < url_parts(url).0.len() ==> url_parts(url).0[i] != '?' && url_parts(url).0[i] != '#',
{
    let rest = match split_once(url, '#') {
        Some((rest, _)) => rest,
        None => url,
    };
    if exists|k: int| first_at(url, '#', k) {
        let k = choose|k: int| first_at(url, '#', k);
        lemma_split_once_at(url, '#', k);
        assert forall|i: int| 0 <= i < rest.len() implies rest[i] != '#' by {
            assert(rest[i] == url[i]);
        }
    } else {
        assert forall|i: int| 0 <= i < rest.len() implies rest[i] != '#' by {
            if url[i] == '#' {
                crate::text::lemma_first_found(url, '#', i);
            }
        }
    }
    if exists|k: int| first_at(rest, '?', k) {
        let k = choose|k: int| first_at(rest, '?', k);
        lemma_split_once_at(rest, '?', k);
        assert forall|i: int| 0 <= i < url_parts(url).0.len() implies url_parts(url).0[i] != '?' && url_parts(url).0[i] != '#' by {
            assert(url_parts(url).0[i] == rest[i]);
        }
    } else {
        assert forall|i: int| 0 <= i < rest.len() implies rest[i] != '?' by {
            if rest[i] == '?' {
                crate::text::lemma_first_found(rest, '?', i);
            }
        }
        lemma_split_once_none(rest, '?');
    }
}

/// Pairs written into a URL read back as the same pairs, as typed: a value
/// written `{{id}}` or `a%20b` comes back exactly as it was. It holds of
/// pairs each with a name, where neither name nor value holds what the
/// query would have to encode — `&`, `#`, a space, or `=` in a name.
pub proof fn written_pairs_read_back(url: Seq<char>, pairs: Seq<(Seq<char>, Seq<char>)>)
    requires
        forall|i: int| 0 <= i < pairs.len() ==> (#[trigger] pairs[i]).0.len() > 0 && as_typed(pairs[i].0, true) && as_typed(pairs[i].1, false),
    ensures
        query_pairs(url_with_pairs(url, pairs)) == pairs,
{
    reveal_strlit("=");
    reveal_strlit("&");
    reveal_strlit("?");
    reveal_strlit("#");
    let (base, _, fragment) = url_parts(url);
    lemma_base_plain(url);
    lemma_written_as_typed(pairs);
    let written = written_pairs(pairs);
    assert(written == pairs.map_values(|p: (Seq<char>, Seq<char>)| pair_text(p)));
    let with_query = if written.len() == 0 { base } else { base + "?"@ + join(written, "&"@) };
    let out = url_with_pairs(url, pairs);
    assert forall|k: int, i: int| 0 <= k < written.len() && 0 <= i < written[k].len() implies #[trigger] written[k][i] != '&' && written[k][i] != '#' by {
        let p = pairs[k];
        assert(written[k] == pair_text(p));
        if i < p.0.len() {
            assert(written[k][i] == p.0[i]);
        } else if i > p.0.len() {
            assert(written[k][i] == p.1[i - p.0.len() - 1]);
        }
    }
    // No `#` before the fragment's own.
    assert("&"@ == seq!['&']);
    assert("?"@ == seq!['?']);
    assert forall|i: int| 0 <= i < with_query.len() implies with_query[i] != '#' by {
        if written.len() > 0 {
            let joined = join(written, seq!['&']);
            assert(with_query == base + seq!['?'] + joined);
            if i < base.len() {
                assert(with_query[i] == base[i]);
            } else if i == base.len() {
                assert(with_query[i] == '?');
            } else {
                assert(with_query[i] == joined[i - base.len() - 1]);
                lemma_join_free(written, '&', '#', i - base.len() - 1);
            }
        } else {
            assert(with_query[i] == base[i]);
        }
    }
    let rest = match split_once(out, '#') {
        Some((rest, _)) => rest,
        None => out,
    };
    match fragment {
        Some(f) => {
            assert(out == with_query + "#"@ + f);
            assert(out[with_query.len() as int] == '#');
            assert forall|j: int| 0 <= j < with_query.len() implies out[j] != '#' by {
                assert(out[j] == with_query[j]);
            }
            assert(first_at(out, '#', with_query.len() as int));
            lemma_split_once_at(out, '#', with_query.len() as int);
            assert(rest =~= with_query);
        },
        None => {
            assert(out == with_query);
            lemma_split_once_none(out, '#');
        },
    }
    if written.len() == 0 {
        assert forall|j: int| 0 <= j < rest.len() implies rest[j] != '?' by {
            assert(rest[j] == base[j]);
        }
        lemma_split_once_none(rest, '?');
        assert(pairs.len() == 0) by {
            if pairs.len() > 0 {
                assert(written.len() == pairs.len());
            }
        }
        assert(query_pairs(out) =~= pairs);
    } else {
        let joined = join(written, "&"@);
        assert(rest[base.len() as int] == '?');
        assert forall|j: int| 0 <= j < base.len() implies rest[j] != '?' by {
            assert(rest[j] == base[j]);
        }
        assert(first_at(rest, '?', base.len() as int));
        lemma_split_once_at(rest, '?', base.len() as int);
        assert(rest.skip(base.len() as int + 1) =~= joined);
        assert("&"@ == seq!['&']);
        assert forall|k: int, i: int| 0 <= k < written.len() && 0 <= i < written[k].len() implies #[trigger] written[k][i] != '&' by {}
        lemma_split_join(written, '&');
        assert forall|i: int| 0 <= i < written.len() implies (#[trigger] written[i]).len() > 0 by {
            assert(written[i] == pair_text(pairs[i]));
        }
        lemma_non_empty_keeps(written);
        assert forall|i: int| 0 <= i < pairs.len() implies query_pair(#[trigger] written[i]) == pairs[i] by {
            lemma_query_pair_of_text(pairs[i]);
        }
        assert(written.map_values(|p: Seq<char>| query_pair(p)) =~= pairs);
    }
}

/// A character none of the pieces holds, other than the separator, is not
/// in their join either.
proof fn lemma_join_free(parts: Seq<Seq<char>>, sep: char, c: char, i: int)
    requires
        sep != c,
        0 <= i < join(parts, seq![sep]).len(),
        forall|k: int, j: int| 0 <= k < parts.len() && 0 <= j < parts[k].len() ==> #[trigger] parts[k][j] != c,
    ensures
        join(parts, seq![sep])[i] != c,
    decreases parts.len(),
{
    if parts.len() == 1 {
        assert(join(parts, seq![sep])[i] == parts[0][i]);
    } else if parts.len() > 1 {
        let init = parts.drop_last();
        let x = join(init, seq![sep]);
        if i < x.len() {
            assert forall|k: int, j: int| 0 <= k < init.len() && 0 <= j < init[k].len() implies #[trigger] init[k][j] != c by {
                assert(init[k] == parts[k]);
            }
            lemma_join_free(init, sep, c, i);
            assert(join(parts, seq![sep])[i] == x[i]);
        } else if i > x.len() {
            assert(join(parts, seq![sep])[i] == parts.last()[i - x.len() - 1]);
        }
    }
}

} // verus!

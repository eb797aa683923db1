//! Bruno's `.bru` files.
//!
//! A file is a run of named blocks. A block opens on a line that starts at the
//! margin and ends in `{`, and closes at a `}` that is also at the margin.
//! Everything between is indented, which is what lets a JSON body hold braces
//! of its own. Saving changes only the blocks that changed.

use vstd::prelude::*;

use crate::body::{BodyKind, detected, encode_form, form_fields, parse_form};
use crate::encoding::form_pairs;
use crate::request::header_value;
use crate::encoding::{json_compact, json_compacted, json_quote, json_quoted};
use crate::request::Request;
use crate::text::{
    append, chars_of, eq_ignore_case, lines, lines_of, same_ignoring_case, crlf_to_lf, crlf_to_lf_chars, ends_with, ends_with_chars, is_space,
    is_space_char, join, join_chars, lower, lower_chars, same, slice, split, split_chars,
    split_once, split_once_chars, starts_with, starts_with_chars, string_of, trim, trim_chars,
    trim_end, trim_end_chars, trim_start, trim_start_chars, upper, upper_chars, views, opt_view,
};
use crate::varmap::{Vars, insert_all, pair_views, same_pairs};

verus! {

/// The names of the blocks that hold the method and URL.
pub open spec fn method_blocks() -> Seq<Seq<char>> {
    seq!["get"@, "post"@, "put"@, "patch"@, "delete"@, "head"@, "options"@, "connect"@, "trace"@]
}

/// Whether a block, by its name in any case, holds the method.
pub open spec fn is_method_block_name(name: Seq<char>) -> bool {
    method_blocks().contains(lower(name))
}

fn is_method_block(name: &[char]) -> (r: bool)
    ensures
        r == is_method_block_name(name@),
{
    let lowered = lower_chars(name);
    let list: [&str; 9] = ["get", "post", "put", "patch", "delete", "head", "options", "connect", "trace"];
    let ghost all = list@.map_values(|s: &str| s@);
    assert(all =~= method_blocks());
    let mut i: usize = 0;
    while i < 9
        invariant
            i <= 9,
            all == list@.map_values(|s: &str| s@),
            all == method_blocks(),
            lowered@ == lower(name@),
            forall|j: int| 0 <= j < i ==> all[j] != lowered@,
        decreases 9 - i,
    {
        if same(&lowered, &chars_of(list[i])) {
            assert(all[i as int] == lowered@);
            return true;
        }
        i += 1;
    }
    false
}

/// `s` without the `c`s it ends in.
pub open spec fn without_trailing(s: Seq<char>, c: char) -> Seq<char>
    decreases s.len(),
{
    if s.len() > 0 && s.last() == c {
        without_trailing(s.drop_last(), c)
    } else {
        s
    }
}

fn strip_trailing(v: &[char], c: char) -> (r: Vec<char>)
    ensures
        r@ == without_trailing(v@, c),
{
    let mut hi = v.len();
    assert(v@.take(v@.len() as int) == v@);
    while hi > 0 && v[hi - 1] == c
        invariant
            hi <= v@.len(),
            without_trailing(v@, c) == without_trailing(v@.take(hi as int), c),
        decreases hi,
    {
        assert(v@.take(hi as int).drop_last() == v@.take(hi - 1));
        hi -= 1;
    }
    assert(v@.take(v@.len() as int) == v@);
    let r = slice(v, 0, hi);
    assert(r@ == v@.take(hi as int));
    r
}

/// A line that opens a block: at the margin, and ending in `{`.
pub open spec fn opens_block(line: Seq<char>) -> bool {
    !(line.len() > 0 && is_space(line[0])) && ends_with(trim_end(line), "\u{7b}"@)
}

/// `k` is the first line after `start` that closes a block.
pub open spec fn closes_at(lines: Seq<Seq<char>>, start: int, k: int) -> bool {
    &&& start < k < lines.len()
    &&& trim_end(lines[k]) == "\u{7d}"@
    &&& forall|m: int| start < m < k ==> trim_end(#[trigger] lines[m]) != "\u{7d}"@
}

/// One top-level block, by line position: the line that opens it, the line
/// that closes it (the last line of the file for one that never closes),
/// and the lines between, `lo` up to `hi`.
pub struct BlockView {
    pub name: Seq<char>,
    pub start: int,
    pub end: int,
    pub lo: int,
    pub hi: int,
}

/// The block that opens at `start`.
pub open spec fn block_at(lines: Seq<Seq<char>>, start: int) -> BlockView {
    let close = if exists|k: int| closes_at(lines, start, k) {
        Some(choose|k: int| closes_at(lines, start, k))
    } else {
        None
    };
    BlockView {
        name: trim(without_trailing(trim_end(lines[start]), '{')),
        start: start,
        end: match close {
            Some(k) => k,
            None => lines.len() - 1,
        },
        lo: start + 1,
        hi: match close {
            Some(k) => k,
            None => lines.len() as int,
        },
    }
}

/// The blocks of the file from line `index` on.
pub open spec fn blocks_from(lines: Seq<Seq<char>>, index: int) -> Seq<BlockView>
    decreases lines.len() - index,
{
    if index < 0 || index >= lines.len() {
        Seq::empty()
    } else if opens_block(lines[index]) {
        let b = block_at(lines, index);
        if index < b.hi < lines.len() {
            seq![b] + blocks_from(lines, b.hi + 1)
        } else {
            seq![b]
        }
    } else {
        blocks_from(lines, index + 1)
    }
}

/// A block as read.
pub struct Block {
    pub name: Vec<char>,
    pub start: usize,
    pub end: usize,
    pub lo: usize,
    pub hi: usize,
}

impl Block {
    pub open spec fn view_of(&self) -> BlockView {
        BlockView { name: self.name@, start: self.start as int, end: self.end as int, lo: self.lo as int, hi: self.hi as int }
    }
}

pub open spec fn block_views(blocks: Seq<Block>) -> Seq<BlockView> {
    blocks.map_values(|b: Block| b.view_of())
}

/// The shape every block of a file has: where it opens, what it holds, and
/// that each starts after the one before it ends.
pub open spec fn well_placed(lines: Seq<Seq<char>>, blocks: Seq<BlockView>) -> bool {
    &&& forall|k: int| 0 <= k < blocks.len() ==> {
        let b = #[trigger] blocks[k];
        &&& 0 <= b.start < lines.len()
        &&& opens_block(lines[b.start])
        &&& b.lo == b.start + 1
        &&& b.start < b.hi <= lines.len()
        &&& b.start <= b.end < lines.len()
        &&& (b.hi < lines.len() ==> b.end == b.hi)
        &&& (b.hi == lines.len() ==> b.end == lines.len() - 1)
    }
    &&& forall|k: int| 0 < k < blocks.len() ==> blocks[k - 1].hi + 1 <= #[trigger] blocks[k].start
}

pub(crate) proof fn lemma_close_unique(lines: Seq<Seq<char>>, start: int, k: int)
    requires
        closes_at(lines, start, k),
    ensures
        (choose|c: int| closes_at(lines, start, c)) == k,
{
    let c = choose|c: int| closes_at(lines, start, c);
    if c < k {
        assert(trim_end(lines[c]) != "\u{7d}"@);
    }
    if k < c {
        assert(trim_end(lines[k]) != "\u{7d}"@);
    }
}

fn opens(line: &[char]) -> (r: bool)
    ensures
        r == opens_block(line@),
{
    !(line.len() > 0 && is_space_char(line[0])) && ends_with_chars(&trim_end_chars(line), &chars_of("\u{7b}"))
}

#[verifier::spinoff_prover]
#[verifier::rlimit(40)]
fn blocks(lines: &Vec<Vec<char>>) -> (r: Vec<Block>)
    ensures
        block_views(r@) == blocks_from(views(lines@), 0),
        well_placed(views(lines@), block_views(r@)),
{
    let ghost all = views(lines@);
    let total = lines.len();
    let mut out: Vec<Block> = Vec::new();
    let mut index: usize = 0;
    while index < lines.len()
        invariant
            index <= lines@.len(),
            total == lines@.len(),
            all == views(lines@),
            block_views(out@) + blocks_from(all, index as int) == blocks_from(all, 0),
            well_placed(all, block_views(out@)),
            out@.len() > 0 && index < lines@.len() ==> out@.last().hi + 1 <= index,
        decreases lines@.len() - index,
    {
        let line = &lines[index];
        assert(line@ == all[index as int]);
        if !opens(line) {
            index += 1;
            continue;
        }
        let start = index;
        let mut k = start + 1;
        while k < lines.len() && !same(&trim_end_chars(&lines[k]), &chars_of("\u{7d}"))
            invariant
                start < k <= lines@.len(),
                total == lines@.len(),
                all == views(lines@),
                forall|m: int| start < m < k ==> trim_end(#[trigger] all[m]) != "\u{7d}"@,
            decreases lines@.len() - k,
        {
            assert(lines[k as int]@ == all[k as int]);
            k += 1;
        }
        let ghost b = block_at(all, start as int);
        proof {
            if k < lines@.len() {
                assert(lines@[k as int]@ == all[k as int]);
                lemma_close_unique(all, start as int, k as int);
            } else {
                assert(!exists|c: int| closes_at(all, start as int, c));
            }
        }
        let inner_end = k;
        let end = if k < lines.len() { k } else { lines.len() - 1 };
        let name = trim_chars(&strip_trailing(&trim_end_chars(line), '{'));
        let block = Block { name, start, end, lo: start + 1, hi: inner_end };
        assert(block.view_of() == b);
        let ghost before = block_views(out@);
        out.push(block);
        assert(block_views(out@) == before.push(b));
        proof {
            if b.hi < all.len() {
                assert(before.push(b) + blocks_from(all, b.hi + 1) == before + (seq![b] + blocks_from(all, b.hi + 1)));
            } else {
                assert(before.push(b) == before + seq![b]);
            }
        }
        assert forall|m: int| 0 < m < block_views(out@).len() implies block_views(out@)[m - 1].hi + 1 <= #[trigger] block_views(out@)[m].start by {
            if m < block_views(out@).len() - 1 {
                assert(block_views(out@)[m - 1] == before[m - 1]);
                assert(block_views(out@)[m] == before[m]);
            } else {
                assert(block_views(out@)[m - 1] == before[m - 1]);
                assert(before[m - 1] == out@[m - 1].view_of());
            }
        }
        assert forall|m: int| 0 <= m < block_views(out@).len() implies {
            let bb = #[trigger] block_views(out@)[m];
            &&& 0 <= bb.start < all.len()
            &&& opens_block(all[bb.start])
            &&& bb.lo == bb.start + 1
            &&& bb.start < bb.hi <= all.len()
            &&& bb.start <= bb.end < all.len()
            &&& (bb.hi < all.len() ==> bb.end == bb.hi)
            &&& (bb.hi == all.len() ==> bb.end == all.len() - 1)
        } by {
            if m < block_views(out@).len() - 1 {
                assert(block_views(out@)[m] == before[m]);
            }
        }
        if inner_end < lines.len() {
            index = inner_end + 1;
        } else {
            index = lines.len();
            assert(block_views(out@) + blocks_from(all, index as int) == block_views(out@));
        }
    }
    assert(blocks_from(all, index as int) == Seq::<BlockView>::empty());
    assert(block_views(out@) + Seq::<BlockView>::empty() == block_views(out@));
    out
}

/// `key: value` lines. `~` marks one Bruno has switched off, and `//` a
/// comment; both are passed over, and so is a line whose key is empty.
pub open spec fn pair_of_line(line: Seq<char>) -> Option<(Seq<char>, Seq<char>)> {
    let line = trim(line);
    if line.len() == 0 || starts_with(line, "//"@) || starts_with(line, "~"@) {
        None
    } else {
        match split_once(line, ':') {
            Some((key, value)) => if trim(key).len() > 0 {
                Some((trim(key), trim(value)))
            } else {
                None
            },
            None => None,
        }
    }
}

pub open spec fn pairs_of(lines: Seq<Seq<char>>) -> Seq<(Seq<char>, Seq<char>)>
    decreases lines.len(),
{
    if lines.len() == 0 {
        Seq::empty()
    } else {
        match pair_of_line(lines.last()) {
            Some(pair) => pairs_of(lines.drop_last()).push(pair),
            None => pairs_of(lines.drop_last()),
        }
    }
}

fn pair_of(line: &[char]) -> (r: Option<(Vec<char>, Vec<char>)>)
    ensures
        match r {
            Some((k, v)) => pair_of_line(line@) == Some((k@, v@)),
            None => pair_of_line(line@) is None,
        },
{
    let line = trim_chars(line);
    if line.len() == 0 || starts_with_chars(&line, &chars_of("//")) || starts_with_chars(&line, &chars_of("~")) {
        return None;
    }
    match split_once_chars(&line, ':') {
        Some((key, value)) => {
            let key = trim_chars(&key);
            if key.len() > 0 {
                Some((key, trim_chars(&value)))
            } else {
                None
            }
        },
        None => None,
    }
}

/// The pairs of the lines `lo` up to `hi`.
fn pairs(lines: &Vec<Vec<char>>, lo: usize, hi: usize) -> (r: Vec<(String, String)>)
    requires
        lo <= hi <= lines@.len(),
    ensures
        pair_views(r@) == pairs_of(views(lines@).subrange(lo as int, hi as int)),
{
    let ghost all = views(lines@);
    let mut out: Vec<(String, String)> = Vec::new();
    let mut i = lo;
    while i < hi
        invariant
            lo <= i <= hi <= lines@.len(),
            all == views(lines@),
            pair_views(out@) == pairs_of(all.subrange(lo as int, i as int)),
        decreases hi - i,
    {
        let ghost t = all.subrange(lo as int, i + 1);
        assert(t.drop_last() == all.subrange(lo as int, i as int));
        assert(t.last() == lines@[i as int]@);
        if let Some((k, v)) = pair_of(&lines[i]) {
            let ghost before = pair_views(out@);
            out.push((string_of(&k), string_of(&v)));
            assert(pair_views(out@) == before.push((k@, v@)));
        }
        i += 1;
    }
    out
}

/// A body line without the two spaces Bruno indents it by.
pub open spec fn dedented_line(line: Seq<char>) -> Seq<char> {
    if starts_with(line, "  "@) {
        line.skip(2)
    } else if starts_with(line, " "@) {
        line.skip(1)
    } else {
        line
    }
}

/// A body block's text without the indent, trimmed.
pub open spec fn dedented(lines: Seq<Seq<char>>) -> Seq<char> {
    trim(join(lines.map_values(|l: Seq<char>| dedented_line(l)), "\n"@))
}

fn dedent(lines: &Vec<Vec<char>>, lo: usize, hi: usize) -> (r: Vec<char>)
    requires
        lo <= hi <= lines@.len(),
    ensures
        r@ == dedented(views(lines@).subrange(lo as int, hi as int)),
{
    let ghost all = views(lines@).subrange(lo as int, hi as int);
    let mut out: Vec<Vec<char>> = Vec::new();
    let mut i = lo;
    while i < hi
        invariant
            lo <= i <= hi <= lines@.len(),
            all == views(lines@).subrange(lo as int, hi as int),
            views(out@) == all.take(i - lo).map_values(|l: Seq<char>| dedented_line(l)),
        decreases hi - i,
    {
        let line = &lines[i];
        assert(all[i - lo] == line@);
        let d = if starts_with_chars(line, &chars_of("  ")) {
            proof { reveal_strlit("  "); }
            slice(line, 2, line.len())
        } else if starts_with_chars(line, &chars_of(" ")) {
            proof { reveal_strlit(" "); }
            slice(line, 1, line.len())
        } else {
            slice(line, 0, line.len())
        };
        assert(line@.subrange(0, line@.len() as int) == line@);
        assert(d@ == dedented_line(line@));
        let ghost before = views(out@);
        out.push(d);
        assert(views(out@) == before.push(d@));
        assert(all.take(i + 1 - lo) == all.take(i - lo).push(all[i - lo]));
        i += 1;
    }
    assert(all.take(hi - lo) == all);
    trim_chars(&join_chars(&out, &chars_of("\n")))
}

/// The word a body kind is written as in a method block's `body:` line.
pub open spec fn mode_of(kind: BodyKind) -> Seq<char> {
    match kind {
        BodyKind::NoBody => "none"@,
        BodyKind::Json => "json"@,
        BodyKind::Form => "form-urlencoded"@,
        BodyKind::Multipart => "multipart-form"@,
        BodyKind::Xml => "xml"@,
        BodyKind::Text => "text"@,
        BodyKind::Sparql => "sparql"@,
    }
}

fn body_mode(kind: BodyKind) -> (r: &'static str)
    ensures
        r@ == mode_of(kind),
{
    match kind {
        BodyKind::NoBody => "none",
        BodyKind::Json => "json",
        BodyKind::Form => "form-urlencoded",
        BodyKind::Multipart => "multipart-form",
        BodyKind::Xml => "xml",
        BodyKind::Text => "text",
        BodyKind::Sparql => "sparql",
    }
}

/// The kind a body block's mode names, when it names one.
pub open spec fn kind_of_mode_spec(mode: Seq<char>) -> Option<BodyKind> {
    if mode == "json"@ {
        Some(BodyKind::Json)
    } else if mode == "form-urlencoded"@ {
        Some(BodyKind::Form)
    } else if mode == "multipart-form"@ {
        Some(BodyKind::Multipart)
    } else if mode == "xml"@ {
        Some(BodyKind::Xml)
    } else if mode == "text"@ {
        Some(BodyKind::Text)
    } else if mode == "sparql"@ {
        Some(BodyKind::Sparql)
    } else {
        None
    }
}

fn kind_of_mode(mode: &[char]) -> (r: Option<BodyKind>)
    ensures
        r == kind_of_mode_spec(mode@),
{
    if same(mode, &chars_of("json")) {
        Some(BodyKind::Json)
    } else if same(mode, &chars_of("form-urlencoded")) {
        Some(BodyKind::Form)
    } else if same(mode, &chars_of("multipart-form")) {
        Some(BodyKind::Multipart)
    } else if same(mode, &chars_of("xml")) {
        Some(BodyKind::Xml)
    } else if same(mode, &chars_of("text")) {
        Some(BodyKind::Text)
    } else if same(mode, &chars_of("sparql")) {
        Some(BodyKind::Sparql)
    } else {
        None
    }
}

/// A form field's value with Bruno's `@file(path)` turned into binman's
/// `@path`.
pub open spec fn file_value(value: Seq<char>) -> Seq<char> {
    if starts_with(value, "@file\u{28}"@) && ends_with(value.skip(6), "\u{29}"@) {
        "@"@ + value.skip(6).drop_last()
    } else {
        value
    }
}

pub open spec fn file_fields(pairs: Seq<(Seq<char>, Seq<char>)>) -> Seq<(Seq<char>, Seq<char>)> {
    pairs.map_values(|p: (Seq<char>, Seq<char>)| (p.0, file_value(p.1)))
}

fn file_value_exec(value: &String) -> (r: String)
    ensures
        r@ == file_value(value@),
{
    let v = chars_of(value.as_str());
    if starts_with_chars(&v, &chars_of("@file\u{28}")) {
        proof { reveal_strlit("@file\u{28}"); }
        let rest = slice(&v, 6, v.len());
        assert(rest@ == v@.skip(6));
        if ends_with_chars(&rest, &chars_of("\u{29}")) {
            proof { reveal_strlit("\u{29}"); }
            let mut out = chars_of("@");
            let path = slice(&rest, 0, rest.len() - 1);
            assert(path@ == rest@.drop_last());
            append(&mut out, &path);
            return string_of(&out);
        }
    }
    string_of(&v)
}

fn file_fields_exec(pairs: Vec<(String, String)>) -> (r: Vec<(String, String)>)
    ensures
        pair_views(r@) == file_fields(pair_views(pairs@)),
{
    let ghost all = pair_views(pairs@);
    let mut out: Vec<(String, String)> = Vec::new();
    let mut i: usize = 0;
    while i < pairs.len()
        invariant
            i <= pairs@.len(),
            all == pair_views(pairs@),
            pair_views(out@) == file_fields(all.take(i as int)),
        decreases pairs@.len() - i,
    {
        let name = pairs[i].0.clone();
        let value = file_value_exec(&pairs[i].1);
        let ghost before = pair_views(out@);
        out.push((name, value));
        assert(pair_views(out@) == before.push((name@, value@)));
        let ghost field = all[i as int];
        let ghost updated = (field.0, file_value(field.1));
        assert(file_fields(all.take(i + 1)) == file_fields(all.take(i as int)).push(updated));
        i += 1;
    }
    assert(all.take(pairs@.len() as int) == all);
    out
}

/// The value of the first `url` pair.
pub open spec fn url_of(pairs: Seq<(Seq<char>, Seq<char>)>) -> Option<Seq<char>>
    decreases pairs.len(),
{
    if pairs.len() == 0 {
        None
    } else if pairs[0].0 == "url"@ {
        Some(pairs[0].1)
    } else {
        url_of(pairs.drop_first())
    }
}

fn find_url(pairs: &Vec<(String, String)>) -> (r: Option<String>)
    ensures
        match r {
            Some(u) => url_of(pair_views(pairs@)) == Some(u@),
            None => url_of(pair_views(pairs@)) is None,
        },
{
    let ghost all = pair_views(pairs@);
    let mut i: usize = 0;
    assert(all.skip(0) == all);
    while i < pairs.len()
        invariant
            i <= pairs@.len(),
            all == pair_views(pairs@),
            url_of(all) == url_of(all.skip(i as int)),
        decreases pairs@.len() - i,
    {
        assert(all.skip(i as int)[0] == all[i as int]);
        assert(all.skip(i as int).drop_first() == all.skip(i + 1));
        if same(&chars_of(pairs[i].0.as_str()), &chars_of("url")) {
            return Some(pairs[i].1.clone());
        }
        i += 1;
    }
    None
}

/// What reading a `.bru` file has found so far.
pub struct BruState {
    pub method: Seq<char>,
    pub url: Seq<char>,
    pub headers: Seq<(Seq<char>, Seq<char>)>,
    pub vars: Map<Seq<char>, Seq<char>>,
    pub kind: Option<BodyKind>,
    pub body: Seq<char>,
    pub graphql: Option<Seq<char>>,
    pub graphql_vars: Option<Seq<char>>,
}

/// What one block adds to the request.
pub open spec fn read_block(st: BruState, lines: Seq<Seq<char>>, b: BlockView) -> BruState {
    let name = lower(b.name);
    let inner = lines.subrange(b.lo, b.hi);
    if is_method_block_name(name) {
        BruState {
            method: upper(name),
            url: match url_of(pairs_of(inner)) {
                Some(url) => url,
                None => st.url,
            },
            ..st
        }
    } else if name == "headers"@ {
        BruState { headers: st.headers + pairs_of(inner), ..st }
    } else if name == "vars"@ || name == "vars:pre-request"@ {
        BruState { vars: insert_all(st.vars, pairs_of(inner)), ..st }
    } else if name == "body:graphql"@ {
        BruState { graphql: Some(dedented(inner)), ..st }
    } else if name == "body:graphql:vars"@ {
        BruState { graphql_vars: Some(dedented(inner)), ..st }
    } else if starts_with(name, "body:"@) && kind_of_mode_spec(name.skip(5)) is Some {
        let kind = kind_of_mode_spec(name.skip(5)).unwrap();
        BruState {
            kind: Some(kind),
            body: if kind == BodyKind::Form || kind == BodyKind::Multipart {
                join(form_fields(file_fields(pairs_of(inner))), "&"@)
            } else {
                dedented(inner)
            },
            ..st
        }
    } else {
        st
    }
}

pub open spec fn read_blocks(st: BruState, lines: Seq<Seq<char>>, blocks: Seq<BlockView>) -> BruState
    decreases blocks.len(),
{
    if blocks.len() == 0 {
        st
    } else {
        read_block(read_blocks(st, lines, blocks.drop_last()), lines, blocks.last())
    }
}

pub open spec fn empty_state() -> BruState {
    BruState {
        method: Seq::empty(),
        url: Seq::empty(),
        headers: Seq::empty(),
        vars: Map::empty(),
        kind: None,
        body: Seq::empty(),
        graphql: None,
        graphql_vars: None,
    }
}

/// The JSON document a GraphQL server expects.
pub open spec fn graphql_payload(query: Seq<char>, variables: Option<Seq<char>>) -> Seq<char> {
    let vars = match variables {
        Some(v) => json_compacted(v),
        None => None,
    };
    match vars {
        Some(json) => "\u{7b}\u{22}query\u{22}:"@ + json_quoted(query) + ",\u{22}variables\u{22}:"@ + json + "\u{7d}"@,
        None => "\u{7b}\u{22}query\u{22}:"@ + json_quoted(query) + "\u{7d}"@,
    }
}

/// What a `.bru` file says.
pub open spec fn bru_parsed(text: Seq<char>) -> BruState {
    let lines = split(crlf_to_lf(text), '\n');
    let st = read_blocks(empty_state(), lines, blocks_from(lines, 0));
    match st.graphql {
        Some(query) => BruState { body: graphql_payload(query, st.graphql_vars), kind: Some(BodyKind::Json), ..st },
        None => st,
    }
}

/// The request as read, as the parts [`bru_parsed`] speaks of.
pub open spec fn request_state(r: Request, graphql: Option<Seq<char>>, graphql_vars: Option<Seq<char>>) -> BruState {
    BruState {
        method: r.method@,
        url: r.url@,
        headers: r.header_pairs(),
        vars: r.vars@,
        kind: r.kind,
        body: r.body@,
        graphql: graphql,
        graphql_vars: graphql_vars,
    }
}

fn lines_of_text(text: &str) -> (r: Vec<Vec<char>>)
    ensures
        views(r@) == split(crlf_to_lf(text@), '\n'),
{
    let chars = crlf_to_lf_chars(&chars_of(text));
    split_chars(&chars, '\n')
}

/// `r` is the request a `.bru` file's text reads as.
pub open spec fn bru_request(r: Request, text: Seq<char>) -> bool {
    let st = bru_parsed(text);
    &&& r.method@ == st.method
    &&& r.url@ == st.url
    &&& r.header_pairs() == st.headers
    &&& r.vars@ == st.vars
    &&& r.kind == st.kind
    &&& r.body@ == st.body
}

pub fn parse(text: &str) -> (r: Request)
    ensures
        bru_request(r, text@),
{
    let lines = lines_of_text(text);
    let ghost all = views(lines@);
    let found = blocks(&lines);
    let ghost bs = block_views(found@);
    let mut request = Request::empty();
    let mut graphql: Option<Vec<char>> = None;
    let mut graphql_vars: Option<Vec<char>> = None;
    let mut i: usize = 0;
    assert(request_state(request, None, None) == empty_state()) by {
        assert(request.header_pairs() =~= Seq::<(Seq<char>, Seq<char>)>::empty());
        assert(request.method@ =~= Seq::<char>::empty());
        assert(request.url@ =~= Seq::<char>::empty());
        assert(request.body@ =~= Seq::<char>::empty());
    }
    while i < found.len()
        invariant
            i <= found@.len(),
            all == views(lines@),
            bs == block_views(found@),
            well_placed(all, bs),
            request_state(request, opt_view(graphql), opt_view(graphql_vars))
                == read_blocks(empty_state(), all, bs.take(i as int)),
        decreases found@.len() - i,
    {
        let ghost st = read_blocks(empty_state(), all, bs.take(i as int));
        assert(bs.take(i + 1).drop_last() == bs.take(i as int));
        assert(bs.take(i + 1).last() == bs[i as int]);
        let block = &found[i];
        let ghost b = bs[i as int];
        assert(b == block.view_of());
        assert(0 <= b.start && b.lo <= b.hi <= all.len());
        let name = lower_chars(&block.name);
        let ghost gv = opt_view(graphql);
        let ghost gvv = opt_view(graphql_vars);
        if is_method_block(&name) {
            request.method = string_of(&upper_chars(&name));
            let found_pairs = pairs(&lines, block.lo, block.hi);
            if let Some(url) = find_url(&found_pairs) {
                request.url = url;
            }
            assert(request_state(request, gv, gvv) == read_block(st, all, b));
        } else if same(&name, &chars_of("headers")) {
            let more = pairs(&lines, block.lo, block.hi);
            let ghost before = request.header_pairs();
            let mut headers: Vec<(String, String)> = Vec::new();
            std::mem::swap(&mut headers, &mut request.headers);
            let mut k: usize = 0;
            while k < more.len()
                invariant
                    k <= more@.len(),
                    pair_views(headers@) == before + pair_views(more@).take(k as int),
                decreases more@.len() - k,
            {
                let pair = (more[k].0.clone(), more[k].1.clone());
                let ghost prev = pair_views(headers@);
                let ghost pv = (pair.0@, pair.1@);
                headers.push(pair);
                assert(pair_views(headers@) == prev.push(pv));
                assert(pair_views(more@).take(k + 1) == pair_views(more@).take(k as int).push(pair_views(more@)[k as int]));
                k += 1;
            }
            assert(pair_views(more@).take(more@.len() as int) == pair_views(more@));
            request.headers = headers;
            assert(request_state(request, gv, gvv) == read_block(st, all, b));
        } else if same(&name, &chars_of("vars")) || same(&name, &chars_of("vars:pre-request")) {
            let more = pairs(&lines, block.lo, block.hi);
            request.vars.extend(more);
            assert(request_state(request, gv, gvv) == read_block(st, all, b));
        } else if same(&name, &chars_of("body:graphql")) {
            graphql = Some(dedent(&lines, block.lo, block.hi));
        } else if same(&name, &chars_of("body:graphql:vars")) {
            graphql_vars = Some(dedent(&lines, block.lo, block.hi));
        } else if starts_with_chars(&name, &chars_of("body:")) {
            proof { reveal_strlit("body:"); }
            let mode = slice(&name, 5, name.len());
            assert(mode@ == name@.skip(5));
            if let Some(kind) = kind_of_mode(&mode) {
                request.kind = Some(kind);
                if kind.is_form() {
                    let fields = file_fields_exec(pairs(&lines, block.lo, block.hi));
                    request.body = encode_form(&fields);
                } else {
                    request.body = string_of(&dedent(&lines, block.lo, block.hi));
                }
            }
        }
        i += 1;
    }
    assert(bs.take(found@.len() as int) == bs);
    if let Some(query) = graphql {
        let quoted = json_quote(string_of(&query).as_str());
        let mut body = chars_of("\u{7b}\u{22}query\u{22}:");
        append(&mut body, &chars_of(quoted.as_str()));
        let vars = match graphql_vars {
            Some(v) => json_compact(string_of(&v).as_str()),
            None => None,
        };
        if let Some(json) = vars {
            append(&mut body, &chars_of(",\u{22}variables\u{22}:"));
            append(&mut body, &chars_of(json.as_str()));
        }
        append(&mut body, &chars_of("\u{7d}"));
        request.body = string_of(&body);
        request.kind = Some(BodyKind::Json);
    }
    request
}

/// Every `vars` block merged: `vars`, `vars:pre-request` and the rest, a
/// later pair winning a name.
pub open spec fn vars_of_blocks(lines: Seq<Seq<char>>, blocks: Seq<BlockView>) -> Map<Seq<char>, Seq<char>>
    decreases blocks.len(),
{
    if blocks.len() == 0 {
        Map::empty()
    } else {
        let b = blocks.last();
        let before = vars_of_blocks(lines, blocks.drop_last());
        let name = lower(b.name);
        if name == "vars"@ || starts_with(name, "vars:"@) {
            insert_all(before, pairs_of(lines.subrange(b.lo, b.hi)))
        } else {
            before
        }
    }
}

/// Every `vars` block merged: `vars`, `vars:pre-request` and the rest. What
/// `collection.bru`, `folder.bru` and an environment file hold.
pub fn vars_blocks(text: &str) -> (r: Vars)
    ensures
        ({
            let lines = split(crlf_to_lf(text@), '\n');
            r@ == vars_of_blocks(lines, blocks_from(lines, 0))
        }),
{
    let lines = lines_of_text(text);
    let ghost all = views(lines@);
    let found = blocks(&lines);
    let ghost bs = block_views(found@);
    let mut out = Vars::new();
    let mut i: usize = 0;
    while i < found.len()
        invariant
            i <= found@.len(),
            all == views(lines@),
            bs == block_views(found@),
            well_placed(all, bs),
            out@ == vars_of_blocks(all, bs.take(i as int)),
        decreases found@.len() - i,
    {
        assert(bs.take(i + 1).drop_last() == bs.take(i as int));
        assert(bs.take(i + 1).last() == bs[i as int]);
        let block = &found[i];
        assert(bs[i as int] == block.view_of());
        let name = lower_chars(&block.name);
        if same(&name, &chars_of("vars")) || starts_with_chars(&name, &chars_of("vars:")) {
            let more = pairs(&lines, block.lo, block.hi);
            out.extend(more);
        }
        i += 1;
    }
    assert(bs.take(found@.len() as int) == bs);
    out
}

/// The variables the `vars` blocks of a `.bru` text set.
pub open spec fn text_vars(text: Seq<char>) -> Map<Seq<char>, Seq<char>> {
    let lines = split(crlf_to_lf(text), '\n');
    vars_of_blocks(lines, blocks_from(lines, 0))
}

/// The variables of a file that may not be there.
pub open spec fn file_vars(text: Option<String>) -> Map<Seq<char>, Seq<char>> {
    match text {
        Some(t) => text_vars(t@),
        None => Map::empty(),
    }
}

/// The variables `collection.bru` and `folder.bru` set at each level, the
/// nearest level first: read from the farthest down, so a deeper file wins,
/// and at one level `folder.bru` over `collection.bru`.
pub open spec fn levels_vars(levels: Seq<(Option<String>, Option<String>)>) -> Map<Seq<char>, Seq<char>>
    decreases levels.len(),
{
    if levels.len() == 0 {
        Map::empty()
    } else {
        levels_vars(levels.drop_first()).union_prefer_right(file_vars(levels[0].0)).union_prefer_right(file_vars(levels[0].1))
    }
}

/// The variables of the `collection.bru` and `folder.bru` files on the way
/// down to a request: `levels` holds each directory's two files, when it
/// has them, from the request's own directory up to the collection root. A
/// deeper file overrides a shallower one.
pub fn collection_vars(levels: &Vec<(Option<String>, Option<String>)>) -> (r: Vars)
    ensures
        r@ == levels_vars(levels@),
{
    let mut merged = Vars::new();
    let mut i: usize = levels.len();
    assert(levels@.skip(i as int) =~= Seq::<(Option<String>, Option<String>)>::empty());
    while i > 0
        invariant
            i <= levels@.len(),
            merged@ == levels_vars(levels@.skip(i as int)),
        decreases i,
    {
        i -= 1;
        let ghost rest = levels@.skip(i as int);
        assert(rest.drop_first() =~= levels@.skip(i + 1));
        assert(rest[0] == levels@[i as int]);
        match &levels[i].0 {
            Some(text) => {
                let vars = vars_blocks(text.as_str());
                merged.extend_with(&vars);
            },
            None => {
                assert(merged@.union_prefer_right(Map::<Seq<char>, Seq<char>>::empty()) =~= merged@);
            },
        }
        match &levels[i].1 {
            Some(text) => {
                let vars = vars_blocks(text.as_str());
                merged.extend_with(&vars);
            },
            None => {
                assert(merged@.union_prefer_right(Map::<Seq<char>, Seq<char>>::empty()) =~= merged@);
            },
        }
    }
    assert(levels@.skip(0) =~= levels@);
    merged
}

/// A line of a method block as saved: binman owns the `url` line, and the
/// `body` line when the body changed; every other line is kept. Also says
/// whether the line was the URL's and whether it was the body mode's.
pub open spec fn saved_method_line(line: Seq<char>, url: Seq<char>, kind: BodyKind, body_changed: bool) -> (Seq<char>, bool, bool) {
    let key = match split_once(line, ':') {
        Some((key, _)) => Some(trim(key)),
        None => None,
    };
    if key == Some("url"@) {
        ("  url: "@ + url, true, false)
    } else if key == Some("body"@) && body_changed {
        ("  body: "@ + mode_of(kind), false, true)
    } else if key == Some("body"@) {
        (line, false, true)
    } else {
        (line, false, false)
    }
}

/// The lines of a method block kept or rewritten, and whether the URL and
/// the body mode were among them.
pub open spec fn saved_method_lines(lines: Seq<Seq<char>>, url: Seq<char>, kind: BodyKind, body_changed: bool) -> (Seq<Seq<char>>, bool, bool)
    decreases lines.len(),
{
    if lines.len() == 0 {
        (Seq::empty(), false, false)
    } else {
        let (out, url_seen, body_seen) = saved_method_lines(lines.drop_last(), url, kind, body_changed);
        let (line, is_url, is_body) = saved_method_line(lines.last(), url, kind, body_changed);
        (out.push(line), url_seen || is_url, body_seen || is_body)
    }
}

/// The word a method is written as in the block that holds it.
pub open spec fn method_word(method: Seq<char>) -> Seq<char> {
    if method.len() == 0 { "get"@ } else { lower(method) }
}

/// The method block: the lines binman owns rewritten, every other line of
/// `original` kept, and the URL and body mode added where they are missing.
pub open spec fn method_block_lines(original: Option<Seq<Seq<char>>>, method: Seq<char>, url: Seq<char>, kind: BodyKind, body_changed: bool) -> Seq<Seq<char>> {
    let inner = match original {
        Some(lines) => lines,
        None => Seq::empty(),
    };
    let (kept, url_seen, body_seen) = saved_method_lines(inner, url, kind, body_changed);
    let opened = seq![method_word(method) + " \u{7b}"@] + kept;
    let with_url = if url_seen { opened } else { opened.insert(1, "  url: "@ + url) };
    let with_body = if !body_seen && (body_changed || original is None) {
        with_url.insert(2, "  body: "@ + mode_of(kind))
    } else {
        with_url
    };
    with_body.push("\u{7d}"@)
}

/// `name: value` lines, indented.
pub open spec fn indented_pairs(pairs: Seq<(Seq<char>, Seq<char>)>) -> Seq<Seq<char>> {
    pairs.map_values(|p: (Seq<char>, Seq<char>)| "  "@ + p.0 + ": "@ + p.1)
}

/// The lines of a block Bruno has switched off: they start with `~`.
pub open spec fn disabled_lines(lines: Seq<Seq<char>>) -> Seq<Seq<char>>
    decreases lines.len(),
{
    if lines.len() == 0 {
        Seq::empty()
    } else if starts_with(trim_start(lines.last()), "~"@) {
        disabled_lines(lines.drop_last()).push(lines.last())
    } else {
        disabled_lines(lines.drop_last())
    }
}

/// The headers block. Headers Bruno has switched off are carried over from
/// the original block untouched.
pub open spec fn headers_block_lines(headers: Seq<(Seq<char>, Seq<char>)>, original: Seq<Seq<char>>) -> Seq<Seq<char>> {
    seq!["headers \u{7b}"@] + indented_pairs(headers) + disabled_lines(original) + seq!["\u{7d}"@]
}

/// A form field as a body block line: a multipart file goes back to
/// Bruno's `@file(path)`.
pub open spec fn form_line(pair: (Seq<char>, Seq<char>), kind: BodyKind) -> Seq<char> {
    let value = if starts_with(pair.1, "@"@) && kind == BodyKind::Multipart {
        "@file\u{28}"@ + pair.1.skip(1) + "\u{29}"@
    } else {
        pair.1
    };
    "  "@ + pair.0 + ": "@ + value
}

/// A text body line, indented unless empty.
pub open spec fn body_text_line(line: Seq<char>) -> Seq<char> {
    if line.len() == 0 { Seq::empty() } else { "  "@ + line }
}

/// The body block for a body of `kind`.
pub open spec fn body_block_lines(body: Seq<char>, kind: BodyKind) -> Seq<Seq<char>> {
    let inner = if kind == BodyKind::Form || kind == BodyKind::Multipart {
        form_pairs(trim(body)).map_values(|p: (Seq<char>, Seq<char>)| form_line(p, kind))
    } else {
        lines(body).map_values(|l: Seq<char>| body_text_line(l))
    };
    seq!["body:"@ + mode_of(kind) + " \u{7b}"@] + inner + seq!["\u{7d}"@]
}

/// A `.bru` file for a request that has no file yet.
pub open spec fn bru_formatted(method: Seq<char>, url: Seq<char>, headers: Seq<(Seq<char>, Seq<char>)>, body: Seq<char>, kind: BodyKind) -> Seq<char> {
    let opening = method_block_lines(None, method, url, kind, true);
    let with_headers = if headers.len() > 0 {
        opening + seq![Seq::empty()] + headers_block_lines(headers, Seq::empty())
    } else {
        opening
    };
    let all = if kind != BodyKind::NoBody {
        with_headers + seq![Seq::empty()] + body_block_lines(body, kind)
    } else {
        with_headers
    };
    join(all, "\n"@) + "\n"@
}

fn push_line(out: &mut Vec<Vec<char>>, line: Vec<char>)
    ensures
        views(final(out)@) == views(old(out)@).push(line@),
{
    out.push(line);
    assert(views(out@) == views(old(out)@).push(line@));
}

fn extend_lines(out: &mut Vec<Vec<char>>, more: Vec<Vec<char>>)
    ensures
        views(final(out)@) == views(old(out)@) + views(more@),
{
    let ghost start = views(out@);
    let mut i: usize = 0;
    while i < more.len()
        invariant
            i <= more@.len(),
            views(out@) == start + views(more@).take(i as int),
        decreases more@.len() - i,
    {
        let line = slice(&more[i], 0, more[i].len());
        assert(more@[i as int]@.subrange(0, more@[i as int]@.len() as int) == more@[i as int]@);
        push_line(out, line);
        assert(views(more@).take(i + 1) == views(more@).take(i as int).push(views(more@)[i as int]));
        i += 1;
    }
    assert(views(more@).take(more@.len() as int) == views(more@));
}

/// The lines `lo` up to `hi`, copied.
fn copy_lines(lines: &Vec<Vec<char>>, lo: usize, hi: usize) -> (r: Vec<Vec<char>>)
    requires
        lo <= hi <= lines@.len(),
    ensures
        views(r@) == views(lines@).subrange(lo as int, hi as int),
{
    let mut out: Vec<Vec<char>> = Vec::new();
    let mut i = lo;
    while i < hi
        invariant
            lo <= i <= hi <= lines@.len(),
            views(out@) == views(lines@).subrange(lo as int, i as int),
        decreases hi - i,
    {
        let line = slice(&lines[i], 0, lines[i].len());
        assert(lines@[i as int]@.subrange(0, lines@[i as int]@.len() as int) == lines@[i as int]@);
        push_line(&mut out, line);
        assert(views(lines@).subrange(lo as int, i + 1) == views(lines@).subrange(lo as int, i as int).push(views(lines@)[i as int]));
        i += 1;
    }
    out
}

fn key_is(key: &Option<Vec<char>>, word: &str) -> (r: bool)
    ensures
        r == (opt_view(*key) == Some(word@)),
{
    match key {
        Some(k) => same(k, &chars_of(word)),
        None => false,
    }
}

fn method_line(line: &[char], url: &[char], kind: BodyKind, body_changed: bool) -> (r: (Vec<char>, bool, bool))
    ensures
        saved_method_line(line@, url@, kind, body_changed) == (r.0@, r.1, r.2),
{
    let key = match split_once_chars(line, ':') {
        Some((key, _)) => Some(trim_chars(&key)),
        None => None,
    };
    if key_is(&key, "url") {
        let mut out = chars_of("  url: ");
        append(&mut out, url);
        (out, true, false)
    } else if key_is(&key, "body") && body_changed {
        let mut out = chars_of("  body: ");
        append(&mut out, &chars_of(body_mode(kind)));
        (out, false, true)
    } else if key_is(&key, "body") {
        (slice(line, 0, line.len()), false, true)
    } else {
        assert(line@.subrange(0, line@.len() as int) == line@);
        (slice(line, 0, line.len()), false, false)
    }
}

#[verifier::rlimit(50)]
fn method_block(lines: &Vec<Vec<char>>, original: Option<(usize, usize)>, method: &str, url: &[char], kind: BodyKind, body_changed: bool) -> (r: Vec<Vec<char>>)
    requires
        original matches Some((lo, hi)) ==> lo <= hi <= lines@.len(),
    ensures
        views(r@) == method_block_lines(
            match original {
                Some((lo, hi)) => Some(views(lines@).subrange(lo as int, hi as int)),
                None => None,
            },
            method@,
            url@,
            kind,
            body_changed,
        ),
{
    let (lo, hi) = match original {
        Some((lo, hi)) => (lo, hi),
        None => (0, 0),
    };
    let ghost inner = views(lines@).subrange(lo as int, hi as int);
    let word = if method.is_empty() { chars_of("get") } else { lower_chars(&chars_of(method)) };
    let mut first = word;
    append(&mut first, &chars_of(" \u{7b}"));
    let mut out: Vec<Vec<char>> = Vec::new();
    push_line(&mut out, first);
    let ghost head = views(out@);
    let mut wrote_url = false;
    let mut wrote_body = false;
    let mut i = lo;
    while i < hi
        invariant
            lo <= i <= hi <= lines@.len(),
            inner == views(lines@).subrange(lo as int, hi as int),
            ({
                let (kept, u, b) = saved_method_lines(inner.take(i - lo), url@, kind, body_changed);
                views(out@) == head + kept && wrote_url == u && wrote_body == b
            }),
        decreases hi - i,
    {
        assert(inner.take(i + 1 - lo).drop_last() == inner.take(i - lo));
        assert(inner.take(i + 1 - lo).last() == lines@[i as int]@);
        let (line, is_url, is_body) = method_line(&lines[i], url, kind, body_changed);
        push_line(&mut out, line);
        wrote_url = wrote_url || is_url;
        wrote_body = wrote_body || is_body;
        i += 1;
    }
    proof {
        if original is None {
            assert(inner =~= Seq::<Seq<char>>::empty());
        }
        assert(inner.take(hi - lo) == inner);
    }
    if !wrote_url {
        let mut line = chars_of("  url: ");
        append(&mut line, url);
        let ghost before = views(out@);
        out.insert(1, line);
        assert(views(out@) == before.insert(1, line@));
    }
    if !wrote_body && (body_changed || original.is_none()) {
        let mut line = chars_of("  body: ");
        append(&mut line, &chars_of(body_mode(kind)));
        let ghost before = views(out@);
        out.insert(2, line);
        assert(views(out@) == before.insert(2, line@));
    }
    push_line(&mut out, chars_of("\u{7d}"));
    out
}

fn headers_block(headers: &Vec<(String, String)>, lines: &Vec<Vec<char>>, lo: usize, hi: usize) -> (r: Vec<Vec<char>>)
    requires
        lo <= hi <= lines@.len(),
    ensures
        views(r@) == headers_block_lines(pair_views(headers@), views(lines@).subrange(lo as int, hi as int)),
{
    let ghost all = pair_views(headers@);
    let mut out: Vec<Vec<char>> = Vec::new();
    push_line(&mut out, chars_of("headers \u{7b}"));
    let mut i: usize = 0;
    while i < headers.len()
        invariant
            i <= headers@.len(),
            all == pair_views(headers@),
            views(out@) == seq!["headers \u{7b}"@] + indented_pairs(all.take(i as int)),
        decreases headers@.len() - i,
    {
        let mut line = chars_of("  ");
        append(&mut line, &chars_of(headers[i].0.as_str()));
        append(&mut line, &chars_of(": "));
        append(&mut line, &chars_of(headers[i].1.as_str()));
        push_line(&mut out, line);
        assert(indented_pairs(all.take(i + 1)) == indented_pairs(all.take(i as int)).push("  "@ + all[i as int].0 + ": "@ + all[i as int].1));
        i += 1;
    }
    assert(all.take(headers@.len() as int) == all);
    let ghost inner = views(lines@).subrange(lo as int, hi as int);
    let ghost head = views(out@);
    let mut k = lo;
    while k < hi
        invariant
            lo <= k <= hi <= lines@.len(),
            inner == views(lines@).subrange(lo as int, hi as int),
            views(out@) == head + disabled_lines(inner.take(k - lo)),
        decreases hi - k,
    {
        assert(inner.take(k + 1 - lo).drop_last() == inner.take(k - lo));
        assert(inner.take(k + 1 - lo).last() == lines@[k as int]@);
        if starts_with_chars(&trim_start_chars(&lines[k]), &chars_of("~")) {
            let line = slice(&lines[k], 0, lines[k].len());
            assert(lines@[k as int]@.subrange(0, lines@[k as int]@.len() as int) == lines@[k as int]@);
            push_line(&mut out, line);
        }
        k += 1;
    }
    assert(inner.take(hi - lo) == inner);
    push_line(&mut out, chars_of("\u{7d}"));
    out
}

fn body_block(body: &str, kind: BodyKind) -> (r: Vec<Vec<char>>)
    ensures
        views(r@) == body_block_lines(body@, kind),
{
    let mut first = chars_of("body:");
    append(&mut first, &chars_of(body_mode(kind)));
    append(&mut first, &chars_of(" \u{7b}"));
    let mut out: Vec<Vec<char>> = Vec::new();
    push_line(&mut out, first);
    let ghost head = views(out@);
    if kind.is_form() {
        let pairs = parse_form(body);
        let ghost all = pair_views(pairs@);
        let mut i: usize = 0;
        while i < pairs.len()
            invariant
                i <= pairs@.len(),
                all == pair_views(pairs@),
                views(out@) == head + all.take(i as int).map_values(|p: (Seq<char>, Seq<char>)| form_line(p, kind)),
            decreases pairs@.len() - i,
        {
            let value = chars_of(pairs[i].1.as_str());
            let written = if starts_with_chars(&value, &chars_of("@")) && kind == BodyKind::Multipart {
                proof { reveal_strlit("@"); }
                let mut w = chars_of("@file\u{28}");
                append(&mut w, &slice(&value, 1, value.len()));
                append(&mut w, &chars_of("\u{29}"));
                w
            } else {
                value
            };
            let mut line = chars_of("  ");
            append(&mut line, &chars_of(pairs[i].0.as_str()));
            append(&mut line, &chars_of(": "));
            append(&mut line, &written);
            assert(line@ == form_line(all[i as int], kind));
            push_line(&mut out, line);
            assert(all.take(i + 1).map_values(|p: (Seq<char>, Seq<char>)| form_line(p, kind)) == all.take(i as int).map_values(|p: (Seq<char>, Seq<char>)| form_line(p, kind)).push(form_line(all[i as int], kind)));
            i += 1;
        }
        assert(all.take(pairs@.len() as int) == all);
    } else {
        let body_lines = lines_of(&chars_of(body));
        let ghost all = views(body_lines@);
        let mut i: usize = 0;
        while i < body_lines.len()
            invariant
                i <= body_lines@.len(),
                all == views(body_lines@),
                views(out@) == head + all.take(i as int).map_values(|l: Seq<char>| body_text_line(l)),
            decreases body_lines@.len() - i,
        {
            let line = if body_lines[i].len() == 0 {
                Vec::new()
            } else {
                let mut l = chars_of("  ");
                append(&mut l, &body_lines[i]);
                l
            };
            assert(all[i as int] == body_lines@[i as int]@);
            assert(line@ == body_text_line(all[i as int]));
            push_line(&mut out, line);
            assert(all.take(i + 1).map_values(|l: Seq<char>| body_text_line(l)) == all.take(i as int).map_values(|l: Seq<char>| body_text_line(l)).push(body_text_line(all[i as int])));
            i += 1;
        }
        assert(all.take(body_lines@.len() as int) == all);
    }
    push_line(&mut out, chars_of("\u{7d}"));
    out
}

/// A `.bru` file for a request that has no file yet.
pub fn format(request: &Request, kind: BodyKind) -> (r: String)
    ensures
        r@ == bru_formatted(request.method@, request.url@, request.header_pairs(), request.body@, kind),
{
    let none: Vec<Vec<char>> = Vec::new();
    let url = chars_of(request.url.as_str());
    let mut out = method_block(&none, None, request.method.as_str(), &url, kind, true);
    let ghost opening = views(out@);
    let ghost headers = request.header_pairs();
    assert(views(none@).subrange(0, 0) =~= Seq::<Seq<char>>::empty());
    if request.headers.len() > 0 {
        push_line(&mut out, Vec::new());
        extend_lines(&mut out, headers_block(&request.headers, &none, 0, 0));
        assert(views(out@) == opening + seq![Seq::<char>::empty()] + headers_block_lines(headers, Seq::empty()));
    }
    let ghost with_headers = views(out@);
    if kind != BodyKind::NoBody {
        push_line(&mut out, Vec::new());
        extend_lines(&mut out, body_block(request.body.as_str(), kind));
        assert(views(out@) == with_headers + seq![Seq::<char>::empty()] + body_block_lines(request.body@, kind));
    }
    let mut text = join_chars(&out, &chars_of("\n"));
    append(&mut text, &chars_of("\n"));
    string_of(&text)
}

/// What saving puts in place of the file's blocks: the request's method,
/// URL, headers, body and body kind, and what the file held before.
pub struct UpdateCtx {
    pub method: Seq<char>,
    pub url: Seq<char>,
    pub headers: Seq<(Seq<char>, Seq<char>)>,
    pub body: Seq<char>,
    pub kind: BodyKind,
    pub method_index: Option<int>,
    pub has_headers: bool,
    pub has_body: bool,
    pub headers_changed: bool,
    pub body_changed: bool,
}

/// The first block from `k` on that holds the method.
pub open spec fn first_method_block(blocks: Seq<BlockView>, k: int) -> Option<int>
    decreases blocks.len() - k,
{
    if k < 0 || k >= blocks.len() {
        None
    } else if is_method_block_name(blocks[k].name) {
        Some(k)
    } else {
        first_method_block(blocks, k + 1)
    }
}

/// The body kind a request read from a file has: the one it declares, or
/// the one its headers imply.
pub open spec fn state_body_kind(st: BruState) -> BodyKind {
    match st.kind {
        Some(kind) => kind,
        None => detected(header_value(st.headers, "Content-Type"@), st.body),
    }
}

pub open spec fn update_ctx(
    lines: Seq<Seq<char>>,
    blocks: Seq<BlockView>,
    before: BruState,
    method: Seq<char>,
    url: Seq<char>,
    headers: Seq<(Seq<char>, Seq<char>)>,
    body: Seq<char>,
    kind: BodyKind,
) -> UpdateCtx {
    UpdateCtx {
        method: method,
        url: url,
        headers: headers,
        body: body,
        kind: kind,
        method_index: first_method_block(blocks, 0),
        has_headers: exists|k: int| 0 <= k < blocks.len() && eq_ignore_case(#[trigger] blocks[k].name, "headers"@),
        has_body: exists|k: int| 0 <= k < blocks.len() && starts_with(lower(#[trigger] blocks[k].name), "body:"@),
        headers_changed: before.headers != headers,
        body_changed: state_body_kind(before) != kind || before.body != body,
    }
}

/// The output so far, the line the original is read from next, and
/// whether the body block has been written.
pub struct UpdateState {
    pub out: Seq<Seq<char>>,
    pub cursor: int,
    pub body_written: bool,
}

/// Past one blank line after a removed block, so removing it does not leave
/// two gaps where there was one.
pub open spec fn past_blank(lines: Seq<Seq<char>>, cursor: int) -> int {
    if 0 <= cursor < lines.len() && trim(lines[cursor]).len() == 0 {
        cursor + 1
    } else {
        cursor
    }
}

/// Whether any of the lines is one Bruno has switched off.
pub open spec fn has_disabled(lines: Seq<Seq<char>>) -> bool {
    exists|i: int| 0 <= i < lines.len() && starts_with(trim_start(#[trigger] lines[i]), "~"@)
}

/// What saving does with one block of the original.
pub open spec fn update_block(lines: Seq<Seq<char>>, b: BlockView, is_method: bool, st: UpdateState, ctx: UpdateCtx) -> UpdateState {
    let out = st.out + lines.subrange(st.cursor, b.start);
    let cursor = b.end + 1;
    let verbatim = lines.subrange(b.start, b.end + 1);
    let inner = lines.subrange(b.lo, b.hi);
    let name = lower(b.name);
    if is_method {
        let with_method = out + method_block_lines(Some(inner), ctx.method, ctx.url, ctx.kind, ctx.body_changed);
        let with_headers = if !ctx.has_headers && ctx.headers.len() > 0 {
            with_method + seq![Seq::<char>::empty()] + headers_block_lines(ctx.headers, Seq::empty())
        } else {
            with_method
        };
        if !ctx.has_body && ctx.kind != BodyKind::NoBody {
            UpdateState { out: with_headers + seq![Seq::<char>::empty()] + body_block_lines(ctx.body, ctx.kind), cursor: cursor, body_written: true }
        } else {
            UpdateState { out: with_headers, cursor: cursor, body_written: st.body_written }
        }
    } else if name == "headers"@ {
        if !ctx.headers_changed {
            UpdateState { out: out + verbatim, cursor: cursor, body_written: st.body_written }
        } else if ctx.headers.len() == 0 && !has_disabled(inner) {
            UpdateState { out: out, cursor: past_blank(lines, cursor), body_written: st.body_written }
        } else {
            UpdateState { out: out + headers_block_lines(ctx.headers, inner), cursor: cursor, body_written: st.body_written }
        }
    } else if starts_with(name, "body:"@) {
        if !ctx.body_changed {
            UpdateState { out: out + verbatim, cursor: cursor, body_written: st.body_written }
        } else if !st.body_written && ctx.kind != BodyKind::NoBody {
            UpdateState { out: out + body_block_lines(ctx.body, ctx.kind), cursor: cursor, body_written: true }
        } else {
            UpdateState { out: out, cursor: past_blank(lines, cursor), body_written: st.body_written }
        }
    } else {
        UpdateState { out: out + verbatim, cursor: cursor, body_written: st.body_written }
    }
}

/// Saving's progress after the first `n` blocks.
pub open spec fn update_blocks(lines: Seq<Seq<char>>, blocks: Seq<BlockView>, n: int, start: UpdateState, ctx: UpdateCtx) -> UpdateState
    decreases n,
{
    if n <= 0 {
        start
    } else {
        update_block(lines, blocks[n - 1], ctx.method_index == Some(n - 1), update_blocks(lines, blocks, n - 1, start, ctx), ctx)
    }
}

/// `original` with the request's method, URL, headers and body written into
/// it. Every other block — meta, vars, auth, scripts, docs — is kept as it
/// was, and so is a headers or body block whose content has not changed.
pub open spec fn bru_updated(original: Seq<char>, method: Seq<char>, url: Seq<char>, headers: Seq<(Seq<char>, Seq<char>)>, body: Seq<char>, kind: BodyKind) -> Seq<char> {
    let text = crlf_to_lf(original);
    let lines = split(text, '\n');
    let blocks = blocks_from(lines, 0);
    let ctx = update_ctx(lines, blocks, bru_parsed(text), method, url, headers, body, kind);
    let prefix = if ctx.method_index is None {
        method_block_lines(None, method, url, kind, true) + seq![Seq::<char>::empty()]
    } else {
        Seq::empty()
    };
    let done = update_blocks(lines, blocks, blocks.len() as int, UpdateState { out: prefix, cursor: 0, body_written: false }, ctx);
    let cursor = if done.cursor < lines.len() { done.cursor } else { lines.len() as int };
    join(done.out + lines.subrange(cursor, lines.len() as int), "\n"@)
}

proof fn lemma_opening_line_not_blank(line: Seq<char>)
    requires
        opens_block(line),
    ensures
        trim(line).len() > 0,
{
    reveal_strlit("\u{7b}");
    let t = trim_end(line);
    assert(t.len() >= 1);
    lemma_trim_end_is_prefix(line);
    assert(line.len() > 0);
    assert(!is_space(line[0]));
    assert(trim_start(line) == line);
}

pub(crate) proof fn lemma_trim_end_is_prefix(s: Seq<char>)
    ensures
        trim_end(s).len() <= s.len(),
        trim_end(s) == s.take(trim_end(s).len() as int),
    decreases s.len(),
{
    if s.len() > 0 && is_space(s.last()) {
        lemma_trim_end_is_prefix(s.drop_last());
        assert(s.drop_last().take(trim_end(s).len() as int) == s.take(trim_end(s).len() as int));
    } else {
        assert(s.take(s.len() as int) == s);
    }
}

fn find_method_block(found: &Vec<Block>) -> (r: Option<usize>)
    ensures
        match r {
            Some(k) => first_method_block(block_views(found@), 0) == Some(k as int),
            None => first_method_block(block_views(found@), 0) is None,
        },
{
    let ghost bs = block_views(found@);
    let mut k: usize = 0;
    while k < found.len()
        invariant
            k <= found@.len(),
            bs == block_views(found@),
            first_method_block(bs, 0) == first_method_block(bs, k as int),
        decreases found@.len() - k,
    {
        assert(bs[k as int] == found@[k as int].view_of());
        if is_method_block(&found[k].name) {
            return Some(k);
        }
        k += 1;
    }
    None
}

fn any_named_headers(found: &Vec<Block>) -> (r: bool)
    ensures
        r == exists|k: int| 0 <= k < block_views(found@).len() && eq_ignore_case(#[trigger] block_views(found@)[k].name, "headers"@),
{
    let ghost bs = block_views(found@);
    let mut k: usize = 0;
    while k < found.len()
        invariant
            k <= found@.len(),
            bs == block_views(found@),
            forall|j: int| 0 <= j < k ==> !eq_ignore_case(#[trigger] bs[j].name, "headers"@),
        decreases found@.len() - k,
    {
        assert(bs[k as int] == found@[k as int].view_of());
        if same_ignoring_case(&found[k].name, &chars_of("headers")) {
            assert(eq_ignore_case(bs[k as int].name, "headers"@));
            return true;
        }
        k += 1;
    }
    false
}

fn any_body_block(found: &Vec<Block>) -> (r: bool)
    ensures
        r == exists|k: int| 0 <= k < block_views(found@).len() && starts_with(lower(#[trigger] block_views(found@)[k].name), "body:"@),
{
    let ghost bs = block_views(found@);
    let mut k: usize = 0;
    while k < found.len()
        invariant
            k <= found@.len(),
            bs == block_views(found@),
            forall|j: int| 0 <= j < k ==> !starts_with(lower(#[trigger] bs[j].name), "body:"@),
        decreases found@.len() - k,
    {
        assert(bs[k as int] == found@[k as int].view_of());
        if starts_with_chars(&lower_chars(&found[k].name), &chars_of("body:")) {
            assert(starts_with(lower(bs[k as int].name), "body:"@));
            return true;
        }
        k += 1;
    }
    false
}

fn any_disabled(lines: &Vec<Vec<char>>, lo: usize, hi: usize) -> (r: bool)
    requires
        lo <= hi <= lines@.len(),
    ensures
        r == has_disabled(views(lines@).subrange(lo as int, hi as int)),
{
    let ghost inner = views(lines@).subrange(lo as int, hi as int);
    let mut i = lo;
    while i < hi
        invariant
            lo <= i <= hi <= lines@.len(),
            inner == views(lines@).subrange(lo as int, hi as int),
            forall|j: int| 0 <= j < i - lo ==> !starts_with(trim_start(#[trigger] inner[j]), "~"@),
        decreases hi - i,
    {
        assert(inner[i - lo] == lines@[i as int]@);
        if starts_with_chars(&trim_start_chars(&lines[i]), &chars_of("~")) {
            return true;
        }
        i += 1;
    }
    false
}

fn skip_blank(lines: &Vec<Vec<char>>, cursor: usize) -> (r: usize)
    ensures
        r == past_blank(views(lines@), cursor as int),
{
    if cursor < lines.len() && trim_chars(&lines[cursor]).len() == 0 {
        cursor + 1
    } else {
        cursor
    }
}

/// Saving's treatment of one block of the original: the lines before it are
/// copied, then the block itself is kept, rewritten or dropped.
#[verifier::rlimit(60)]
fn apply_block(
    lines: &Vec<Vec<char>>,
    block: &Block,
    is_method: bool,
    request: &Request,
    url: &Vec<char>,
    kind: BodyKind,
    has_headers: bool,
    has_body: bool,
    headers_changed: bool,
    body_changed: bool,
    out: &mut Vec<Vec<char>>,
    cursor: usize,
    body_written: bool,
    Ghost(ctx): Ghost<UpdateCtx>,
) -> (r: (usize, bool))
    requires
        cursor <= block.start,
        block.lo == block.start + 1,
        block.start < block.hi <= lines@.len(),
        block.start <= block.end < lines@.len(),
        ctx.has_headers == has_headers,
        ctx.has_body == has_body,
        ctx.headers_changed == headers_changed,
        ctx.body_changed == body_changed,
        ctx.url == url@,
        ctx.method == request.method@,
        ctx.headers == request.header_pairs(),
        ctx.body == request.body@,
        ctx.kind == kind,
    ensures
        update_block(views(lines@), block.view_of(), is_method, UpdateState { out: views(old(out)@), cursor: cursor as int, body_written: body_written }, ctx)
            == (UpdateState { out: views(final(out)@), cursor: r.0 as int, body_written: r.1 }),
{
    let ghost all = views(lines@);
    let ghost b = block.view_of();
    extend_lines(out, copy_lines(lines, cursor, block.start));
    let ghost before = views(out@);
    assert(before == views(old(out)@) + all.subrange(cursor as int, b.start));
    let count = lines.len();
    assert(block.end < count);
    let next = block.end + 1;
    let ghost verbatim = all.subrange(b.start, b.end + 1);
    let ghost inner = all.subrange(b.lo, b.hi);
    let name = lower_chars(&block.name);
    if is_method {
        extend_lines(out, method_block(lines, Some((block.lo, block.hi)), request.method.as_str(), url, kind, body_changed));
        let ghost with_method = views(out@);
        assert(with_method == before + method_block_lines(Some(inner), ctx.method, ctx.url, ctx.kind, ctx.body_changed));
        if !has_headers && request.headers.len() > 0 {
            push_line(out, Vec::new());
            let none: Vec<Vec<char>> = Vec::new();
            extend_lines(out, headers_block(&request.headers, &none, 0, 0));
            assert(views(none@).subrange(0, 0) =~= Seq::<Seq<char>>::empty());
            assert(views(out@) == with_method + seq![Seq::<char>::empty()] + headers_block_lines(ctx.headers, Seq::empty()));
        }
        let ghost with_headers = views(out@);
        if !has_body && kind != BodyKind::NoBody {
            push_line(out, Vec::new());
            extend_lines(out, body_block(request.body.as_str(), kind));
            assert(views(out@) == with_headers + seq![Seq::<char>::empty()] + body_block_lines(ctx.body, ctx.kind));
            (next, true)
        } else {
            (next, body_written)
        }
    } else if same(&name, &chars_of("headers")) {
        if !headers_changed {
            extend_lines(out, copy_lines(lines, block.start, next));
            (next, body_written)
        } else if request.headers.len() == 0 && !any_disabled(lines, block.lo, block.hi) {
            (skip_blank(lines, next), body_written)
        } else {
            extend_lines(out, headers_block(&request.headers, lines, block.lo, block.hi));
            (next, body_written)
        }
    } else if starts_with_chars(&name, &chars_of("body:")) {
        if !body_changed {
            extend_lines(out, copy_lines(lines, block.start, next));
            (next, body_written)
        } else if !body_written && kind != BodyKind::NoBody {
            extend_lines(out, body_block(request.body.as_str(), kind));
            (next, true)
        } else {
            (skip_blank(lines, next), body_written)
        }
    } else {
        extend_lines(out, copy_lines(lines, block.start, next));
        (next, body_written)
    }
}

/// `original` with the request's method, URL, headers and body written into
/// it. Every other block — meta, vars, auth, scripts, docs — is kept as it
/// was, and so is a headers or body block whose content has not changed, so
/// saving a request nobody touched leaves the file byte for byte.
pub fn update(original: &str, request: &Request, kind: BodyKind) -> (r: String)
    ensures
        r@ == bru_updated(original@, request.method@, request.url@, request.header_pairs(), request.body@, kind),
{
    let text = crlf_to_lf_chars(&chars_of(original));
    let lines = split_chars(&text, '\n');
    let ghost all = views(lines@);
    let found = blocks(&lines);
    let ghost bs = block_views(found@);
    let before = parse(string_of(&text).as_str());
    let headers_changed = !same_pairs(&before.headers, &request.headers);
    let body_changed = before.body_kind() != kind
        || !same(&chars_of(before.body.as_str()), &chars_of(request.body.as_str()));
    let method_index = find_method_block(&found);
    let has_headers = any_named_headers(&found);
    let has_body = any_body_block(&found);
    let ghost ctx = update_ctx(all, bs, bru_parsed(text@), request.method@, request.url@, request.header_pairs(), request.body@, kind);
    assert(ctx.headers_changed == headers_changed);
    assert(ctx.body_changed == body_changed);
    let url = chars_of(request.url.as_str());
    let mut out: Vec<Vec<char>> = Vec::new();
    if method_index.is_none() {
        extend_lines(&mut out, method_block(&lines, None, request.method.as_str(), &url, kind, true));
        push_line(&mut out, Vec::new());
    }
    assert(views(out@) == (if ctx.method_index is None {
        method_block_lines(None, request.method@, request.url@, kind, true) + seq![Seq::<char>::empty()]
    } else {
        Seq::empty()
    }));
    let ghost start = UpdateState { out: views(out@), cursor: 0, body_written: false };
    let mut cursor: usize = 0;
    let mut body_written = false;
    let mut index: usize = 0;
    while index < found.len()
        invariant
            index <= found@.len(),
            all == views(lines@),
            bs == block_views(found@),
            well_placed(all, bs),
            ctx.method_index == match method_index { Some(m) => Some(m as int), None => None },
            ctx.has_headers == has_headers,
            ctx.has_body == has_body,
            ctx.headers_changed == headers_changed,
            ctx.body_changed == body_changed,
            ctx.url == url@,
            ctx.headers == request.header_pairs(),
            ctx.body == request.body@,
            ctx.kind == kind,
            ctx.method == request.method@,
            cursor <= all.len(),
            index < bs.len() ==> cursor <= bs[index as int].start,
            update_blocks(all, bs, index as int, start, ctx) == (UpdateState { out: views(out@), cursor: cursor as int, body_written: body_written }),
        decreases found@.len() - index,
    {
        let block = &found[index];
        let ghost b = bs[index as int];
        assert(b == block.view_of());
        let is_method = match method_index {
            Some(m) => m == index,
            None => false,
        };
        let (next, written) = apply_block(&lines, block, is_method, request, &url, kind, has_headers, has_body, headers_changed, body_changed, &mut out, cursor, body_written, Ghost(ctx));
        cursor = next;
        body_written = written;
        proof {
            assert(update_blocks(all, bs, index + 1, start, ctx) == update_block(all, b, ctx.method_index == Some(index as int), update_blocks(all, bs, index as int, start, ctx), ctx));
            if index + 1 < bs.len() {
                let nb = bs[index + 1];
                assert(bs[index + 1 - 1].hi + 1 <= nb.start);
                lemma_opening_line_not_blank(all[nb.start]);
            }
        }
        index += 1;
    }
    let tail_start = if cursor < lines.len() { cursor } else { lines.len() };
    extend_lines(&mut out, copy_lines(&lines, tail_start, lines.len()));
    string_of(&join_chars(&out, &chars_of("\n")))
}

/// Every block `blocks_from` finds from `index` on opens at or after it, and
/// together they are well placed.
proof fn lemma_blocks_from_placed(lines: Seq<Seq<char>>, index: int)
    ensures
        well_placed(lines, blocks_from(lines, index)),
        forall|k: int| 0 <= k < blocks_from(lines, index).len() ==> #[trigger] blocks_from(lines, index)[k].start >= index,
    decreases lines.len() - index,
{
    let found = blocks_from(lines, index);
    if index < 0 || index >= lines.len() {
    } else if opens_block(lines[index]) {
        let b = block_at(lines, index);
        if exists|k: int| closes_at(lines, index, k) {
            let k = choose|k: int| closes_at(lines, index, k);
            assert(closes_at(lines, index, k));
        }
        if index < b.hi < lines.len() {
            let rest = blocks_from(lines, b.hi + 1);
            lemma_blocks_from_placed(lines, b.hi + 1);
            assert(found == seq![b] + rest);
            assert forall|k: int| 0 <= k < found.len() implies #[trigger] found[k].start >= index by {
                if k > 0 {
                    assert(found[k] == rest[k - 1]);
                }
            }
            assert forall|k: int| 0 < k < found.len() implies found[k - 1].hi + 1 <= #[trigger] found[k].start by {
                assert(found[k] == rest[k - 1]);
                if k > 1 {
                    assert(found[k - 1] == rest[k - 2]);
                }
            }
            assert forall|k: int| 0 <= k < found.len() implies {
                let c = #[trigger] found[k];
                &&& 0 <= c.start < lines.len()
                &&& opens_block(lines[c.start])
                &&& c.lo == c.start + 1
                &&& c.start < c.hi <= lines.len()
                &&& c.start <= c.end < lines.len()
                &&& (c.hi < lines.len() ==> c.end == c.hi)
                &&& (c.hi == lines.len() ==> c.end == lines.len() - 1)
            } by {
                if k > 0 {
                    assert(found[k] == rest[k - 1]);
                }
            }
        } else {
            assert(found == seq![b]);
        }
    } else {
        lemma_blocks_from_placed(lines, index + 1);
    }
}

/// No block is called `headers`: the file sets no headers.
proof fn lemma_no_headers_block(st: BruState, lines: Seq<Seq<char>>, blocks: Seq<BlockView>)
    requires
        forall|k: int| 0 <= k < blocks.len() ==> lower(#[trigger] blocks[k].name) != "headers"@,
    ensures
        read_blocks(st, lines, blocks).headers == st.headers,
    decreases blocks.len(),
{
    if blocks.len() > 0 {
        let init = blocks.drop_last();
        assert forall|k: int| 0 <= k < init.len() implies lower(#[trigger] init[k].name) != "headers"@ by {
            assert(init[k] == blocks[k]);
        }
        lemma_no_headers_block(st, lines, init);
    }
}

/// Where saving has got to after `n` blocks of a file it keeps as it is.
pub open spec fn kept_through(blocks: Seq<BlockView>, n: int) -> int {
    if n <= 0 { 0 } else { blocks[n - 1].end + 1 }
}

/// Saving a request read from a file, without edits, leaves the file byte
/// for byte. It holds of a file with `\n` line ends whose method block is
/// written the way saving writes one — the method's word and `{`, a `url`
/// line `  url: …`, a closing `}` — and to which saving has nothing to add:
/// no headers without a headers block, no body kind without a body block.
pub proof fn untouched_save_keeps_file(text: Seq<char>)
    requires
        crlf_to_lf(text) == text,
        ({
            let lines = split(text, '\n');
            let blocks = blocks_from(lines, 0);
            let st = bru_parsed(text);
            let kind = state_body_kind(st);
            &&& first_method_block(blocks, 0) matches Some(m)
                && method_block_lines(Some(lines.subrange(blocks[m].lo, blocks[m].hi)), st.method, st.url, kind, false)
                    == lines.subrange(blocks[m].start, blocks[m].end + 1)
            &&& (exists|k: int| 0 <= k < blocks.len() && starts_with(lower(#[trigger] blocks[k].name), "body:"@)) || kind == BodyKind::NoBody
        }),
    ensures
        ({
            let st = bru_parsed(text);
            bru_updated(text, st.method, st.url, st.headers, st.body, state_body_kind(st)) == text
        }),
{
    let lines = split(text, '\n');
    let blocks = blocks_from(lines, 0);
    let st = bru_parsed(text);
    let kind = state_body_kind(st);
    let ctx = update_ctx(lines, blocks, bru_parsed(text), st.method, st.url, st.headers, st.body, kind);
    let m = first_method_block(blocks, 0).unwrap();
    lemma_blocks_from_placed(lines, 0);
    lemma_first_method_in_range(blocks, 0);
    assert(!ctx.headers_changed);
    assert(!ctx.body_changed);
    assert(!ctx.has_headers ==> st.headers.len() == 0) by {
        if !ctx.has_headers {
            assert forall|k: int| 0 <= k < blocks.len() implies lower(#[trigger] blocks[k].name) != "headers"@ by {
                if lower(blocks[k].name) == "headers"@ {
                    assert(eq_ignore_case(blocks[k].name, "headers"@)) by {
                        reveal_strlit("headers");
                        assert(lower("headers"@) =~= "headers"@);
                    }
                }
            }
            lemma_no_headers_block(empty_state(), lines, blocks);
        }
    }
    let start = UpdateState { out: Seq::empty(), cursor: 0, body_written: false };
    assert forall|n: int| 0 <= n <= blocks.len() implies #[trigger] update_blocks(lines, blocks, n, start, ctx)
        == (UpdateState { out: lines.take(kept_through(blocks, n)), cursor: kept_through(blocks, n), body_written: false }) by {
        lemma_kept_through(text, lines, blocks, ctx, start, m, n);
    }
    let n = blocks.len() as int;
    let c = kept_through(blocks, n);
    assert(0 <= c <= lines.len());
    assert(lines.take(c) + lines.subrange(c, lines.len() as int) =~= lines);
    crate::text::lemma_join_split(text, '\n');
    reveal_strlit("\n");
    assert("\n"@ == seq!['\n']);
}

proof fn lemma_first_method_in_range(blocks: Seq<BlockView>, k: int)
    ensures
        first_method_block(blocks, k) matches Some(m) ==> k <= m < blocks.len() && is_method_block_name(blocks[m].name),
    decreases blocks.len() - k,
{
    if 0 <= k < blocks.len() && !is_method_block_name(blocks[k].name) {
        lemma_first_method_in_range(blocks, k + 1);
    }
}

#[verifier::spinoff_prover]
#[verifier::rlimit(40)]
proof fn lemma_kept_through(text: Seq<char>, lines: Seq<Seq<char>>, blocks: Seq<BlockView>, ctx: UpdateCtx, start: UpdateState, m: int, n: int)
    requires
        lines == split(text, '\n'),
        well_placed(lines, blocks),
        0 <= m < blocks.len(),
        ctx.method_index == Some(m),
        !ctx.headers_changed,
        !ctx.body_changed,
        !ctx.has_headers ==> ctx.headers.len() == 0,
        ctx.has_body || ctx.kind == BodyKind::NoBody,
        method_block_lines(Some(lines.subrange(blocks[m].lo, blocks[m].hi)), ctx.method, ctx.url, ctx.kind, false)
            == lines.subrange(blocks[m].start, blocks[m].end + 1),
        start == (UpdateState { out: Seq::empty(), cursor: 0, body_written: false }),
        0 <= n <= blocks.len(),
    ensures
        update_blocks(lines, blocks, n, start, ctx)
            == (UpdateState { out: lines.take(kept_through(blocks, n)), cursor: kept_through(blocks, n), body_written: false }),
    decreases n,
{
    if n == 0 {
        assert(lines.take(0) =~= Seq::<Seq<char>>::empty());
    } else {
        lemma_kept_through(text, lines, blocks, ctx, start, m, n - 1);
        let b = blocks[n - 1];
        let c = kept_through(blocks, n - 1);
        assert(c <= b.start) by {
            if n - 1 > 0 {
                assert(blocks[n - 1 - 1].hi + 1 <= blocks[n - 1].start);
                let a = blocks[n - 2];
                assert(a.hi < lines.len());
            }
        }
        let st = update_blocks(lines, blocks, n - 1, start, ctx);
        let out = st.out + lines.subrange(st.cursor, b.start);
        assert(out =~= lines.take(b.start));
        let verbatim = lines.subrange(b.start, b.end + 1);
        assert(out + verbatim =~= lines.take(b.end + 1));
        if n - 1 == m {
            assert(ctx.method_index == Some(n - 1));
        }
    }
}

} // verus!

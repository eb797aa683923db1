//! A response body as lines to show: JSON re-indented, each piece marked
//! with what it is so it can be coloured, and anything else as it came.
//!
//! JSON is re-indented from its own text rather than parsed and printed again:
//! parsing would reorder the keys, and print `1.0` as `1` and a twenty-digit
//! id as a float. What the server sent is what is shown, with whitespace
//! added and nothing else changed.

use vstd::prelude::*;

use crate::encoding::{json_compact, json_compacted};
use crate::text::{chars_of, is_space, is_space_char, slice, split, split_chars, string_of, strip_cr, trim, trim_chars, views};

verus! {

/// What a piece of a shown line is, which decides its colour.
#[derive(Debug, Clone, Copy, PartialEq, Eq, Structural)]
pub enum Role {
    /// Text shown as it came.
    Text,
    /// The spaces that indent a line.
    Indent,
    Punctuation,
    Key,
    String,
    Bool,
    Null,
    Number,
}

/// A run of text and what it is.
#[derive(Debug, Clone, PartialEq, Eq)]
pub struct Piece {
    pub text: String,
    pub role: Role,
}

/// Beyond this many bytes the body is shown plain. Colouring a few
/// megabytes costs more than it is worth to anyone scrolling through it.
pub const HIGHLIGHT_LIMIT: usize = 4194304;

/// `char::is_control`: the Unicode `Cc` category.
pub open spec fn is_control(c: char) -> bool {
    c <= '\u{1f}' || ('\u{7f}' <= c && c <= '\u{9f}')
}

/// A line with what would break a terminal line made harmless: a tab as
/// four spaces, any other control character as `·`, and the `\r` of a
/// `\r\n` dropped.
pub open spec fn cleaned(line: Seq<char>) -> Seq<char>
    decreases line.len(),
{
    if line.len() == 0 {
        Seq::empty()
    } else {
        let c = line.last();
        let head = cleaned(line.drop_last());
        if c == '\t' {
            head + "    "@
        } else if is_control(c) {
            head.push('\u{b7}')
        } else {
            head.push(c)
        }
    }
}

fn clean(line: &Vec<char>) -> (r: Vec<char>)
    ensures
        r@ == cleaned(strip_cr(line@)),
{
    let n = if line.len() > 0 && line[line.len() - 1] == '\r' { line.len() - 1 } else { line.len() };
    let body = slice(line, 0, n);
    assert(body@ == strip_cr(line@));
    let mut out: Vec<char> = Vec::new();
    let mut i: usize = 0;
    while i < body.len()
        invariant
            i <= body@.len(),
            out@ == cleaned(body@.take(i as int)),
        decreases body@.len() - i,
    {
        let c = body[i];
        proof {
            reveal_strlit("    ");
        }
        assert(body@.take(i + 1).drop_last() == body@.take(i as int));
        assert(body@.take(i + 1).last() == c);
        if c == '\t' {
            out.push(' ');
            out.push(' ');
            out.push(' ');
            out.push(' ');
            assert(out@ =~= cleaned(body@.take(i as int)) + "    "@);
        } else if c <= '\u{1f}' || ('\u{7f}' <= c && c <= '\u{9f}') {
            out.push('\u{b7}');
        } else {
            out.push(c);
        }
        i += 1;
    }
    assert(body@.take(body@.len() as int) == body@);
    out
}

/// The text of each piece of a line.
pub open spec fn texts(line: Seq<Piece>) -> Seq<Seq<char>> {
    line.map_values(|p: Piece| p.text@)
}

/// The text of each piece of each line.
pub open spec fn line_texts(lines: Seq<Vec<Piece>>) -> Seq<Seq<Seq<char>>> {
    lines.map_values(|line: Vec<Piece>| texts(line@))
}

/// The role of each piece of a line.
pub open spec fn roles(line: Seq<Piece>) -> Seq<Role> {
    line.map_values(|p: Piece| p.role)
}

/// Each line of `text` cleaned, as the one piece of its line.
pub open spec fn plain_texts(text: Seq<char>) -> Seq<Seq<Seq<char>>> {
    split(text, '\n').map_values(|line: Seq<char>| seq![cleaned(strip_cr(line))])
}

/// Text a line at a time, each line cleaned, as one piece of text.
pub fn plain(text: &str) -> (r: Vec<Vec<Piece>>)
    ensures
        line_texts(r@) == plain_texts(text@),
        forall|i: int| 0 <= i < r@.len() ==> roles(#[trigger] r@[i]@) == seq![Role::Text],
{
    let pieces = split_chars(&chars_of(text), '\n');
    let ghost all = views(pieces@);
    let mut out: Vec<Vec<Piece>> = Vec::new();
    let mut i: usize = 0;
    while i < pieces.len()
        invariant
            i <= pieces@.len(),
            all == views(pieces@),
            all == split(text@, '\n'),
            out@.len() == i,
            line_texts(out@) == all.take(i as int).map_values(|line: Seq<char>| seq![cleaned(strip_cr(line))]),
            forall|k: int| 0 <= k < out@.len() ==> roles(#[trigger] out@[k]@) == seq![Role::Text],
        decreases pieces@.len() - i,
    {
        let cleaned_line = clean(&pieces[i]);
        assert(pieces@[i as int]@ == all[i as int]);
        let mut line: Vec<Piece> = Vec::new();
        line.push(Piece { text: string_of(&cleaned_line), role: Role::Text });
        assert(texts(line@) =~= seq![cleaned(strip_cr(all[i as int]))]);
        assert(roles(line@) =~= seq![Role::Text]);
        let ghost before = line_texts(out@);
        out.push(line);
        assert(line_texts(out@) =~= before.push(seq![cleaned(strip_cr(all[i as int]))]));
        assert(all.take(i + 1).map_values(|line: Seq<char>| seq![cleaned(strip_cr(line))])
            =~= all.take(i as int).map_values(|line: Seq<char>| seq![cleaned(strip_cr(line))]).push(seq![cleaned(strip_cr(all[i as int]))]));
        i += 1;
    }
    assert(all.take(pieces@.len() as int) =~= all);
    out
}

/// `s` without its whitespace.
pub open spec fn without_space(s: Seq<char>) -> Seq<char>
    decreases s.len(),
{
    if s.len() == 0 {
        Seq::empty()
    } else if is_space(s.last()) {
        without_space(s.drop_last())
    } else {
        without_space(s.drop_last()).push(s.last())
    }
}

proof fn lemma_without_space_append(a: Seq<char>, b: Seq<char>)
    ensures
        without_space(a + b) == without_space(a) + without_space(b),
    decreases b.len(),
{
    if b.len() == 0 {
        assert(a + b =~= a);
        assert(without_space(a) + Seq::<char>::empty() =~= without_space(a));
    } else {
        lemma_without_space_append(a, b.drop_last());
        assert((a + b).drop_last() =~= a + b.drop_last());
        assert((a + b).last() == b.last());
        if !is_space(b.last()) {
            assert(without_space(a) + without_space(b.drop_last()).push(b.last())
                =~= (without_space(a) + without_space(b.drop_last())).push(b.last()));
        }
    }
}

proof fn lemma_all_space(s: Seq<char>)
    requires
        forall|i: int| 0 <= i < s.len() ==> is_space(#[trigger] s[i]),
    ensures
        without_space(s) == Seq::<char>::empty(),
    decreases s.len(),
{
    if s.len() > 0 {
        lemma_all_space(s.drop_last());
    }
}

proof fn lemma_one(c: char)
    ensures
        without_space(seq![c]) == (if is_space(c) { Seq::<char>::empty() } else { seq![c] }),
{
    assert(seq![c].drop_last() =~= Seq::<char>::empty());
    assert(without_space(Seq::<char>::empty()) == Seq::<char>::empty());
    assert(seq![c].last() == c);
    assert(Seq::<char>::empty().push(c) =~= seq![c]);
}

/// A piece as text and role.
pub open spec fn piece_views(line: Seq<Piece>) -> Seq<(Seq<char>, Role)> {
    line.map_values(|p: Piece| (p.text@, p.role))
}

/// Each line's pieces as text and role.
pub open spec fn lines_view(lines: Seq<Vec<Piece>>) -> Seq<Seq<(Seq<char>, Role)>> {
    lines.map_values(|line: Vec<Piece>| piece_views(line@))
}

/// Where re-indenting has got to: the finished lines, the line being built,
/// and how deep in brackets it is.
pub struct Layout {
    pub lines: Seq<Seq<(Seq<char>, Role)>>,
    pub current: Seq<(Seq<char>, Role)>,
    pub depth: usize,
}

/// Two spaces for each level of depth.
pub open spec fn indent_of(depth: usize) -> Seq<char> {
    Seq::new((2 * depth) as nat, |i: int| ' ')
}

/// A piece added to the line being built.
pub open spec fn put(st: Layout, text: Seq<char>, role: Role) -> Layout {
    Layout { current: st.current.push((text, role)), ..st }
}

/// The line being built finished, and a new one started at the depth's
/// indent.
pub open spec fn break_line(st: Layout) -> Layout {
    Layout {
        lines: st.lines.push(st.current),
        current: if st.depth > 0 { seq![(indent_of(st.depth), Role::Indent)] } else { Seq::empty() },
        depth: st.depth,
    }
}

/// Where the run of whitespace from `i` ends.
pub open spec fn space_end(chars: Seq<char>, i: int) -> int
    decreases chars.len() - i,
{
    if 0 <= i < chars.len() && is_space(chars[i]) {
        space_end(chars, i + 1)
    } else {
        i
    }
}

/// Where a bare word from `i` ends: at the first character that ends one.
pub open spec fn word_stop(chars: Seq<char>, i: int) -> int
    decreases chars.len() - i,
{
    if 0 <= i < chars.len() && !ends_word(chars[i]) {
        word_stop(chars, i + 1)
    } else {
        i
    }
}

/// Just past the quote that closes a string whose text goes on from `i`,
/// a backslash escaping what follows it; the end of the text when none does.
pub open spec fn string_close(chars: Seq<char>, i: int) -> int
    decreases chars.len() - i,
{
    if i < 0 || i >= chars.len() {
        chars.len() as int
    } else if chars[i] == '\\' {
        if i + 1 < chars.len() { string_close(chars, i + 2) } else { chars.len() as int }
    } else if chars[i] == '"' {
        i + 1
    } else {
        string_close(chars, i + 1)
    }
}

pub proof fn lemma_space_end(chars: Seq<char>, i: int)
    requires
        0 <= i <= chars.len(),
    ensures
        i <= space_end(chars, i) <= chars.len(),
    decreases chars.len() - i,
{
    if i < chars.len() && is_space(chars[i]) {
        lemma_space_end(chars, i + 1);
    }
}

pub proof fn lemma_word_stop(chars: Seq<char>, i: int)
    requires
        0 <= i <= chars.len(),
    ensures
        i <= word_stop(chars, i) <= chars.len(),
    decreases chars.len() - i,
{
    if i < chars.len() && !ends_word(chars[i]) {
        lemma_word_stop(chars, i + 1);
    }
}

pub proof fn lemma_string_close(chars: Seq<char>, i: int)
    requires
        0 <= i <= chars.len(),
    ensures
        i <= string_close(chars, i) <= chars.len(),
    decreases chars.len() - i,
{
    if i < chars.len() {
        if chars[i] == '\\' {
            if i + 1 < chars.len() {
                lemma_string_close(chars, i + 2);
            }
        } else if chars[i] != '"' {
            lemma_string_close(chars, i + 1);
        }
    }
}

pub open spec fn closing(open: char) -> char {
    if open == '\u{7b}' { '\u{7d}' } else { ']' }
}

/// What a bare word is: `true` and `false` are booleans, `null` is null,
/// anything else is taken for a number.
pub open spec fn word_role(word: Seq<char>) -> Role {
    if word == "true"@ || word == "false"@ {
        Role::Bool
    } else if word == "null"@ {
        Role::Null
    } else {
        Role::Number
    }
}

/// How JSON text from `i` on is laid out, from the state `st`, token by
/// token:
/// - `{` or `[` followed, past whitespace, by its own closer stays one
///   piece, `{}` or `[]`; otherwise it ends the line and the next is
///   indented one level deeper;
/// - `}` or `]` goes on a line of its own, one level shallower;
/// - `,` ends the line;
/// - `:` is written `": "`;
/// - a string is a key when a `:` follows it past whitespace, and a string
///   otherwise;
/// - whitespace between tokens is dropped;
/// - a bare word runs to the next `,`, `}`, `]`, `:` or whitespace, and is
///   a boolean, null or a number as [`word_role`] says.
/// Brackets, commas and colons are punctuation; each indent is a piece of
/// its own, two spaces a level.
pub open spec fn laid(chars: Seq<char>, i: int, st: Layout) -> Layout
    decreases chars.len() - i,
{
    if i < 0 || i >= chars.len() {
        st
    } else {
        let ch = chars[i];
        if ch == '\u{7b}' || ch == '[' {
            proof {
                lemma_space_end(chars, i + 1);
            }
            let next = space_end(chars, i + 1);
            if next < chars.len() && chars[next] == closing(ch) {
                laid(chars, next + 1, put(st, seq![ch, closing(ch)], Role::Punctuation))
            } else {
                let pushed = put(st, seq![ch], Role::Punctuation);
                let deeper = Layout { depth: if pushed.depth < usize::MAX { (pushed.depth + 1) as usize } else { pushed.depth }, ..pushed };
                laid(chars, i + 1, break_line(deeper))
            }
        } else if ch == '\u{7d}' || ch == ']' {
            let shallower = Layout { depth: if st.depth > 0 { (st.depth - 1) as usize } else { 0 }, ..st };
            laid(chars, i + 1, put(break_line(shallower), seq![ch], Role::Punctuation))
        } else if ch == ',' {
            laid(chars, i + 1, break_line(put(st, seq![','], Role::Punctuation)))
        } else if ch == ':' {
            laid(chars, i + 1, put(st, seq![':', ' '], Role::Punctuation))
        } else if ch == '"' {
            proof {
                lemma_string_close(chars, i + 1);
                lemma_space_end(chars, string_close(chars, i + 1));
            }
            let end = string_close(chars, i + 1);
            let after = space_end(chars, end);
            let role = if after < chars.len() && chars[after] == ':' { Role::Key } else { Role::String };
            laid(chars, end, put(st, chars.subrange(i, end), role))
        } else if is_space(ch) {
            laid(chars, i + 1, st)
        } else {
            proof {
                lemma_word_stop(chars, i);
            }
            let stop = word_stop(chars, i);
            let end = if stop == i { i + 1 } else { stop };
            laid(chars, end, put(st, chars.subrange(i, end), word_role(chars.subrange(i, end))))
        }
    }
}

pub open spec fn empty_layout() -> Layout {
    Layout { lines: Seq::empty(), current: Seq::empty(), depth: 0 }
}

/// The lines a JSON text is shown as: laid out token by token, the last
/// line finished when anything is on it.
pub open spec fn laid_out(chars: Seq<char>) -> Seq<Seq<(Seq<char>, Role)>> {
    let st = laid(chars, 0, empty_layout());
    if st.current.len() > 0 { break_line(st).lines } else { st.lines }
}

/// The printer's state: the finished lines, the line being built, and how
/// deep in brackets it is.
struct Printer {
    lines: Vec<Vec<Piece>>,
    current: Vec<Piece>,
    depth: usize,
}

impl Printer {
    spec fn view(&self) -> Layout {
        Layout { lines: lines_view(self.lines@), current: piece_views(self.current@), depth: self.depth }
    }

    fn push(&mut self, text: String, role: Role)
        ensures
            final(self).view() == put(old(self).view(), text@, role),
    {
        let ghost before = piece_views(self.current@);
        let ghost t = text@;
        self.current.push(Piece { text, role });
        assert(piece_views(self.current@) =~= before.push((t, role)));
    }

    fn newline(&mut self)
        ensures
            final(self).view() == break_line(old(self).view()),
    {
        let mut spans: Vec<Piece> = Vec::new();
        std::mem::swap(&mut spans, &mut self.current);
        let ghost before_lines = lines_view(self.lines@);
        let ghost line = piece_views(spans@);
        self.lines.push(spans);
        assert(lines_view(self.lines@) =~= before_lines.push(line));
        assert(piece_views(self.current@) =~= Seq::<(Seq<char>, Role)>::empty());
        if self.depth > 0 {
            let mut indent: Vec<char> = Vec::new();
            let mut k: usize = 0;
            while k < self.depth
                invariant
                    k <= self.depth,
                    indent@.len() == 2 * k,
                    forall|i: int| 0 <= i < indent@.len() ==> #[trigger] indent@[i] == ' ',
                decreases self.depth - k,
            {
                indent.push(' ');
                indent.push(' ');
                k += 1;
            }
            assert(indent@ =~= indent_of(self.depth));
            self.push(string_of(&indent), Role::Indent);
            assert(piece_views(self.current@) =~= seq![(indent_of(self.depth), Role::Indent)]);
        }
    }
}

/// Where the run of whitespace from `index` ends.
fn skip_space(chars: &Vec<char>, index: usize) -> (r: usize)
    requires
        index <= chars@.len(),
    ensures
        r == space_end(chars@, index as int),
        index <= r <= chars@.len(),
        forall|i: int| index <= i < r ==> is_space(#[trigger] chars@[i]),
        r < chars@.len() ==> !is_space(chars@[r as int]),
{
    let mut at = index;
    while at < chars.len() && is_space_char(chars[at])
        invariant
            index <= at <= chars@.len(),
            forall|i: int| index <= i < at ==> is_space(#[trigger] chars@[i]),
            space_end(chars@, index as int) == space_end(chars@, at as int),
        decreases chars@.len() - at,
    {
        at += 1;
    }
    at
}

/// Just past the closing quote of the string that opens at `start`, or
/// the end of the text for one that never closes.
fn string_end(chars: &Vec<char>, start: usize) -> (r: usize)
    requires
        start < chars@.len(),
    ensures
        r == string_close(chars@, start + 1),
        start < r <= chars@.len(),
{
    let n = chars.len();
    let mut index = start + 1;
    proof {
        lemma_string_close(chars@, start + 1);
    }
    while index < n
        invariant
            n == chars@.len(),
            start < index <= n,
            string_close(chars@, start + 1) == string_close(chars@, index as int),
        decreases n - index,
    {
        if chars[index] == '\\' {
            if index + 1 < n {
                index += 2;
            } else {
                index = n;
            }
        } else if chars[index] == '"' {
            return index + 1;
        } else {
            index += 1;
        }
    }
    n
}

/// A character that ends a bare word: `,`, `}`, `]`, `:` or whitespace.
pub open spec fn ends_word(c: char) -> bool {
    c == ',' || c == '}' || c == ']' || c == ':' || is_space(c)
}

/// Where a bare word (a number, `true`, `false` or `null`) ends: at the
/// first character from `start` on that ends one, or at the end of the text.
fn word_end(chars: &Vec<char>, start: usize) -> (r: usize)
    requires
        start < chars@.len(),
    ensures
        r == word_stop(chars@, start as int),
        start <= r <= chars@.len(),
        forall|i: int| start <= i < r ==> !ends_word(#[trigger] chars@[i]),
        r < chars@.len() ==> ends_word(chars@[r as int]),
{
    let mut at = start;
    while at < chars.len() && !(chars[at] == ',' || chars[at] == '}' || chars[at] == ']' || chars[at] == ':' || is_space_char(chars[at]))
        invariant
            start <= at <= chars@.len(),
            forall|i: int| start <= i < at ==> !ends_word(#[trigger] chars@[i]),
            word_stop(chars@, start as int) == word_stop(chars@, at as int),
        decreases chars@.len() - at,
    {
        at += 1;
    }
    at
}

/// A string of one character.
fn one(c: char) -> (r: String)
    ensures
        r@ == seq![c],
{
    let mut s = String::new();
    crate::text::push_char(&mut s, c);
    assert(s@ =~= seq![c]);
    s
}

/// A JSON text re-indented and marked for colour: see [`laid_out`].
fn print(chars: &Vec<char>) -> (r: Vec<Vec<Piece>>)
    ensures
        lines_view(r@) == laid_out(chars@),
{
    let mut printer = Printer { lines: Vec::new(), current: Vec::new(), depth: 0 };
    let mut index: usize = 0;
    proof {
        assert(lines_view(printer.lines@) =~= Seq::<Seq<(Seq<char>, Role)>>::empty());
        assert(piece_views(printer.current@) =~= Seq::<(Seq<char>, Role)>::empty());
        assert(printer.view() == empty_layout());
        reveal_strlit("true");
        reveal_strlit("false");
        reveal_strlit("null");
    }
    let ghost whole = laid(chars@, 0, empty_layout());
    while index < chars.len()
        invariant
            index <= chars@.len(),
            whole == laid(chars@, 0, empty_layout()),
            whole == laid(chars@, index as int, printer.view()),
        decreases chars@.len() - index,
    {
        let ch = chars[index];
        let ghost st = printer.view();
        if ch == '{' || ch == '[' {
            let close = if ch == '{' { '}' } else { ']' };
            let next = skip_space(chars, index + 1);
            if next < chars.len() && chars[next] == close {
                let mut pair = one(ch);
                crate::text::push_char(&mut pair, close);
                assert(pair@ =~= seq![ch, closing(ch)]);
                printer.push(pair, Role::Punctuation);
                index = next + 1;
                continue;
            }
            printer.push(one(ch), Role::Punctuation);
            printer.depth = if printer.depth < usize::MAX { printer.depth + 1 } else { printer.depth };
            printer.newline();
        } else if ch == '}' || ch == ']' {
            printer.depth = if printer.depth > 0 { printer.depth - 1 } else { 0 };
            printer.newline();
            printer.push(one(ch), Role::Punctuation);
        } else if ch == ',' {
            printer.push(one(','), Role::Punctuation);
            printer.newline();
        } else if ch == ':' {
            let mut colon = one(':');
            crate::text::push_char(&mut colon, ' ');
            assert(colon@ =~= seq![':', ' ']);
            printer.push(colon, Role::Punctuation);
        } else if ch == '"' {
            let end = string_end(chars, index);
            let literal = slice(chars, index, end);
            let after = skip_space(chars, end);
            let is_key = after < chars.len() && chars[after] == ':';
            printer.push(string_of(&literal), if is_key { Role::Key } else { Role::String });
            index = end;
            continue;
        } else if is_space_char(ch) {
        } else {
            let stop = word_end(chars, index);
            let end = if stop == index { index + 1 } else { stop };
            let word = slice(chars, index, end);
            let role = if same_text(&word, "true") || same_text(&word, "false") {
                Role::Bool
            } else if same_text(&word, "null") {
                Role::Null
            } else {
                Role::Number
            };
            assert(role == word_role(word@));
            printer.push(string_of(&word), role);
            index = end;
            continue;
        }
        index += 1;
    }
    if printer.current.len() > 0 {
        printer.newline();
    }
    printer.lines
}

/// The text of a line's pieces, run together.
pub open spec fn line_text(line: Seq<(Seq<char>, Role)>) -> Seq<char>
    decreases line.len(),
{
    if line.len() == 0 {
        Seq::empty()
    } else {
        line_text(line.drop_last()) + line.last().0
    }
}

/// Everything the lines show, line after line.
pub open spec fn lines_text(lines: Seq<Seq<(Seq<char>, Role)>>) -> Seq<char>
    decreases lines.len(),
{
    if lines.len() == 0 {
        Seq::empty()
    } else {
        lines_text(lines.drop_last()) + line_text(lines.last())
    }
}

/// What a layout shows so far, the line being built last.
pub open spec fn layout_text(st: Layout) -> Seq<char> {
    lines_text(st.lines) + line_text(st.current)
}

proof fn lemma_put_text(st: Layout, text: Seq<char>, role: Role)
    ensures
        without_space(layout_text(put(st, text, role))) == without_space(layout_text(st)) + without_space(text),
{
    let after = put(st, text, role);
    assert(after.current.drop_last() == st.current);
    assert(layout_text(after) =~= layout_text(st) + text);
    lemma_without_space_append(layout_text(st), text);
}

proof fn lemma_break_text(st: Layout)
    ensures
        without_space(layout_text(break_line(st))) == without_space(layout_text(st)),
{
    let after = break_line(st);
    assert(after.lines.drop_last() == st.lines);
    let done = lines_text(after.lines);
    assert(done == lines_text(st.lines) + line_text(st.current));
    if st.depth > 0 {
        let indent = indent_of(st.depth);
        let cur = seq![(indent, Role::Indent)];
        assert(cur.drop_last() =~= Seq::<(Seq<char>, Role)>::empty());
        assert(cur.last().0 == indent);
        assert(line_text(cur.drop_last()) == Seq::<char>::empty());
        assert(line_text(cur) == Seq::<char>::empty() + indent);
        assert(line_text(cur) =~= indent);
        assert forall|i: int| 0 <= i < indent.len() implies is_space(#[trigger] indent[i]) by {}
        lemma_all_space(indent);
        lemma_without_space_append(done, indent);
        assert(without_space(done) + Seq::<char>::empty() =~= without_space(done));
    } else {
        assert(line_text(after.current) == Seq::<char>::empty());
        assert(done + Seq::<char>::empty() =~= done);
    }
}

proof fn lemma_space_run(chars: Seq<char>, i: int)
    requires
        0 <= i <= chars.len(),
    ensures
        without_space(chars.subrange(i, space_end(chars, i))) == Seq::<char>::empty(),
    decreases chars.len() - i,
{
    lemma_space_end(chars, i);
    let gap = chars.subrange(i, space_end(chars, i));
    assert forall|k: int| 0 <= k < gap.len() implies is_space(#[trigger] gap[k]) by {
        lemma_spaces_before(chars, i, i + k);
    }
    lemma_all_space(gap);
}

proof fn lemma_spaces_before(chars: Seq<char>, i: int, k: int)
    requires
        0 <= i <= k < space_end(chars, i),
    ensures
        is_space(chars[k]),
    decreases k - i,
{
    if k > i {
        lemma_spaces_before(chars, i + 1, k);
    }
}

/// Laying out JSON text drops and adds whitespace and changes nothing
/// else: every other character is shown, in order.
proof fn lemma_laid_keeps_text(chars: Seq<char>, i: int, st: Layout)
    requires
        0 <= i <= chars.len(),
    ensures
        without_space(layout_text(laid(chars, i, st))) == without_space(layout_text(st)) + without_space(chars.skip(i)),
    decreases chars.len() - i,
{
    if i == chars.len() {
        assert(chars.skip(i) =~= Seq::<char>::empty());
        assert(without_space(layout_text(st)) + Seq::<char>::empty() =~= without_space(layout_text(st)));
    } else {
        let ch = chars[i];
        let before = without_space(layout_text(st));
        assert(chars.skip(i) =~= seq![ch] + chars.skip(i + 1));
        lemma_without_space_append(seq![ch], chars.skip(i + 1));
        lemma_one(ch);
        if ch == '\u{7b}' || ch == '[' {
            lemma_space_end(chars, i + 1);
            let next = space_end(chars, i + 1);
            if next < chars.len() && chars[next] == closing(ch) {
                let pushed = put(st, seq![ch, closing(ch)], Role::Punctuation);
                lemma_laid_keeps_text(chars, next + 1, pushed);
                lemma_put_text(st, seq![ch, closing(ch)], Role::Punctuation);
                lemma_space_run(chars, i + 1);
                let gap = chars.subrange(i + 1, next);
                assert(chars.skip(i + 1) =~= gap + seq![closing(ch)] + chars.skip(next + 1));
                lemma_without_space_append(gap + seq![closing(ch)], chars.skip(next + 1));
                lemma_without_space_append(gap, seq![closing(ch)]);
                lemma_one(closing(ch));
                assert(seq![ch, closing(ch)] =~= seq![ch] + seq![closing(ch)]);
                lemma_without_space_append(seq![ch], seq![closing(ch)]);
                assert(Seq::<char>::empty() + seq![closing(ch)] =~= seq![closing(ch)]);
            } else {
                let pushed = put(st, seq![ch], Role::Punctuation);
                let deeper = Layout { depth: if pushed.depth < usize::MAX { (pushed.depth + 1) as usize } else { pushed.depth }, ..pushed };
                lemma_laid_keeps_text(chars, i + 1, break_line(deeper));
                lemma_put_text(st, seq![ch], Role::Punctuation);
                assert(layout_text(deeper) == layout_text(pushed));
                lemma_break_text(deeper);
            }
        } else if ch == '\u{7d}' || ch == ']' {
            let shallower = Layout { depth: if st.depth > 0 { (st.depth - 1) as usize } else { 0 }, ..st };
            lemma_laid_keeps_text(chars, i + 1, put(break_line(shallower), seq![ch], Role::Punctuation));
            assert(layout_text(shallower) == layout_text(st));
            lemma_break_text(shallower);
            lemma_put_text(break_line(shallower), seq![ch], Role::Punctuation);
        } else if ch == ',' {
            lemma_laid_keeps_text(chars, i + 1, break_line(put(st, seq![','], Role::Punctuation)));
            lemma_put_text(st, seq![','], Role::Punctuation);
            lemma_break_text(put(st, seq![','], Role::Punctuation));
        } else if ch == ':' {
            lemma_laid_keeps_text(chars, i + 1, put(st, seq![':', ' '], Role::Punctuation));
            lemma_put_text(st, seq![':', ' '], Role::Punctuation);
            assert(seq![':', ' '] =~= seq![':'] + seq![' ']);
            lemma_without_space_append(seq![':'], seq![' ']);
            lemma_one(' ');
            assert(seq![':'] + Seq::<char>::empty() =~= seq![':']);
        } else if ch == '"' {
            lemma_string_close(chars, i + 1);
            lemma_space_end(chars, string_close(chars, i + 1));
            let end = string_close(chars, i + 1);
            let after = space_end(chars, end);
            let role = if after < chars.len() && chars[after] == ':' { Role::Key } else { Role::String };
            lemma_laid_keeps_text(chars, end, put(st, chars.subrange(i, end), role));
            lemma_put_text(st, chars.subrange(i, end), role);
            assert(chars.skip(i) =~= chars.subrange(i, end) + chars.skip(end));
            lemma_without_space_append(chars.subrange(i, end), chars.skip(end));
        } else if is_space(ch) {
            lemma_laid_keeps_text(chars, i + 1, st);
            assert(Seq::<char>::empty() + without_space(chars.skip(i + 1)) =~= without_space(chars.skip(i + 1)));
        } else {
            lemma_word_stop(chars, i);
            let stop = word_stop(chars, i);
            let end = if stop == i { i + 1 } else { stop };
            let word = chars.subrange(i, end);
            lemma_laid_keeps_text(chars, end, put(st, word, word_role(word)));
            lemma_put_text(st, word, word_role(word));
            assert(chars.skip(i) =~= word + chars.skip(end));
            lemma_without_space_append(word, chars.skip(end));
        }
    }
}

/// JSON is shown with whitespace added or dropped and nothing else
/// changed: every other character of the text, in order, and no more.
pub proof fn layout_keeps_text(chars: Seq<char>)
    ensures
        without_space(lines_text(laid_out(chars))) == without_space(chars),
{
    let st = laid(chars, 0, empty_layout());
    lemma_laid_keeps_text(chars, 0, empty_layout());
    assert(empty_layout().lines.len() == 0 && empty_layout().current.len() == 0);
    assert(layout_text(empty_layout()) =~= Seq::<char>::empty());
    assert(chars.skip(0) =~= chars);
    assert(Seq::<char>::empty() + without_space(chars) =~= without_space(chars));
    if st.current.len() > 0 {
        lemma_break_text(st);
        let done = break_line(st);
        lemma_break_current(st);
        assert(layout_text(done) == lines_text(done.lines) + line_text(done.current));
        assert(without_space(layout_text(done)) == without_space(lines_text(done.lines)) + without_space(line_text(done.current))) by {
            lemma_without_space_append(lines_text(done.lines), line_text(done.current));
        }
        assert(without_space(lines_text(done.lines)) + Seq::<char>::empty() =~= without_space(lines_text(done.lines)));
    } else {
        assert(st.current =~= Seq::<(Seq<char>, Role)>::empty());
        assert(layout_text(st) =~= lines_text(st.lines));
    }
}

proof fn lemma_break_current(st: Layout)
    ensures
        without_space(line_text(break_line(st).current)) == Seq::<char>::empty(),
{
    let cur = break_line(st).current;
    if st.depth > 0 {
        let indent = indent_of(st.depth);
        assert(cur.drop_last() =~= Seq::<(Seq<char>, Role)>::empty());
        assert(cur.last().0 == indent);
        assert(line_text(cur.drop_last()) == Seq::<char>::empty());
        assert(line_text(cur) == Seq::<char>::empty() + indent);
        assert(line_text(cur) =~= indent);
        assert forall|i: int| 0 <= i < indent.len() implies is_space(#[trigger] indent[i]) by {}
        lemma_all_space(indent);
    } else {
        assert(line_text(cur) == Seq::<char>::empty());
    }
}

fn same_text(word: &Vec<char>, text: &str) -> (r: bool)
    ensures
        r == (word@ == text@),
{
    crate::text::same(word, &chars_of(text))
}

/// Whether the body is shown as JSON: small enough, an object or array
/// once trimmed, and JSON by `serde_json`.
pub open spec fn shown_as_json(text: &str) -> bool {
    let t = trim(text@);
    &&& text.len() <= HIGHLIGHT_LIMIT
    &&& t.len() > 0
    &&& (t[0] == '\u{7b}' || t[0] == '[')
    &&& json_compacted(t) is Some
}

/// The body as lines to show: JSON re-indented and marked for colour when
/// it is JSON and small enough, otherwise each line as it came, cleaned.
pub fn render(text: &str) -> (r: Vec<Vec<Piece>>)
    ensures
        shown_as_json(text) ==> lines_view(r@) == laid_out(trim(text@)),
        !shown_as_json(text) ==> line_texts(r@) == plain_texts(text@),
{
    let chars = chars_of(text);
    let trimmed = trim_chars(&chars);
    let small = text.len() <= HIGHLIGHT_LIMIT;
    if small && trimmed.len() > 0 && (trimmed[0] == '{' || trimmed[0] == '[') {
        let candidate = string_of(&trimmed);
        if json_compact(candidate.as_str()).is_some() {
            return print(&trimmed);
        }
    }
    plain(text)
}

} // verus!

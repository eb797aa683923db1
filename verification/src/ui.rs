//! The arithmetic of drawing: scrolling a list to keep its selection in
//! view, how many rows a wrapped line takes, and text cut or padded to a
//! number of columns.

use vstd::prelude::*;

use crate::text::chars_of;
use crate::width::{fitting, fitting_end, str_width, text_columns};

verus! {

/// Keeps `selected` inside a window of `height` rows, adjusting `offset` by
/// the least amount that works.
pub fn scroll_offset(offset: usize, selected: usize, height: usize) -> (r: usize)
    ensures
        height == 0 ==> r == 0,
        height > 0 ==> r <= selected < r + height,
        height > 0 && offset <= selected < offset + height ==> r == offset,
        height > 0 && selected < offset ==> r == selected,
        height > 0 && selected >= offset + height ==> r == selected + 1 - height,
{
    if height == 0 {
        return 0;
    }
    if selected < offset {
        selected
    } else if selected - offset >= height {
        selected - height + 1
    } else {
        offset
    }
}

/// How many rows a line of `line_width` columns takes when wrapped to
/// `width`: at least one, and as many as it fills.
pub fn rows_for(line_width: usize, width: usize) -> (r: usize)
    ensures
        width == 0 || line_width == 0 ==> r == 1,
        width > 0 && line_width > 0 ==> (r - 1) * width < line_width <= r * width,
{
    if width == 0 || line_width == 0 {
        1
    } else {
        let q = line_width / width;
        assert(line_width % width != 0 ==> q < line_width) by (nonlinear_arith)
            requires
                width > 0,
                q == line_width / width;
        let r = if line_width % width == 0 { q } else { q + 1 };
        assert((r - 1) * width < line_width <= r * width) by (nonlinear_arith)
            requires
                width > 0,
                line_width > 0,
                q == line_width / width,
                r == if line_width % width == 0 { q as int } else { q + 1 };
        r
    }
}

/// `text` cut to `width` columns, as [`truncate`] cuts it.
pub open spec fn truncated(text: Seq<char>, width: nat) -> Seq<char> {
    if text_columns(text) <= width {
        text
    } else if width <= 1 {
        seq!['\u{2026}']
    } else {
        text.take(fitting_end(text, 0, 0, (width - 1) as nat)).push('\u{2026}')
    }
}

/// Cuts a string to `width` display columns, marking that it was cut with
/// `…`, which takes the last column.
pub fn truncate(text: &str, width: usize) -> (r: String)
    ensures
        r@ == truncated(text@, width as nat),
{
    if str_width(text) <= width {
        return text.to_string();
    }
    let mut out = String::new();
    if width <= 1 {
        crate::text::push_char(&mut out, '\u{2026}');
        assert(out@ =~= seq!['\u{2026}']);
        return out;
    }
    let chars = chars_of(text);
    let end = fitting(&chars, 0, 0, width - 1);
    let mut i: usize = 0;
    while i < end
        invariant
            end <= chars@.len(),
            i <= end,
            out@ == chars@.take(i as int),
        decreases end - i,
    {
        crate::text::push_char(&mut out, chars[i]);
        assert(chars@.take(i + 1) =~= chars@.take(i as int).push(chars@[i as int]));
        i += 1;
    }
    crate::text::push_char(&mut out, '\u{2026}');
    out
}

/// `n` spaces.
pub open spec fn spaces(n: nat) -> Seq<char> {
    Seq::new(n, |i: int| ' ')
}

/// `text` followed by the spaces that bring it to `width` columns, or as it
/// is when it already takes that many.
pub fn pad(text: &str, width: usize) -> (r: String)
    ensures
        r@ == text@ + spaces(if text_columns(text@) < width { (width - text_columns(text@)) as nat } else { 0 }),
{
    let used = str_width(text);
    let n = if used < width { width - used } else { 0 };
    let mut out = text.to_string();
    let mut k: usize = 0;
    while k < n
        invariant
            k <= n,
            out@ == text@ + spaces(k as nat),
        decreases n - k,
    {
        crate::text::push_char(&mut out, ' ');
        assert(spaces((k + 1) as nat) =~= spaces(k as nat).push(' '));
        assert(text@ + spaces((k + 1) as nat) =~= (text@ + spaces(k as nat)).push(' '));
        k += 1;
    }
    out
}

/// How many characters of a secret's value are shown.
pub const SHOWN: usize = 5;

/// A value as the tables show it: a secret-bearing name's value past its
/// first five characters as `•`, one per character, so two can be told
/// apart without either being read over a shoulder; any other as it is.
pub open spec fn masked_text(name: Seq<char>, value: Seq<char>) -> Seq<char> {
    if !crate::auth::secret_field(name) || value.len() <= SHOWN {
        value
    } else {
        value.take(SHOWN as int) + Seq::new((value.len() - SHOWN) as nat, |i: int| '\u{2022}')
    }
}

pub fn masked(name: &str, value: &str) -> (r: String)
    ensures
        r@ == masked_text(name@, value@),
{
    let chars = chars_of(value);
    if !crate::auth::is_secret(name) || chars.len() <= SHOWN {
        return value.to_string();
    }
    let mut out = crate::text::slice(&chars, 0, SHOWN);
    let mut i: usize = SHOWN;
    while i < chars.len()
        invariant
            SHOWN <= i <= chars@.len(),
            chars@ == value@,
            out@ == value@.take(SHOWN as int) + Seq::new((i - SHOWN) as nat, |j: int| '\u{2022}'),
        decreases chars@.len() - i,
    {
        out.push('\u{2022}');
        assert(out@ == value@.take(SHOWN as int) + Seq::new((i + 1 - SHOWN) as nat, |j: int| '\u{2022}'));
        i += 1;
    }
    crate::text::string_of(&out)
}

} // verus!

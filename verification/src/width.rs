//! How many terminal columns text takes, as `unicode-width` measures it.

use vstd::prelude::*;
use unicode_width::{UnicodeWidthChar, UnicodeWidthStr};

verus! {

/// The columns `UnicodeWidthChar::width` gives `c`; `None` for a control
/// character.
pub uninterp spec fn char_columns(c: char) -> Option<usize>;

/// The columns `UnicodeWidthStr::width` gives a text. It is the sum of its
/// characters' widths except where the crate joins characters into one
/// cell (emoji sequences, `\r\n`, some ligatures).
pub uninterp spec fn text_columns(text: Seq<char>) -> nat;

/// `UnicodeWidthChar::width(c)`. The crate answers printable ASCII with one
/// column and the C0 and C1 controls with `None` before it looks anything
/// up, and everything else comes from a table of `u8` widths.
#[verifier::external_body]
pub(crate) fn char_width(c: char) -> (r: Option<usize>)
    ensures
        r == char_columns(c),
        ' ' <= c && c < '\u{7f}' ==> r == Some(1usize),
        c < ' ' || ('\u{7f}' <= c && c < '\u{a0}') ==> r is None,
        r matches Some(w) ==> w <= 255,
{
    UnicodeWidthChar::width(c)
}

/// `UnicodeWidthStr::width(text)`. Text of printable ASCII alone is one
/// column a character: none of the crate's joined sequences is made of it.
#[verifier::external_body]
pub(crate) fn str_width(text: &str) -> (r: usize)
    ensures
        r == text_columns(text@),
        (forall|i: int| 0 <= i < text@.len() ==> ' ' <= #[trigger] text@[i] && text@[i] < '\u{7f}')
            ==> r == text@.len(),
{
    UnicodeWidthStr::width(text)
}

/// A character's columns, with a control character taking none.
pub open spec fn columns(c: char) -> nat {
    match char_columns(c) {
        Some(w) => w as nat,
        None => 0,
    }
}

/// The columns of each character of `s`, added up.
pub open spec fn columns_of(s: Seq<char>) -> nat
    decreases s.len(),
{
    if s.len() == 0 {
        0
    } else {
        columns_of(s.drop_last()) + columns(s.last())
    }
}

/// From `at`, with `used` columns already taken, where the characters that
/// still fit within `limit` columns end.
pub open spec fn fitting_end(s: Seq<char>, at: int, used: nat, limit: nat) -> int
    decreases s.len() - at,
{
    if at < 0 || at >= s.len() {
        at
    } else if used + columns(s[at]) > limit {
        at
    } else {
        fitting_end(s, at + 1, used + columns(s[at]), limit)
    }
}

pub proof fn lemma_fitting_end_bounds(s: Seq<char>, at: int, used: nat, limit: nat)
    requires
        0 <= at <= s.len(),
    ensures
        at <= fitting_end(s, at, used, limit) <= s.len(),
    decreases s.len() - at,
{
    if at < s.len() && used + columns(s[at]) <= limit {
        lemma_fitting_end_bounds(s, at + 1, used + columns(s[at]), limit);
    }
}

/// One character's columns, as the drawing code counts them.
pub(crate) fn columns_exec(c: char) -> (r: usize)
    ensures
        r == columns(c),
        r <= 255,
{
    match char_width(c) {
        Some(w) => w,
        None => 0,
    }
}

/// Where the characters from `at` that fit within `limit` columns end,
/// `used` columns being taken already.
pub(crate) fn fitting(chars: &Vec<char>, at: usize, used: usize, limit: usize) -> (r: usize)
    requires
        at <= chars@.len(),
        used <= limit,
    ensures
        r as int == fitting_end(chars@, at as int, used as nat, limit as nat),
        at <= r <= chars@.len(),
{
    let mut i = at;
    let mut taken = used;
    proof {
        lemma_fitting_end_bounds(chars@, at as int, used as nat, limit as nat);
    }
    while i < chars.len()
        invariant
            at <= i <= chars@.len(),
            taken <= limit,
            fitting_end(chars@, i as int, taken as nat, limit as nat) == fitting_end(chars@, at as int, used as nat, limit as nat),
        decreases chars@.len() - i,
    {
        let w = columns_exec(chars[i]);
        if w > limit - taken {
            return i;
        }
        taken = taken + w;
        i += 1;
    }
    i
}

} // verus!

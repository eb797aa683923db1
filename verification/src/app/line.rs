//! One line of editable text with a cursor: the URL, a header being typed, a
//! path to save to.

use vstd::prelude::*;
use crate::text::{chars_of, string_of, slice, concat};
use crate::width::{columns, columns_exec, columns_of, fitting, fitting_end};

verus! {

/// An editing key, as far as a line of text cares: what the terminal sent,
/// with the modifiers that change its meaning.
#[derive(Debug, Clone, Copy, PartialEq, Eq)]
pub enum Key {
    Char { ch: char, ctrl: bool, alt: bool },
    Backspace,
    Delete,
    Left,
    Right,
    Home,
    End,
    Other,
}

/// Pasted text as it lands on one line: a `\` that ends a line is a shell
/// continuation and goes with the break, and each break, `\r\n`, `\n` or
/// `\r`, becomes one space.
pub open spec fn one_line(s: Seq<char>) -> Seq<char>
    decreases s.len(),
{
    if s.len() == 0 {
        s
    } else if s.len() >= 3 && s[0] == '\\' && s[1] == '\r' && s[2] == '\n' {
        seq![' '] + one_line(s.skip(3))
    } else if s.len() >= 2 && s[0] == '\\' && s[1] == '\n' {
        seq![' '] + one_line(s.skip(2))
    } else if s.len() >= 2 && s[0] == '\r' && s[1] == '\n' {
        seq![' '] + one_line(s.skip(2))
    } else if s[0] == '\n' || s[0] == '\r' {
        seq![' '] + one_line(s.skip(1))
    } else {
        seq![s[0]] + one_line(s.skip(1))
    }
}

/// The first character to show of `s` so that the cursor at `cursor`
/// stays inside `width` columns, trying each start from `start` on: the
/// characters from it to the cursor and the cursor's own cell fit.
pub open spec fn first_shown(s: Seq<char>, cursor: int, width: nat, start: int) -> int
    decreases cursor - start,
{
    if start >= cursor {
        start
    } else if columns_of(s.subrange(start, cursor)) + 1 <= width {
        start
    } else {
        first_shown(s, cursor, width, start + 1)
    }
}

/// Where a click `column` columns into the text, as drawn from its
/// `start`th character, puts the cursor.
pub open spec fn placed(s: Seq<char>, start: int, column: nat) -> int {
    if start >= s.len() {
        s.len() as int
    } else {
        fitting_end(s, start, 0, column)
    }
}

/// The columns the characters of `chars` from `lo` to `hi` take.
fn columns_between(chars: &Vec<char>, lo: usize, hi: usize) -> (r: u128)
    requires
        lo <= hi <= chars@.len(),
    ensures
        r == columns_of(chars@.subrange(lo as int, hi as int)),
        r <= 255 * (hi - lo),
{
    let mut total: u128 = 0;
    let mut i = lo;
    assert(chars@.subrange(lo as int, lo as int) =~= Seq::<char>::empty());
    while i < hi
        invariant
            lo <= i <= hi <= chars@.len(),
            total == columns_of(chars@.subrange(lo as int, i as int)),
            total <= 255 * (i - lo),
        decreases hi - i,
    {
        let w = columns_exec(chars[i]);
        assert(chars@.subrange(lo as int, i + 1).drop_last() =~= chars@.subrange(lo as int, i as int));
        assert(chars@.subrange(lo as int, i + 1).last() == chars@[i as int]);
        total = total + w as u128;
        i += 1;
    }
    total
}

#[derive(Debug, PartialEq, Eq)]
pub struct LineInput {
    text: String,
    /// In characters, not bytes, so a multibyte character is one step.
    cursor: usize,
}

impl LineInput {
    #[verifier::type_invariant]
    spec fn cursor_inside(&self) -> bool {
        self.cursor <= self.text@.len()
    }

    /// The text, character by character.
    pub closed spec fn chars(&self) -> Seq<char> {
        self.text@
    }

    /// Where the cursor stands, in characters from the start.
    pub closed spec fn at(&self) -> int {
        self.cursor as int
    }

    fn from_parts(chars: &Vec<char>, cursor: usize) -> (r: LineInput)
        requires
            cursor <= chars@.len(),
        ensures
            r.chars() == chars@,
            r.at() == cursor,
    {
        LineInput { text: string_of(chars), cursor }
    }

    /// `text`, with the cursor at its end.
    pub fn new(text: &str) -> (r: LineInput)
        ensures
            r.chars() == text@,
            r.at() == text@.len(),
    {
        let chars = chars_of(text);
        LineInput::from_parts(&chars, chars.len())
    }

    pub fn text(&self) -> (r: &str)
        ensures
            r@ == self.chars(),
    {
        self.text.as_str()
    }

    pub fn cursor(&self) -> (r: usize)
        ensures
            r == self.at(),
    {
        self.cursor
    }

    /// Replaces the text and puts the cursor at the end of it.
    pub fn set(&mut self, text: &str)
        ensures
            final(self).chars() == text@,
            final(self).at() == text@.len(),
    {
        *self = LineInput::new(text);
    }

    /// Types `ch` at the cursor, which moves past it.
    pub fn insert(&mut self, ch: char)
        ensures
            final(self).chars() == old(self).chars().take(old(self).at()).push(ch) + old(self).chars().skip(old(self).at()),
            final(self).at() == old(self).at() + 1,
    {
        proof { use_type_invariant(&*self); }
        let chars = chars_of(self.text.as_str());
        let mut head = slice(&chars, 0, self.cursor);
        head.push(ch);
        let at = head.len();
        let joined = concat(&head, &slice(&chars, self.cursor, chars.len()));
        assert(chars@.subrange(0, self.cursor as int) == chars@.take(self.cursor as int));
        assert(chars@.subrange(self.cursor as int, chars@.len() as int) == chars@.skip(self.cursor as int));
        *self = LineInput::from_parts(&joined, at);
    }

    /// Pasted text, joined into one line as [`one_line`] says, lands at the
    /// cursor, which moves past it. That is what lets a curl command copied
    /// over several lines land whole.
    pub fn paste(&mut self, text: &str)
        ensures
            final(self).chars() == old(self).chars().take(old(self).at()) + one_line(text@) + old(self).chars().skip(old(self).at()),
            final(self).at() == old(self).at() + one_line(text@).len(),
    {
        proof { use_type_invariant(&*self); }
        let joined = joined_line(&chars_of(text));
        let chars = chars_of(self.text.as_str());
        let head = concat(&slice(&chars, 0, self.cursor), &joined);
        let at = head.len();
        let all = concat(&head, &slice(&chars, self.cursor, chars.len()));
        assert(chars@.subrange(0, self.cursor as int) == chars@.take(self.cursor as int));
        assert(chars@.subrange(self.cursor as int, chars@.len() as int) == chars@.skip(self.cursor as int));
        *self = LineInput::from_parts(&all, at);
    }

    /// Removes the character before the cursor. Returns whether there was one.
    pub fn backspace(&mut self) -> (changed: bool)
        ensures
            changed == (old(self).at() > 0),
            changed ==> final(self).chars() == old(self).chars().remove(old(self).at() - 1),
            changed ==> final(self).at() == old(self).at() - 1,
            !changed ==> *final(self) == *old(self),
    {
        proof { use_type_invariant(&*self); }
        if self.cursor == 0 {
            return false;
        }
        let at = self.cursor - 1;
        let chars = chars_of(self.text.as_str());
        let rest = concat(&slice(&chars, 0, at), &slice(&chars, at + 1, chars.len()));
        assert(rest@ == chars@.remove(at as int));
        *self = LineInput::from_parts(&rest, at);
        true
    }

    /// Removes the character under the cursor. Returns whether there was one.
    pub fn delete(&mut self) -> (changed: bool)
        ensures
            changed == (old(self).at() < old(self).chars().len()),
            changed ==> final(self).chars() == old(self).chars().remove(old(self).at()),
            changed ==> final(self).at() == old(self).at(),
            !changed ==> *final(self) == *old(self),
    {
        proof { use_type_invariant(&*self); }
        let chars = chars_of(self.text.as_str());
        if self.cursor >= chars.len() {
            return false;
        }
        let at = self.cursor;
        let rest = concat(&slice(&chars, 0, at), &slice(&chars, at + 1, chars.len()));
        assert(rest@ == chars@.remove(at as int));
        *self = LineInput::from_parts(&rest, at);
        true
    }

    /// ⌃U, as a shell has it: everything before the cursor goes.
    pub fn clear_before(&mut self) -> (changed: bool)
        ensures
            changed == (old(self).at() > 0),
            changed ==> final(self).chars() == old(self).chars().skip(old(self).at()),
            changed ==> final(self).at() == 0,
            !changed ==> *final(self) == *old(self),
    {
        proof { use_type_invariant(&*self); }
        if self.cursor == 0 {
            return false;
        }
        let chars = chars_of(self.text.as_str());
        let rest = slice(&chars, self.cursor, chars.len());
        assert(rest@ == chars@.skip(self.cursor as int));
        *self = LineInput::from_parts(&rest, 0);
        true
    }

    /// The first character to show so the cursor stays inside `width`
    /// columns, scrolling as little as it can. The cursor cell needs a
    /// column of its own.
    pub fn first_visible(&self, width: usize) -> (r: usize)
        ensures
            r == first_shown(self.chars(), self.at(), width as nat, 0),
    {
        proof { use_type_invariant(self); }
        let chars = chars_of(self.text.as_str());
        let cursor = self.cursor;
        let mut start: usize = 0;
        while start < cursor && columns_between(&chars, start, cursor) + 1 > width as u128
            invariant
                chars@ == self.chars(),
                cursor == self.at(),
                cursor <= chars@.len(),
                start <= cursor,
                first_shown(chars@, cursor as int, width as nat, start as int) == first_shown(chars@, cursor as int, width as nat, 0),
            decreases cursor - start,
        {
            start += 1;
        }
        start
    }

    /// Puts the cursor under a click `column` display columns into the
    /// text as drawn from its `start`th character, or at the end past it.
    pub fn place_cursor(&mut self, start: usize, column: usize)
        ensures
            final(self).chars() == old(self).chars(),
            final(self).at() == placed(old(self).chars(), start as int, column as nat),
    {
        let chars = chars_of(self.text.as_str());
        let at = if start >= chars.len() { chars.len() } else { fitting(&chars, start, 0, column) };
        self.move_to(at);
    }

    fn move_to(&mut self, at: usize)
        requires
            at <= old(self).chars().len(),
        ensures
            final(self).chars() == old(self).chars(),
            final(self).at() == at,
    {
        let chars = chars_of(self.text.as_str());
        *self = LineInput::from_parts(&chars, at);
    }

    /// Applies an editing key. Returns whether the text changed, so a caller
    /// that mirrors the text somewhere else knows when to.
    pub fn handle(&mut self, key: Key) -> (changed: bool)
        ensures
            changed == (final(self).chars() != old(self).chars()),
            match key {
                Key::Char { ch, ctrl, alt } =>
                    if ctrl && ch == 'a' {
                        final(self).at() == 0 && final(self).chars() == old(self).chars()
                    } else if ctrl && ch == 'u' {
                        final(self).chars() == old(self).chars().skip(old(self).at()) && final(self).at() == 0
                    } else if !ctrl && !alt {
                        final(self).chars() == old(self).chars().take(old(self).at()).push(ch) + old(self).chars().skip(old(self).at())
                            && final(self).at() == old(self).at() + 1
                    } else {
                        *final(self) == *old(self)
                    },
                Key::Backspace => old(self).at() > 0 ==> final(self).chars() == old(self).chars().remove(old(self).at() - 1)
                    && final(self).at() == old(self).at() - 1,
                Key::Delete => old(self).at() < old(self).chars().len() ==> final(self).chars() == old(self).chars().remove(old(self).at())
                    && final(self).at() == old(self).at(),
                Key::Left => final(self).chars() == old(self).chars()
                    && final(self).at() == if old(self).at() > 0 { old(self).at() - 1 } else { 0 },
                Key::Right => final(self).chars() == old(self).chars()
                    && final(self).at() == if old(self).at() < old(self).chars().len() { old(self).at() + 1 } else { old(self).at() },
                Key::Home => final(self).chars() == old(self).chars() && final(self).at() == 0,
                Key::End => final(self).chars() == old(self).chars() && final(self).at() == old(self).chars().len(),
                Key::Other => *final(self) == *old(self),
            },
    {
        proof { use_type_invariant(&*self); }
        let ghost before = self.chars();
        match key {
            Key::Char { ch, ctrl, alt } => {
                if ctrl && ch == 'a' {
                    self.move_to(0);
                    false
                } else if ctrl && ch == 'u' {
                    let changed = self.clear_before();
                    proof {
                        if changed {
                            assert(before.skip(0) == before);
                            if self.chars() == before {
                                assert(self.chars().len() < before.len());
                            }
                        }
                    }
                    changed
                } else if !ctrl && !alt {
                    self.insert(ch);
                    assert(self.chars().len() == before.len() + 1);
                    true
                } else {
                    false
                }
            }
            Key::Backspace => {
                let changed = self.backspace();
                assert(changed ==> self.chars().len() == before.len() - 1);
                changed
            }
            Key::Delete => {
                let changed = self.delete();
                assert(changed ==> self.chars().len() == before.len() - 1);
                changed
            }
            Key::Left => {
                if self.cursor > 0 {
                    let at = self.cursor - 1;
                    self.move_to(at);
                }
                false
            }
            Key::Right => {
                let count = chars_of(self.text.as_str()).len();
                if self.cursor < count {
                    let at = self.cursor + 1;
                    self.move_to(at);
                }
                false
            }
            Key::Home => {
                self.move_to(0);
                false
            }
            Key::End => {
                let count = chars_of(self.text.as_str()).len();
                self.move_to(count);
                false
            }
            Key::Other => false,
        }
    }
}

impl Default for LineInput {
    fn default() -> (r: LineInput)
        ensures
            r.chars() == Seq::<char>::empty(),
            r.at() == 0,
    {
        proof { reveal_strlit(""); }
        LineInput::new("")
    }
}

impl Clone for LineInput {
    fn clone(&self) -> (r: LineInput)
        ensures
            r.chars() == self.chars(),
            r.at() == self.at(),
    {
        proof { use_type_invariant(self); }
        let chars = chars_of(self.text.as_str());
        LineInput::from_parts(&chars, self.cursor)
    }
}

fn joined_line(s: &Vec<char>) -> (r: Vec<char>)
    ensures
        r@ == one_line(s@),
{
    let mut out: Vec<char> = Vec::new();
    let mut i: usize = 0;
    assert(s@.skip(0) == s@);
    while i < s.len()
        invariant
            i <= s@.len(),
            out@ + one_line(s@.skip(i as int)) == one_line(s@),
        decreases s@.len() - i,
    {
        let ghost rest = s@.skip(i as int);
        let n = s.len() - i;
        if n >= 3 && s[i] == '\\' && s[i + 1] == '\r' && s[i + 2] == '\n' {
            assert(rest.skip(3) == s@.skip(i + 3));
            out.push(' ');
            i += 3;
        } else if n >= 2 && s[i] == '\\' && s[i + 1] == '\n' {
            assert(rest.skip(2) == s@.skip(i + 2));
            out.push(' ');
            i += 2;
        } else if n >= 2 && s[i] == '\r' && s[i + 1] == '\n' {
            assert(rest.skip(2) == s@.skip(i + 2));
            out.push(' ');
            i += 2;
        } else if s[i] == '\n' || s[i] == '\r' {
            assert(rest.skip(1) == s@.skip(i + 1));
            out.push(' ');
            i += 1;
        } else {
            assert(rest.skip(1) == s@.skip(i + 1));
            out.push(s[i]);
            i += 1;
        }
    }
    assert(s@.skip(s@.len() as int) =~= Seq::<char>::empty());
    out
}

/// Typing a character and then Backspace leaves the line as it was, the
/// cursor back where it started: what `insert` makes of the text at the
/// cursor, `backspace` undoes.
pub proof fn insert_then_backspace(text: Seq<char>, at: int, ch: char)
    requires
        0 <= at <= text.len(),
    ensures
        (text.take(at).push(ch) + text.skip(at)).remove(at) == text,
        (at + 1) - 1 == at,
{
    assert((text.take(at).push(ch) + text.skip(at)).remove(at) =~= text);
}

/// Pasted text without a line break lands exactly as it was written.
pub proof fn paste_without_breaks_is_verbatim(text: Seq<char>)
    requires
        forall|i: int| 0 <= i < text.len() ==> text[i] != '\n' && text[i] != '\r',
    ensures
        one_line(text) == text,
    decreases text.len(),
{
    if text.len() > 0 {
        let rest = text.skip(1);
        assert forall|i: int| 0 <= i < rest.len() implies rest[i] != '\n' && rest[i] != '\r' by {
            assert(rest[i] == text[i + 1]);
        }
        paste_without_breaks_is_verbatim(rest);
        if text.len() >= 2 && text[0] == '\\' {
            assert(text[1] != '\n' && text[1] != '\r');
        }
        assert(seq![text[0]] + rest =~= text);
    }
}

} // verus!

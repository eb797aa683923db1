//! A table of name–value pairs: query parameters, headers, form fields.
//!
//! The last row is always the one that adds a pair, so there is nothing to
//! remember about how to add one: go to the end and press Enter.

use vstd::prelude::*;
use crate::app::line::LineInput;
use crate::text::{chars_of, string_of, trim, trim_chars};
use crate::varmap::pair_views;

verus! {

#[derive(Debug, Clone, Copy, PartialEq, Eq, Structural)]
pub enum Column {
    Name,
    Value,
}

#[derive(Debug, Clone)]
pub struct CellEdit {
    /// The row being edited; `rows.len()` for a new one.
    pub row: usize,
    pub column: Column,
    pub name: LineInput,
    pub value: LineInput,
}

#[derive(Debug, Clone)]
pub struct KvTable {
    pub rows: Vec<(String, String)>,
    /// Up to `rows.len()`, which is the row that adds one.
    pub selected: usize,
    pub offset: usize,
    pub edit: Option<CellEdit>,
}

/// What committing an edit keeps: the name trimmed, the value as typed.
pub open spec fn committed(edit: CellEdit) -> (Seq<char>, Seq<char>) {
    (trim(edit.name.chars()), edit.value.chars())
}

/// `x` held between `lo` and `hi`.
pub open spec fn clamped(x: int, lo: int, hi: int) -> int {
    if x < lo {
        lo
    } else if x > hi {
        hi
    } else {
        x
    }
}

impl KvTable {
    pub open spec fn pairs(&self) -> Seq<(Seq<char>, Seq<char>)> {
        pair_views(self.rows@)
    }

    /// The selection and the scroll position are kept apart from the rows.
    pub open spec fn same_but_selection(&self, other: &KvTable) -> bool {
        &&& self.rows@ == other.rows@
        &&& self.offset == other.offset
        &&& self.edit == other.edit
    }

    pub fn set_rows(&mut self, rows: Vec<(String, String)>)
        ensures
            final(self).rows@ == rows@,
            final(self).selected == if old(self).selected < rows@.len() { old(self).selected as int } else { rows@.len() as int },
            final(self).offset == old(self).offset,
            final(self).edit is None,
    {
        self.rows = rows;
        if self.selected > self.rows.len() {
            self.selected = self.rows.len();
        }
        self.edit = None;
    }

    /// Moves the selection by `delta` rows, no further than the first row or
    /// the add row.
    pub fn move_selection(&mut self, delta: isize)
        ensures
            final(self).selected == clamped(old(self).selected + delta, 0, old(self).rows@.len() as int),
            final(self).same_but_selection(old(self)),
    {
        let last = self.rows.len();
        let target: i128 = self.selected as i128 + delta as i128;
        if target < 0 {
            self.selected = 0;
        } else if target > last as i128 {
            self.selected = last;
        } else {
            self.selected = target as usize;
        }
    }

    pub fn first(&mut self)
        ensures
            final(self).selected == 0,
            final(self).same_but_selection(old(self)),
    {
        self.selected = 0;
    }

    pub fn last(&mut self)
        ensures
            final(self).selected == if old(self).rows@.len() > 0 { old(self).rows@.len() - 1 } else { 0 },
            final(self).same_but_selection(old(self)),
    {
        self.selected = if self.rows.len() > 0 { self.rows.len() - 1 } else { 0 };
    }

    /// Starts editing the selected row at its name, or a new, empty row on
    /// the add row.
    pub fn begin(&mut self)
        ensures
            final(self).rows@ == old(self).rows@,
            final(self).selected == old(self).selected,
            final(self).offset == old(self).offset,
            final(self).edit matches Some(edit) && {
                &&& edit.row == old(self).selected
                &&& edit.column == Column::Name
                &&& edit.name.at() == edit.name.chars().len()
                &&& edit.value.at() == edit.value.chars().len()
                &&& if old(self).selected < old(self).rows@.len() {
                    edit.name.chars() == old(self).pairs()[old(self).selected as int].0
                        && edit.value.chars() == old(self).pairs()[old(self).selected as int].1
                } else {
                    edit.name.chars().len() == 0 && edit.value.chars().len() == 0
                }
            },
    {
        let (name, value) = if self.selected < self.rows.len() {
            (self.rows[self.selected].0.as_str(), self.rows[self.selected].1.as_str())
        } else {
            ("", "")
        };
        proof {
            reveal_strlit("");
        }
        let edit = CellEdit {
            row: self.selected,
            column: Column::Name,
            name: LineInput::new(name),
            value: LineInput::new(value),
        };
        self.edit = Some(edit);
    }

    /// Goes to the add row and starts typing into it.
    pub fn add(&mut self)
        ensures
            final(self).rows@ == old(self).rows@,
            final(self).selected == old(self).rows@.len(),
            final(self).offset == old(self).offset,
            final(self).edit matches Some(edit) && {
                &&& edit.row == old(self).rows@.len()
                &&& edit.column == Column::Name
                &&& edit.name.chars().len() == 0
                &&& edit.value.chars().len() == 0
            },
    {
        self.selected = self.rows.len();
        self.begin();
    }

    /// Enter and Tab move from the name to the value, and from the value keep
    /// the row. Returns whether the rows changed.
    pub fn advance(&mut self) -> (changed: bool)
        ensures
            match old(self).edit {
                None => !changed && *final(self) == *old(self),
                Some(edit) => if edit.column == Column::Name {
                    &&& !changed
                    &&& final(self).rows@ == old(self).rows@
                    &&& final(self).selected == old(self).selected
                    &&& final(self).edit == Some(CellEdit { column: Column::Value, ..edit })
                } else {
                    committing(*old(self), edit, *final(self), changed)
                },
            },
    {
        let editing_name = match &self.edit {
            Some(edit) => edit.column == Column::Name,
            None => return false,
        };
        if editing_name {
            let mut edit = self.edit.take().unwrap();
            edit.column = Column::Value;
            self.edit = Some(edit);
            false
        } else {
            self.commit()
        }
    }

    /// Back from the value to the name.
    pub fn back(&mut self)
        ensures
            final(self).rows@ == old(self).rows@,
            final(self).selected == old(self).selected,
            final(self).offset == old(self).offset,
            final(self).edit == match old(self).edit {
                Some(edit) => Some(CellEdit { column: Column::Name, ..edit }),
                None => None,
            },
    {
        if let Some(mut edit) = self.edit.take() {
            edit.column = Column::Name;
            self.edit = Some(edit);
        }
    }

    /// Keeps what was typed. A row left with neither name nor value is
    /// removed rather than kept empty. Returns whether the rows changed.
    pub fn commit(&mut self) -> (changed: bool)
        ensures
            match old(self).edit {
                None => !changed && *final(self) == *old(self),
                Some(edit) => committing(*old(self), edit, *final(self), changed),
            },
    {
        let edit = match self.edit.take() {
            Some(edit) => edit,
            None => return false,
        };
        let name = string_of(&trim_chars(&chars_of(edit.name.text())));
        let value = string_of(&chars_of(edit.value.text()));
        let empty = name.as_str().is_empty() && value.as_str().is_empty();
        let ghost before = pair_views(self.rows@);
        if edit.row >= self.rows.len() {
            if empty {
                return false;
            }
            self.rows.push((name, value));
            assert(pair_views(self.rows@) == before.push(committed(edit)));
            self.selected = self.rows.len() - 1;
        } else if empty {
            self.rows.remove(edit.row);
            assert(pair_views(self.rows@) == before.remove(edit.row as int));
            if self.selected > self.rows.len() {
                self.selected = self.rows.len();
            }
        } else {
            self.rows.set(edit.row, (name, value));
            assert(pair_views(self.rows@) == before.update(edit.row as int, committed(edit)));
        }
        true
    }

    /// Escape: what was typed is dropped.
    pub fn cancel(&mut self)
        ensures
            final(self).rows@ == old(self).rows@,
            final(self).selected == old(self).selected,
            final(self).offset == old(self).offset,
            final(self).edit is None,
    {
        self.edit = None;
    }

    /// Removes the selected row; the add row has nothing to remove.
    pub fn delete(&mut self) -> (changed: bool)
        ensures
            changed == (old(self).selected < old(self).rows@.len()),
            changed ==> final(self).pairs() == old(self).pairs().remove(old(self).selected as int),
            changed ==> final(self).selected == if old(self).selected < final(self).rows@.len() {
                old(self).selected as int
            } else {
                final(self).rows@.len() as int
            },
            changed ==> final(self).offset == old(self).offset && final(self).edit == old(self).edit,
            !changed ==> *final(self) == *old(self),
    {
        if self.selected >= self.rows.len() {
            return false;
        }
        let ghost before = pair_views(self.rows@);
        self.rows.remove(self.selected);
        assert(pair_views(self.rows@) == before.remove(old(self).selected as int));
        if self.selected > self.rows.len() {
            self.selected = self.rows.len();
        }
        true
    }

    /// The field being typed into: the name or the value of the row being
    /// edited, as its column says.
    pub fn input(&mut self) -> (r: Option<&mut LineInput>)
        ensures
            match old(self).edit {
                None => r is None && *final(self) == *old(self),
                Some(edit) => {
                    &&& r is Some
                    &&& *r.unwrap() == if edit.column == Column::Name { edit.name } else { edit.value }
                    &&& final(self).rows@ == old(self).rows@
                    &&& final(self).selected == old(self).selected
                    &&& final(self).offset == old(self).offset
                    &&& final(self).edit == Some(if edit.column == Column::Name {
                        CellEdit { name: *final(r.unwrap()), ..edit }
                    } else {
                        CellEdit { value: *final(r.unwrap()), ..edit }
                    })
                },
            },
    {
        match &mut self.edit {
            Some(edit) => match edit.column {
                Column::Name => Some(&mut edit.name),
                Column::Value => Some(&mut edit.value),
            },
            None => None,
        }
    }
}

/// What keeping `edit` does to `before`: a new row is appended unless it is
/// empty, an existing row is replaced, or removed when it was emptied.
pub open spec fn committing(before: KvTable, edit: CellEdit, after: KvTable, changed: bool) -> bool {
    let (name, value) = committed(edit);
    let empty = name.len() == 0 && value.len() == 0;
    &&& after.edit is None
    &&& after.offset == before.offset
    &&& if edit.row >= before.rows@.len() {
        if empty {
            !changed && after.rows@ == before.rows@ && after.selected == before.selected
        } else {
            &&& changed
            &&& after.pairs() == before.pairs().push((name, value))
            &&& after.selected == before.rows@.len()
        }
    } else if empty {
        &&& changed
        &&& after.pairs() == before.pairs().remove(edit.row as int)
        &&& after.selected == if before.selected < after.rows@.len() { before.selected as int } else { after.rows@.len() as int }
    } else {
        &&& changed
        &&& after.pairs() == before.pairs().update(edit.row as int, (name, value))
        &&& after.selected == before.selected
    }
}

impl Default for KvTable {
    fn default() -> (r: KvTable)
        ensures
            r.rows@.len() == 0,
            r.selected == 0,
            r.offset == 0,
            r.edit is None,
    {
        KvTable { rows: Vec::new(), selected: 0, offset: 0, edit: None }
    }
}

} // verus!

//! The parts of an open request's tab that hold state of their own: which
//! section and which response view are showing, and the Auth section's
//! fields.

use vstd::prelude::*;
use crate::app::line::LineInput;
use crate::auth::{auth_fields, auth_kind_position, auth_kinds, Auth, AuthKind};
use crate::cycle::step;
use crate::text::{chars_of, copy_string, string_of};

verus! {

#[derive(Debug, Clone, Copy, PartialEq, Eq, Structural)]
pub enum Section {
    Params,
    Headers,
    Body,
    Auth,
    Vars,
    Scripts,
    Info,
}

pub open spec fn sections() -> Seq<Section> {
    seq![Section::Params, Section::Headers, Section::Body, Section::Auth, Section::Vars, Section::Scripts, Section::Info]
}

pub open spec fn section_position(section: Section) -> int {
    match section {
        Section::Params => 0,
        Section::Headers => 1,
        Section::Body => 2,
        Section::Auth => 3,
        Section::Vars => 4,
        Section::Scripts => 5,
        Section::Info => 6,
    }
}

impl Section {
    pub const ALL: [Section; 7] = [
        Section::Params,
        Section::Headers,
        Section::Body,
        Section::Auth,
        Section::Vars,
        Section::Scripts,
        Section::Info,
    ];

    pub fn label(self) -> (r: &'static str)
        ensures
            r@ == match self {
                Section::Params => "Params"@,
                Section::Headers => "Headers"@,
                Section::Body => "Body"@,
                Section::Auth => "Auth"@,
                Section::Vars => "Vars"@,
                Section::Scripts => "Scripts"@,
                Section::Info => "Info"@,
            },
    {
        match self {
            Section::Params => "Params",
            Section::Headers => "Headers",
            Section::Body => "Body",
            Section::Auth => "Auth",
            Section::Vars => "Vars",
            Section::Scripts => "Scripts",
            Section::Info => "Info",
        }
    }

    /// The section `delta` steps round from this one.
    pub fn cycle(self, delta: isize) -> (r: Section)
        ensures
            r == sections()[(section_position(self) + delta) % 7],
    {
        let position: usize = match self {
            Section::Params => 0,
            Section::Headers => 1,
            Section::Body => 2,
            Section::Auth => 3,
            Section::Vars => 4,
            Section::Scripts => 5,
            Section::Info => 6,
        };
        let next = step(position, 7, delta);
        match next {
            0 => Section::Params,
            1 => Section::Headers,
            2 => Section::Body,
            3 => Section::Auth,
            4 => Section::Vars,
            5 => Section::Scripts,
            _ => Section::Info,
        }
    }
}

/// What the response pane shows: the body, its headers, the cookies it
/// set, what the scripts pulled out of it, or the trace of the exchange.
#[derive(Debug, Clone, Copy, PartialEq, Eq, Structural)]
pub enum ResponseView {
    Body,
    Headers,
    Cookies,
    Scripts,
    Trace,
}

pub open spec fn views_in_order() -> Seq<ResponseView> {
    seq![ResponseView::Body, ResponseView::Headers, ResponseView::Cookies, ResponseView::Scripts, ResponseView::Trace]
}

pub open spec fn view_position(view: ResponseView) -> int {
    match view {
        ResponseView::Body => 0,
        ResponseView::Headers => 1,
        ResponseView::Cookies => 2,
        ResponseView::Scripts => 3,
        ResponseView::Trace => 4,
    }
}

impl ResponseView {
    pub const ALL: [ResponseView; 5] = [ResponseView::Body, ResponseView::Headers, ResponseView::Cookies, ResponseView::Scripts, ResponseView::Trace];

    pub fn label(self) -> (r: &'static str)
        ensures
            r@ == match self {
                ResponseView::Body => "Body"@,
                ResponseView::Headers => "Headers"@,
                ResponseView::Cookies => "Cookies"@,
                ResponseView::Scripts => "Scripts"@,
                ResponseView::Trace => "Trace"@,
            },
    {
        match self {
            ResponseView::Body => "Body",
            ResponseView::Headers => "Headers",
            ResponseView::Cookies => "Cookies",
            ResponseView::Scripts => "Scripts",
            ResponseView::Trace => "Trace",
        }
    }

    /// The view `delta` steps round from this one.
    pub fn cycle(self, delta: isize) -> (r: ResponseView)
        ensures
            r == views_in_order()[(view_position(self) + delta) % 5],
    {
        let position: usize = match self {
            ResponseView::Body => 0,
            ResponseView::Headers => 1,
            ResponseView::Cookies => 2,
            ResponseView::Scripts => 3,
            ResponseView::Trace => 4,
        };
        let next = step(position, 5, delta);
        match next {
            0 => ResponseView::Body,
            1 => ResponseView::Headers,
            2 => ResponseView::Cookies,
            3 => ResponseView::Scripts,
            _ => ResponseView::Trace,
        }
    }
}

/// The value last written for field `index` of `kind`, or nothing.
pub open spec fn stored_value(entries: Seq<(AuthKind, usize, Seq<char>)>, kind: AuthKind, index: int) -> Seq<char>
    decreases entries.len(),
{
    if entries.len() == 0 {
        Seq::empty()
    } else if entries.last().0 == kind && entries.last().1 == index {
        entries.last().2
    } else {
        stored_value(entries.drop_last(), kind, index)
    }
}

/// The entries without any for field `index` of `kind`.
pub open spec fn without(entries: Seq<(AuthKind, usize, Seq<char>)>, kind: AuthKind, index: int) -> Seq<(AuthKind, usize, Seq<char>)>
    decreases entries.len(),
{
    if entries.len() == 0 {
        entries
    } else if entries.last().0 == kind && entries.last().1 == index {
        without(entries.drop_last(), kind, index)
    } else {
        without(entries.drop_last(), kind, index).push(entries.last())
    }
}

proof fn lemma_without(entries: Seq<(AuthKind, usize, Seq<char>)>, kind: AuthKind, index: int, other: AuthKind, other_index: int)
    ensures
        stored_value(without(entries, kind, index), other, other_index)
            == if other == kind && other_index == index { Seq::<char>::empty() } else { stored_value(entries, other, other_index) },
    decreases entries.len(),
{
    if entries.len() > 0 {
        lemma_without(entries.drop_last(), kind, index, other, other_index);
        let rest = without(entries.drop_last(), kind, index);
        assert(rest.push(entries.last()).drop_last() == rest);
    }
}

pub open spec fn entry_views(entries: Seq<(AuthKind, usize, String)>) -> Seq<(AuthKind, usize, Seq<char>)> {
    entries.map_values(|e: (AuthKind, usize, String)| (e.0, e.1, e.2@))
}

/// The Auth section. Values are kept per kind, so stepping past Basic on the
/// way to Bearer does not lose the username.
#[derive(Debug)]
pub struct AuthForm {
    pub kind: AuthKind,
    /// What was written into each kind's fields, by kind and field index;
    /// the last entry for a field is its value.
    pub values: Vec<(AuthKind, usize, String)>,
    pub selected: usize,
    pub edit: Option<LineInput>,
}

impl AuthForm {
    /// The value of field `index` of `kind`: what was last written there,
    /// or nothing.
    pub open spec fn stored(&self, kind: AuthKind, index: int) -> Seq<char> {
        stored_value(entry_views(self.values@), kind, index)
    }

    /// The section filled from what a file says.
    pub fn loaded(auth: &Auth) -> (r: AuthForm)
        ensures
            r.kind == auth.kind,
            r.selected == 0,
            r.edit is None,
            forall|k: AuthKind, i: int| #[trigger] r.stored(k, i) == if k == auth.kind && 0 <= i < auth.values@.len() {
                auth.values@[i]@
            } else {
                Seq::<char>::empty()
            },
    {
        let mut values: Vec<(AuthKind, usize, String)> = Vec::new();
        let mut index: usize = 0;
        while index < auth.values.len()
            invariant
                index <= auth.values@.len(),
                values@.len() == index,
                forall|j: int| 0 <= j < index ==> (#[trigger] entry_views(values@)[j]).0 == auth.kind
                    && entry_views(values@)[j].1 == j && entry_views(values@)[j].2 == auth.values@[j]@,
            decreases auth.values@.len() - index,
        {
            let ghost prior = entry_views(values@);
            values.push((auth.kind, index, copy_string(&auth.values[index])));
            assert(entry_views(values@) == prior.push((auth.kind, index, auth.values@[index as int]@)));
            index += 1;
        }
        let form = AuthForm { kind: auth.kind, values, selected: 0, edit: None };
        assert forall|k: AuthKind, i: int| #[trigger] form.stored(k, i) == if k == auth.kind && 0 <= i < auth.values@.len() {
            auth.values@[i]@
        } else {
            Seq::<char>::empty()
        } by {
            let all = entry_views(form.values@);
            lemma_loaded(all, auth.kind, auth.values@, all.len() as int, k, i);
            assert(all.take(all.len() as int) == all);
        }
        form
    }

    /// The kind in use and its values, as a file holds them.
    pub fn auth(&self) -> (r: Auth)
        ensures
            r.kind == self.kind,
            r.values@.len() == auth_fields(self.kind).len(),
            forall|i: int| 0 <= i < r.values@.len() ==> #[trigger] r.values@[i]@ == self.stored(self.kind, i),
    {
        Auth { kind: self.kind, values: self.values() }
    }

    /// The current kind's field `index`.
    pub fn value(&self, index: usize) -> (r: &str)
        ensures
            r@ == self.stored(self.kind, index as int),
    {
        let mut k = self.values.len();
        assert(entry_views(self.values@).take(k as int) == entry_views(self.values@));
        while k > 0
            invariant
                k <= self.values@.len(),
                self.stored(self.kind, index as int) == stored_value(entry_views(self.values@).take(k as int), self.kind, index as int),
            decreases k,
        {
            assert(entry_views(self.values@).take(k as int).drop_last() == entry_views(self.values@).take(k - 1));
            if self.values[k - 1].0 == self.kind && self.values[k - 1].1 == index {
                return self.values[k - 1].2.as_str();
            }
            k -= 1;
        }
        proof {
            reveal_strlit("");
        }
        ""
    }

    /// The current kind's values, in field order.
    pub fn values(&self) -> (r: Vec<String>)
        ensures
            r@.len() == auth_fields(self.kind).len(),
            forall|i: int| 0 <= i < r@.len() ==> #[trigger] r@[i]@ == self.stored(self.kind, i),
    {
        let count = self.kind.fields().len();
        let mut out: Vec<String> = Vec::new();
        let mut index: usize = 0;
        while index < count
            invariant
                index <= count,
                count == auth_fields(self.kind).len(),
                out@.len() == index,
                forall|i: int| 0 <= i < index ==> #[trigger] out@[i]@ == self.stored(self.kind, i),
            decreases count - index,
        {
            out.push(string_of(&chars_of(self.value(index))));
            index += 1;
        }
        out
    }

    /// Steps to another kind, with nothing selected and nothing being typed.
    pub fn cycle(&mut self, delta: isize)
        ensures
            final(self).kind == auth_kinds()[(auth_kind_position(old(self).kind) + delta) % 5],
            final(self).selected == 0,
            final(self).edit is None,
            forall|k: AuthKind, i: int| #[trigger] final(self).stored(k, i) == old(self).stored(k, i),
    {
        self.kind = self.kind.cycle(delta);
        self.selected = 0;
        self.edit = None;
    }

    /// Moves between the current kind's fields, no further than the first
    /// or the last.
    pub fn move_selection(&mut self, delta: isize)
        ensures
            final(self).kind == old(self).kind,
            final(self).edit == old(self).edit,
            forall|k: AuthKind, i: int| #[trigger] final(self).stored(k, i) == old(self).stored(k, i),
            final(self).selected == if auth_fields(old(self).kind).len() > 0 {
                clamp_to(old(self).selected + delta, auth_fields(old(self).kind).len() - 1)
            } else {
                old(self).selected as int
            },
    {
        let count = self.kind.fields().len();
        if count > 0 {
            let target: i128 = self.selected as i128 + delta as i128;
            if target < 0 {
                self.selected = 0;
            } else if target > (count - 1) as i128 {
                self.selected = count - 1;
            } else {
                self.selected = target as usize;
            }
        }
    }

    /// Starts typing into the selected field, from what it holds.
    pub fn begin(&mut self)
        ensures
            final(self).kind == old(self).kind,
            final(self).selected == old(self).selected,
            forall|k: AuthKind, i: int| #[trigger] final(self).stored(k, i) == old(self).stored(k, i),
            final(self).edit == if old(self).selected < auth_fields(old(self).kind).len() {
                final(self).edit
            } else {
                old(self).edit
            },
            old(self).selected < auth_fields(old(self).kind).len() ==> (final(self).edit matches Some(input)
                && input.chars() == old(self).stored(old(self).kind, old(self).selected as int)
                && input.at() == input.chars().len()),
    {
        if self.selected < self.kind.fields().len() {
            let input = LineInput::new(self.value(self.selected));
            self.edit = Some(input);
        }
    }

    /// Keeps what was typed in the selected field.
    pub fn commit(&mut self)
        ensures
            final(self).kind == old(self).kind,
            final(self).selected == old(self).selected,
            final(self).edit is None,
            forall|k: AuthKind, i: int| #[trigger] final(self).stored(k, i) == match old(self).edit {
                Some(input) => if k == old(self).kind && i == old(self).selected { input.chars() } else { old(self).stored(k, i) },
                None => old(self).stored(k, i),
            },
    {
        if let Some(input) = self.edit.take() {
            let value = string_of(&chars_of(input.text()));
            self.put(value);
        }
    }

    /// Empties the selected field.
    pub fn clear(&mut self)
        ensures
            final(self).kind == old(self).kind,
            final(self).selected == old(self).selected,
            final(self).edit == old(self).edit,
            forall|k: AuthKind, i: int| #[trigger] final(self).stored(k, i) == if k == old(self).kind && i == old(self).selected {
                Seq::<char>::empty()
            } else {
                old(self).stored(k, i)
            },
    {
        self.drop_selected();
    }

    fn drop_selected(&mut self)
        ensures
            final(self).kind == old(self).kind,
            final(self).selected == old(self).selected,
            final(self).edit == old(self).edit,
            entry_views(final(self).values@) == without(entry_views(old(self).values@), old(self).kind, old(self).selected as int),
            forall|k: AuthKind, i: int| #[trigger] final(self).stored(k, i) == if k == old(self).kind && i == old(self).selected {
                Seq::<char>::empty()
            } else {
                old(self).stored(k, i)
            },
    {
        let ghost before = entry_views(self.values@);
        let mut kept: Vec<(AuthKind, usize, String)> = Vec::new();
        let mut j: usize = 0;
        while j < self.values.len()
            invariant
                j <= self.values@.len(),
                entry_views(self.values@) == before,
                entry_views(kept@) == without(before.take(j as int), self.kind, self.selected as int),
            decreases self.values@.len() - j,
        {
            assert(before.take(j + 1).drop_last() == before.take(j as int));
            let entry = &self.values[j];
            if !(entry.0 == self.kind && entry.1 == self.selected) {
                let ghost prior = entry_views(kept@);
                kept.push((entry.0, entry.1, copy_string(&entry.2)));
                assert(entry_views(kept@) == prior.push(before[j as int]));
            }
            j += 1;
        }
        assert(before.take(before.len() as int) == before);
        self.values = kept;
        proof {
            assert forall|k: AuthKind, i: int| #[trigger] self.stored(k, i) == if k == old(self).kind && i == old(self).selected {
                Seq::<char>::empty()
            } else {
                old(self).stored(k, i)
            } by {
                lemma_without(before, old(self).kind, old(self).selected as int, k, i);
            }
        }
    }

    fn put(&mut self, value: String)
        ensures
            final(self).kind == old(self).kind,
            final(self).selected == old(self).selected,
            final(self).edit == old(self).edit,
            forall|k: AuthKind, i: int| #[trigger] final(self).stored(k, i) == if k == old(self).kind && i == old(self).selected {
                value@
            } else {
                old(self).stored(k, i)
            },
    {
        self.drop_selected();
        let entry = (self.kind, self.selected, value);
        self.values.push(entry);
        proof {
            assert forall|k: AuthKind, i: int| #[trigger] self.stored(k, i) == if k == old(self).kind && i == old(self).selected {
                value@
            } else {
                old(self).stored(k, i)
            } by {
                assert(entry_views(self.values@).drop_last() == without(entry_views(old(self).values@), old(self).kind, old(self).selected as int));
                lemma_without(entry_views(old(self).values@), old(self).kind, old(self).selected as int, k, i);
            }
        }
    }
}

proof fn lemma_loaded(entries: Seq<(AuthKind, usize, Seq<char>)>, kind: AuthKind, values: Seq<String>, n: int, k: AuthKind, i: int)
    requires
        0 <= n <= entries.len(),
        entries.len() == values.len(),
        forall|j: int| 0 <= j < entries.len() ==> (#[trigger] entries[j]).0 == kind && entries[j].1 == j && entries[j].2 == values[j]@,
    ensures
        stored_value(entries.take(n), k, i) == if k == kind && 0 <= i < n { values[i]@ } else { Seq::<char>::empty() },
    decreases n,
{
    if n > 0 {
        assert(entries.take(n).drop_last() == entries.take(n - 1));
        assert(entries.take(n).last() == entries[n - 1]);
        lemma_loaded(entries, kind, values, n - 1, k, i);
    }
}

/// `x` held between `0` and `hi`.
pub open spec fn clamp_to(x: int, hi: int) -> int {
    if x < 0 {
        0
    } else if x > hi {
        hi
    } else {
        x
    }
}

impl Default for AuthForm {
    fn default() -> (r: AuthForm)
        ensures
            r.kind == AuthKind::NoAuth,
            r.selected == 0,
            r.edit is None,
            forall|k: AuthKind, i: int| #[trigger] r.stored(k, i) == Seq::<char>::empty(),
    {
        AuthForm { kind: AuthKind::NoAuth, values: Vec::new(), selected: 0, edit: None }
    }
}

/// Where the Vars section is, and the override being typed.
#[derive(Debug)]
pub struct VarsView {
    pub selected: usize,
    pub offset: usize,
    pub edit: Option<(String, LineInput)>,
}

impl Default for VarsView {
    fn default() -> (r: VarsView)
        ensures
            r.selected == 0,
            r.offset == 0,
            r.edit is None,
    {
        VarsView { selected: 0, offset: 0, edit: None }
    }
}

/// Stepping through the sections `delta` one way and then `delta` back
/// comes back to the section it started from.
pub proof fn section_cycle_returns(section: Section, delta: int)
    ensures
        sections()[(section_position(sections()[(section_position(section) + delta) % 7]) - delta) % 7] == section,
{
    let p = section_position(section);
    crate::cycle::lemma_step_back(p, delta, 7);
    let i = (p + delta) % 7;
    assert(section_position(sections()[i]) == i);
    assert(sections()[p] == section);
}

/// Stepping through the response views `delta` one way and then `delta`
/// back comes back to the view it started from.
pub proof fn view_cycle_returns(view: ResponseView, delta: int)
    ensures
        views_in_order()[(view_position(views_in_order()[(view_position(view) + delta) % 5]) - delta) % 5] == view,
{
    let p = view_position(view);
    crate::cycle::lemma_step_back(p, delta, 5);
    let i = (p + delta) % 5;
    assert(view_position(views_in_order()[i]) == i);
    assert(views_in_order()[p] == view);
}

/// Cycling the Auth section's kind `delta` one way and then `delta` back,
/// as [`AuthForm::cycle`] does, returns to the kind it was on with every
/// value it held: values are kept per kind, so passing Basic on the way to
/// Bearer does not lose the username.
pub proof fn auth_form_cycle_returns(before: AuthForm, between: AuthForm, after: AuthForm, delta: int)
    requires
        between.kind == auth_kinds()[(auth_kind_position(before.kind) + delta) % 5],
        forall|k: AuthKind, i: int| #[trigger] between.stored(k, i) == before.stored(k, i),
        after.kind == auth_kinds()[(auth_kind_position(between.kind) + (-delta)) % 5],
        forall|k: AuthKind, i: int| #[trigger] after.stored(k, i) == between.stored(k, i),
    ensures
        after.kind == before.kind,
        forall|k: AuthKind, i: int| #[trigger] after.stored(k, i) == before.stored(k, i),
{
    crate::auth::auth_cycle_returns(before.kind, delta);
    assert(auth_kind_position(between.kind) + (-delta) == auth_kind_position(between.kind) - delta);
    assert forall|k: AuthKind, i: int| #[trigger] after.stored(k, i) == before.stored(k, i) by {
        assert(after.stored(k, i) == between.stored(k, i));
    }
}

} // verus!

//! The things that draw on top of the layout: the commands, the pickers, the
//! prompt for where to save, and the collection form.

use vstd::prelude::*;

use crate::app::line::LineInput;
use crate::text::{chars_of, concat, push_char, string_of, trim, trim_chars};
use crate::workspace::{collection_name, name_for, Scope};

verus! {

#[derive(Debug, Clone, Copy, PartialEq, Eq, Structural)]
pub enum Command {
    Send,
    Cancel,
    NewTab,
    CloseTab,
    Find,
    History,
    Environments,
    EditEnv,
    CopyCurl,
    Save,
    SaveAs,
    SaveResponse,
    AddCollection,
    EditCollection,
    RemoveCollection,
    Reload,
    Help,
    Quit,
}

impl Command {
    pub fn label(self) -> (r: &'static str)
        ensures
            r@ == match self {
                Command::Send => "Send the request"@,
                Command::Cancel => "Cancel the request in flight"@,
                Command::NewTab => "New tab"@,
                Command::CloseTab => "Close tab"@,
                Command::Find => "Find a request\u{2026}"@,
                Command::History => "History\u{2026}"@,
                Command::Environments => "Environments\u{2026}"@,
                Command::EditEnv => "Edit the environment file\u{2026}"@,
                Command::CopyCurl => "Copy as cURL"@,
                Command::Save => "Save the request"@,
                Command::SaveAs => "Save the request to a file\u{2026}"@,
                Command::SaveResponse => "Save the response\u{2026}"@,
                Command::AddCollection => "Add a collection\u{2026}"@,
                Command::EditCollection => "Edit this collection\u{2026}"@,
                Command::RemoveCollection => "Remove this collection"@,
                Command::Reload => "Reload the collections"@,
                Command::Help => "Help"@,
                Command::Quit => "Quit"@,
            },
    {
        match self {
            Command::Send => "Send the request",
            Command::Cancel => "Cancel the request in flight",
            Command::NewTab => "New tab",
            Command::CloseTab => "Close tab",
            Command::Find => "Find a request\u{2026}",
            Command::History => "History\u{2026}",
            Command::Environments => "Environments\u{2026}",
            Command::EditEnv => "Edit the environment file\u{2026}",
            Command::CopyCurl => "Copy as cURL",
            Command::Save => "Save the request",
            Command::SaveAs => "Save the request to a file\u{2026}",
            Command::SaveResponse => "Save the response\u{2026}",
            Command::AddCollection => "Add a collection\u{2026}",
            Command::EditCollection => "Edit this collection\u{2026}",
            Command::RemoveCollection => "Remove this collection",
            Command::Reload => "Reload the collections",
            Command::Help => "Help",
            Command::Quit => "Quit",
        }
    }

    /// The key that runs it, where one does.
    pub fn hint(self) -> (r: &'static str)
        ensures
            r@ == match self {
                Command::Send => "\u{2303}R"@,
                Command::Cancel => "\u{2303}C"@,
                Command::NewTab => "\u{2303}T"@,
                Command::CloseTab => "\u{2303}W"@,
                Command::Find => "\u{2303}F"@,
                Command::History => "\u{2303}H"@,
                Command::Environments => "\u{2303}E"@,
                Command::CopyCurl => "\u{2303}Y"@,
                Command::Save | Command::SaveAs => "\u{2303}S"@,
                Command::Reload => "F5"@,
                Command::Help => "F1"@,
                Command::Quit => "\u{2303}Q"@,
                Command::EditEnv
                | Command::SaveResponse
                | Command::AddCollection
                | Command::EditCollection
                | Command::RemoveCollection => ""@,
            },
    {
        match self {
            Command::Send => "\u{2303}R",
            Command::Cancel => "\u{2303}C",
            Command::NewTab => "\u{2303}T",
            Command::CloseTab => "\u{2303}W",
            Command::Find => "\u{2303}F",
            Command::History => "\u{2303}H",
            Command::Environments => "\u{2303}E",
            Command::CopyCurl => "\u{2303}Y",
            Command::Save | Command::SaveAs => "\u{2303}S",
            Command::Reload => "F5",
            Command::Help => "F1",
            Command::Quit => "\u{2303}Q",
            // a, e and d are the tree's own keys, and do nothing anywhere else.
            Command::EditEnv
            | Command::SaveResponse
            | Command::AddCollection
            | Command::EditCollection
            | Command::RemoveCollection => "",
        }
    }
}

#[derive(Debug, Clone, Copy, PartialEq, Eq, Structural)]
pub enum PickerKind {
    Commands,
    Find,
    History,
    Environments,
}

impl PickerKind {
    pub fn title(self) -> (r: &'static str)
        ensures
            r@ == match self {
                PickerKind::Commands => "Commands"@,
                PickerKind::Find => "Find a request"@,
                PickerKind::History => "History"@,
                PickerKind::Environments => "Environments"@,
            },
    {
        match self {
            PickerKind::Commands => "Commands",
            PickerKind::Find => "Find a request",
            PickerKind::History => "History",
            PickerKind::Environments => "Environments",
        }
    }

    /// Whether typing narrows the list. The environments are few enough to
    /// read, which leaves their letters free to be commands.
    pub fn filters(self) -> (r: bool)
        ensures
            r == (self != PickerKind::Environments),
    {
        self != PickerKind::Environments
    }
}

/// The text `str::to_lowercase` makes of `text`: each character's full
/// Unicode lower case.
pub uninterp spec fn unicode_lower(text: Seq<char>) -> Seq<char>;

/// `str::to_lowercase`. The contract only names the result.
#[verifier::external_body]
pub(crate) fn to_lowercase(text: &str) -> (r: String)
    ensures
        r@ == unicode_lower(text@),
{
    text.to_lowercase()
}

/// Whether `needle`'s characters all occur in `haystack`, in order.
pub open spec fn is_subsequence(needle: Seq<char>, haystack: Seq<char>) -> bool
    decreases haystack.len(),
{
    if needle.len() == 0 {
        true
    } else if haystack.len() == 0 {
        false
    } else if needle[0] == haystack[0] {
        is_subsequence(needle.skip(1), haystack.skip(1))
    } else {
        is_subsequence(needle, haystack.skip(1))
    }
}

fn subsequence(needle: &Vec<char>, haystack: &Vec<char>) -> (r: bool)
    ensures
        r == is_subsequence(needle@, haystack@),
{
    let mut i: usize = 0;
    let mut j: usize = 0;
    assert(needle@.skip(0) == needle@);
    assert(haystack@.skip(0) == haystack@);
    while i < needle.len() && j < haystack.len()
        invariant
            i <= needle@.len(),
            j <= haystack@.len(),
            is_subsequence(needle@, haystack@) == is_subsequence(needle@.skip(i as int), haystack@.skip(j as int)),
        decreases haystack@.len() - j,
    {
        assert(needle@.skip(i as int)[0] == needle@[i as int]);
        assert(haystack@.skip(j as int)[0] == haystack@[j as int]);
        assert(haystack@.skip(j as int).skip(1) == haystack@.skip(j + 1));
        if needle[i] == haystack[j] {
            assert(needle@.skip(i as int).skip(1) == needle@.skip(i + 1));
            i += 1;
        }
        j += 1;
    }
    if i < needle.len() {
        assert(haystack@.skip(j as int).len() == 0);
        false
    } else {
        assert(needle@.skip(i as int).len() == 0);
        true
    }
}

/// One line of a picker: what it runs, and what it shows.
pub struct Entry<A> {
    pub method: Option<String>,
    pub label: String,
    pub detail: String,
    pub hint: &'static str,
    pub action: A,
}

/// What an entry is searched by: its method, label and detail, spaced.
pub open spec fn searched_text<A>(entry: Entry<A>) -> Seq<char> {
    let method = match entry.method {
        Some(method) => method@,
        None => Seq::empty(),
    };
    method + " "@ + entry.label@ + " "@ + entry.detail@
}

/// Whether an entry stays in the list under `query`: every entry for an
/// empty query, otherwise those its text holds the query's characters in
/// order, case aside.
pub open spec fn entry_matches<A>(entry: Entry<A>, query: Seq<char>) -> bool {
    let needle = unicode_lower(query);
    needle.len() == 0 || is_subsequence(needle, unicode_lower(searched_text(entry)))
}

/// The indices of the entries that match, in order.
pub open spec fn matching<A>(entries: Seq<Entry<A>>, query: Seq<char>) -> Seq<usize>
    decreases entries.len(),
{
    if entries.len() == 0 {
        Seq::empty()
    } else if entry_matches(entries.last(), query) {
        matching(entries.drop_last(), query).push((entries.len() - 1) as usize)
    } else {
        matching(entries.drop_last(), query)
    }
}

pub struct Picker<A> {
    pub kind: PickerKind,
    pub query: String,
    pub selected: usize,
    pub entries: Vec<Entry<A>>,
}

impl<A> Picker<A> {
    /// A picker on `entries`, `selected` held to the last of them.
    pub fn new(kind: PickerKind, entries: Vec<Entry<A>>, selected: usize) -> (r: Picker<A>)
        ensures
            r.kind == kind,
            r.query@.len() == 0,
            r.entries@ == entries@,
            r.selected == if entries@.len() == 0 { 0 } else if selected < entries@.len() { selected as int } else { entries@.len() - 1 },
    {
        let last = if entries.len() > 0 { entries.len() - 1 } else { 0 };
        let selected = if selected < last { selected } else { last };
        Picker { kind, query: String::new(), selected, entries }
    }

    /// The entries the query leaves, by index. Case-insensitive
    /// subsequence, so "lsusr" finds "list users".
    pub fn matches(&self) -> (r: Vec<usize>)
        ensures
            r@ == matching(self.entries@, self.query@),
    {
        let needle = chars_of(to_lowercase(self.query.as_str()).as_str());
        let mut out: Vec<usize> = Vec::new();
        let mut index: usize = 0;
        while index < self.entries.len()
            invariant
                index <= self.entries@.len(),
                needle@ == unicode_lower(self.query@),
                out@ == matching(self.entries@.take(index as int), self.query@),
            decreases self.entries@.len() - index,
        {
            let entry = &self.entries[index];
            assert(self.entries@.take(index + 1).drop_last() == self.entries@.take(index as int));
            assert(self.entries@.take(index + 1).last() == *entry);
            let keep = if needle.len() == 0 {
                true
            } else {
                let mut text = match &entry.method {
                    Some(method) => chars_of(method.as_str()),
                    None => Vec::new(),
                };
                text.push(' ');
                let mut text = concat(&text, &chars_of(entry.label.as_str()));
                text.push(' ');
                let text = concat(&text, &chars_of(entry.detail.as_str()));
                proof {
                    reveal_strlit(" ");
                }
                assert(text@ == searched_text(*entry));
                let lowered = chars_of(to_lowercase(string_of(&text).as_str()).as_str());
                subsequence(&needle, &lowered)
            };
            if keep {
                out.push(index);
            }
            index += 1;
        }
        assert(self.entries@.take(self.entries@.len() as int) == self.entries@);
        out
    }

    /// The entry under the selection.
    pub fn chosen(&self) -> (r: Option<usize>)
        ensures
            r == if self.selected < matching(self.entries@, self.query@).len() {
                Some(matching(self.entries@, self.query@)[self.selected as int])
            } else {
                None
            },
    {
        let matches = self.matches();
        if self.selected < matches.len() {
            Some(matches[self.selected])
        } else {
            None
        }
    }

    /// Moves the selection round the entries that match.
    pub fn move_selection(&mut self, delta: isize)
        ensures
            final(self).entries@ == old(self).entries@,
            final(self).query@ == old(self).query@,
            final(self).kind == old(self).kind,
            final(self).selected == if matching(old(self).entries@, old(self).query@).len() == 0 {
                0
            } else {
                (old(self).selected + delta) % (matching(old(self).entries@, old(self).query@).len() as int)
            },
    {
        let count = self.matches().len();
        if count == 0 {
            self.selected = 0;
            return;
        }
        let target = self.selected as i128 + delta as i128;
        let wrapped = crate::cycle::wrap(target, count);
        self.selected = wrapped;
    }

    /// A character typed into the query, which starts the selection over.
    pub fn push(&mut self, ch: char)
        ensures
            final(self).query@ == old(self).query@.push(ch),
            final(self).selected == 0,
            final(self).entries@ == old(self).entries@,
            final(self).kind == old(self).kind,
    {
        push_char(&mut self.query, ch);
        self.selected = 0;
    }

    /// The query's last character taken back.
    pub fn backspace(&mut self)
        ensures
            final(self).query@ == if old(self).query@.len() > 0 { old(self).query@.drop_last() } else { old(self).query@ },
            final(self).selected == 0,
            final(self).entries@ == old(self).entries@,
            final(self).kind == old(self).kind,
    {
        let chars = chars_of(self.query.as_str());
        if chars.len() > 0 {
            self.query = string_of(&crate::text::slice(&chars, 0, chars.len() - 1));
        }
        self.selected = 0;
    }
}

/// The prompt for where to write a request or a response.
pub struct SavePrompt {
    pub input: LineInput,
    pub error: Option<String>,
}

#[derive(Debug, Clone, Copy, PartialEq, Eq, Structural)]
pub enum FormField {
    Path,
    Name,
    /// Which file it is saved in. Only offered when there is a project to
    /// save in — with one file there is nothing to choose.
    Scope,
}

impl FormField {
    pub fn label(self) -> (r: &'static str)
        ensures
            r@ == match self {
                FormField::Path => "Path"@,
                FormField::Name => "Name"@,
                FormField::Scope => "Saved in"@,
            },
    {
        match self {
            FormField::Path => "Path",
            FormField::Name => "Name",
            FormField::Scope => "Saved in",
        }
    }
}

/// Registering a collection, or changing one: binsql's connection form, for a
/// location rather than a database.
pub struct CollectionForm {
    pub path: LineInput,
    /// Left empty, the collection is named after what the path points at.
    pub name: LineInput,
    pub scope: Scope,
    pub field: FormField,
    /// The name it is saved under, when it is being edited.
    pub editing: Option<String>,
    /// The project file as it is worth showing, when there is one to save
    /// in. `None` leaves Saved in out of the form.
    pub project: Option<String>,
    /// Your collections file, as it is worth showing.
    pub user: String,
    pub error: Option<String>,
}

/// The fields a form shows, in order: Saved in only when there is a project.
pub open spec fn form_fields(has_project: bool) -> Seq<FormField> {
    if has_project {
        seq![FormField::Path, FormField::Name, FormField::Scope]
    } else {
        seq![FormField::Path, FormField::Name]
    }
}

impl CollectionForm {
    /// The form on `path` and `name`, saving to `scope`, with the files it
    /// can be saved in as they are shown. The focus starts on the path.
    pub fn build(path: LineInput, name: LineInput, scope: Scope, editing: Option<String>, project: Option<String>, user: String) -> (r: CollectionForm)
        ensures
            r.path == path,
            r.name == name,
            r.scope == scope,
            r.field == FormField::Path,
            r.editing == editing,
            r.project == project,
            r.user == user,
            r.error is None,
    {
        CollectionForm { path, name, scope, field: FormField::Path, editing, project, user, error: None }
    }

    /// The fields the form shows, in order.
    pub fn fields(&self) -> (r: Vec<FormField>)
        ensures
            r@ == form_fields(self.project is Some),
    {
        let mut fields = Vec::new();
        fields.push(FormField::Path);
        fields.push(FormField::Name);
        if self.project.is_some() {
            fields.push(FormField::Scope);
        }
        assert(fields@ =~= form_fields(self.project is Some));
        fields
    }

    /// Moves the focus `delta` fields round.
    pub fn next_field(&mut self, delta: isize)
        ensures
            ({
                let fields = form_fields(old(self).project is Some);
                let position = if old(self).field == FormField::Name { 1int } else if old(self).field == FormField::Scope && old(self).project is Some { 2int } else { 0int };
                final(self).field == fields[(position + delta) % (fields.len() as int)]
            }),
            final(self).path == old(self).path,
            final(self).name == old(self).name,
            final(self).scope == old(self).scope,
            final(self).project == old(self).project,
    {
        let fields = self.fields();
        let mut k: usize = 0;
        while k < fields.len() && fields[k] != self.field
            invariant
                k <= fields@.len(),
                fields@ == form_fields(self.project is Some),
                forall|j: int| 0 <= j < k ==> fields@[j] != self.field,
            decreases fields@.len() - k,
        {
            k += 1;
        }
        let position = if k < fields.len() { k } else { 0 };
        let next = crate::cycle::step(position, fields.len(), delta);
        self.field = fields[next];
    }

    /// Switches between the project's file and yours, when there is a
    /// project to switch to.
    pub fn toggle_scope(&mut self)
        ensures
            final(self).scope == if old(self).project is Some {
                match old(self).scope {
                    Scope::Project => Scope::User,
                    Scope::User => Scope::Project,
                }
            } else {
                old(self).scope
            },
            final(self).field == old(self).field,
            final(self).project == old(self).project,
    {
        if self.project.is_some() {
            self.scope = match self.scope {
                Scope::Project => Scope::User,
                Scope::User => Scope::Project,
            };
        }
    }

    /// The text field in focus, when the focus is on one.
    pub fn input(&mut self) -> (r: Option<&mut LineInput>)
        ensures
            match old(self).field {
                FormField::Path => r is Some && *r.unwrap() == old(self).path && final(self).path == *final(r.unwrap())
                    && final(self).name == old(self).name,
                FormField::Name => r is Some && *r.unwrap() == old(self).name && final(self).name == *final(r.unwrap())
                    && final(self).path == old(self).path,
                FormField::Scope => r is None && final(self).path == old(self).path && final(self).name == old(self).name,
            },
            final(self).field == old(self).field,
            final(self).scope == old(self).scope,
    {
        match self.field {
            FormField::Path => Some(&mut self.path),
            FormField::Name => Some(&mut self.name),
            FormField::Scope => None,
        }
    }

    /// The file it will be written to, named by its path.
    pub fn scope_display(&self) -> (r: String)
        ensures
            r@ == match self.scope {
                Scope::Project => match self.project {
                    Some(project) => project@,
                    None => Seq::<char>::empty(),
                },
                Scope::User => self.user@,
            },
    {
        match self.scope {
            Scope::Project => match &self.project {
                Some(project) => project.clone(),
                None => String::new(),
            },
            Scope::User => self.user.clone(),
        }
    }

    /// What the collection will be called if Name is left empty: nothing
    /// while no path is typed, otherwise the name of `typed`, the typed path
    /// as it resolves, which `is_dir` says is a directory or not.
    pub fn placeholder(&self, typed: &str, is_dir: bool) -> (r: String)
        ensures
            r@ == if trim(self.path.chars()).len() == 0 { Seq::<char>::empty() } else { collection_name(typed@, is_dir) },
    {
        if trim_chars(&chars_of(self.path.text())).len() == 0 {
            return String::new();
        }
        name_for(typed, is_dir)
    }
}

} // verus!

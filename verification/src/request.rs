//! One request, however it was written down.

use vstd::prelude::*;

use crate::body::{BodyKind, detected};
use crate::text::{chars_of, eq_ignore_case, same_ignoring_case};
use crate::varmap::{Vars, pair_views};

verus! {

/// The methods binman offers, in the order ↑ and ↓ step through them.
pub const METHODS: [&'static str; 7] = ["GET", "POST", "PUT", "PATCH", "DELETE", "HEAD", "OPTIONS"];

/// [`METHODS`], as text.
pub open spec fn methods() -> Seq<Seq<char>> {
    seq!["GET"@, "POST"@, "PUT"@, "PATCH"@, "DELETE"@, "HEAD"@, "OPTIONS"@]
}

/// The method at `index` in [`METHODS`].
pub fn method_at(index: usize) -> (r: &'static str)
    requires
        index < 7,
    ensures
        r@ == methods()[index as int],
{
    match index {
        0 => "GET",
        1 => "POST",
        2 => "PUT",
        3 => "PATCH",
        4 => "DELETE",
        5 => "HEAD",
        _ => "OPTIONS",
    }
}

/// Whether `text` names one of the methods binman offers, in any case.
pub open spec fn names_method(text: Seq<char>) -> bool {
    exists|i: int| 0 <= i < 7 && eq_ignore_case(#[trigger] methods()[i], text)
}

/// Where the first header called `name`, in any case, sits.
pub open spec fn header_at(headers: Seq<(Seq<char>, Seq<char>)>, name: Seq<char>, i: int) -> bool {
    &&& 0 <= i < headers.len()
    &&& eq_ignore_case(headers[i].0, name)
    &&& forall|j: int| 0 <= j < i ==> !eq_ignore_case(#[trigger] headers[j].0, name)
}

/// The value of the first header called `name`, in any case.
pub open spec fn header_value(headers: Seq<(Seq<char>, Seq<char>)>, name: Seq<char>) -> Option<Seq<char>> {
    if exists|i: int| header_at(headers, name, i) {
        Some(headers[choose|i: int| header_at(headers, name, i)].1)
    } else {
        None
    }
}

/// `headers` after setting `name` to `value`: the first header of that name
/// takes the value, or the pair is appended when there is none.
pub open spec fn with_header(headers: Seq<(Seq<char>, Seq<char>)>, name: Seq<char>, value: Seq<char>) -> Seq<(Seq<char>, Seq<char>)> {
    if exists|i: int| header_at(headers, name, i) {
        let i = choose|i: int| header_at(headers, name, i);
        headers.update(i, (headers[i].0, value))
    } else {
        headers.push((name, value))
    }
}

pub proof fn lemma_header_at_unique(headers: Seq<(Seq<char>, Seq<char>)>, name: Seq<char>, i: int)
    requires
        header_at(headers, name, i),
    ensures
        (choose|k: int| header_at(headers, name, k)) == i,
{
    let k = choose|k: int| header_at(headers, name, k);
    assert(header_at(headers, name, k));
    if k < i {
        assert(!eq_ignore_case(headers[k].0, name));
    }
    if i < k {
        assert(!eq_ignore_case(headers[i].0, name));
    }
}

#[derive(Debug, Clone, PartialEq, Eq)]
pub struct Request {
    pub method: String,
    pub url: String,
    /// In the order the file gives them. A header may repeat; nothing here
    /// collapses duplicates, since a server may read every one it is sent.
    pub headers: Vec<(String, String)>,
    pub body: String,
    /// The body's shape when the file says so outright, as a Bruno
    /// `body:json` block does. `None` leaves it to the `Content-Type`.
    pub kind: Option<BodyKind>,
    /// Variables the file declares for itself: Bruno's `vars` and
    /// `vars:pre-request`. They outrank the environment.
    pub vars: Vars,
}

impl Default for Request {
    fn default() -> (r: Request)
        ensures
            r.is_empty(),
    {
        Request::empty()
    }
}

impl Request {
    /// No method, no URL, no headers, no body and no variables.
    pub open spec fn is_empty(&self) -> bool {
        &&& self.method@.len() == 0
        &&& self.url@.len() == 0
        &&& self.headers@.len() == 0
        &&& self.body@.len() == 0
        &&& self.kind is None
        &&& self.vars@ == Map::<Seq<char>, Seq<char>>::empty()
    }

    /// The headers as text pairs.
    pub open spec fn header_pairs(&self) -> Seq<(Seq<char>, Seq<char>)> {
        pair_views(self.headers@)
    }

    pub fn empty() -> (r: Request)
        ensures
            r.is_empty(),
    {
        Request {
            method: String::new(),
            url: String::new(),
            headers: Vec::new(),
            body: String::new(),
            kind: None,
            vars: Vars::new(),
        }
    }

    pub fn header(&self, name: &str) -> (r: Option<&str>)
        ensures
            match r {
                Some(v) => header_value(self.header_pairs(), name@) == Some(v@),
                None => header_value(self.header_pairs(), name@) is None,
            },
    {
        header(&self.headers, name)
    }

    /// The body kind the request declares, or the one its headers imply.
    pub fn body_kind(&self) -> (r: BodyKind)
        ensures
            r == match self.kind {
                Some(kind) => kind,
                None => detected(header_value(self.header_pairs(), "Content-Type"@), self.body@),
            },
    {
        match self.kind {
            Some(kind) => kind,
            None => BodyKind::detect(self.header("Content-Type"), self.body.as_str()),
        }
    }
}

/// Whether `text` names one of the methods binman offers, in any case.
pub fn is_method(text: &str) -> (r: bool)
    ensures
        r == names_method(text@),
{
    let chars = chars_of(text);
    let mut i: usize = 0;
    while i < 7
        invariant
            i <= 7,
            chars@ == text@,
            forall|j: int| 0 <= j < i ==> !eq_ignore_case(#[trigger] methods()[j], text@),
        decreases 7 - i,
    {
        let method = chars_of(method_at(i));
        if same_ignoring_case(&method, &chars) {
            return true;
        }
        i += 1;
    }
    false
}

/// Where the first header called `name`, in any case, sits.
pub fn find_header(headers: &[(String, String)], name: &str) -> (r: Option<usize>)
    ensures
        match r {
            Some(i) => header_at(pair_views(headers@), name@, i as int),
            None => !exists|i: int| header_at(pair_views(headers@), name@, i),
        },
{
    let wanted = chars_of(name);
    let ghost pairs = pair_views(headers@);
    let mut i: usize = 0;
    while i < headers.len()
        invariant
            i <= headers@.len(),
            pairs == pair_views(headers@),
            wanted@ == name@,
            forall|j: int| 0 <= j < i ==> !eq_ignore_case(#[trigger] pairs[j].0, name@),
        decreases headers@.len() - i,
    {
        let key = chars_of(headers[i].0.as_str());
        if same_ignoring_case(&key, &wanted) {
            return Some(i);
        }
        i += 1;
    }
    None
}

/// A header's value. Header names are case-insensitive on the wire, so they
/// are here.
pub fn header<'a>(headers: &'a [(String, String)], name: &str) -> (r: Option<&'a str>)
    ensures
        match r {
            Some(v) => header_value(pair_views(headers@), name@) == Some(v@),
            None => header_value(pair_views(headers@), name@) is None,
        },
{
    match find_header(headers, name) {
        Some(i) => {
            proof {
                lemma_header_at_unique(pair_views(headers@), name@, i as int);
            }
            Some(headers[i].1.as_str())
        },
        None => None,
    }
}

/// Replaces a header wherever it is, whatever case it was written in, or
/// appends it when there is none.
pub fn set_header(headers: &mut Vec<(String, String)>, name: &str, value: &str)
    ensures
        pair_views(final(headers)@) == with_header(pair_views(old(headers)@), name@, value@),
{
    let ghost before = pair_views(headers@);
    match find_header(headers, name) {
        Some(i) => {
            proof {
                lemma_header_at_unique(before, name@, i as int);
            }
            let key = headers[i].0.clone();
            headers.set(i, (key, value.to_string()));
            assert(pair_views(headers@) == before.update(i as int, (before[i as int].0, value@)));
        },
        None => {
            headers.push((name.to_string(), value.to_string()));
            assert(pair_views(headers@) == before.push((name@, value@)));
        },
    }
}

/// Setting a header and reading it back, in any case, gives the value set;
/// and setting one the headers already have replaces it rather than adding
/// another.
pub proof fn set_header_then_read(headers: Seq<(Seq<char>, Seq<char>)>, name: Seq<char>, value: Seq<char>)
    ensures
        header_value(with_header(headers, name, value), name) == Some(value),
        (exists|i: int| header_at(headers, name, i)) ==> with_header(headers, name, value).len() == headers.len(),
        !(exists|i: int| header_at(headers, name, i)) ==> with_header(headers, name, value) == headers.push((name, value)),
{
    let after = with_header(headers, name, value);
    if exists|i: int| header_at(headers, name, i) {
        let i = choose|i: int| header_at(headers, name, i);
        assert(header_at(after, name, i));
        lemma_header_at_unique(after, name, i);
    } else {
        let k = headers.len() as int;
        assert(after[k] == (name, value));
        assert(eq_ignore_case(name, name));
        assert forall|j: int| 0 <= j < k implies !eq_ignore_case(#[trigger] after[j].0, name) by {
            assert(after[j] == headers[j]);
            if eq_ignore_case(after[j].0, name) {
                assert(header_at(headers, name, j)) by {
                    lemma_first_header(headers, name, j);
                }
            }
        }
        assert(header_at(after, name, k));
        lemma_header_at_unique(after, name, k);
    }
}

/// A header of that name at `j` means there is a first one.
proof fn lemma_first_header(headers: Seq<(Seq<char>, Seq<char>)>, name: Seq<char>, j: int)
    requires
        0 <= j < headers.len(),
        eq_ignore_case(headers[j].0, name),
    ensures
        exists|i: int| header_at(headers, name, i),
    decreases j,
{
    if exists|k: int| 0 <= k < j && eq_ignore_case(#[trigger] headers[k].0, name) {
        let k = choose|k: int| 0 <= k < j && eq_ignore_case(#[trigger] headers[k].0, name);
        lemma_first_header(headers, name, k);
    } else {
        assert(header_at(headers, name, j));
    }
}

} // verus!

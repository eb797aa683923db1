//! What a request body is, and how each kind goes on the wire.

use vstd::prelude::*;

use crate::cycle::step;
use crate::encoding::{form_pairs, form_parse, form_serialize, form_serialized};
use crate::error::Error;
use crate::random::{random_bytes, random_error_text};
use crate::paths::{join_path, joined_path};
use crate::workspace::{file_name_of, path_file_name};
use vstd::utf8::encode_utf8;
use crate::text::{
    append, chars_of, is_space, join, join_chars, lemma_split_extend, lower, lower_chars, same, slice, split,
    split_chars, starts_with, string_of, trim, trim_chars, trim_end, trim_start, views,
};
use crate::varmap::pair_views;
use crate::vars::{placeholder_at, placeholders};

verus! {

#[derive(Debug, Clone, Copy, PartialEq, Eq, Hash, Structural)]
pub enum BodyKind {
    NoBody,
    Json,
    Form,
    Multipart,
    Xml,
    Text,
    Sparql,
}

/// The order ← and → step through the kinds.
pub open spec fn body_kinds() -> Seq<BodyKind> {
    seq![
        BodyKind::NoBody,
        BodyKind::Json,
        BodyKind::Form,
        BodyKind::Multipart,
        BodyKind::Xml,
        BodyKind::Text,
        BodyKind::Sparql,
    ]
}

/// Where a kind sits in that order.
pub open spec fn body_kind_position(kind: BodyKind) -> int {
    match kind {
        BodyKind::NoBody => 0,
        BodyKind::Json => 1,
        BodyKind::Form => 2,
        BodyKind::Multipart => 3,
        BodyKind::Xml => 4,
        BodyKind::Text => 5,
        BodyKind::Sparql => 6,
    }
}

/// What a `Content-Type` says a body is, when it says. `essence` is the part
/// before any `;`, trimmed and in lower case.
pub open spec fn kind_of_essence(essence: Seq<char>) -> Option<BodyKind> {
    if essence == "application/json"@ {
        Some(BodyKind::Json)
    } else if essence == "application/xml"@ || essence == "text/xml"@ {
        Some(BodyKind::Xml)
    } else if essence == "text/plain"@ {
        Some(BodyKind::Text)
    } else if essence == "application/sparql-query"@ {
        Some(BodyKind::Sparql)
    } else if essence == "application/x-www-form-urlencoded"@ {
        Some(BodyKind::Form)
    } else if essence == "multipart/form-data"@ {
        Some(BodyKind::Multipart)
    } else {
        None
    }
}

/// The media type of a `Content-Type` value: before any `;`, trimmed, in
/// lower case.
pub open spec fn essence_of(content_type: Seq<char>) -> Seq<char> {
    lower(trim(split(content_type, ';')[0]))
}

/// The `Content-Type` decides, and a body that arrives without one is taken
/// for JSON.
pub open spec fn detected(content_type: Option<Seq<char>>, body: Seq<char>) -> BodyKind {
    let known = match content_type {
        Some(value) => kind_of_essence(essence_of(value)),
        None => None,
    };
    match known {
        Some(kind) => kind,
        None => if body.len() > 0 { BodyKind::Json } else { BodyKind::NoBody },
    }
}

/// What a body kind is sent as when the request does not say.
pub open spec fn default_type(kind: BodyKind) -> Option<Seq<char>> {
    match kind {
        BodyKind::NoBody => None,
        BodyKind::Json => Some("application/json"@),
        BodyKind::Form => Some("application/x-www-form-urlencoded"@),
        BodyKind::Multipart => Some("multipart/form-data"@),
        BodyKind::Xml => Some("application/xml"@),
        BodyKind::Text => Some("text/plain"@),
        BodyKind::Sparql => Some("application/sparql-query"@),
    }
}

/// Text with no `c` in it splits into itself alone.
proof fn lemma_split_whole(s: Seq<char>, c: char)
    requires
        forall|i: int| 0 <= i < s.len() ==> s[i] != c,
    ensures
        split(s, c) == seq![s],
{
    lemma_split_extend(Seq::empty(), s, c);
    assert(Seq::<char>::empty() + s =~= s);
    assert(seq![Seq::<char>::empty()].update(0, Seq::<char>::empty() + s) =~= seq![s]);
}

/// A media type written in lower case, with no parameters and no space
/// round it, is its own essence.
proof fn lemma_plain_essence(s: Seq<char>)
    requires
        s.len() > 0,
        forall|i: int| 0 <= i < s.len() ==> ('a' <= #[trigger] s[i] <= 'z' || s[i] == '/' || s[i] == '-'),
    ensures
        essence_of(s) == s,
{
    lemma_split_whole(s, ';');
    assert(split(s, ';')[0] == s);
    assert(!is_space(s[0]));
    assert(!is_space(s.last()));
    assert(trim_start(s) == s);
    assert(trim_end(s) == s);
    assert(lower(s) =~= s);
}

/// The `Content-Type` a kind is sent as reads back as that kind; a kind
/// that sends none, with no body to look at, reads back as no body.
pub proof fn content_type_reads_back(kind: BodyKind)
    ensures
        detected(default_type(kind), Seq::<char>::empty()) == kind,
{
    reveal_strlit("application/json");
    reveal_strlit("application/xml");
    reveal_strlit("text/xml");
    reveal_strlit("text/plain");
    reveal_strlit("application/sparql-query");
    reveal_strlit("application/x-www-form-urlencoded");
    reveal_strlit("multipart/form-data");
    match kind {
        BodyKind::NoBody => {
            let nothing = Seq::<char>::empty();
            assert(nothing.len() == 0);
        },
        BodyKind::Json => {
            lemma_plain_essence("application/json"@);
        },
        BodyKind::Form => {
            lemma_plain_essence("application/x-www-form-urlencoded"@);
        },
        BodyKind::Multipart => {
            lemma_plain_essence("multipart/form-data"@);
        },
        BodyKind::Xml => {
            lemma_plain_essence("application/xml"@);
        },
        BodyKind::Text => {
            lemma_plain_essence("text/plain"@);
        },
        BodyKind::Sparql => {
            lemma_plain_essence("application/sparql-query"@);
        },
    }
}

impl BodyKind {
    /// The kind at `position` in the order ← and → step through.
    pub fn at(position: usize) -> (r: BodyKind)
        requires
            position < 7,
        ensures
            r == body_kinds()[position as int],
            body_kind_position(r) == position,
    {
        match position {
            0 => BodyKind::NoBody,
            1 => BodyKind::Json,
            2 => BodyKind::Form,
            3 => BodyKind::Multipart,
            4 => BodyKind::Xml,
            5 => BodyKind::Text,
            _ => BodyKind::Sparql,
        }
    }

    pub fn position(self) -> (r: usize)
        ensures
            r == body_kind_position(self),
            r < 7,
            body_kinds()[r as int] == self,
    {
        match self {
            BodyKind::NoBody => 0,
            BodyKind::Json => 1,
            BodyKind::Form => 2,
            BodyKind::Multipart => 3,
            BodyKind::Xml => 4,
            BodyKind::Text => 5,
            BodyKind::Sparql => 6,
        }
    }

    pub fn label(self) -> (r: &'static str)
        ensures
            r@ == match self {
                BodyKind::NoBody => "No body"@,
                BodyKind::Json => "JSON"@,
                BodyKind::Form => "Form URL-encoded"@,
                BodyKind::Multipart => "Multipart form"@,
                BodyKind::Xml => "XML"@,
                BodyKind::Text => "Text"@,
                BodyKind::Sparql => "SPARQL"@,
            },
    {
        match self {
            BodyKind::NoBody => "No body",
            BodyKind::Json => "JSON",
            BodyKind::Form => "Form URL-encoded",
            BodyKind::Multipart => "Multipart form",
            BodyKind::Xml => "XML",
            BodyKind::Text => "Text",
            BodyKind::Sparql => "SPARQL",
        }
    }

    /// What the body is sent as when the request does not say itself.
    pub fn content_type(self) -> (r: Option<&'static str>)
        ensures
            match r {
                Some(t) => default_type(self) == Some(t@),
                None => default_type(self) is None,
            },
    {
        match self {
            BodyKind::NoBody => None,
            BodyKind::Json => Some("application/json"),
            BodyKind::Form => Some("application/x-www-form-urlencoded"),
            BodyKind::Multipart => Some("multipart/form-data"),
            BodyKind::Xml => Some("application/xml"),
            BodyKind::Text => Some("text/plain"),
            BodyKind::Sparql => Some("application/sparql-query"),
        }
    }

    /// Edited as a table of fields rather than as text.
    pub fn is_form(self) -> (r: bool)
        ensures
            r == (self == BodyKind::Form || self == BodyKind::Multipart),
    {
        matches!(self, BodyKind::Form | BodyKind::Multipart)
    }

    /// The `Content-Type` decides, and a body that arrives without one is
    /// taken for JSON, the commonest thing to send.
    pub fn detect(content_type: Option<&str>, body: &str) -> (r: BodyKind)
        ensures
            r == detected(
                match content_type {
                    Some(t) => Some(t@),
                    None => None,
                },
                body@,
            ),
    {
        let known = match content_type {
            Some(value) => {
                let chars = chars_of(value);
                let pieces = split_chars(&chars, ';');
                let essence = lower_chars(&trim_chars(&pieces[0]));
                kind_of_essence_exec(&essence)
            },
            None => None,
        };
        match known {
            Some(kind) => kind,
            None => if !body.is_empty() {
                BodyKind::Json
            } else {
                BodyKind::NoBody
            },
        }
    }

    /// The kind `delta` steps round from this one.
    pub fn cycle(self, delta: isize) -> (r: BodyKind)
        ensures
            r == body_kinds()[(body_kind_position(self) + delta) % 7],
    {
        BodyKind::at(step(self.position(), 7, delta))
    }
}

fn kind_of_essence_exec(essence: &[char]) -> (r: Option<BodyKind>)
    ensures
        r == kind_of_essence(essence@),
{
    if same(essence, &chars_of("application/json")) {
        Some(BodyKind::Json)
    } else if same(essence, &chars_of("application/xml")) || same(essence, &chars_of("text/xml")) {
        Some(BodyKind::Xml)
    } else if same(essence, &chars_of("text/plain")) {
        Some(BodyKind::Text)
    } else if same(essence, &chars_of("application/sparql-query")) {
        Some(BodyKind::Sparql)
    } else if same(essence, &chars_of("application/x-www-form-urlencoded")) {
        Some(BodyKind::Form)
    } else if same(essence, &chars_of("multipart/form-data")) {
        Some(BodyKind::Multipart)
    } else {
        None
    }
}

/// Splits `a=1&b=two` into pairs, decoding `%XX` and `+` the way a form
/// does.
pub fn parse_form(body: &str) -> (r: Vec<(String, String)>)
    ensures
        pair_views(r@) == form_pairs(trim(body@)),
{
    let trimmed = string_of(&trim_chars(&chars_of(body)));
    form_parse(trimmed.as_str())
}

/// `s` from `p` on, form-encoded except for its placeholders, which are
/// kept as written.
pub open spec fn encoded_from(s: Seq<char>, p: int, plain_start: int) -> Seq<char>
    decreases s.len() - p,
{
    if p < 0 || p >= s.len() {
        form_serialized(s.subrange(plain_start, s.len() as int))
    } else {
        match placeholder_at(s, p) {
            Some(j) => form_serialized(s.subrange(plain_start, p)) + s.subrange(p, j + 2) + encoded_from(s, j + 2, j + 2),
            None => encoded_from(s, p + 1, plain_start),
        }
    }
}

/// One side of a form pair, percent-encoded except for its placeholders.
pub open spec fn form_encoded(text: Seq<char>) -> Seq<char> {
    encoded_from(text, 0, 0)
}

/// One side of a form pair, percent-encoded except for its placeholders.
fn encode(text: &str) -> (r: Vec<char>)
    ensures
        r@ == form_encoded(text@),
{
    let s = chars_of(text);
    let total = s.len();
    let mut out: Vec<char> = Vec::new();
    let mut plain_start: usize = 0;
    let mut p: usize = 0;
    while p < s.len()
        invariant
            plain_start <= p <= s@.len(),
            total == s@.len(),
            s@ == text@,
            out@ + encoded_from(s@, p as int, plain_start as int) == form_encoded(text@),
        decreases s@.len() - p,
    {
        match crate::vars::placeholder_end(&s, p) {
            Some(j) => {
                let ghost before = out@;
                let plain = form_serialize(string_of(&slice(&s, plain_start, p)).as_str());
                append(&mut out, &chars_of(plain.as_str()));
                let written = slice(&s, p, j + 2);
                append(&mut out, &written);
                assert(out@ + encoded_from(s@, j + 2, j + 2) == before + encoded_from(s@, p as int, plain_start as int));
                p = j + 2;
                plain_start = p;
            },
            None => {
                p += 1;
            },
        }
    }
    let rest = form_serialize(string_of(&slice(&s, plain_start, s.len())).as_str());
    append(&mut out, &chars_of(rest.as_str()));
    out
}

/// The pairs with a name, each as `name=value` encoded.
pub open spec fn form_fields(pairs: Seq<(Seq<char>, Seq<char>)>) -> Seq<Seq<char>>
    decreases pairs.len(),
{
    if pairs.len() == 0 {
        Seq::empty()
    } else if pairs.last().0.len() == 0 {
        form_fields(pairs.drop_last())
    } else {
        form_fields(pairs.drop_last()).push(form_encoded(pairs.last().0) + "="@ + form_encoded(pairs.last().1))
    }
}

/// Joins pairs back into a form body. `{{placeholders}}` are left as they
/// are rather than percent-encoded, or they would never resolve again.
pub fn encode_form(pairs: &[(String, String)]) -> (r: String)
    ensures
        r@ == join(form_fields(pair_views(pairs@)), "&"@),
{
    let ghost all = pair_views(pairs@);
    let mut fields: Vec<Vec<char>> = Vec::new();
    let mut i: usize = 0;
    while i < pairs.len()
        invariant
            i <= pairs@.len(),
            all == pair_views(pairs@),
            views(fields@) == form_fields(all.take(i as int)),
        decreases pairs@.len() - i,
    {
        let ghost t = all.take(i + 1);
        assert(t.drop_last() == all.take(i as int));
        if !pairs[i].0.as_str().is_empty() {
            let mut field = encode(pairs[i].0.as_str());
            append(&mut field, &chars_of("="));
            let value = encode(pairs[i].1.as_str());
            append(&mut field, &value);
            let ghost before = views(fields@);
            fields.push(field);
            assert(views(fields@) == before.push(field@));
        }
        i += 1;
    }
    assert(all.take(pairs@.len() as int) == all);
    string_of(&join_chars(&fields, &chars_of("&")))
}

/// A `multipart/form-data` body and the `Content-Type` that goes with it.
pub struct Multipart {
    pub body: Vec<u8>,
    /// Carries the boundary, so it replaces whatever `Content-Type` the
    /// request had: a multipart body is unreadable without it.
    pub content_type: String,
}


/// A lowercase hex digit.
pub open spec fn lower_hex(n: u8) -> char {
    if n < 10 {
        ((48 + n) as u8) as char
    } else {
        ((87 + n) as u8) as char
    }
}

/// The bytes written as lowercase hex, two digits each.
pub open spec fn hex_text(bytes: Seq<u8>) -> Seq<char>
    decreases bytes.len(),
{
    if bytes.len() == 0 {
        Seq::empty()
    } else {
        hex_text(bytes.drop_last()) + seq![lower_hex(bytes.last() / 16), lower_hex(bytes.last() % 16)]
    }
}

fn lower_hex_exec(n: u8) -> (r: char)
    requires
        n < 16,
    ensures
        r == lower_hex(n),
{
    if n < 10 {
        ((48 + n) as u8) as char
    } else {
        ((87 + n) as u8) as char
    }
}

/// A fresh boundary for a multipart body: sixteen random bytes in hex.
pub fn boundary() -> (r: Result<String, Error>)
    ensures
        match r {
            Ok(b) => b@.len() == 32 && exists|bytes: Seq<u8>| bytes.len() == 16 && b@ == hex_text(bytes),
            Err(e) => e matches Error::Invalid(text) && starts_with(text@, "no randomness for a multipart boundary: "@),
        },
{
    match random_bytes() {
        Ok(bytes) => {
            let mut out: Vec<char> = Vec::new();
            let mut i: usize = 0;
            assert(bytes@.take(0) =~= Seq::<u8>::empty());
            while i < 16
                invariant
                    i <= 16,
                    bytes@.len() == 16,
                    out@ == hex_text(bytes@.take(i as int)),
                    out@.len() == 2 * i,
                decreases 16 - i,
            {
                let b = bytes[i];
                assert(bytes@.take(i + 1).drop_last() =~= bytes@.take(i as int));
                out.push(lower_hex_exec(b / 16));
                out.push(lower_hex_exec(b % 16));
                assert(out@ =~= hex_text(bytes@.take(i as int)) + seq![lower_hex(b / 16), lower_hex(b % 16)]);
                i += 1;
            }
            assert(bytes@.take(16) =~= bytes@);
            Ok(string_of(&out))
        },
        Err(error) => {
            let lead = chars_of("no randomness for a multipart boundary: ");
            let mut message = chars_of("no randomness for a multipart boundary: ");
            append(&mut message, &chars_of(random_error_text(&error).as_str()));
            assert(message@.take(lead@.len() as int) =~= lead@);
            Err(Error::Invalid(string_of(&message)))
        },
    }
}

/// The file a form value names for upload: what follows its `@`.
pub open spec fn upload_of(value: Seq<char>) -> Option<Seq<char>> {
    if value.len() > 0 && value[0] == '@' {
        Some(value.skip(1))
    } else {
        None
    }
}

/// Where an upload is read from: under `base`, the directory the request
/// came from, when there is one.
pub open spec fn upload_path(file: Seq<char>, base: Option<Seq<char>>) -> Seq<char> {
    match base {
        Some(dir) => joined_path(dir, file),
        None => file,
    }
}

/// The files the fields upload, in order, each where it is read from.
pub open spec fn upload_paths(fields: Seq<(Seq<char>, Seq<char>)>, base: Option<Seq<char>>) -> Seq<Seq<char>>
    decreases fields.len(),
{
    if fields.len() == 0 {
        Seq::empty()
    } else {
        let rest = upload_paths(fields.drop_last(), base);
        let (name, value) = fields.last();
        if name.len() > 0 && upload_of(value) is Some {
            rest.push(upload_path(upload_of(value)->0, base))
        } else {
            rest
        }
    }
}

/// `text` with `\` and `"` escaped, for a quoted header parameter.
pub open spec fn quoted(text: Seq<char>) -> Seq<char>
    decreases text.len(),
{
    if text.len() == 0 {
        Seq::empty()
    } else {
        let c = text.last();
        quoted(text.drop_last()) + (if c == '\\' {
            seq!['\\', '\\']
        } else if c == '"' {
            seq!['\\', '"']
        } else {
            seq![c]
        })
    }
}

/// The head of a part that carries a field's value.
pub open spec fn field_head(boundary: Seq<char>, name: Seq<char>) -> Seq<char> {
    "--"@ + boundary + "\r\n"@ + "Content-Disposition: form-data; name=\""@ + quoted(name) + "\"\r\n\r\n"@
}

/// The head of a part that carries a file.
pub open spec fn file_head(boundary: Seq<char>, name: Seq<char>, filename: Seq<char>) -> Seq<char> {
    "--"@ + boundary + "\r\n"@ + "Content-Disposition: form-data; name=\""@ + quoted(name) + "\"; filename=\""@
        + quoted(filename) + "\"\r\nContent-Type: application/octet-stream\r\n\r\n"@
}

/// The message for an upload that could not be read.
pub open spec fn unread_message(path: Seq<char>, name: Seq<char>, why: Seq<char>) -> Seq<char> {
    "reading "@ + path + " for the "@ + name + " field: "@ + why
}

/// The parts of the fields, given what reading each upload gave, or the
/// message for the first upload that could not be read.
pub open spec fn parts(
    fields: Seq<(Seq<char>, Seq<char>)>,
    base: Option<Seq<char>>,
    boundary: Seq<char>,
    files: Seq<Result<Seq<u8>, Seq<char>>>,
) -> Result<Seq<u8>, Seq<char>>
    decreases fields.len(),
{
    if fields.len() == 0 {
        Ok(Seq::empty())
    } else {
        let rest = fields.drop_last();
        let (name, value) = fields.last();
        match parts(rest, base, boundary, files) {
            Err(why) => Err(why),
            Ok(before) => if name.len() == 0 {
                Ok(before)
            } else {
                match upload_of(value) {
                    None => Ok(before + encode_utf8(field_head(boundary, name) + value) + encode_utf8("\r\n"@)),
                    Some(file) => {
                        let path = upload_path(file, base);
                        let filename = match path_file_name(path) {
                            Some(n) => n,
                            None => Seq::empty(),
                        };
                        match files[upload_paths(rest, base).len() as int] {
                            Err(why) => Err(unread_message(path, name, why)),
                            Ok(contents) => Ok(before + encode_utf8(file_head(boundary, name, filename)) + contents
                                + encode_utf8("\r\n"@)),
                        }
                    },
                }
            },
        }
    }
}

/// The bytes of a multipart body: the parts, then the closing boundary.
pub open spec fn multipart_bytes(
    fields: Seq<(Seq<char>, Seq<char>)>,
    base: Option<Seq<char>>,
    boundary: Seq<char>,
    files: Seq<Result<Seq<u8>, Seq<char>>>,
) -> Result<Seq<u8>, Seq<char>> {
    match parts(fields, base, boundary, files) {
        Ok(bytes) => Ok(bytes + encode_utf8("--"@ + boundary + "--\r\n"@)),
        Err(why) => Err(why),
    }
}

pub open spec fn opt_view(s: Option<&str>) -> Option<Seq<char>> {
    match s {
        Some(t) => Some(t@),
        None => None,
    }
}

pub open spec fn read_views(files: Seq<Result<Vec<u8>, String>>) -> Seq<Result<Seq<u8>, Seq<char>>> {
    files.map_values(|f: Result<Vec<u8>, String>| match f {
        Ok(bytes) => Ok(bytes@),
        Err(why) => Err(why@),
    })
}

fn push_text(out: &mut Vec<u8>, text: &str)
    ensures
        final(out)@ == old(out)@ + encode_utf8(text@),
{
    let bytes = text.as_bytes();
    let mut i: usize = 0;
    let ghost start = out@;
    while i < bytes.len()
        invariant
            i <= bytes@.len(),
            bytes@ == encode_utf8(text@),
            out@ == start + bytes@.take(i as int),
        decreases bytes@.len() - i,
    {
        out.push(bytes[i]);
        assert(bytes@.take(i + 1) =~= bytes@.take(i as int).push(bytes@[i as int]));
        assert(start + bytes@.take(i + 1) =~= (start + bytes@.take(i as int)).push(bytes@[i as int]));
        i += 1;
    }
    assert(bytes@.take(bytes@.len() as int) =~= bytes@);
}

fn push_bytes(out: &mut Vec<u8>, bytes: &Vec<u8>)
    ensures
        final(out)@ == old(out)@ + bytes@,
{
    let mut i: usize = 0;
    let ghost start = out@;
    while i < bytes.len()
        invariant
            i <= bytes@.len(),
            out@ == start + bytes@.take(i as int),
        decreases bytes@.len() - i,
    {
        out.push(bytes[i]);
        assert(bytes@.take(i + 1) =~= bytes@.take(i as int).push(bytes@[i as int]));
        assert(start + bytes@.take(i + 1) =~= (start + bytes@.take(i as int)).push(bytes@[i as int]));
        i += 1;
    }
    assert(bytes@.take(bytes@.len() as int) =~= bytes@);
}

fn quote(text: &str) -> (r: Vec<char>)
    ensures
        r@ == quoted(text@),
{
    let chars = chars_of(text);
    let mut out: Vec<char> = Vec::new();
    let mut i: usize = 0;
    while i < chars.len()
        invariant
            i <= chars@.len(),
            out@ == quoted(chars@.take(i as int)),
        decreases chars@.len() - i,
    {
        let c = chars[i];
        assert(chars@.take(i + 1).drop_last() =~= chars@.take(i as int));
        assert(chars@.take(i + 1).last() == c);
        let ghost before = out@;
        if c == '\\' {
            out.push('\\');
            out.push('\\');
            assert(out@ =~= before + seq!['\\', '\\']);
        } else if c == '"' {
            out.push('\\');
            out.push('"');
            assert(out@ =~= before + seq!['\\', '"']);
        } else {
            out.push(c);
            assert(out@ =~= before + seq![c]);
        }
        i += 1;
    }
    assert(chars@.take(chars@.len() as int) =~= chars@);
    out
}

fn upload_path_exec(file: &str, base: Option<&str>) -> (r: String)
    ensures
        r@ == upload_path(file@, opt_view(base)),
{
    match base {
        Some(dir) => join_path(dir, file),
        None => file.to_string(),
    }
}

fn upload_exec(value: &str) -> (r: Option<String>)
    ensures
        match r {
            Some(file) => upload_of(value@) == Some(file@),
            None => upload_of(value@) is None,
        },
{
    let chars = chars_of(value);
    if chars.len() > 0 && chars[0] == '@' {
        Some(string_of(&slice(&chars, 1, chars.len())))
    } else {
        None
    }
}

/// The files the fields upload, in order, each where it is to be read
/// from: relative ones under `base`, the directory the request came from,
/// rather than wherever binman was started.
pub fn uploads(fields: &[(String, String)], base: Option<&str>) -> (r: Vec<String>)
    ensures
        r@.map_values(|p: String| p@) == upload_paths(pair_views(fields@), opt_view(base)),
{
    let ghost all = pair_views(fields@);
    let mut out: Vec<String> = Vec::new();
    let mut i: usize = 0;
    while i < fields.len()
        invariant
            i <= fields@.len(),
            all == pair_views(fields@),
            out@.map_values(|p: String| p@) == upload_paths(all.take(i as int), opt_view(base)),
        decreases fields@.len() - i,
    {
        assert(all.take(i + 1).drop_last() =~= all.take(i as int));
        assert(all.take(i + 1).last() == all[i as int]);
        if !fields[i].0.as_str().is_empty() {
            match upload_exec(fields[i].1.as_str()) {
                Some(file) => {
                    let ghost before = out@.map_values(|p: String| p@);
                    let path = upload_path_exec(file.as_str(), base);
                    out.push(path);
                    assert(out@.map_values(|p: String| p@) =~= before.push(path@));
                },
                None => {},
            }
        }
        i += 1;
    }
    assert(all.take(fields@.len() as int) =~= all);
    out
}

/// Encodes form fields as `multipart/form-data` with `boundary`. A value
/// that starts with `@` names a file to upload; `files` holds what reading
/// each of [`uploads`] gave, in the same order. The first one that could
/// not be read is the error, naming the file and the field.
pub fn multipart(
    fields: &[(String, String)],
    base: Option<&str>,
    boundary: &str,
    files: &Vec<Result<Vec<u8>, String>>,
) -> (r: Result<Multipart, Error>)
    requires
        files@.len() == upload_paths(pair_views(fields@), opt_view(base)).len(),
    ensures
        match (r, multipart_bytes(pair_views(fields@), opt_view(base), boundary@, read_views(files@))) {
            (Ok(m), Ok(bytes)) => m.body@ == bytes
                && m.content_type@ == "multipart/form-data; boundary="@ + boundary@,
            (Err(e), Err(why)) => e == Error::Invalid(e->Invalid_0) && e->Invalid_0@ == why,
            _ => false,
        },
{
    let ghost all = pair_views(fields@);
    let ghost read = read_views(files@);
    let ghost b = opt_view(base);
    let mut body: Vec<u8> = Vec::new();
    let mut k: usize = 0;
    let mut i: usize = 0;
    let n_files = files.len();
    proof {
        lemma_upload_paths_prefix(all, b, fields@.len() as int);
        assert(all.take(fields@.len() as int) =~= all);
    }
    while i < fields.len()
        invariant
            n_files == files@.len(),
            i <= fields@.len(),
            all == pair_views(fields@),
            read == read_views(files@),
            b == opt_view(base),
            files@.len() == upload_paths(all, b).len(),
            k == upload_paths(all.take(i as int), b).len(),
            parts(all.take(i as int), b, boundary@, read) == Ok::<Seq<u8>, Seq<char>>(body@),
            forall|j: int| 0 <= j <= fields@.len() ==> upload_paths(#[trigger] all.take(j), b).len() <= upload_paths(all, b).len(),
        decreases fields@.len() - i,
    {
        let ghost t = all.take(i + 1);
        assert(t.drop_last() =~= all.take(i as int));
        assert(t.last() == all[i as int]);
        let name = fields[i].0.as_str();
        let value = fields[i].1.as_str();
        if !name.is_empty() {
            match upload_exec(value) {
                None => {
                    let mut head = chars_of("--");
                    append(&mut head, &chars_of(boundary));
                    append(&mut head, &chars_of("\r\nContent-Disposition: form-data; name=\""));
                    append(&mut head, &quote(name));
                    append(&mut head, &chars_of("\"\r\n\r\n"));
                    append(&mut head, &chars_of(value));
                    proof {
                        reveal_strlit("--");
                        reveal_strlit("\r\nContent-Disposition: form-data; name=\"");
                        reveal_strlit("\r\n");
                        reveal_strlit("Content-Disposition: form-data; name=\"");
                        assert("\r\nContent-Disposition: form-data; name=\""@ =~= "\r\n"@ + "Content-Disposition: form-data; name=\""@);
                        assert(head@ =~= field_head(boundary@, name@) + value@);
                    }
                    push_text(&mut body, string_of(&head).as_str());
                    push_text(&mut body, "\r\n");
                },
                Some(file) => {
                    let path = upload_path_exec(file.as_str(), base);
                    let filename = match file_name_of(path.as_str()) {
                        Some(n) => n,
                        None => String::new(),
                    };
                    assert(k < files@.len()) by {
                        assert(upload_paths(t, b).len() == k + 1);
                    }
                    match &files[k] {
                        Err(why) => {
                            let mut message = chars_of("reading ");
                            append(&mut message, &chars_of(path.as_str()));
                            append(&mut message, &chars_of(" for the "));
                            append(&mut message, &chars_of(name));
                            append(&mut message, &chars_of(" field: "));
                            append(&mut message, &chars_of(why.as_str()));
                            proof {
                                lemma_parts_err_stays(all, b, boundary@, read, i + 1);
                            }
                            return Err(Error::Invalid(string_of(&message)));
                        },
                        Ok(contents) => {
                            let mut head = chars_of("--");
                            append(&mut head, &chars_of(boundary));
                            append(&mut head, &chars_of("\r\nContent-Disposition: form-data; name=\""));
                            append(&mut head, &quote(name));
                            append(&mut head, &chars_of("\"; filename=\""));
                            append(&mut head, &quote(filename.as_str()));
                            append(&mut head, &chars_of("\"\r\nContent-Type: application/octet-stream\r\n\r\n"));
                            proof {
                                reveal_strlit("--");
                                reveal_strlit("\r\nContent-Disposition: form-data; name=\"");
                                reveal_strlit("\r\n");
                                reveal_strlit("Content-Disposition: form-data; name=\"");
                                assert("\r\nContent-Disposition: form-data; name=\""@ =~= "\r\n"@ + "Content-Disposition: form-data; name=\""@);
                                assert(head@ =~= file_head(boundary@, name@, filename@));
                            }
                            push_text(&mut body, string_of(&head).as_str());
                            push_bytes(&mut body, contents);
                            push_text(&mut body, "\r\n");
                        },
                    }
                    k += 1;
                },
            }
        }
        i += 1;
    }
    assert(all.take(fields@.len() as int) =~= all);
    let mut end = chars_of("--");
    append(&mut end, &chars_of(boundary));
    append(&mut end, &chars_of("--\r\n"));
    push_text(&mut body, string_of(&end).as_str());
    let mut content_type = chars_of("multipart/form-data; boundary=");
    append(&mut content_type, &chars_of(boundary));
    Ok(Multipart { body, content_type: string_of(&content_type) })
}

proof fn lemma_upload_paths_prefix(fields: Seq<(Seq<char>, Seq<char>)>, base: Option<Seq<char>>, n: int)
    requires
        0 <= n <= fields.len(),
    ensures
        forall|j: int| 0 <= j <= n ==> upload_paths(#[trigger] fields.take(j), base).len() <= upload_paths(fields.take(n), base).len(),
    decreases n,
{
    if n > 0 {
        lemma_upload_paths_prefix(fields, base, n - 1);
        assert(fields.take(n).drop_last() =~= fields.take(n - 1));
    }
    assert(fields.take(fields.len() as int) =~= fields);
}

/// Once a prefix of the fields fails, every longer one fails the same way.
proof fn lemma_parts_err_stays(
    fields: Seq<(Seq<char>, Seq<char>)>,
    base: Option<Seq<char>>,
    boundary: Seq<char>,
    files: Seq<Result<Seq<u8>, Seq<char>>>,
    n: int,
)
    requires
        0 <= n <= fields.len(),
        parts(fields.take(n), base, boundary, files) is Err,
    ensures
        parts(fields, base, boundary, files) == parts(fields.take(n), base, boundary, files),
    decreases fields.len() - n,
{
    if n < fields.len() {
        assert(fields.take(n + 1).drop_last() =~= fields.take(n));
        lemma_parts_err_stays(fields, base, boundary, files, n + 1);
    } else {
        assert(fields.take(n) =~= fields);
    }
}

/// Stepping through the body kinds `delta` one way and then `delta` back
/// comes back to the kind it started from.
pub proof fn body_cycle_returns(kind: BodyKind, delta: int)
    ensures
        body_kinds()[(body_kind_position(body_kinds()[(body_kind_position(kind) + delta) % 7]) - delta) % 7] == kind,
{
    let p = body_kind_position(kind);
    crate::cycle::lemma_step_back(p, delta, 7);
    let i = (p + delta) % 7;
    assert(body_kind_position(body_kinds()[i]) == i);
    assert(body_kinds()[p] == kind);
}

} // verus!

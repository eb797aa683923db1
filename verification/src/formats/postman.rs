//! Postman collection (v2.1) and environment exports, as the values they
//! hold: every value in them is already text here — a number or a boolean
//! as JSON writes it — and reading the JSON itself is the caller's.

use vstd::prelude::*;

use crate::body::{encode_form, form_fields, BodyKind};
use crate::encoding::{json_compact, json_compacted, json_quote, json_quoted};
use crate::error::Error;
use crate::request::Request;
use crate::text::{append, chars_of, ends_with, ends_with_chars, join, lower, lower_chars, same, string_of, upper, upper_chars};
use crate::varmap::{insert_all, pair_views, Vars};

verus! {

/// What every exported collection's file name ends with.
pub open spec fn collection_suffix() -> Seq<char> {
    ".postman_collection.json"@
}

pub fn is_collection(file_name: &str) -> (r: bool)
    ensures
        r == ends_with(lower(file_name@), collection_suffix()),
{
    ends_with_chars(&lower_chars(&chars_of(file_name)), &chars_of(".postman_collection.json"))
}

/// A collection's `info`: its name.
#[derive(Debug, Clone, Default, PartialEq, Eq)]
pub struct Info {
    pub name: String,
}

/// A `key`, its value as text, and whether Postman has it switched off.
#[derive(Debug, Clone, PartialEq, Eq)]
pub struct Pair {
    pub key: String,
    pub value: String,
    pub disabled: bool,
}

/// A URL is a string, or an object whose `raw` is the string.
#[derive(Debug, Clone, PartialEq, Eq)]
pub enum PostmanUrl {
    Missing,
    Raw(String),
    Object { raw: String },
}

/// One field of a multipart body. `src` is a file field's path: the first
/// of them when Postman lists several.
#[derive(Debug, Clone, PartialEq, Eq)]
pub struct FormPart {
    pub key: String,
    pub value: String,
    pub src: String,
    pub kind: String,
    pub disabled: bool,
}

#[derive(Debug, Clone, PartialEq, Eq)]
pub struct GraphqlBody {
    pub query: String,
    pub variables: String,
}

#[derive(Debug, Clone, PartialEq, Eq)]
pub struct RawOptions {
    pub language: String,
}

#[derive(Debug, Clone, PartialEq, Eq)]
pub struct BodyOptions {
    pub raw: Option<RawOptions>,
}

#[derive(Debug, Clone, PartialEq, Eq)]
pub struct PostmanBody {
    pub mode: String,
    pub raw: String,
    pub urlencoded: Vec<Pair>,
    pub formdata: Vec<FormPart>,
    pub graphql: Option<GraphqlBody>,
    pub options: Option<BodyOptions>,
}

#[derive(Debug, Clone, PartialEq, Eq)]
pub struct PostmanRequest {
    pub method: String,
    pub url: PostmanUrl,
    pub header: Vec<Pair>,
    pub body: Option<PostmanBody>,
}

/// The pairs that are switched on and have a key, as text pairs.
pub open spec fn enabled_pairs(pairs: Seq<Pair>) -> Seq<(Seq<char>, Seq<char>)>
    decreases pairs.len(),
{
    if pairs.len() == 0 {
        Seq::empty()
    } else if !pairs.last().disabled && pairs.last().key@.len() > 0 {
        enabled_pairs(pairs.drop_last()).push((pairs.last().key@, pairs.last().value@))
    } else {
        enabled_pairs(pairs.drop_last())
    }
}

fn enabled(pairs: &Vec<Pair>) -> (r: Vec<(String, String)>)
    ensures
        pair_views(r@) == enabled_pairs(pairs@),
{
    let mut out: Vec<(String, String)> = Vec::new();
    let mut i: usize = 0;
    while i < pairs.len()
        invariant
            i <= pairs@.len(),
            pair_views(out@) == enabled_pairs(pairs@.take(i as int)),
        decreases pairs@.len() - i,
    {
        assert(pairs@.take(i + 1).drop_last() == pairs@.take(i as int));
        assert(pairs@.take(i + 1).last() == pairs@[i as int]);
        let pair = &pairs[i];
        if !pair.disabled && !pair.key.as_str().is_empty() {
            let ghost before = pair_views(out@);
            out.push((pair.key.clone(), pair.value.clone()));
            assert(pair_views(out@) == before.push((pair.key@, pair.value@)));
        }
        i += 1;
    }
    assert(pairs@.take(pairs@.len() as int) == pairs@);
    out
}

/// A multipart field's value: `@` and the path for a file, the value for
/// anything else.
pub open spec fn part_value(part: FormPart) -> Seq<char> {
    if part.kind@ == "file"@ {
        "@"@ + part.src@
    } else {
        part.value@
    }
}

pub open spec fn enabled_parts(parts: Seq<FormPart>) -> Seq<(Seq<char>, Seq<char>)>
    decreases parts.len(),
{
    if parts.len() == 0 {
        Seq::empty()
    } else if !parts.last().disabled && parts.last().key@.len() > 0 {
        enabled_parts(parts.drop_last()).push((parts.last().key@, part_value(parts.last())))
    } else {
        enabled_parts(parts.drop_last())
    }
}

fn enabled_form(parts: &Vec<FormPart>) -> (r: Vec<(String, String)>)
    ensures
        pair_views(r@) == enabled_parts(parts@),
{
    let mut out: Vec<(String, String)> = Vec::new();
    let mut i: usize = 0;
    proof {
        reveal_strlit("file");
        reveal_strlit("@");
    }
    while i < parts.len()
        invariant
            i <= parts@.len(),
            pair_views(out@) == enabled_parts(parts@.take(i as int)),
        decreases parts@.len() - i,
    {
        assert(parts@.take(i + 1).drop_last() == parts@.take(i as int));
        assert(parts@.take(i + 1).last() == parts@[i as int]);
        let part = &parts[i];
        if !part.disabled && !part.key.as_str().is_empty() {
            let value = if same(&chars_of(part.kind.as_str()), &chars_of("file")) {
                let mut v = chars_of("@");
                append(&mut v, &chars_of(part.src.as_str()));
                string_of(&v)
            } else {
                part.value.clone()
            };
            let ghost before = pair_views(out@);
            out.push((part.key.clone(), value));
            assert(pair_views(out@) == before.push((part.key@, part_value(*part))));
        }
        i += 1;
    }
    assert(parts@.take(parts@.len() as int) == parts@);
    out
}

/// The body kind a raw body's language names.
pub open spec fn raw_kind(language: Seq<char>) -> Option<BodyKind> {
    if language == "json"@ {
        Some(BodyKind::Json)
    } else if language == "xml"@ {
        Some(BodyKind::Xml)
    } else if language == "text"@ || language == "html"@ || language == "javascript"@ {
        Some(BodyKind::Text)
    } else {
        None
    }
}

/// A raw body's language, or nothing.
pub open spec fn raw_language(body: PostmanBody) -> Seq<char> {
    match body.options {
        Some(options) => match options.raw {
            Some(raw) => raw.language@,
            None => Seq::empty(),
        },
        None => Seq::empty(),
    }
}

/// The JSON a GraphQL body goes out as: the query, and the variables when
/// they are JSON.
pub open spec fn graphql_json(query: Seq<char>, variables: Seq<char>) -> Seq<char> {
    match json_compacted(variables) {
        Some(json) => "\u{7b}\u{22}query\u{22}:"@ + json_quoted(query) + ",\u{22}variables\u{22}:"@ + json + "\u{7d}"@,
        None => "\u{7b}\u{22}query\u{22}:"@ + json_quoted(query) + "\u{7d}"@,
    }
}

/// The request's method: upper-cased, or `GET` when it names none.
pub open spec fn method_of(method: Seq<char>) -> Seq<char> {
    if method.len() == 0 { "GET"@ } else { upper(method) }
}

/// What a Postman request's body becomes: the body text and its kind.
pub open spec fn converted_body(body: PostmanBody) -> Option<(Seq<char>, Option<BodyKind>)> {
    let mode = body.mode@;
    if mode == "raw"@ {
        Some((body.raw@, raw_kind(raw_language(body))))
    } else if mode == "urlencoded"@ {
        Some((join(form_fields(enabled_pairs(body.urlencoded@)), "&"@), Some(BodyKind::Form)))
    } else if mode == "formdata"@ {
        Some((join(form_fields(enabled_parts(body.formdata@)), "&"@), Some(BodyKind::Multipart)))
    } else if mode == "graphql"@ {
        match body.graphql {
            Some(g) => Some((graphql_json(g.query@, g.variables@), Some(BodyKind::Json))),
            None => None,
        }
    } else {
        None
    }
}

/// `r` is what a Postman request converts to.
pub open spec fn converted(source: PostmanRequest, r: Request) -> bool {
    &&& r.method@ == method_of(source.method@)
    &&& r.url@ == match source.url {
        PostmanUrl::Missing => Seq::<char>::empty(),
        PostmanUrl::Raw(raw) => raw@,
        PostmanUrl::Object { raw } => raw@,
    }
    &&& r.header_pairs() == enabled_pairs(source.header@)
    &&& r.vars@ == Map::<Seq<char>, Seq<char>>::empty()
    &&& match source.body {
        Some(body) => match converted_body(body) {
            Some((text, kind)) => r.body@ == text && r.kind == kind,
            None => r.body@.len() == 0 && r.kind is None,
        },
        None => r.body@.len() == 0 && r.kind is None,
    }
}

/// A Postman request as binman's: the method upper-cased, the headers that
/// are switched on, and the body in the shape its mode says.
pub fn convert(source: &PostmanRequest) -> (r: Request)
    ensures
        converted(*source, r),
{
    proof {
        reveal_strlit("GET");
        reveal_strlit("raw");
        reveal_strlit("urlencoded");
        reveal_strlit("formdata");
        reveal_strlit("graphql");
        reveal_strlit("json");
        reveal_strlit("xml");
        reveal_strlit("text");
        reveal_strlit("html");
        reveal_strlit("javascript");
    }
    let method = if source.method.as_str().is_empty() {
        "GET".to_string()
    } else {
        string_of(&upper_chars(&chars_of(source.method.as_str())))
    };
    let url = match &source.url {
        PostmanUrl::Missing => String::new(),
        PostmanUrl::Raw(raw) => raw.clone(),
        PostmanUrl::Object { raw } => raw.clone(),
    };
    let mut request = Request::empty();
    request.method = method;
    request.url = url;
    request.headers = enabled(&source.header);
    let body = match &source.body {
        Some(body) => body,
        None => return request,
    };
    let mode = chars_of(body.mode.as_str());
    if same(&mode, &chars_of("raw")) {
        request.body = body.raw.clone();
        let language = match &body.options {
            Some(options) => match &options.raw {
                Some(raw) => chars_of(raw.language.as_str()),
                None => Vec::new(),
            },
            None => Vec::new(),
        };
        request.kind = if same(&language, &chars_of("json")) {
            Some(BodyKind::Json)
        } else if same(&language, &chars_of("xml")) {
            Some(BodyKind::Xml)
        } else if same(&language, &chars_of("text")) || same(&language, &chars_of("html")) || same(&language, &chars_of("javascript")) {
            Some(BodyKind::Text)
        } else {
            None
        };
    } else if same(&mode, &chars_of("urlencoded")) {
        let fields = enabled(&body.urlencoded);
        request.body = encode_form(&fields);
        request.kind = Some(BodyKind::Form);
    } else if same(&mode, &chars_of("formdata")) {
        let fields = enabled_form(&body.formdata);
        request.body = encode_form(&fields);
        request.kind = Some(BodyKind::Multipart);
    } else if same(&mode, &chars_of("graphql")) {
        if let Some(graphql) = &body.graphql {
            let mut text = chars_of("\u{7b}\u{22}query\u{22}:");
            append(&mut text, &chars_of(json_quote(graphql.query.as_str()).as_str()));
            if let Some(json) = json_compact(graphql.variables.as_str()) {
                append(&mut text, &chars_of(",\u{22}variables\u{22}:"));
                append(&mut text, &chars_of(json.as_str()));
            }
            append(&mut text, &chars_of("\u{7d}"));
            request.body = string_of(&text);
            request.kind = Some(BodyKind::Json);
        }
    }
    request
}

/// An entry of a collection: a folder when it has items, a request when it
/// has a request. Its items are positions in the collection's `nodes`.
#[derive(Debug, Clone, PartialEq, Eq)]
pub struct Item {
    pub name: String,
    pub request: Option<RequestField>,
    pub items: Vec<usize>,
}

/// Postman accepts a bare URL where a request object would go.
#[derive(Debug, Clone, PartialEq, Eq)]
pub enum RequestField {
    Url(String),
    Full(PostmanRequest),
}

impl Item {
    pub fn is_request(&self) -> (r: bool)
        ensures
            r == self.request is Some,
    {
        self.request.is_some()
    }

    /// The method a request item sends, for its badge.
    pub fn method(&self) -> (r: String)
        ensures
            r@ == match self.request {
                Some(RequestField::Full(request)) => method_of(request.method@),
                _ => "GET"@,
            },
    {
        proof {
            reveal_strlit("GET");
        }
        match &self.request {
            Some(RequestField::Full(request)) => {
                if request.method.as_str().is_empty() {
                    "GET".to_string()
                } else {
                    string_of(&upper_chars(&chars_of(request.method.as_str())))
                }
            },
            _ => "GET".to_string(),
        }
    }
}

/// A collection: its top-level items, as positions in `nodes`, every item
/// of every folder in `nodes`, and its variables.
#[derive(Debug, Clone, PartialEq, Eq)]
pub struct Collection {
    pub info: Info,
    pub items: Vec<usize>,
    pub nodes: Vec<Item>,
    pub variables: Vec<Pair>,
}

/// Where in `nodes` the item at `path` is, starting from the items listed in
/// `level`: one index per level of folders.
pub open spec fn item_at_path(nodes: Seq<Item>, level: Seq<usize>, path: Seq<usize>) -> Option<int>
    decreases path.len(),
{
    if path.len() == 0 || path[0] >= level.len() || level[path[0] as int] >= nodes.len() {
        None
    } else if path.len() == 1 {
        Some(level[path[0] as int] as int)
    } else {
        item_at_path(nodes, nodes[level[path[0] as int] as int].items@, path.skip(1))
    }
}

impl Collection {
    /// The collection's `variable[]`, the lowest layer of the variables.
    pub fn vars(&self) -> (r: Vars)
        ensures
            r@ == insert_all(Map::empty(), enabled_pairs(self.variables@)),
    {
        let mut vars = Vars::new();
        vars.extend(enabled(&self.variables));
        vars
    }

    /// The item at `path`, one index per level of folders.
    pub fn item_at(&self, path: &[usize]) -> (r: Option<&Item>)
        ensures
            match r {
                Some(item) => item_at_path(self.nodes@, self.items@, path@) matches Some(at) && self.nodes@[at] == *item,
                None => item_at_path(self.nodes@, self.items@, path@) is None,
            },
    {
        let mut level: &Vec<usize> = &self.items;
        let mut k: usize = 0;
        assert(path@.skip(0) == path@);
        while k < path.len()
            invariant
                k <= path@.len(),
                item_at_path(self.nodes@, self.items@, path@) == item_at_path(self.nodes@, level@, path@.skip(k as int)),
            decreases path@.len() - k,
        {
            let index = path[k];
            assert(path@.skip(k as int)[0] == index);
            assert(path@.skip(k as int).skip(1) == path@.skip(k + 1));
            if index >= level.len() || level[index] >= self.nodes.len() {
                return None;
            }
            let at = level[index];
            if k + 1 == path.len() {
                return Some(&self.nodes[at]);
            }
            level = &self.nodes[at].items;
            k += 1;
        }
        None
    }

    /// The request at `path`: a request item as binman's, a bare URL as a
    /// GET of it, or why there is none.
    pub fn request_at(&self, path: &[usize]) -> (r: Result<Request, Error>)
        ensures
            match item_at_path(self.nodes@, self.items@, path@) {
                None => r matches Err(Error::Parse { what, message }) && what@ == "Postman collection"@
                    && message@ == "no item at that position"@,
                Some(at) => match self.nodes@[at].request {
                    None => r matches Err(Error::Parse { what, message }) && what@ == "Postman collection"@
                        && message@ == self.nodes@[at].name@ + " is a folder, not a request"@,
                    Some(RequestField::Url(url)) => r matches Ok(request) && request.method@ == "GET"@ && request.url@ == url@
                        && request.headers@.len() == 0 && request.body@.len() == 0 && request.kind is None
                        && request.vars@ == Map::<Seq<char>, Seq<char>>::empty(),
                    Some(RequestField::Full(source)) => r matches Ok(request) && converted(source, request),
                },
            },
    {
        let item = match self.item_at(path) {
            Some(item) => item,
            None => return Err(Error::parse("Postman collection", "no item at that position")),
        };
        match &item.request {
            None => {
                let mut message = chars_of(item.name.as_str());
                append(&mut message, &chars_of(" is a folder, not a request"));
                Err(Error::parse("Postman collection", string_of(&message).as_str()))
            },
            Some(RequestField::Url(url)) => {
                proof {
                    reveal_strlit("GET");
                }
                let mut request = Request::empty();
                request.method = "GET".to_string();
                request.url = url.clone();
                Ok(request)
            },
            Some(RequestField::Full(source)) => Ok(convert(source)),
        }
    }
}

/// One value of an environment export. Postman leaves `enabled` out for a
/// value that is switched on.
#[derive(Debug, Clone, PartialEq, Eq)]
pub struct EnvironmentValue {
    pub key: String,
    pub value: String,
    pub enabled: Option<bool>,
}

pub open spec fn environment_pairs(values: Seq<EnvironmentValue>) -> Seq<(Seq<char>, Seq<char>)>
    decreases values.len(),
{
    if values.len() == 0 {
        Seq::empty()
    } else if values.last().enabled != Some(false) && values.last().key@.len() > 0 {
        environment_pairs(values.drop_last()).push((values.last().key@, values.last().value@))
    } else {
        environment_pairs(values.drop_last())
    }
}

/// An environment's variables: the values not switched off that have a key.
pub fn environment_vars(values: &Vec<EnvironmentValue>) -> (r: Vars)
    ensures
        r@ == insert_all(Map::empty(), environment_pairs(values@)),
{
    let mut pairs: Vec<(String, String)> = Vec::new();
    let mut i: usize = 0;
    while i < values.len()
        invariant
            i <= values@.len(),
            pair_views(pairs@) == environment_pairs(values@.take(i as int)),
        decreases values@.len() - i,
    {
        assert(values@.take(i + 1).drop_last() == values@.take(i as int));
        assert(values@.take(i + 1).last() == values@[i as int]);
        let value = &values[i];
        if value.enabled != Some(false) && !value.key.as_str().is_empty() {
            let ghost before = pair_views(pairs@);
            pairs.push((value.key.clone(), value.value.clone()));
            assert(pair_views(pairs@) == before.push((value.key@, value.value@)));
        }
        i += 1;
    }
    assert(values@.take(values@.len() as int) == values@);
    let mut vars = Vars::new();
    vars.extend(pairs);
    vars
}

} // verus!

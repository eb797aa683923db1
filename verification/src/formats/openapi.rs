//! OpenAPI 3.x and Swagger 2.x specs: telling one from any other file, the
//! operations one offers, grouped by their first tag, and the request each
//! describes.
//!
//! A spec arrives here as the values binman reads from it; reading JSON or
//! YAML into them is for the caller.

use vstd::prelude::*;

use crate::encoding::{lossy_utf8, utf8_lossy};
use crate::request::Request;
use crate::varmap::{before, compare, lemma_before_total, lemma_before_transitive, pair_views, Order};
use crate::text::{
    append, chars_of, contains_chars, contains_seq, copy_string, ends_with, ends_with_chars, find_char, first_at,
    join, join_chars, lemma_split_once_at, lemma_split_once_none, lines, lines_of, lower, lower_chars, same, slice, split_once,
    starts_with, starts_with_chars, string_of, trim_end_char, trim_end_char_chars, trim_start,
    trim_start_chars, upper, upper_chars, views,
};

verus! {

/// A set of operations sharing a tag, or "Default" for the untagged.
#[derive(Debug, Clone, PartialEq, Eq)]
pub struct Group {
    pub tag: String,
    pub endpoints: Vec<Endpoint>,
}

#[derive(Debug, Clone, PartialEq, Eq)]
pub struct Endpoint {
    pub route: String,
    pub method: String,
    pub summary: String,
}

/// A parameter an operation or a path declares: its name, and `in`, where it
/// goes.
#[derive(Debug, Clone, PartialEq, Eq, Default)]
pub struct Parameter {
    pub name: Option<String>,
    pub location: Option<String>,
}

#[derive(Debug, Clone, PartialEq, Eq, Default)]
pub struct Operation {
    pub summary: Option<String>,
    pub tags: Vec<String>,
    pub parameters: Vec<Parameter>,
    /// The media types `requestBody.content` names, when there is a
    /// `requestBody`.
    pub request_body: Option<Vec<String>>,
    /// Swagger 2's `consumes`.
    pub consumes: Vec<String>,
}

/// What one route offers, method by method.
#[derive(Debug, Clone, PartialEq, Eq, Default)]
pub struct PathItem {
    pub get: Option<Operation>,
    pub post: Option<Operation>,
    pub put: Option<Operation>,
    pub patch: Option<Operation>,
    pub delete: Option<Operation>,
    pub head: Option<Operation>,
    pub options: Option<Operation>,
    /// Shared by every method on the path.
    pub parameters: Vec<Parameter>,
}

#[derive(Debug, Clone, PartialEq, Eq, Default)]
pub struct Spec {
    /// Each server's `url`, in the order the spec lists them.
    pub servers: Vec<Option<String>>,
    /// Swagger 2 names its server in three parts rather than one URL.
    pub host: Option<String>,
    pub base_path: Option<String>,
    pub schemes: Vec<String>,
    pub consumes: Vec<String>,
    /// Each route and what it offers, in route order.
    pub paths: Vec<(String, PathItem)>,
}

/// Where the API lives. The first server when it names a host; otherwise
/// `{{URL}}`, so an environment can say where.
pub open spec fn base_url(spec: Spec) -> Seq<char> {
    let first = if spec.servers@.len() > 0 { spec.servers@[0] } else { None };
    match first {
        Some(url) => {
            let url = trim_end_char(url@, '/');
            if contains_seq(url, "://"@) { url } else { "{{URL}}"@ + url }
        },
        None => {
            let base_path = match spec.base_path {
                Some(path) => trim_end_char(path@, '/'),
                None => Seq::empty(),
            };
            match spec.host {
                Some(host) => {
                    let scheme = if spec.schemes@.len() > 0 { spec.schemes@[0]@ } else { "https"@ };
                    scheme + "://"@ + host@ + base_path
                },
                None => "{{URL}}"@ + base_path,
            }
        },
    }
}

/// `/users/{id}` → `/users/{{id}}`: each `{name}` closed by a `}` doubled,
/// and a `{` with no `}` after it left as it is, with all that follows.
pub open spec fn templated(route: Seq<char>) -> Seq<char>
    decreases route.len(),
{
    match split_once(route, '{') {
        None => route,
        Some((before, after)) => match split_once(after, '}') {
            None => route,
            Some((name, rest)) => {
                proof {
                    lemma_split_once_shorter(route, '{');
                    lemma_split_once_shorter(after, '}');
                }
                before + "{{"@ + name + "}}"@ + templated(rest)
            },
        },
    }
}

pub proof fn lemma_split_once_shorter(s: Seq<char>, c: char)
    ensures
        split_once(s, c) matches Some((a, b)) ==> b.len() < s.len() && a.len() < s.len(),
{
    if exists|i: int| first_at(s, c, i) {
        let i = choose|i: int| first_at(s, c, i);
        lemma_split_once_at(s, c, i);
    }
}

impl Spec {
    /// Where the API lives: see [`base_url`].
    pub fn base(&self) -> (r: String)
        ensures
            r@ == base_url(*self),
    {
        proof {
            reveal_strlit("://");
            reveal_strlit("{{URL}}");
            reveal_strlit("https");
        }
        let first: Option<&String> = if self.servers.len() > 0 {
            match &self.servers[0] {
                Some(url) => Some(url),
                None => None,
            }
        } else {
            None
        };
        match first {
            Some(url) => {
                let url = trim_end_char_chars(&chars_of(url.as_str()), '/');
                if contains_chars(&url, &chars_of("://")) {
                    string_of(&url)
                } else {
                    let mut out = chars_of("{{URL}}");
                    append(&mut out, &url);
                    string_of(&out)
                }
            },
            None => {
                let base_path = match &self.base_path {
                    Some(path) => trim_end_char_chars(&chars_of(path.as_str()), '/'),
                    None => Vec::new(),
                };
                let mut out = match &self.host {
                    Some(host) => {
                        let mut out = if self.schemes.len() > 0 {
                            chars_of(self.schemes[0].as_str())
                        } else {
                            chars_of("https")
                        };
                        append(&mut out, &chars_of("://"));
                        append(&mut out, &chars_of(host.as_str()));
                        out
                    },
                    None => chars_of("{{URL}}"),
                };
                append(&mut out, &base_path);
                string_of(&out)
            },
        }
    }
}

/// `/users/{id}` → `/users/{{id}}`.
pub fn template(route: &str) -> (r: String)
    ensures
        r@ == templated(route@),
{
    proof {
        reveal_strlit("{{");
        reveal_strlit("}}");
    }
    let all = chars_of(route);
    let mut out: Vec<char> = Vec::new();
    let mut rest = all;
    loop
        invariant_except_break
            out@ + templated(rest@) == templated(route@),
        ensures
            out@ == templated(route@),
        decreases rest@.len(),
    {
        let open = match find_char(&rest, '{') {
            Some(open) => open,
            None => {
                proof {
                    lemma_split_once_none(rest@, '{');
                }
                append(&mut out, &rest);
                break;
            },
        };
        proof {
            lemma_split_once_at(rest@, '{', open as int);
        }
        assert(open < rest.len());
        let after = slice(&rest, open + 1, rest.len());
        assert(after@ == rest@.skip(open + 1));
        let close = match find_char(&after, '}') {
            Some(close) => close,
            None => {
                proof {
                    lemma_split_once_none(after@, '}');
                }
                append(&mut out, &rest);
                break;
            },
        };
        proof {
            lemma_split_once_at(after@, '}', close as int);
        }
        let ghost old_rest = rest@;
        append(&mut out, &slice(&rest, 0, open));
        append(&mut out, &chars_of("{{"));
        append(&mut out, &slice(&after, 0, close));
        append(&mut out, &chars_of("}}"));
        rest = slice(&after, close + 1, after.len());
        proof {
            assert(rest@ == after@.skip(close + 1));
            assert(templated(old_rest) == old_rest.take(open as int) + "{{"@ + after@.take(close as int) + "}}"@ + templated(rest@));
        }
    }
    string_of(&out)
}

/// An endpoint as text: its route, its method and its summary.
pub open spec fn endpoint_view(e: Endpoint) -> (Seq<char>, Seq<char>, Seq<char>) {
    (e.route@, e.method@, e.summary@)
}

pub open spec fn endpoint_views(s: Seq<Endpoint>) -> Seq<(Seq<char>, Seq<char>, Seq<char>)> {
    s.map_values(|e: Endpoint| endpoint_view(e))
}

/// The tag an operation is grouped under: its first, or "Default".
pub open spec fn first_tag(op: Operation) -> Seq<char> {
    if op.tags@.len() > 0 { op.tags@[0]@ } else { "Default"@ }
}

pub open spec fn summary_text(op: Operation) -> Seq<char> {
    match op.summary {
        Some(summary) => summary@,
        None => Seq::empty(),
    }
}

/// One method's endpoint, with its tag, when the route offers the method.
pub open spec fn offered(route: Seq<char>, method: Seq<char>, op: Option<Operation>) -> Seq<(Seq<char>, (Seq<char>, Seq<char>, Seq<char>))> {
    match op {
        Some(op) => seq![(first_tag(op), (route, method, summary_text(op)))],
        None => Seq::empty(),
    }
}

/// A route's endpoints with their tags, in the order GET, POST, PUT, PATCH,
/// DELETE, HEAD, OPTIONS.
pub open spec fn item_endpoints(route: Seq<char>, item: PathItem) -> Seq<(Seq<char>, (Seq<char>, Seq<char>, Seq<char>))> {
    offered(route, "GET"@, item.get) + offered(route, "POST"@, item.post) + offered(route, "PUT"@, item.put)
        + offered(route, "PATCH"@, item.patch) + offered(route, "DELETE"@, item.delete)
        + offered(route, "HEAD"@, item.head) + offered(route, "OPTIONS"@, item.options)
}

/// Every endpoint of every route, with its tag, route by route.
pub open spec fn all_endpoints(paths: Seq<(String, PathItem)>) -> Seq<(Seq<char>, (Seq<char>, Seq<char>, Seq<char>))>
    decreases paths.len(),
{
    if paths.len() == 0 {
        Seq::empty()
    } else {
        all_endpoints(paths.drop_last()) + item_endpoints(paths.last().0@, paths.last().1)
    }
}

/// The endpoints under `tag`, in the order they come.
pub open spec fn tagged(all: Seq<(Seq<char>, (Seq<char>, Seq<char>, Seq<char>))>, tag: Seq<char>) -> Seq<(Seq<char>, Seq<char>, Seq<char>)>
    decreases all.len(),
{
    if all.len() == 0 {
        Seq::empty()
    } else if all.last().0 == tag {
        tagged(all.drop_last(), tag).push(all.last().1)
    } else {
        tagged(all.drop_last(), tag)
    }
}

pub open spec fn has_tag(all: Seq<(Seq<char>, (Seq<char>, Seq<char>, Seq<char>))>, tag: Seq<char>) -> bool {
    exists|k: int| 0 <= k < all.len() && (#[trigger] all[k]).0 == tag
}

/// Whether one of `r` is the group for `tag`.
pub open spec fn group_for(r: Seq<Group>, tag: Seq<char>) -> bool {
    exists|i: int| 0 <= i < r.len() && (#[trigger] r[i]).tag@ == tag
}

/// What [`groups`] answers for the endpoints `all`: one group per tag, the
/// tags in order, each with its endpoints in the order they come.
pub open spec fn grouped(r: Seq<Group>, all: Seq<(Seq<char>, (Seq<char>, Seq<char>, Seq<char>))>) -> bool {
    &&& forall|i: int, j: int| 0 <= i < j < r.len() ==> before(r[i].tag@, r[j].tag@)
    &&& forall|i: int| 0 <= i < r.len() ==> has_tag(all, (#[trigger] r[i]).tag@)
    &&& forall|k: int| 0 <= k < all.len() ==> group_for(r, #[trigger] all[k].0)
    &&& forall|i: int| 0 <= i < r.len() ==> endpoint_views((#[trigger] r[i]).endpoints@) == tagged(all, r[i].tag@)
}

fn offer(out: &mut Vec<(String, Endpoint)>, route: &String, method: &str, op: &Option<Operation>)
    ensures
        flat_views(final(out)@) == flat_views(old(out)@) + offered(route@, method@, *op),
{
    proof {
        reveal_strlit("Default");
    }
    match op {
        Some(op) => {
            let tag = if op.tags.len() > 0 { copy_string(&op.tags[0]) } else { "Default".to_string() };
            let summary = match &op.summary {
                Some(summary) => copy_string(summary),
                None => String::new(),
            };
            let e = Endpoint { route: copy_string(route), method: method.to_string(), summary };
            let ghost before = flat_views(out@);
            out.push((tag, e));
            assert(flat_views(out@) == before.push((first_tag(*op), (route@, method@, summary_text(*op)))));
        },
        None => {
            assert(flat_views(out@) == flat_views(out@) + Seq::<(Seq<char>, (Seq<char>, Seq<char>, Seq<char>))>::empty());
        },
    }
}

pub open spec fn flat_views(s: Seq<(String, Endpoint)>) -> Seq<(Seq<char>, (Seq<char>, Seq<char>, Seq<char>))> {
    s.map_values(|p: (String, Endpoint)| (p.0@, endpoint_view(p.1)))
}

/// A route's endpoints with their tags.
fn offer_item(out: &mut Vec<(String, Endpoint)>, route: &String, item: &PathItem)
    ensures
        flat_views(final(out)@) == flat_views(old(out)@) + item_endpoints(route@, *item),
{
    proof {
        reveal_strlit("GET");
        reveal_strlit("POST");
        reveal_strlit("PUT");
        reveal_strlit("PATCH");
        reveal_strlit("DELETE");
        reveal_strlit("HEAD");
        reveal_strlit("OPTIONS");
    }
    let ghost start = flat_views(out@);
    offer(out, route, "GET", &item.get);
    let ghost s1 = flat_views(out@);
    offer(out, route, "POST", &item.post);
    let ghost s2 = flat_views(out@);
    offer(out, route, "PUT", &item.put);
    let ghost s3 = flat_views(out@);
    offer(out, route, "PATCH", &item.patch);
    let ghost s4 = flat_views(out@);
    offer(out, route, "DELETE", &item.delete);
    let ghost s5 = flat_views(out@);
    offer(out, route, "HEAD", &item.head);
    let ghost s6 = flat_views(out@);
    offer(out, route, "OPTIONS", &item.options);
    proof {
        let r = route@;
        let a = offered(r, "GET"@, item.get);
        let b = offered(r, "POST"@, item.post);
        let c = offered(r, "PUT"@, item.put);
        let d = offered(r, "PATCH"@, item.patch);
        let e = offered(r, "DELETE"@, item.delete);
        let f = offered(r, "HEAD"@, item.head);
        let g = offered(r, "OPTIONS"@, item.options);
        assert(flat_views(out@) == start + a + b + c + d + e + f + g);
        assert(start + a + b + c + d + e + f + g == start + (a + b + c + d + e + f + g));
    }
}

/// Every endpoint with its tag, route by route.
fn endpoints_of(paths: &Vec<(String, PathItem)>) -> (r: Vec<(String, Endpoint)>)
    ensures
        flat_views(r@) == all_endpoints(paths@),
{
    let mut out: Vec<(String, Endpoint)> = Vec::new();
    let mut i: usize = 0;
    while i < paths.len()
        invariant
            i <= paths@.len(),
            flat_views(out@) == all_endpoints(paths@.take(i as int)),
        decreases paths@.len() - i,
    {
        let (route, item) = &paths[i];
        offer_item(&mut out, route, item);
        assert(paths@.take(i + 1).drop_last() == paths@.take(i as int));
        i += 1;
    }
    assert(paths@.take(paths@.len() as int) == paths@);
    out
}

/// Whether `tag` is one of `tags`.
pub open spec fn tag_listed(tags: Seq<String>, tag: Seq<char>) -> bool {
    exists|i: int| 0 <= i < tags.len() && (#[trigger] tags[i])@ == tag
}

proof fn lemma_sorted_insert(old: Seq<String>, j: int, t: String, new: Seq<String>)
    requires
        0 <= j <= old.len(),
        new == old.insert(j, t),
        forall|a: int, b: int| 0 <= a < b < old.len() ==> before(old[a]@, old[b]@),
        forall|a: int| 0 <= a < j ==> before((#[trigger] old[a])@, t@),
        forall|b: int| j <= b < old.len() ==> before(t@, (#[trigger] old[b])@),
    ensures
        forall|a: int, b: int| 0 <= a < b < new.len() ==> before(new[a]@, new[b]@),
{
    assert forall|a: int, b: int| 0 <= a < b < new.len() implies before(new[a]@, new[b]@) by {
        if b < j {
            assert(new[a] == old[a] && new[b] == old[b]);
        } else if b == j {
            assert(new[a] == old[a]);
        } else if a < j {
            assert(new[a] == old[a] && new[b] == old[b - 1]);
        } else if a == j {
            assert(new[b] == old[b - 1]);
        } else {
            assert(new[a] == old[a - 1] && new[b] == old[b - 1]);
        }
    }
}

proof fn lemma_insert_keeps(
    old: Seq<String>,
    j: int,
    t: String,
    new: Seq<String>,
    flat: Seq<(Seq<char>, (Seq<char>, Seq<char>, Seq<char>))>,
    all: Seq<(String, Endpoint)>,
    k: int,
)
    requires
        0 <= j <= old.len(),
        new == old.insert(j, t),
        0 <= k < all.len(),
        flat == flat_views(all),
        t@ == all[k].0@,
        forall|i: int| 0 <= i < old.len() ==> has_tag(flat, (#[trigger] old[i])@),
        forall|m: int| 0 <= m < k ==> tag_listed(old, #[trigger] all[m].0@),
    ensures
        forall|i: int| 0 <= i < new.len() ==> has_tag(flat, (#[trigger] new[i])@),
        forall|m: int| 0 <= m < k ==> tag_listed(new, #[trigger] all[m].0@),
{
    assert forall|i: int| 0 <= i < new.len() implies has_tag(flat, (#[trigger] new[i])@) by {
        if i < j {
            assert(new[i] == old[i]);
        } else if i > j {
            assert(new[i] == old[i - 1]);
        } else {
            assert(flat[k].0 == new[i]@);
        }
    }
    assert forall|m: int| 0 <= m < k implies tag_listed(new, #[trigger] all[m].0@) by {
        let i = choose|i: int| 0 <= i < old.len() && (#[trigger] old[i])@ == all[m].0@;
        if i < j {
            assert(new[i] == old[i]);
        } else {
            assert(new[i + 1] == old[i]);
        }
    }
}

/// The tags in `all`, each once, in order.
fn tags_of(all: &Vec<(String, Endpoint)>) -> (r: Vec<String>)
    ensures
        forall|i: int, j: int| 0 <= i < j < r@.len() ==> before(r@[i]@, r@[j]@),
        forall|i: int| 0 <= i < r@.len() ==> has_tag(flat_views(all@), (#[trigger] r@[i])@),
        forall|k: int| 0 <= k < all@.len() ==> tag_listed(r@, #[trigger] all@[k].0@),
{
    let ghost flat = flat_views(all@);
    let mut tags: Vec<String> = Vec::new();
    let mut k: usize = 0;
    while k < all.len()
        invariant
            k <= all@.len(),
            flat == flat_views(all@),
            forall|i: int, j: int| 0 <= i < j < tags@.len() ==> before(tags@[i]@, tags@[j]@),
            forall|i: int| 0 <= i < tags@.len() ==> has_tag(flat, (#[trigger] tags@[i])@),
            forall|m: int| 0 <= m < k ==> tag_listed(tags@, #[trigger] all@[m].0@),
        decreases all@.len() - k,
    {
        let tag = chars_of(all[k].0.as_str());
        let mut j: usize = 0;
        while j < tags.len() && is_before(&chars_of(tags[j].as_str()), &tag)
            invariant
                j <= tags@.len(),
                forall|i: int| 0 <= i < j ==> before((#[trigger] tags@[i])@, tag@),
            decreases tags@.len() - j,
        {
            j += 1;
        }
        assert(flat[k as int].0 == tag@);
        if j < tags.len() && same(&chars_of(tags[j].as_str()), &tag) {
            assert(tags@[j as int]@ == all@[k as int].0@);
        } else {
            let ghost old_tags = tags@;
            proof {
                if j < tags@.len() {
                    lemma_before_total(tags@[j as int]@, tag@);
                }
                assert forall|b: int| j <= b < old_tags.len() implies before(tag@, (#[trigger] old_tags[b])@) by {
                    if b > j {
                        lemma_before_transitive(tag@, old_tags[j as int]@, old_tags[b]@);
                    }
                }
            }
            let fresh = copy_string(&all[k].0);
            tags.insert(j, fresh);
            proof {
                lemma_sorted_insert(old_tags, j as int, tags@[j as int], tags@);
                lemma_insert_keeps(old_tags, j as int, tags@[j as int], tags@, flat, all@, k as int);
            }
        }
        proof {
            assert forall|m: int| 0 <= m < k + 1 implies tag_listed(tags@, #[trigger] all@[m].0@) by {
                if m == k {
                    assert(tags@[j as int]@ == all@[m].0@);
                }
            }
        }
        k += 1;
    }
    tags
}

fn is_before(a: &Vec<char>, b: &Vec<char>) -> (r: bool)
    ensures
        r == before(a@, b@),
{
    match compare(a, b) {
        Order::Less => true,
        _ => false,
    }
}

/// The endpoints under `tag`, in the order they come.
fn under_tag(all: &Vec<(String, Endpoint)>, tag: &String) -> (r: Vec<Endpoint>)
    ensures
        endpoint_views(r@) == tagged(flat_views(all@), tag@),
{
    let ghost flat = flat_views(all@);
    let wanted = chars_of(tag.as_str());
    let mut out: Vec<Endpoint> = Vec::new();
    let mut k: usize = 0;
    while k < all.len()
        invariant
            k <= all@.len(),
            flat == flat_views(all@),
            wanted@ == tag@,
            endpoint_views(out@) == tagged(flat.take(k as int), tag@),
        decreases all@.len() - k,
    {
        let ghost before_out = endpoint_views(out@);
        assert(flat.take(k + 1).drop_last() == flat.take(k as int));
        if same(&chars_of(all[k].0.as_str()), &wanted) {
            let e = &all[k].1;
            out.push(Endpoint { route: copy_string(&e.route), method: copy_string(&e.method), summary: copy_string(&e.summary) });
            assert(endpoint_views(out@) == before_out.push(flat[k as int].1));
        }
        k += 1;
    }
    assert(flat.take(all@.len() as int) == flat);
    out
}

/// Every operation, grouped by first tag. Groups sort by tag; within one,
/// by path and then by method.
pub fn groups(spec: &Spec) -> (r: Vec<Group>)
    ensures
        grouped(r@, all_endpoints(spec.paths@)),
{
    let all = endpoints_of(&spec.paths);
    let ghost flat = flat_views(all@);
    let tags = tags_of(&all);
    let mut out: Vec<Group> = Vec::new();
    let mut i: usize = 0;
    while i < tags.len()
        invariant
            i <= tags@.len(),
            flat == flat_views(all@),
            flat == all_endpoints(spec.paths@),
            out@.len() == i,
            forall|a: int| 0 <= a < i ==> (#[trigger] out@[a]).tag@ == tags@[a]@,
            forall|a: int| 0 <= a < i ==> endpoint_views((#[trigger] out@[a]).endpoints@) == tagged(flat, out@[a].tag@),
        decreases tags@.len() - i,
    {
        let endpoints = under_tag(&all, &tags[i]);
        out.push(Group { tag: copy_string(&tags[i]), endpoints });
        i += 1;
    }
    proof {
        assert forall|i: int, j: int| 0 <= i < j < out@.len() implies before(out@[i].tag@, out@[j].tag@) by {
            assert(out@[i].tag@ == tags@[i]@);
            assert(out@[j].tag@ == tags@[j]@);
        }
        assert forall|k: int| 0 <= k < flat.len() implies group_for(out@, #[trigger] flat[k].0) by {
            assert(tag_listed(tags@, all@[k].0@));
            let a = choose|a: int| 0 <= a < tags@.len() && (#[trigger] tags@[a])@ == all@[k].0@;
            assert(out@[a].tag@ == tags@[a]@);
            assert(flat[k].0 == all@[k].0@);
        }
        assert forall|a: int| 0 <= a < out@.len() implies has_tag(flat, (#[trigger] out@[a]).tag@) by {
            assert(out@[a].tag@ == tags@[a]@);
        }
    }
    out
}

pub open spec fn maybe_text(o: Option<String>) -> Option<Seq<char>> {
    match o {
        Some(text) => Some(text@),
        None => None,
    }
}

/// A parameter as text: its name and where it goes.
pub open spec fn param_view(p: Parameter) -> (Option<Seq<char>>, Option<Seq<char>>) {
    (maybe_text(p.name), maybe_text(p.location))
}

pub open spec fn param_views(s: Seq<Parameter>) -> Seq<(Option<Seq<char>>, Option<Seq<char>>)> {
    s.map_values(|p: Parameter| param_view(p))
}

/// The item at `route`: the first that names it.
pub open spec fn path_item(paths: Seq<(String, PathItem)>, route: Seq<char>) -> Option<PathItem>
    decreases paths.len(),
{
    if paths.len() == 0 {
        None
    } else if paths[0].0@ == route {
        Some(paths[0].1)
    } else {
        path_item(paths.drop_first(), route)
    }
}

/// The operation an item has for `method`, in any case.
pub open spec fn operation_for(item: PathItem, method: Seq<char>) -> Option<Operation> {
    let m = lower(method);
    if m == "get"@ {
        item.get
    } else if m == "post"@ {
        item.post
    } else if m == "put"@ {
        item.put
    } else if m == "patch"@ {
        item.patch
    } else if m == "delete"@ {
        item.delete
    } else if m == "head"@ {
        item.head
    } else if m == "options"@ {
        item.options
    } else {
        None
    }
}

/// The path's shared parameters that the operation does not declare again
/// under the same name and location.
pub open spec fn unshadowed(
    shared: Seq<(Option<Seq<char>>, Option<Seq<char>>)>,
    own: Seq<(Option<Seq<char>>, Option<Seq<char>>)>,
) -> Seq<(Option<Seq<char>>, Option<Seq<char>>)>
    decreases shared.len(),
{
    if shared.len() == 0 {
        Seq::empty()
    } else if own.contains(shared.last()) {
        unshadowed(shared.drop_last(), own)
    } else {
        unshadowed(shared.drop_last(), own).push(shared.last())
    }
}

/// An operation's parameters, then the path's it does not replace.
pub open spec fn parameters_for(item: PathItem, method: Seq<char>) -> Seq<(Option<Seq<char>>, Option<Seq<char>>)> {
    let own = match operation_for(item, method) {
        Some(op) => param_views(op.parameters@),
        None => Seq::empty(),
    };
    own + unshadowed(param_views(item.parameters@), own)
}

pub open spec fn params_of(spec: Spec, route: Seq<char>, method: Seq<char>) -> Seq<(Option<Seq<char>>, Option<Seq<char>>)> {
    match path_item(spec.paths@, route) {
        Some(item) => parameters_for(item, method),
        None => Seq::empty(),
    }
}

/// A named parameter whose `in` is `place`, in any case.
pub open spec fn located(p: (Option<Seq<char>>, Option<Seq<char>>), place: Seq<char>) -> bool {
    p.0 is Some && p.1 is Some && lower(p.1->0) == place
}

/// `name=` for each query parameter.
pub open spec fn query_items(params: Seq<(Option<Seq<char>>, Option<Seq<char>>)>) -> Seq<Seq<char>>
    decreases params.len(),
{
    if params.len() == 0 {
        Seq::empty()
    } else if located(params.last(), "query"@) {
        query_items(params.drop_last()).push(params.last().0->0 + "="@)
    } else {
        query_items(params.drop_last())
    }
}

/// An empty header for each header parameter.
pub open spec fn header_items(params: Seq<(Option<Seq<char>>, Option<Seq<char>>)>) -> Seq<(Seq<char>, Seq<char>)>
    decreases params.len(),
{
    if params.len() == 0 {
        Seq::empty()
    } else if located(params.last(), "header"@) {
        header_items(params.drop_last()).push((params.last().0->0, Seq::empty()))
    } else {
        header_items(params.drop_last())
    }
}

/// Whether a Swagger 2 `body` parameter is among them.
pub open spec fn body_parameter(params: Seq<(Option<Seq<char>>, Option<Seq<char>>)>) -> bool
    decreases params.len(),
{
    params.len() > 0 && (located(params.last(), "body"@) || body_parameter(params.drop_last()))
}

pub open spec fn is_json(media: Seq<char>) -> bool {
    starts_with(media, "application/json"@)
}

pub open spec fn any_json(media: Seq<String>) -> bool {
    exists|i: int| 0 <= i < media.len() && is_json((#[trigger] media[i])@)
}

/// Whether an operation sends JSON: a `requestBody` with a JSON media type,
/// or a `body` parameter where what it consumes, its own or else the spec's,
/// is nothing in particular or JSON.
pub open spec fn sends_json(spec: Spec, op: Operation, params: Seq<(Option<Seq<char>>, Option<Seq<char>>)>) -> bool {
    let declared = match op.request_body {
        Some(media) => any_json(media@),
        None => false,
    };
    let consumes = if op.consumes@.len() == 0 { spec.consumes@ } else { op.consumes@ };
    declared || (body_parameter(params) && (consumes.len() == 0 || any_json(consumes)))
}

pub open spec fn json_body(spec: Spec, route: Seq<char>, method: Seq<char>) -> bool {
    match path_item(spec.paths@, route) {
        Some(item) => match operation_for(item, method) {
            Some(op) => sends_json(spec, op, parameters_for(item, method)),
            None => false,
        },
        None => false,
    }
}

/// The URL of the request an operation describes.
pub open spec fn request_url(spec: Spec, route: Seq<char>, method: Seq<char>) -> Seq<char> {
    let query = query_items(params_of(spec, route, method));
    base_url(spec) + templated(route) + if query.len() > 0 { "?"@ + join(query, "&"@) } else { Seq::empty() }
}

/// The headers of the request an operation describes.
pub open spec fn request_headers(spec: Spec, route: Seq<char>, method: Seq<char>) -> Seq<(Seq<char>, Seq<char>)> {
    header_items(params_of(spec, route, method))
        + if json_body(spec, route, method) { seq![("Content-Type"@, "application/json"@)] } else { Seq::empty() }
}

fn find_path(paths: &Vec<(String, PathItem)>, route: &str) -> (r: Option<usize>)
    ensures
        match r {
            Some(i) => i < paths@.len() && path_item(paths@, route@) == Some(paths@[i as int].1),
            None => path_item(paths@, route@) is None,
        },
{
    let wanted = chars_of(route);
    let mut i: usize = 0;
    assert(paths@.skip(0) == paths@);
    while i < paths.len()
        invariant
            i <= paths@.len(),
            wanted@ == route@,
            path_item(paths@, route@) == path_item(paths@.skip(i as int), route@),
        decreases paths@.len() - i,
    {
        assert(paths@.skip(i as int)[0] == paths@[i as int]);
        if same(&chars_of(paths[i].0.as_str()), &wanted) {
            return Some(i);
        }
        assert(paths@.skip(i as int).drop_first() == paths@.skip(i + 1));
        i += 1;
    }
    None
}

fn operation<'a>(item: &'a PathItem, method: &str) -> (r: Option<&'a Operation>)
    ensures
        match r {
            Some(op) => operation_for(*item, method@) == Some(*op),
            None => operation_for(*item, method@) is None,
        },
{
    proof {
        reveal_strlit("get");
        reveal_strlit("post");
        reveal_strlit("put");
        reveal_strlit("patch");
        reveal_strlit("delete");
        reveal_strlit("head");
        reveal_strlit("options");
    }
    let m = lower_chars(&chars_of(method));
    let found = if same(&m, &chars_of("get")) {
        &item.get
    } else if same(&m, &chars_of("post")) {
        &item.post
    } else if same(&m, &chars_of("put")) {
        &item.put
    } else if same(&m, &chars_of("patch")) {
        &item.patch
    } else if same(&m, &chars_of("delete")) {
        &item.delete
    } else if same(&m, &chars_of("head")) {
        &item.head
    } else if same(&m, &chars_of("options")) {
        &item.options
    } else {
        return None;
    };
    match found {
        Some(op) => Some(op),
        None => None,
    }
}

fn same_text(a: &Option<String>, b: &Option<String>) -> (r: bool)
    ensures
        r == (maybe_text(*a) == maybe_text(*b)),
{
    match (a, b) {
        (Some(x), Some(y)) => same(&chars_of(x.as_str()), &chars_of(y.as_str())),
        (None, None) => true,
        _ => false,
    }
}

fn declared(own: &Vec<Parameter>, p: &Parameter) -> (r: bool)
    ensures
        r == param_views(own@).contains(param_view(*p)),
{
    let ghost views = param_views(own@);
    let mut i: usize = 0;
    while i < own.len()
        invariant
            i <= own@.len(),
            views == param_views(own@),
            forall|j: int| 0 <= j < i ==> views[j] != param_view(*p),
        decreases own@.len() - i,
    {
        if same_text(&own[i].name, &p.name) && same_text(&own[i].location, &p.location) {
            assert(views[i as int] == param_view(*p));
            return true;
        }
        i += 1;
    }
    false
}

fn place_is(p: &Parameter, place: &str) -> (r: bool)
    ensures
        r == located(param_view(*p), place@),
{
    match (&p.name, &p.location) {
        (Some(_), Some(location)) => same(&lower_chars(&chars_of(location.as_str())), &chars_of(place)),
        _ => false,
    }
}

fn take_parameter(
    query: &mut Vec<Vec<char>>,
    headers: &mut Vec<(String, String)>,
    body: &mut bool,
    p: &Parameter,
    Ghost(seen): Ghost<Seq<(Option<Seq<char>>, Option<Seq<char>>)>>,
)
    requires
        views(old(query)@) == query_items(seen),
        pair_views(old(headers)@) == header_items(seen),
        *old(body) == body_parameter(seen),
    ensures
        views(final(query)@) == query_items(seen.push(param_view(*p))),
        pair_views(final(headers)@) == header_items(seen.push(param_view(*p))),
        *final(body) == body_parameter(seen.push(param_view(*p))),
{
    proof {
        reveal_strlit("query");
        reveal_strlit("header");
        reveal_strlit("body");
        reveal_strlit("=");
        assert(seen.push(param_view(*p)).drop_last() == seen);
        assert(seen.push(param_view(*p)).last() == param_view(*p));
        assert("query"@.len() == 5 && "header"@.len() == 6 && "body"@.len() == 4);
    }
    if place_is(p, "query") {
        if let Some(name) = &p.name {
            let mut item = chars_of(name.as_str());
            item.push('=');
            assert(item@ == name@ + "="@);
            let ghost before = views(query@);
            query.push(item);
            assert(views(query@) == before.push(name@ + "="@));
        }
    } else if place_is(p, "header") {
        if let Some(name) = &p.name {
            let ghost before = pair_views(headers@);
            headers.push((copy_string(name), String::new()));
            assert(pair_views(headers@) == before.push((name@, Seq::<char>::empty())));
        }
    }
    if place_is(p, "body") {
        *body = true;
    }
}

/// The request an operation describes. Path parameters become
/// `{{placeholders}}`, query parameters an empty query string, header
/// parameters empty headers, to be filled in by hand or by variables.
pub fn request(spec: &Spec, route: &str, method: &str) -> (r: Request)
    ensures
        r.method@ == upper(method@),
        r.url@ == request_url(*spec, route@, method@),
        r.header_pairs() == request_headers(*spec, route@, method@),
        r.body@.len() == 0,
        r.kind is None,
        r.vars@ == Map::<Seq<char>, Seq<char>>::empty(),
{
    proof {
        reveal_strlit("?");
        reveal_strlit("&");
        reveal_strlit("Content-Type");
        reveal_strlit("application/json");
    }
    let mut request = Request::empty();
    request.method = string_of(&upper_chars(&chars_of(method)));
    let mut url = chars_of(spec.base().as_str());
    append(&mut url, &chars_of(template(route).as_str()));
    let mut query: Vec<Vec<char>> = Vec::new();
    let mut headers: Vec<(String, String)> = Vec::new();
    let mut json = false;
    let ghost params = params_of(*spec, route@, method@);
    if let Some(at) = find_path(&spec.paths, route) {
        let item = &spec.paths[at].1;
        let op = operation(item, method);
        let no_parameters: Vec<Parameter> = Vec::new();
        let own: &Vec<Parameter> = match op {
            Some(op) => &op.parameters,
            None => &no_parameters,
        };
        let ghost own_views = param_views(own@);
        let mut body = false;
        let mut i: usize = 0;
        while i < own.len()
            invariant
                i <= own@.len(),
                own_views == param_views(own@),
                views(query@) == query_items(own_views.take(i as int)),
                pair_views(headers@) == header_items(own_views.take(i as int)),
                body == body_parameter(own_views.take(i as int)),
            decreases own@.len() - i,
        {
            take_parameter(&mut query, &mut headers, &mut body, &own[i], Ghost(own_views.take(i as int)));
            assert(own_views.take(i + 1) == own_views.take(i as int).push(param_view(own@[i as int])));
            i += 1;
        }
        assert(own_views.take(own@.len() as int) == own_views);
        let ghost shared_views = param_views(item.parameters@);
        let mut j: usize = 0;
        while j < item.parameters.len()
            invariant
                j <= item.parameters@.len(),
                own_views == param_views(own@),
                shared_views == param_views(item.parameters@),
                views(query@) == query_items(own_views + unshadowed(shared_views.take(j as int), own_views)),
                pair_views(headers@) == header_items(own_views + unshadowed(shared_views.take(j as int), own_views)),
                body == body_parameter(own_views + unshadowed(shared_views.take(j as int), own_views)),
            decreases item.parameters@.len() - j,
        {
            let p = &item.parameters[j];
            let ghost so_far = own_views + unshadowed(shared_views.take(j as int), own_views);
            assert(shared_views.take(j + 1).drop_last() == shared_views.take(j as int));
            assert(shared_views.take(j + 1).last() == param_view(*p));
            if !declared(own, p) {
                take_parameter(&mut query, &mut headers, &mut body, p, Ghost(so_far));
                assert(own_views + unshadowed(shared_views.take(j + 1), own_views) == so_far.push(param_view(*p)));
            } else {
                assert(own_views + unshadowed(shared_views.take(j + 1), own_views) == so_far);
            }
            j += 1;
        }
        assert(shared_views.take(item.parameters@.len() as int) == shared_views);
        proof {
            assert(path_item(spec.paths@, route@) == Some(*item));
            if op is None {
                assert(own_views =~= Seq::<(Option<Seq<char>>, Option<Seq<char>>)>::empty());
            }
            assert(own_views + unshadowed(shared_views, own_views) == parameters_for(*item, method@));
        }
        if let Some(op) = op {
            let declared_json = match &op.request_body {
                Some(media) => has_json(media),
                None => false,
            };
            let consumes = if op.consumes.len() == 0 { &spec.consumes } else { &op.consumes };
            json = declared_json || (body && (consumes.len() == 0 || has_json(consumes)));
        }
    }
    if query.len() > 0 {
        url.push('?');
        append(&mut url, &join_chars(&query, &chars_of("&")));
    }
    if json {
        let ghost before = pair_views(headers@);
        headers.push(("Content-Type".to_string(), "application/json".to_string()));
        assert(pair_views(headers@) == before + seq![("Content-Type"@, "application/json"@)]);
    } else {
        assert(pair_views(headers@) == pair_views(headers@) + Seq::<(Seq<char>, Seq<char>)>::empty());
    }
    request.url = string_of(&url);
    request.headers = headers;
    request
}

fn has_json(media: &Vec<String>) -> (r: bool)
    ensures
        r == any_json(media@),
{
    proof {
        reveal_strlit("application/json");
    }
    let prefix = chars_of("application/json");
    let mut i: usize = 0;
    while i < media.len()
        invariant
            i <= media@.len(),
            prefix@ == "application/json"@,
            forall|j: int| 0 <= j < i ==> !is_json((#[trigger] media@[j])@),
        decreases media@.len() - i,
    {
        if starts_with_chars(&chars_of(media[i].as_str()), &prefix) {
            assert(is_json(media@[i as int]@));
            return true;
        }
        i += 1;
    }
    false
}

/// A line that opens a YAML spec.
pub open spec fn declares_spec(line: Seq<char>) -> bool {
    starts_with(trim_start(line), "openapi:"@) || starts_with(trim_start(line), "swagger:"@)
}

/// Whether the start of a file, its first kilobyte read as text, declares
/// an OpenAPI or Swagger document: a JSON file by either key, anything else
/// by a line that starts with one.
pub open spec fn looks_like_spec(peek: Seq<u8>, file_name: Seq<char>) -> bool {
    let text = head_text(peek);
    if ends_with(lower(file_name), ".json"@) {
        contains_seq(text, "\u{22}openapi\u{22}"@) || contains_seq(text, "\u{22}swagger\u{22}"@)
    } else {
        any_declares(lines(text))
    }
}

/// The first kilobyte of a file, read as text.
pub open spec fn head_text(peek: Seq<u8>) -> Seq<char> {
    lossy_utf8(if peek.len() > 1024 { peek.take(1024) } else { peek })
}

pub open spec fn any_declares(lines: Seq<Seq<char>>) -> bool {
    exists|i: int| 0 <= i < lines.len() && declares_spec(#[trigger] lines[i])
}

/// Whether the start of a file declares it an OpenAPI or Swagger document.
pub fn is_spec(peek: &[u8], file_name: &str) -> (r: bool)
    ensures
        r == looks_like_spec(peek@, file_name@),
{
    let head: &[u8] = if peek.len() > 1024 { slice_bytes(peek, 1024) } else { peek };
    let text = chars_of(utf8_lossy(head).as_str());
    proof {
        reveal_strlit(".json");
        reveal_strlit("\u{22}openapi\u{22}");
        reveal_strlit("\u{22}swagger\u{22}");
        reveal_strlit("openapi:");
        reveal_strlit("swagger:");
        if peek@.len() > 1024 {
            assert(head@ == peek@.take(1024));
        }
    }
    if ends_with_chars(&lower_chars(&chars_of(file_name)), &chars_of(".json")) {
        return contains_chars(&text, &chars_of("\u{22}openapi\u{22}")) || contains_chars(&text, &chars_of("\u{22}swagger\u{22}"));
    }
    let all = lines_of(&text);
    let ghost seen = views(all@);
    let mut i: usize = 0;
    while i < all.len()
        invariant
            i <= all@.len(),
            seen == views(all@),
            seen == lines(text@),
            text@ == head_text(peek@),
            !ends_with(lower(file_name@), ".json"@),
            forall|j: int| 0 <= j < i ==> !declares_spec(#[trigger] seen[j]),
        decreases all@.len() - i,
    {
        let line = trim_start_chars(&all[i]);
        if starts_with_chars(&line, &chars_of("openapi:")) || starts_with_chars(&line, &chars_of("swagger:")) {
            assert(declares_spec(seen[i as int]));
            assert(any_declares(seen));
            return true;
        }
        i += 1;
    }
    false
}

fn slice_bytes(bytes: &[u8], n: usize) -> (r: &[u8])
    requires
        n <= bytes@.len(),
    ensures
        r@ == bytes@.take(n as int),
{
    let r = bytes.split_at(n).0;
    assert(r@ == bytes@.subrange(0, n as int));
    r
}

} // verus!

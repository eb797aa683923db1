//! Pulling values out of a response into variables: the rules.
//!
//! Rules are written in a request's Scripts tab, one per line:
//!
//! ```text
//! token = json .access_token
//! id    = json data.items.0.id
//! csrf  = header X-CSRF-Token
//! code  = regex /code=(\d+)/
//! ```
//!
//! `#` starts a comment. A rule whose kind is not one of the three is passed
//! over rather than failing the others.

use vstd::prelude::*;

use crate::oauth2::{parse_u64, parsed_u64};
use crate::request::{header, header_value};
use crate::text::{
    chars_of, lines, lines_of, lower, lower_chars, same, split, split_chars, split_once, split_once_chars,
    starts_with, starts_with_chars, string_of, trim, trim_chars, views,
};
use crate::varmap::{pair_views, Vars};

verus! {

#[derive(Debug, Clone, PartialEq, Eq)]
pub struct Rule {
    pub name: String,
    pub source: Source,
}

#[derive(Debug, Clone, PartialEq, Eq)]
pub enum Source {
    /// A dotted path into the JSON body; numeric segments index arrays.
    Json(String),
    /// The first capture group of the pattern, or the whole match without one.
    Regex(String),
    Header(String),
}

/// A rule as text: its name, which kind it is (`json`, `regex` or
/// `header`, lower-cased), and its argument.
pub open spec fn rule_view(rule: Rule) -> (Seq<char>, Seq<char>, Seq<char>) {
    match rule.source {
        Source::Json(argument) => (rule.name@, "json"@, argument@),
        Source::Regex(argument) => (rule.name@, "regex"@, argument@),
        Source::Header(argument) => (rule.name@, "header"@, argument@),
    }
}

pub open spec fn rule_views(rules: Seq<Rule>) -> Seq<(Seq<char>, Seq<char>, Seq<char>)> {
    rules.map_values(|rule: Rule| rule_view(rule))
}

/// The rule a line states, if it states one: `name = kind argument`, the
/// kind read without regard to case.
pub open spec fn rule_of(raw: Seq<char>) -> Option<(Seq<char>, Seq<char>, Seq<char>)> {
    let line = trim(raw);
    if line.len() == 0 || starts_with(line, "#"@) {
        None
    } else {
        match split_once(line, '=') {
            None => None,
            Some((name, rest)) => {
                let name = trim(name);
                let rest = trim(rest);
                if name.len() == 0 || rest.len() == 0 {
                    None
                } else {
                    match split_once(rest, ' ') {
                        None => None,
                        Some((kind, argument)) => {
                            let kind = lower(kind);
                            if kind == "json"@ || kind == "regex"@ || kind == "header"@ {
                                Some((name, kind, trim(argument)))
                            } else {
                                None
                            }
                        },
                    }
                }
            },
        }
    }
}

/// The rules the lines state, in order.
pub open spec fn rules_of(lines: Seq<Seq<char>>) -> Seq<(Seq<char>, Seq<char>, Seq<char>)>
    decreases lines.len(),
{
    if lines.len() == 0 {
        Seq::empty()
    } else {
        match rule_of(lines.last()) {
            Some(rule) => rules_of(lines.drop_last()).push(rule),
            None => rules_of(lines.drop_last()),
        }
    }
}

/// The rules a Scripts tab holds, in the order written.
pub fn parse(script: &str) -> (r: Vec<Rule>)
    ensures
        rule_views(r@) == rules_of(lines(script@)),
{
    let all = lines_of(&chars_of(script));
    let ghost seen = views(all@);
    let mut rules: Vec<Rule> = Vec::new();
    let mut i: usize = 0;
    proof {
        reveal_strlit("#");
        reveal_strlit("json");
        reveal_strlit("regex");
        reveal_strlit("header");
    }
    while i < all.len()
        invariant
            i <= all@.len(),
            seen == views(all@),
            rule_views(rules@) == rules_of(seen.take(i as int)),
        decreases all@.len() - i,
    {
        assert(seen.take(i + 1).drop_last() == seen.take(i as int));
        assert(seen.take(i + 1).last() == all@[i as int]@);
        let line = trim_chars(&all[i]);
        i += 1;
        if line.len() == 0 || starts_with_chars(&line, &chars_of("#")) {
            continue;
        }
        let (name, rest) = match split_once_chars(&line, '=') {
            Some((name, rest)) => (trim_chars(&name), trim_chars(&rest)),
            None => continue,
        };
        if name.len() == 0 || rest.len() == 0 {
            continue;
        }
        let (kind, argument) = match split_once_chars(&rest, ' ') {
            Some((kind, argument)) => (lower_chars(&kind), string_of(&trim_chars(&argument))),
            None => continue,
        };
        let source = if same(&kind, &chars_of("json")) {
            Source::Json(argument)
        } else if same(&kind, &chars_of("regex")) {
            Source::Regex(argument)
        } else if same(&kind, &chars_of("header")) {
            Source::Header(argument)
        } else {
            continue;
        };
        let rule = Rule { name: string_of(&name), source };
        let ghost before = rule_views(rules@);
        assert(rule_view(rule) == (name@, kind@, rule_view(rule).2));
        rules.push(rule);
        assert(rule_views(rules@) == before.push(rule_view(rule)));
    }
    assert(seen.take(seen.len() as int) == seen);
    rules
}

/// A JSON value as the rules read it. An array's items and an object's
/// members are positions in the document's `nodes`; a number, an array and
/// an object carry the text `serde_json` writes for them, which is what a
/// rule that lands on one extracts.
#[derive(Debug, Clone, PartialEq, Eq)]
pub enum JsonValue {
    Null,
    Bool(bool),
    Number(String),
    Str(String),
    Array { items: Vec<usize>, text: String },
    Object { members: Vec<(String, usize)>, text: String },
}

/// A parsed JSON body: its values, and which one is the whole document.
#[derive(Debug, Clone, PartialEq, Eq)]
pub struct Json {
    pub nodes: Vec<JsonValue>,
    pub root: usize,
}

/// The segments of a dotted path, the empty ones left out: `.token` is
/// `token`.
pub open spec fn segments(path: Seq<char>) -> Seq<Seq<char>> {
    split(path, '.').filter(|segment: Seq<char>| segment.len() > 0)
}

/// The first member of an object called `key`.
pub open spec fn member(members: Seq<(String, usize)>, key: Seq<char>) -> Option<usize>
    decreases members.len(),
{
    if members.len() == 0 {
        None
    } else if members[0].0@ == key {
        Some(members[0].1)
    } else {
        member(members.skip(1), key)
    }
}

/// Where the segments lead from the value at `at`: into an object by key,
/// into an array by index, and nowhere from anything else.
pub open spec fn json_at(nodes: Seq<JsonValue>, at: int, path: Seq<Seq<char>>) -> Option<int>
    decreases path.len(),
{
    if at < 0 || at >= nodes.len() {
        None
    } else if path.len() == 0 {
        Some(at)
    } else {
        match nodes[at] {
            JsonValue::Object { members, .. } => match member(members@, path[0]) {
                Some(child) => json_at(nodes, child as int, path.skip(1)),
                None => None,
            },
            JsonValue::Array { items, .. } => match parsed_u64(path[0]) {
                Some(index) => if index < items@.len() {
                    json_at(nodes, items@[index as int] as int, path.skip(1))
                } else {
                    None
                },
                None => None,
            },
            _ => None,
        }
    }
}

/// What a value reads as: nothing for `null`, a string's text, and
/// anything else as JSON writes it.
pub open spec fn json_text(value: JsonValue) -> Option<Seq<char>> {
    match value {
        JsonValue::Null => None,
        JsonValue::Bool(flag) => Some(if flag { "true"@ } else { "false"@ }),
        JsonValue::Number(text) => Some(text@),
        JsonValue::Str(text) => Some(text@),
        JsonValue::Array { text, .. } => Some(text@),
        JsonValue::Object { text, .. } => Some(text@),
    }
}

/// What the `regex` crate makes of `pattern` over `text`: nothing when the
/// pattern does not compile or does not match; otherwise the text of each
/// capture group, group 0 being the whole match, and nothing for a group
/// that took no part in it.
pub uninterp spec fn regex_groups(pattern: Seq<char>, text: Seq<char>) -> Option<Seq<Option<Seq<char>>>>;

pub open spec fn group_views(groups: Seq<Option<String>>) -> Seq<Option<Seq<char>>> {
    groups.map_values(|g: Option<String>| match g {
        Some(text) => Some(text@),
        None => None,
    })
}

/// `Regex::new(pattern)`, then `captures(text)`, each group as text. The
/// contract names the groups, and says what the crate documents of a match:
/// group 0, the whole match, is always there.
#[verifier::external_body]
fn captures_of(pattern: &str, text: &str) -> (r: Option<Vec<Option<String>>>)
    ensures
        match r {
            Some(groups) => regex_groups(pattern@, text@) == Some(group_views(groups@))
                && groups@.len() >= 1 && groups@[0] is Some,
            None => regex_groups(pattern@, text@) is None,
        },
{
    let compiled = match regex::Regex::new(pattern) {
        Ok(compiled) => compiled,
        Err(_) => return None,
    };
    let captures = compiled.captures(text)?;
    Some(captures.iter().map(|group| group.map(|found| found.as_str().to_string())).collect())
}

/// The group a rule extracts: the first capture group when it took part in
/// the match, or else the whole match.
pub open spec fn chosen_group(groups: Seq<Option<Seq<char>>>) -> Option<Seq<char>> {
    if groups.len() > 1 && groups[1] is Some {
        groups[1]
    } else if groups.len() > 0 {
        groups[0]
    } else {
        None
    }
}

/// What a regex rule extracts from `text`: see [`chosen_group`]; nothing
/// when the pattern does not compile or does not match.
pub open spec fn regex_capture(pattern: Seq<char>, text: Seq<char>) -> Option<Seq<char>> {
    match regex_groups(pattern, text) {
        Some(groups) => chosen_group(groups),
        None => None,
    }
}

/// Picks the group a rule extracts from a match's groups.
pub fn pick_group(groups: &Vec<Option<String>>) -> (r: Option<String>)
    ensures
        match r {
            Some(found) => chosen_group(group_views(groups@)) == Some(found@),
            None => chosen_group(group_views(groups@)) is None,
        },
{
    if groups.len() > 1 {
        if let Some(first) = &groups[1] {
            return Some(first.clone());
        }
    }
    if groups.len() > 0 {
        match &groups[0] {
            Some(whole) => Some(whole.clone()),
            None => None,
        }
    } else {
        None
    }
}

/// What a regex rule extracts from `text`.
fn capture(pattern: &str, text: &str) -> (r: Option<String>)
    ensures
        match r {
            Some(found) => regex_capture(pattern@, text@) == Some(found@),
            None => regex_capture(pattern@, text@) is None,
        },
{
    match captures_of(pattern, text) {
        Some(groups) => pick_group(&groups),
        None => None,
    }
}

/// `s` without the `/` at either end, as `trim_matches('/')` leaves it.
pub open spec fn without_slashes(s: Seq<char>) -> Seq<char>
    decreases s.len(),
{
    if s.len() > 0 && s[0] == '/' {
        without_slashes(s.skip(1))
    } else if s.len() > 0 && s.last() == '/' {
        without_slashes(s.drop_last())
    } else {
        s
    }
}

/// What a rule finds in a response, when it finds anything.
pub open spec fn found(source: Source, body: Seq<char>, headers: Seq<(Seq<char>, Seq<char>)>, json: Option<Json>) -> Option<Seq<char>> {
    match source {
        Source::Json(path) => match json {
            Some(document) => match json_at(document.nodes@, document.root as int, segments(path@)) {
                Some(at) => json_text(document.nodes@[at]),
                None => None,
            },
            None => None,
        },
        Source::Regex(pattern) => regex_capture(without_slashes(pattern@), body),
        Source::Header(name) => match header_value(headers, name@) {
            Some(value) => if value.len() > 0 { Some(value) } else { None },
            None => None,
        },
    }
}

/// The variables the rules set, each in turn: a later rule of the same
/// name wins, and one that finds nothing sets nothing.
pub open spec fn extracted(rules: Seq<Rule>, body: Seq<char>, headers: Seq<(Seq<char>, Seq<char>)>, json: Option<Json>) -> Map<Seq<char>, Seq<char>>
    decreases rules.len(),
{
    if rules.len() == 0 {
        Map::empty()
    } else {
        let before = extracted(rules.drop_last(), body, headers, json);
        match found(rules.last().source, body, headers, json) {
            Some(value) => before.insert(rules.last().name@, value),
            None => before,
        }
    }
}

fn without_slashes_exec(s: &Vec<char>) -> (r: Vec<char>)
    ensures
        r@ == without_slashes(s@),
{
    let mut lo: usize = 0;
    let mut hi: usize = s.len();
    assert(s@.subrange(0, s@.len() as int) =~= s@);
    while lo < hi && s[lo] == '/'
        invariant
            lo <= hi <= s@.len(),
            hi == s@.len(),
            without_slashes(s@.subrange(lo as int, hi as int)) == without_slashes(s@),
        decreases hi - lo,
    {
        assert(s@.subrange(lo as int, hi as int).skip(1) =~= s@.subrange(lo + 1, hi as int));
        lo += 1;
    }
    assert(s@.subrange(0, s@.len() as int) =~= s@);
    while lo < hi && s[hi - 1] == '/'
        invariant
            lo <= hi <= s@.len(),
            lo == hi || s@[lo as int] != '/',
            without_slashes(s@.subrange(lo as int, hi as int)) == without_slashes(s@),
        decreases hi - lo,
    {
        assert(s@.subrange(lo as int, hi as int).drop_last() =~= s@.subrange(lo as int, hi - 1));
        hi -= 1;
    }
    crate::text::slice(s, lo, hi)
}

/// The segments of a dotted path, the empty ones left out.
fn path_segments(path: &str) -> (r: Vec<Vec<char>>)
    ensures
        views(r@) == segments(path@),
{
    let parts = split_chars(&chars_of(path), '.');
    let ghost all = views(parts@);
    let ghost keep = |segment: Seq<char>| segment.len() > 0;
    let mut out: Vec<Vec<char>> = Vec::new();
    let mut i: usize = 0;
    while i < parts.len()
        invariant
            i <= parts@.len(),
            all == views(parts@),
            views(out@) == all.take(i as int).filter(keep),
            keep == (|segment: Seq<char>| segment.len() > 0),
        decreases parts@.len() - i,
    {
        let ghost t = all.take(i + 1);
        proof {
            assert(t.drop_last() =~= all.take(i as int));
            assert(t.last() == parts@[i as int]@);
            reveal(Seq::filter);
        }
        if parts[i].len() > 0 {
            let ghost before = views(out@);
            out.push(crate::text::slice(&parts[i], 0, parts[i].len()));
            assert(parts@[i as int]@.subrange(0, parts@[i as int]@.len() as int) =~= parts@[i as int]@);
            assert(views(out@) =~= before.push(parts@[i as int]@));
        }
        i += 1;
    }
    assert(all.take(all.len() as int) =~= all);
    out
}

fn member_of(members: &Vec<(String, usize)>, key: &Vec<char>) -> (r: Option<usize>)
    ensures
        r == member(members@, key@),
{
    let mut i: usize = 0;
    assert(members@.skip(0) =~= members@);
    while i < members.len()
        invariant
            i <= members@.len(),
            member(members@.skip(i as int), key@) == member(members@, key@),
        decreases members@.len() - i,
    {
        assert(members@.skip(i as int)[0] == members@[i as int]);
        assert(members@.skip(i as int).skip(1) =~= members@.skip(i + 1));
        if same(&chars_of(members[i].0.as_str()), key) {
            return Some(members[i].1);
        }
        i += 1;
    }
    assert(members@.skip(i as int).len() == 0);
    None
}

/// Walks a dotted path into a JSON document: numeric segments index
/// arrays.
pub fn walk(document: &Json, path: &str) -> (r: Option<String>)
    ensures
        match json_at(document.nodes@, document.root as int, segments(path@)) {
            Some(at) => match (r, json_text(document.nodes@[at])) {
                (Some(text), Some(expected)) => text@ == expected,
                (None, None) => true,
                _ => false,
            },
            None => r is None,
        },
{
    let segs = path_segments(path);
    let ghost all = segments(path@);
    let mut at = document.root;
    let mut k: usize = 0;
    assert(all.skip(0) =~= all);
    while k < segs.len()
        invariant
            k <= segs@.len(),
            views(segs@) == all,
            all == segments(path@),
            json_at(document.nodes@, at as int, all.skip(k as int)) == json_at(document.nodes@, document.root as int, all),
        decreases segs@.len() - k,
    {
        let ghost rest = all.skip(k as int);
        if at >= document.nodes.len() {
            assert(json_at(document.nodes@, at as int, rest) is None);
            return None;
        }
        let segment = &segs[k];
        assert(rest[0] == segment@);
        assert(rest.skip(1) =~= all.skip(k + 1));
        assert(rest.len() > 0);
        match &document.nodes[at] {
            JsonValue::Object { members, .. } => match member_of(members, segment) {
                Some(child) => {
                    at = child;
                },
                None => return None,
            },
            JsonValue::Array { items, .. } => match parse_u64(segment) {
                Some(index) => {
                    if index < items.len() as u64 {
                        at = items[index as usize];
                    } else {
                        return None;
                    }
                },
                None => return None,
            },
            _ => return None,
        }
        k += 1;
    }
    if at >= document.nodes.len() {
        return None;
    }
    match &document.nodes[at] {
        JsonValue::Null => None,
        JsonValue::Bool(flag) => Some(if *flag { "true".to_string() } else { "false".to_string() }),
        JsonValue::Number(text) => Some(text.clone()),
        JsonValue::Str(text) => Some(text.clone()),
        JsonValue::Array { text, .. } => Some(text.clone()),
        JsonValue::Object { text, .. } => Some(text.clone()),
    }
}

/// Runs the rules against a response: its body, its headers, and the body
/// as JSON when it is JSON. A rule that finds nothing is left out rather
/// than setting its variable to an empty string, which would shadow a
/// value from a lower layer.
pub fn apply(rules: &[Rule], body: &str, headers: &[(String, String)], json: &Option<Json>) -> (r: Vars)
    ensures
        r@ == extracted(rules@, body@, pair_views(headers@), *json),
{
    let mut out = Vars::new();
    let mut i: usize = 0;
    while i < rules.len()
        invariant
            i <= rules@.len(),
            out@ == extracted(rules@.take(i as int), body@, pair_views(headers@), *json),
        decreases rules@.len() - i,
    {
        let rule = &rules[i];
        assert(rules@.take(i + 1).drop_last() =~= rules@.take(i as int));
        assert(rules@.take(i + 1).last() == *rule);
        let value: Option<String> = match &rule.source {
            Source::Json(path) => match json {
                Some(document) => walk(document, path.as_str()),
                None => None,
            },
            Source::Regex(pattern) => {
                let bare = without_slashes_exec(&chars_of(pattern.as_str()));
                capture(string_of(&bare).as_str(), body)
            },
            Source::Header(name) => match header(headers, name.as_str()) {
                Some(value) => if value.is_empty() { None } else { Some(value.to_string()) },
                None => None,
            },
        };
        match value {
            Some(value) => out.insert(rule.name.clone(), value),
            None => {},
        }
        i += 1;
    }
    assert(rules@.take(rules@.len() as int) =~= rules@);
    out
}

} // verus!

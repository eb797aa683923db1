//! A tab's request as it will go on the wire: every variable resolved, the
//! body encoded, the auth header added.

use vstd::prelude::*;
use vstd::utf8::encode_utf8;

use crate::auth::{auth_header, value_at, Auth, AuthKind};
use crate::body::{default_type, encode_form, form_fields, BodyKind, Multipart};
use crate::client::Prepared;
use crate::oauth2::Grant;
use crate::request::{header, header_value, set_header, with_header};
use crate::text::{append, chars_of, join, join_chars, string_of, trim, trim_chars, views};
use crate::varmap::pair_views;
use crate::vars::{resolved, scan, scanned, Scope, DEPTH};

verus! {

/// What of a tab goes into its request, as typed: variables unresolved, the
/// body as the editor holds it, the auth form's values in field order.
#[derive(Debug, Clone)]
pub struct Draft {
    pub method: String,
    pub url: String,
    pub headers: Vec<(String, String)>,
    pub body_kind: BodyKind,
    pub body: String,
    pub form: Vec<(String, String)>,
    pub auth: Auth,
}

/// `text` with every variable the layers define put in.
pub open spec fn filled(text: Seq<char>, layers: Seq<Map<Seq<char>, Seq<char>>>) -> Seq<char> {
    resolved(text, layers, DEPTH as nat)
}

/// The rows that have a name, each name trimmed, both sides resolved.
pub open spec fn resolved_rows(
    rows: Seq<(Seq<char>, Seq<char>)>,
    layers: Seq<Map<Seq<char>, Seq<char>>>,
) -> Seq<(Seq<char>, Seq<char>)>
    decreases rows.len(),
{
    if rows.len() == 0 {
        Seq::empty()
    } else if trim(rows.last().0).len() == 0 {
        resolved_rows(rows.drop_last(), layers)
    } else {
        resolved_rows(rows.drop_last(), layers).push(
            (filled(trim(rows.last().0), layers), filled(rows.last().1, layers)),
        )
    }
}

/// The message for names still unresolved in the URL.
pub open spec fn unset_message(names: Seq<Seq<char>>) -> Seq<char> {
    join(names, ", "@) + (if names.len() == 1 { " is"@ } else { " are"@ })
        + " not set \u{2014} \u{2303}E picks an environment, or give it a value under Vars"@
}

/// Where the request goes, or why it cannot go: the URL is empty once
/// resolved, or still names variables nothing defines, and could only go
/// somewhere wrong.
pub open spec fn target_of(url: Seq<char>, layers: Seq<Map<Seq<char>, Seq<char>>>) -> Result<Seq<char>, Seq<char>> {
    let target = filled(trim(url), layers);
    if target.len() == 0 {
        Err("Nothing to send \u{2014} type a URL first"@)
    } else if scanned(target).len() > 0 {
        Err(unset_message(scanned(target)))
    } else {
        Ok(target)
    }
}

/// The auth form's values, resolved.
pub open spec fn filled_values(values: Seq<String>, layers: Seq<Map<Seq<char>, Seq<char>>>) -> Seq<Seq<char>> {
    values.map_values(|v: String| filled(v@, layers))
}

/// The headers sent: the rows resolved, the multipart body's type in place
/// of any other, the body kind's type when none is given, then the auth
/// header.
pub open spec fn sent_headers(
    draft: Draft,
    layers: Seq<Map<Seq<char>, Seq<char>>>,
    multipart_type: Seq<char>,
) -> Seq<(Seq<char>, Seq<char>)> {
    let rows = resolved_rows(pair_views(draft.headers@), layers);
    let typed = if draft.body_kind == BodyKind::Multipart {
        with_header(rows, "Content-Type"@, multipart_type)
    } else {
        rows
    };
    let defaulted = if draft.body_kind != BodyKind::Multipart && header_value(typed, "Content-Type"@) is None
        && default_type(draft.body_kind) is Some {
        typed.push(("Content-Type"@, default_type(draft.body_kind)->0))
    } else {
        typed
    };
    let values = filled_values(draft.auth.values@, layers);
    if draft.auth.kind == AuthKind::ClientCredentials {
        defaulted
    } else {
        match auth_header(draft.auth.kind, values) {
            Some((name, value)) => with_header(defaulted, name, value),
            None => defaulted,
        }
    }
}

/// The bytes sent: nothing, the form encoded, the multipart body, or the
/// body text resolved.
pub open spec fn sent_body(draft: Draft, layers: Seq<Map<Seq<char>, Seq<char>>>, multipart_body: Seq<u8>) -> Seq<u8> {
    match draft.body_kind {
        BodyKind::NoBody => Seq::empty(),
        BodyKind::Form => encode_utf8(join(form_fields(resolved_rows(pair_views(draft.form@), layers)), "&"@)),
        BodyKind::Multipart => multipart_body,
        _ => encode_utf8(filled(draft.body@, layers)),
    }
}

/// The grant to fetch a token with, for client credentials.
pub open spec fn grant_of(draft: Draft, layers: Seq<Map<Seq<char>, Seq<char>>>) -> Option<(Seq<char>, Seq<char>, Seq<char>, Seq<char>)> {
    let values = filled_values(draft.auth.values@, layers);
    if draft.auth.kind == AuthKind::ClientCredentials {
        Some((value_at(values, 0), value_at(values, 1), value_at(values, 2), value_at(values, 3)))
    } else {
        None
    }
}

/// The rows that have a name, each name trimmed, both sides resolved.
pub fn resolve_rows(scope: &Scope, rows: &[(String, String)]) -> (r: Vec<(String, String)>)
    ensures
        pair_views(r@) == resolved_rows(pair_views(rows@), scope.layers()),
{
    let ghost all = pair_views(rows@);
    let mut out: Vec<(String, String)> = Vec::new();
    let mut i: usize = 0;
    while i < rows.len()
        invariant
            i <= rows@.len(),
            all == pair_views(rows@),
            pair_views(out@) == resolved_rows(all.take(i as int), scope.layers()),
        decreases rows@.len() - i,
    {
        let ghost t = all.take(i + 1);
        assert(t.drop_last() =~= all.take(i as int));
        assert(t.last() == all[i as int]);
        let name = trim_chars(&chars_of(rows[i].0.as_str()));
        if name.len() > 0 {
            let ghost before = pair_views(out@);
            let key = scope.resolve(string_of(&name).as_str());
            let value = scope.resolve(rows[i].1.as_str());
            out.push((key, value));
            assert(pair_views(out@) =~= before.push((key@, value@)));
        }
        i += 1;
    }
    assert(all.take(rows@.len() as int) =~= all);
    out
}

/// Where the request goes: the URL resolved, or why it cannot be sent.
pub fn target(draft: &Draft, scope: &Scope) -> (r: Result<String, String>)
    ensures
        match r {
            Ok(url) => target_of(draft.url@, scope.layers()) == Ok::<Seq<char>, Seq<char>>(url@),
            Err(message) => target_of(draft.url@, scope.layers()) == Err::<Seq<char>, Seq<char>>(message@),
        },
{
    let trimmed = trim_chars(&chars_of(draft.url.as_str()));
    let url = scope.resolve(string_of(&trimmed).as_str());
    if url.as_str().is_empty() {
        return Err("Nothing to send \u{2014} type a URL first".to_string());
    }
    let missing = scan(url.as_str());
    if missing.len() > 0 {
        let mut names: Vec<Vec<char>> = Vec::new();
        let mut i: usize = 0;
        while i < missing.len()
            invariant
                i <= missing@.len(),
                views(names@) == missing@.take(i as int).map_values(|s: String| s@),
            decreases missing@.len() - i,
        {
            let ghost before = views(names@);
            names.push(chars_of(missing[i].as_str()));
            assert(views(names@) =~= before.push(missing@[i as int]@));
            assert(missing@.take(i + 1).map_values(|s: String| s@) =~= missing@.take(i as int).map_values(|s: String| s@).push(missing@[i as int]@));
            i += 1;
        }
        assert(missing@.take(missing@.len() as int) =~= missing@);
        let mut message = join_chars(&names, &chars_of(", "));
        if missing.len() == 1 {
            append(&mut message, &chars_of(" is"));
        } else {
            append(&mut message, &chars_of(" are"));
        }
        append(&mut message, &chars_of(" not set \u{2014} \u{2303}E picks an environment, or give it a value under Vars"));
        return Err(string_of(&message));
    }
    Ok(url)
}

/// The auth form's values, resolved.
fn resolve_values(scope: &Scope, values: &Vec<String>) -> (r: Vec<String>)
    ensures
        r@.map_values(|s: String| s@) == filled_values(values@, scope.layers()),
{
    let mut out: Vec<String> = Vec::new();
    let mut i: usize = 0;
    while i < values.len()
        invariant
            i <= values@.len(),
            out@.map_values(|s: String| s@) == filled_values(values@.take(i as int), scope.layers()),
        decreases values@.len() - i,
    {
        let ghost before = out@.map_values(|s: String| s@);
        let value = scope.resolve(values[i].as_str());
        out.push(value);
        assert(out@.map_values(|s: String| s@) =~= before.push(value@));
        assert(filled_values(values@.take(i + 1), scope.layers())
            =~= filled_values(values@.take(i as int), scope.layers()).push(filled(values@[i as int]@, scope.layers())));
        i += 1;
    }
    assert(values@.take(values@.len() as int) =~= values@);
    out
}

fn value_or_empty(values: &Vec<String>, index: usize) -> (r: String)
    ensures
        r@ == value_at(values@.map_values(|s: String| s@), index as int),
{
    if index < values.len() {
        values[index].clone()
    } else {
        String::new()
    }
}

/// The request as it will go on the wire, and the grant to fetch a token
/// with first when the auth is client credentials. A multipart body comes
/// encoded already, from [`crate::body::multipart`], since its files are
/// read from disk.
pub fn prepare(draft: &Draft, scope: &Scope, multipart: Option<Multipart>) -> (r: Result<(Prepared, Option<Grant>), String>)
    requires
        (draft.body_kind == BodyKind::Multipart) == (multipart is Some),
    ensures
        match (r, target_of(draft.url@, scope.layers())) {
            (Err(message), Err(why)) => message@ == why,
            (Ok((sent, grant)), Ok(url)) => {
                let (multipart_type, multipart_body) = match multipart {
                    Some(m) => (m.content_type@, m.body@),
                    None => (Seq::empty(), Seq::empty()),
                };
                &&& sent.method@ == draft.method@
                &&& sent.url@ == url
                &&& pair_views(sent.headers@) == sent_headers(*draft, scope.layers(), multipart_type)
                &&& sent.body@ == sent_body(*draft, scope.layers(), multipart_body)
                &&& match (grant, grant_of(*draft, scope.layers())) {
                    (Some(g), Some((token_url, client_id, client_secret, grant_scope))) =>
                        g.token_url@ == token_url && g.client_id@ == client_id
                            && g.client_secret@ == client_secret && g.scope@ == grant_scope,
                    (None, None) => true,
                    _ => false,
                }
            },
            _ => false,
        },
{
    let url = match target(draft, scope) {
        Ok(url) => url,
        Err(message) => return Err(message),
    };
    let ghost layers = scope.layers();
    let ghost multipart_type: Seq<char> = if multipart is Some { multipart->0.content_type@ } else { Seq::empty() };
    let ghost multipart_body: Seq<u8> = if multipart is Some { multipart->0.body@ } else { Seq::empty() };
    let mut headers = resolve_rows(scope, &draft.headers);
    let ghost rows = pair_views(headers@);
    let body: Vec<u8> = match draft.body_kind {
        BodyKind::NoBody => Vec::new(),
        BodyKind::Form => {
            let rows = resolve_rows(scope, &draft.form);
            let encoded = encode_form(&rows);
            vstd::slice::slice_to_vec(encoded.as_str().as_bytes())
        },
        BodyKind::Multipart => {
            match multipart {
                Some(encoded) => {
                    set_header(&mut headers, "Content-Type", encoded.content_type.as_str());
                    encoded.body
                },
                None => Vec::new(),
            }
        },
        _ => {
            let text = scope.resolve(draft.body.as_str());
            vstd::slice::slice_to_vec(text.as_str().as_bytes())
        },
    };
    assert(body@ == sent_body(*draft, layers, multipart_body));
    let ghost typed = pair_views(headers@);
    assert(typed == if draft.body_kind == BodyKind::Multipart {
        with_header(rows, "Content-Type"@, multipart_type)
    } else {
        rows
    });
    if draft.body_kind != BodyKind::Multipart && header(&headers, "Content-Type").is_none() {
        match draft.body_kind.content_type() {
            Some(content_type) => {
                let ghost before = pair_views(headers@);
                headers.push(("Content-Type".to_string(), content_type.to_string()));
                assert(pair_views(headers@) =~= before.push(("Content-Type"@, content_type@)));
            },
            None => {},
        }
    }
    let ghost defaulted = pair_views(headers@);
    assert(defaulted == if draft.body_kind != BodyKind::Multipart && header_value(typed, "Content-Type"@) is None
        && default_type(draft.body_kind) is Some {
        typed.push(("Content-Type"@, default_type(draft.body_kind)->0))
    } else {
        typed
    });
    let values = resolve_values(scope, &draft.auth.values);
    let grant = if draft.auth.kind == AuthKind::ClientCredentials {
        Some(Grant {
            token_url: value_or_empty(&values, 0),
            client_id: value_or_empty(&values, 1),
            client_secret: value_or_empty(&values, 2),
            scope: value_or_empty(&values, 3),
        })
    } else {
        match crate::auth::header(draft.auth.kind, &values) {
            Some((name, value)) => set_header(&mut headers, name.as_str(), value.as_str()),
            None => {},
        }
        None
    };
    assert(pair_views(headers@) == sent_headers(*draft, layers, multipart_type));
    let method = draft.method.clone();
    assert(method@ == draft.method@);
    Ok((Prepared { method, url, headers, body }, grant))
}

} // verus!

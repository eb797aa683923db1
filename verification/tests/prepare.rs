use binman_core::app::prepare::{prepare, resolve_rows, target, Draft};
use binman_core::auth::{Auth, AuthKind};
use binman_core::body::{BodyKind, Multipart};
use binman_core::vars::{Scope, Vars};

fn vars(pairs: &[(&str, &str)]) -> Vars {
    let mut out = Vars::new();
    for (k, v) in pairs {
        out.insert(k.to_string(), v.to_string());
    }
    out
}

fn draft(url: &str) -> Draft {
    Draft {
        method: "POST".into(),
        url: url.into(),
        headers: Vec::new(),
        body_kind: BodyKind::NoBody,
        body: String::new(),
        form: Vec::new(),
        auth: Auth { kind: AuthKind::NoAuth, values: Vec::new() },
    }
}

#[test]
fn every_variable_is_resolved_and_the_auth_header_added() {
    let environment = vars(&[("BASE", "https://api.example.com"), ("TOKEN", "abc")]);
    let empty = Vars::new();
    let scope = Scope {
        collection: &empty,
        environment: &environment,
        request: &empty,
        extracted: &empty,
        overrides: &empty,
    };
    let mut tab = draft("  {{BASE}}/users  ");
    tab.headers = vec![
        ("X-Base".into(), "{{BASE}}".into()),
        ("  ".into(), "dropped".into()),
    ];
    tab.body_kind = BodyKind::Json;
    tab.body = "{\"t\":\"{{TOKEN}}\"}".into();
    tab.auth = Auth { kind: AuthKind::Bearer, values: vec!["{{TOKEN}}".into()] };
    let (sent, grant) = prepare(&tab, &scope, None).expect("prepares");
    assert_eq!(sent.method, "POST");
    assert_eq!(sent.url, "https://api.example.com/users");
    assert_eq!(
        sent.headers,
        vec![
            ("X-Base".to_string(), "https://api.example.com".to_string()),
            ("Content-Type".to_string(), "application/json".to_string()),
            ("Authorization".to_string(), "Bearer abc".to_string()),
        ]
    );
    assert_eq!(sent.body, b"{\"t\":\"abc\"}".to_vec());
    assert!(grant.is_none());
}

#[test]
fn a_url_that_names_what_nothing_defines_is_refused() {
    let empty = Vars::new();
    let scope = Scope {
        collection: &empty,
        environment: &empty,
        request: &empty,
        extracted: &empty,
        overrides: &empty,
    };
    assert_eq!(
        prepare(&draft("{{BASE}}/me"), &scope, None).err(),
        Some("BASE is not set \u{2014} \u{2303}E picks an environment, or give it a value under Vars".to_string())
    );
    assert_eq!(
        target(&draft("{{A}}/{{B}}"), &scope).err(),
        Some("A, B are not set \u{2014} \u{2303}E picks an environment, or give it a value under Vars".to_string())
    );
    assert_eq!(
        prepare(&draft("   "), &scope, None).err(),
        Some("Nothing to send \u{2014} type a URL first".to_string())
    );
}

#[test]
fn client_credentials_become_a_grant_and_a_given_type_stays() {
    let overrides = vars(&[("ID", "client-1")]);
    let empty = Vars::new();
    let scope = Scope {
        collection: &empty,
        environment: &empty,
        request: &empty,
        extracted: &empty,
        overrides: &overrides,
    };
    let mut tab = draft("https://x");
    tab.headers = vec![("content-type".into(), "text/csv".into())];
    tab.body_kind = BodyKind::Form;
    tab.form = vec![("id".into(), "{{ID}}".into()), ("q".into(), "a b".into())];
    tab.auth = Auth {
        kind: AuthKind::ClientCredentials,
        values: vec!["https://auth/token".into(), "{{ID}}".into(), "s".into(), "".into()],
    };
    let (sent, grant) = prepare(&tab, &scope, None).expect("prepares");
    assert_eq!(sent.headers, vec![("content-type".to_string(), "text/csv".to_string())]);
    assert_eq!(sent.body, b"id=client-1&q=a+b".to_vec());
    let grant = grant.expect("a grant");
    assert_eq!(grant.token_url, "https://auth/token");
    assert_eq!(grant.client_id, "client-1");
    assert_eq!(grant.client_secret, "s");
    assert_eq!(grant.scope, "");
}

#[test]
fn a_multipart_body_brings_its_own_type() {
    let empty = Vars::new();
    let scope = Scope {
        collection: &empty,
        environment: &empty,
        request: &empty,
        extracted: &empty,
        overrides: &empty,
    };
    let mut tab = draft("https://x/upload");
    tab.headers = vec![("Content-Type".into(), "application/json".into())];
    tab.body_kind = BodyKind::Multipart;
    let encoded = Multipart {
        body: b"--b--\r\n".to_vec(),
        content_type: "multipart/form-data; boundary=b".into(),
    };
    let (sent, _) = prepare(&tab, &scope, Some(encoded)).expect("prepares");
    assert_eq!(
        sent.headers,
        vec![("Content-Type".to_string(), "multipart/form-data; boundary=b".to_string())]
    );
    assert_eq!(sent.body, b"--b--\r\n".to_vec());
    let rows = resolve_rows(&scope, &[(" k ".into(), "v".into())]);
    assert_eq!(rows, vec![("k".to_string(), "v".to_string())]);
}

use binman_core::body::{parse_form, BodyKind};
use binman_core::formats::bru;
use binman_core::formats::bru::{parse, update, vars_blocks};
use binman_core::request::Request;

const CREATE: &str = "meta {
  name: create user
  seq: 3
}

post {
  url: https://example.com/users
  body: json
  auth: none
}

headers {
  Authorization: Bearer abc
  Accept: application/json
  ~X-Debug: 1
}

vars:pre-request {
  trace: abc
}

body:json {
  {
    \"name\": {
      \"first\": \"Jane\"
    },
    \"age\": 30
  }
}

docs {
  Creates a user.

  Returns 201.
}
";

#[test]
fn reads_method_url_headers_vars_and_body() {
    let request = parse(CREATE);
    assert_eq!(request.method, "POST");
    assert_eq!(request.url, "https://example.com/users");
    assert_eq!(
        request.headers,
        vec![
            ("Authorization".to_string(), "Bearer abc".to_string()),
            ("Accept".to_string(), "application/json".to_string()),
        ],
        "the disabled header is not sent"
    );
    assert_eq!(request.vars.get("trace").map(|v| v.as_str()), Some("abc"));
    assert_eq!(request.kind, Some(BodyKind::Json));
    assert!(
        request.body.starts_with("{\n  \"name\": {"),
        "{}",
        request.body
    );
}

#[test]
fn a_nested_body_stops_at_its_own_closing_line() {
    let request = parse(CREATE);
    assert_eq!(
        request.body,
        "{\n  \"name\": {\n    \"first\": \"Jane\"\n  },\n  \"age\": 30\n}"
    );
    assert!(!request.body.contains("docs"), "{}", request.body);
}

#[test]
fn form_bodies_are_read_as_fields() {
    let request = parse(
        "post {\n  url: https://x\n  body: multipart-form\n}\n\nbody:multipart-form {\n  name: Jane Doe\n  avatar: @file(/tmp/a.png)\n}\n",
    );
    assert_eq!(request.kind, Some(BodyKind::Multipart));
    assert_eq!(
        parse_form(&request.body),
        vec![
            ("name".to_string(), "Jane Doe".to_string()),
            ("avatar".to_string(), "@/tmp/a.png".to_string()),
        ]
    );
}

#[test]
fn saving_an_untouched_request_leaves_the_file_alone() {
    let request = parse(CREATE);
    let kind = request.body_kind();
    assert_eq!(update(CREATE, &request, kind), CREATE);
}

#[test]
fn saving_changes_only_what_changed() {
    let mut request = parse(CREATE);
    request.url = "https://example.com/v2/users".into();
    request.headers.retain(|(name, _)| name != "Authorization");
    let saved = update(CREATE, &request, BodyKind::Json);

    assert!(
        saved.contains("  url: https://example.com/v2/users"),
        "{saved}"
    );
    assert!(!saved.contains("Bearer abc"), "{saved}");
    for kept in [
        "name: create user",
        "~X-Debug: 1",
        "trace: abc",
        "Returns 201.",
        "auth: none",
        "\"first\": \"Jane\"",
    ] {
        assert!(saved.contains(kept), "{kept} was lost:\n{saved}");
    }
    let again = parse(&saved);
    assert_eq!(again.url, request.url);
    assert_eq!(again.headers, request.headers);
    assert_eq!(again.body, request.body);
}

#[test]
fn removing_the_body_removes_its_block_and_mode() {
    let mut request = parse(CREATE);
    request.body.clear();
    let saved = update(CREATE, &request, BodyKind::NoBody);
    assert!(!saved.contains("body:json"), "{saved}");
    assert!(saved.contains("  body: none"), "{saved}");
    assert!(saved.contains("Returns 201."), "{saved}");
}

#[test]
fn a_fresh_file_round_trips() {
    let mut request = Request::default();
    request.method = "PATCH".into();
    request.url = "https://api/x".into();
    request.headers = vec![("Content-Type".into(), "application/json".into())];
    request.body = "{\"a\":1}".into();
    let again = parse(&bru::format(&request, BodyKind::Json));
    assert_eq!(again.method, "PATCH");
    assert_eq!(again.url, request.url);
    assert_eq!(again.headers, request.headers);
    assert_eq!(again.body, request.body);
}

#[test]
fn vars_blocks_merge_and_skip_disabled_entries() {
    let vars = vars_blocks(
        "vars {\n  a: 1\n  b: 2\n  ~c: 3\n}\n\nvars:secret [\n  token\n]\n\nvars:pre-request {\n  d: 4\n}\n",
    );
    assert_eq!(vars.len(), 3, "{vars:?}");
    assert_eq!(vars.get("d").map(|v| v.as_str()), Some("4"));
}

#[test]
fn a_fresh_file_is_written_block_by_block() {
    let mut request = Request::default();
    request.method = "POST".into();
    request.url = "https://x/y".into();
    request.headers = vec![("Accept".into(), "text/plain".into())];
    request.body = "hi".into();
    assert_eq!(
        bru::format(&request, BodyKind::Text),
        "post {\n  url: https://x/y\n  body: text\n}\n\nheaders {\n  Accept: text/plain\n}\n\nbody:text {\n  hi\n}\n"
    );
}

#[test]
fn a_file_without_a_method_block_gets_one_on_top() {
    let mut request = Request::default();
    request.method = "GET".into();
    request.url = "https://x".into();
    let saved = update("meta {\n  name: a\n}\n", &request, BodyKind::NoBody);
    assert_eq!(
        saved,
        "get {\n  url: https://x\n  body: none\n}\n\nmeta {\n  name: a\n}\n"
    );
}

#[test]
fn crlf_files_are_read_like_lf_files() {
    let request = parse("get {\r\n  url: https://x\r\n}\r\n");
    assert_eq!(request.method, "GET");
    assert_eq!(request.url, "https://x");
}

#[test]
fn a_fresh_file_with_a_multi_line_body_and_no_headers_round_trips() {
    let mut request = Request::default();
    request.method = "post".into();
    request.url = "https://api/items?x=1".into();
    request.body = "<a>\n\n  <b/>\n</a>".into();
    let again = parse(&bru::format(&request, BodyKind::Xml));
    assert_eq!(again.method, "POST");
    assert_eq!(again.url, request.url);
    assert!(again.headers.is_empty());
    assert_eq!(again.body, request.body);
    assert_eq!(again.kind, Some(BodyKind::Xml));
}

#[test]
fn a_fresh_file_without_a_body_reads_back_with_none() {
    let mut request = Request::default();
    request.url = "https://api/ping".into();
    request.headers = vec![("Accept".into(), "text/plain".into()), ("X-Empty".into(), "".into())];
    let again = parse(&bru::format(&request, BodyKind::NoBody));
    assert_eq!(again.method, "GET");
    assert_eq!(again.url, request.url);
    assert_eq!(again.headers, request.headers);
    assert_eq!(again.body, "");
    assert_eq!(again.kind, None);
}

#[test]
fn collection_and_folder_variables_merge_the_deeper_winning() {
    let levels = vec![
        (None, Some("vars {\n  a: folder\n}\n".to_string())),
        (Some("vars {\n  a: root\n  b: 2\n}\n".to_string()), Some("vars {\n  b: 3\n}\n".to_string())),
        (Some("vars {\n  c: far\n}\n".to_string()), None),
    ];
    let vars = bru::collection_vars(&levels);
    assert_eq!(vars.get("a").map(|v| v.as_str()), Some("folder"));
    assert_eq!(vars.get("b").map(|v| v.as_str()), Some("3"));
    assert_eq!(vars.get("c").map(|v| v.as_str()), Some("far"));
    assert_eq!(vars.len(), 3);
    assert!(bru::collection_vars(&Vec::new()).is_empty());
}

use binman_core::extract::{parse, pick_group, JsonValue, Rule, Source};

#[test]
fn parses_the_three_kinds_and_skips_the_rest() {
    let rules = parse(
        "# header comment\n\
         TOKEN = json data.access_token\n\
         ID = regex /id=(\\d+)/\n\
         SERVER = header Server\n\
         malformed line\n\
         OTHER = xpath //a\n",
    );
    assert_eq!(rules.len(), 3, "{rules:?}");
    assert_eq!(
        rules[0],
        Rule {
            name: "TOKEN".into(),
            source: Source::Json("data.access_token".into())
        }
    );
}

#[test]
fn the_kind_is_read_in_any_case_and_needs_an_argument() {
    let rules = parse("A = JSON x\nB = Header  X-Id \nC = json\n = json y\nD =");
    assert_eq!(
        rules,
        vec![
            Rule { name: "A".into(), source: Source::Json("x".into()) },
            Rule { name: "B".into(), source: Source::Header("X-Id".into()) },
        ]
    );
}

fn node(value: &serde_json::Value, nodes: &mut Vec<binman_core::extract::JsonValue>) -> usize {
    let at = nodes.len();
    nodes.push(JsonValue::Null);
    let converted = match value {
        serde_json::Value::Null => JsonValue::Null,
        serde_json::Value::Bool(flag) => JsonValue::Bool(*flag),
        serde_json::Value::Number(number) => JsonValue::Number(number.to_string()),
        serde_json::Value::String(text) => JsonValue::Str(text.clone()),
        serde_json::Value::Array(items) => {
            let items = items.iter().map(|item| node(item, nodes)).collect();
            JsonValue::Array { items, text: value.to_string() }
        }
        serde_json::Value::Object(members) => {
            let members = members.iter().map(|(key, item)| (key.clone(), node(item, nodes))).collect();
            JsonValue::Object { members, text: value.to_string() }
        }
    };
    nodes[at] = converted;
    at
}

fn json(body: &str) -> Option<binman_core::extract::Json> {
    let value: serde_json::Value = serde_json::from_str(body).ok()?;
    let mut nodes = Vec::new();
    let root = node(&value, &mut nodes);
    Some(binman_core::extract::Json { nodes, root })
}

#[test]
fn walks_json_paths() {
    let rules = binman_core::extract::parse(
        "ID = json data.0.id\n\
         NAME = json data.0.name\n\
         ACTIVE = json data.0.active\n\
         TOKEN = json .token\n\
         MISSING = json data.99.id\n",
    );
    let body = r#"{"token":"t","data":[{"id": 42, "name": "alice", "active": true}]}"#;
    let out = binman_core::extract::apply(&rules, body, &[], &json(body));
    assert_eq!(out.get("ID").map(String::as_str), Some("42"));
    assert_eq!(out.get("NAME").map(String::as_str), Some("alice"));
    assert_eq!(out.get("ACTIVE").map(String::as_str), Some("true"));
    assert_eq!(out.get("TOKEN").map(String::as_str), Some("t"));
    assert!(!out.contains_key("MISSING"));
}

#[test]
fn a_regex_takes_its_first_group() {
    let out = binman_core::extract::apply(
        &binman_core::extract::parse("ID = regex /id=(\\d+)/"),
        "user id=4711 something",
        &[],
        &None,
    );
    assert_eq!(out.get("ID").map(String::as_str), Some("4711"));
}

#[test]
fn a_header_is_found_in_any_case() {
    let headers = vec![("x-trace-id".to_string(), "abc123".to_string())];
    let out = binman_core::extract::apply(
        &binman_core::extract::parse("TID = header X-Trace-Id"),
        "",
        &headers,
        &None,
    );
    assert_eq!(out.get("TID").map(String::as_str), Some("abc123"));
}

#[test]
fn what_a_rule_finds_nothing_for_sets_nothing() {
    let rules = binman_core::extract::parse(
        "A = regex /nope(\\d+)/\nB = header Missing\nC = json a\nD = regex [\nE = json a.b\nF = json a\n",
    );
    let body = r#"{"a":{"b":[1,2]},"n":null}"#;
    let out = binman_core::extract::apply(&rules, "text", &[("Missing".into(), "".into())], &None);
    assert!(out.is_empty(), "a bad pattern, an empty header and no JSON find nothing");
    let out = binman_core::extract::apply(&rules, body, &[], &json(body));
    assert_eq!(out.get("E").map(String::as_str), Some("[1,2]"));
    assert_eq!(out.get("F").map(String::as_str), Some("{\"b\":[1,2]}"));
    let null = binman_core::extract::apply(&binman_core::extract::parse("N = json n"), body, &[], &json(body));
    assert!(null.is_empty(), "null sets nothing");
}

#[test]
fn the_first_group_is_taken_or_else_the_whole_match() {
    let groups = vec![Some("token=abc".to_string()), Some("abc".to_string())];
    assert_eq!(pick_group(&groups), Some("abc".to_string()));
    let unmatched_group = vec![Some("whole".to_string()), None];
    assert_eq!(pick_group(&unmatched_group), Some("whole".to_string()));
    assert_eq!(pick_group(&vec![Some("only".to_string())]), Some("only".to_string()));
}

use binman_core::vars::{Layer, Scope, Vars, resolve, scan};

fn vars(pairs: &[(&str, &str)]) -> Vars {
    let mut out = Vars::new();
    for (k, v) in pairs {
        out.insert(k.to_string(), v.to_string());
    }
    out
}

#[test]
fn resolves_what_it_knows() {
    let got = resolve(
        "Hello {{NAME}}, code={{ CODE }}!",
        &vars(&[("NAME", "world"), ("CODE", "42")]),
    );
    assert_eq!(got, "Hello world, code=42!");
}

#[test]
fn an_unknown_placeholder_is_left_as_written() {
    assert_eq!(resolve("x={{MISSING}}", &Vars::new()), "x={{MISSING}}");
}

#[test]
fn scanning_names_each_variable_once_in_order() {
    assert_eq!(
        scan("GET {{BASE}}/users/{{USER_ID}}?ref={{BASE}}"),
        vec!["BASE", "USER_ID"]
    );
    assert!(scan("no vars here").is_empty());
}

#[test]
fn a_value_that_holds_a_placeholder_is_expanded_too() {
    let env = vars(&[("HOST", "api.example.com"), ("BASE", "https://{{HOST}}/v1")]);
    assert_eq!(
        resolve("{{BASE}}/users", &env),
        "https://api.example.com/v1/users"
    );
}

#[test]
fn a_variable_that_refers_to_itself_stops() {
    let env = vars(&[("LOOP", "{{LOOP}}x")]);
    assert!(resolve("{{LOOP}}", &env).ends_with('x'));
}

#[test]
fn layers_win_in_the_documented_order() {
    let collection = vars(&[
        ("A", "collection"),
        ("B", "collection"),
        ("C", "collection"),
    ]);
    let environment = vars(&[
        ("B", "environment"),
        ("C", "environment"),
        ("D", "environment"),
    ]);
    let request = vars(&[("C", "request"), ("D", "request")]);
    let extracted = vars(&[("D", "extracted"), ("E", "extracted")]);
    let overrides = vars(&[("E", "override")]);
    let scope = Scope {
        collection: &collection,
        environment: &environment,
        request: &request,
        extracted: &extracted,
        overrides: &overrides,
    };

    assert_eq!(scope.lookup("A"), Some(("collection", Layer::Collection)));
    assert_eq!(scope.lookup("B"), Some(("environment", Layer::Environment)));
    assert_eq!(scope.lookup("C"), Some(("request", Layer::Request)));
    assert_eq!(scope.lookup("D"), Some(("extracted", Layer::Extracted)));
    assert_eq!(scope.lookup("E"), Some(("override", Layer::Override)));
    assert_eq!(scope.unresolved("{{A}}{{Z}}"), vec!["Z"]);
}

#[test]
fn names_keep_their_order_and_a_later_value_wins() {
    let mut v = vars(&[("b", "1"), ("a", "2"), ("c", "3")]);
    v.insert("a".to_string(), "4".to_string());
    assert_eq!(v.len(), 3);
    assert_eq!(v.keys(), vec!["a", "b", "c"]);
    assert_eq!(v.get("a").map(String::as_str), Some("4"));
    assert!(!v.contains_key("d"));
    assert_eq!(scan("{{}}{{ a }}{{b}}{{a}}{{{c}}}"), vec!["a", "b", "{c"]);
    assert_eq!(resolve("{{a}x}} {{ b }}", &v), "{{a}x}} 1");
}

#[test]
fn a_variable_that_names_itself_is_defined_not_unresolved() {
    let collection = vars(&[("LOOP", "{{LOOP}}x")]);
    let empty = Vars::new();
    let scope = Scope {
        collection: &collection,
        environment: &empty,
        request: &empty,
        extracted: &empty,
        overrides: &empty,
    };
    assert_eq!(scope.unresolved("{{LOOP}} {{MISSING}}"), vec!["MISSING"]);
}

use binman_core::collection::{in_search_order, kind_of, may_be_spec, method_of, relative, EntryKind, Found};
use binman_core::formats::Format;
use binman_core::source::Origin;

#[test]
fn reads_a_method_without_parsing_the_file() {
    assert_eq!(method_of("# list\nGET https://x/users\n", Format::Http), Some("GET".to_string()));
    assert_eq!(
        method_of("meta {\n  name: create\n}\n\npost {\n  url: https://x/users\n}\n", Format::Bru),
        Some("POST".to_string())
    );
    assert_eq!(method_of("query { me { id } }", Format::Graphql), Some("POST".to_string()));
}

#[test]
fn a_file_without_a_method_has_no_badge() {
    assert_eq!(method_of("FETCH https://x\n", Format::Http), None);
    assert_eq!(method_of("meta {\n  get {\n}\n", Format::Bru), None);
    assert_eq!(method_of("delete{\n", Format::Bru), Some("DELETE".to_string()));
}

#[test]
fn a_path_is_shown_from_its_root() {
    assert_eq!(relative("/c", "/c/users/list.http"), "users/list.http");
    assert_eq!(relative("/c", "/elsewhere/x.http"), "/elsewhere/x.http");
}

#[test]
fn an_origin_knows_its_file_and_whether_it_saves_back() {
    let file = Origin::File("/c/users/get.bru".into());
    assert_eq!(file.path(), "/c/users/get.bru");
    assert_eq!(file.dir(), "/c/users");
    assert_eq!(file.savable(), Some(Format::Bru));
    assert_eq!(Origin::File("/c/q.graphql".into()).savable(), None);
    assert_eq!(Origin::File("/c/q.graphql".into()).describe(), "A .graphql file");
    let spec = Origin::OpenApi { path: "/c/api.yaml".into(), route: "/pets".into(), method: "get".into() };
    assert_eq!(spec.savable(), None);
    assert_eq!(spec.describe(), "An OpenAPI spec");
    assert_eq!(Origin::File("x.http".into()).dir(), "");
}

fn found(name: &str, kind: Option<EntryKind>) -> (String, String, Option<EntryKind>) {
    (name.to_string(), format!("/c/{name}"), kind)
}

fn names(entries: Vec<binman_core::collection::Entry>) -> Vec<String> {
    entries.into_iter().map(|entry| entry.name).collect()
}

#[test]
fn lists_what_binman_can_open_directories_first() {
    let read = vec![
        found("users", Some(EntryKind::Dir)),
        found("query.graphql", Some(EntryKind::Request(Format::Graphql))),
        found("notes.txt", None),
        found(".hidden.http", Some(EntryKind::Request(Format::Http))),
        found("openapi.yaml", Some(EntryKind::OpenApi)),
        found("config.json", None),
        found("api.postman_collection.json", Some(EntryKind::Postman)),
        found("bruno", Some(EntryKind::Dir)),
    ];
    assert_eq!(
        names(binman_core::collection::listing(read)),
        vec!["bruno", "users", "api.postman_collection.json", "openapi.yaml", "query.graphql"]
    );
}

#[test]
fn hides_what_bruno_keeps_beside_its_requests() {
    let read = vec![
        found("collection.bru", Some(EntryKind::Request(Format::Bru))),
        found("environments", Some(EntryKind::Dir)),
        found("Folder.bru", Some(EntryKind::Request(Format::Bru))),
        found("ping.bru", Some(EntryKind::Request(Format::Bru))),
    ];
    assert_eq!(names(binman_core::collection::listing(read)), vec!["ping.bru"]);
    let elsewhere = vec![found("environments", Some(EntryKind::Dir))];
    assert_eq!(
        names(binman_core::collection::listing(elsewhere)),
        vec!["environments"],
        "outside a Bruno collection an environments directory is just a directory"
    );
}

#[test]
fn names_sort_without_regard_to_case_and_ties_keep_their_order() {
    let read = vec![
        found("b.http", Some(EntryKind::Request(Format::Http))),
        found("A.http", Some(EntryKind::Request(Format::Http))),
        found("a.http", Some(EntryKind::Request(Format::Http))),
        found("Zeta", Some(EntryKind::Dir)),
    ];
    assert_eq!(
        names(binman_core::collection::listing(read)),
        vec!["Zeta", "A.http", "a.http", "b.http"]
    );
}

fn request_at(location: &str, title: &str) -> Found {
    Found {
        method: "GET".to_string(),
        title: title.to_string(),
        location: location.to_string(),
        origin: Origin::File(format!("/c/{location}/{title}.http")),
    }
}

#[test]
fn the_search_lists_by_place_then_title_whatever_its_case() {
    let listed = in_search_order(vec![
        request_at("users", "list"),
        request_at("auth", "Zap"),
        request_at("auth", "login"),
        request_at("auth", "Login"),
        request_at("", "ping"),
    ]);
    let order: Vec<(String, String)> =
        listed.iter().map(|f| (f.location.clone(), f.title.clone())).collect();
    assert_eq!(
        order,
        vec![
            ("".to_string(), "ping".to_string()),
            ("auth".to_string(), "login".to_string()),
            ("auth".to_string(), "Login".to_string()),
            ("auth".to_string(), "Zap".to_string()),
            ("users".to_string(), "list".to_string()),
        ]
    );
    assert_eq!(listed[0].origin, Origin::File("/c//ping.http".to_string()));
}

#[test]
fn a_path_is_classified_by_what_it_is_its_name_and_its_head() {
    assert_eq!(kind_of("/c/users", "users", true, &None), Some(EntryKind::Dir));
    assert_eq!(kind_of("/c/ping.http", "ping.http", false, &None), Some(EntryKind::Request(Format::Http)));
    assert_eq!(kind_of("/c/a.BRU", "a.BRU", false, &None), Some(EntryKind::Request(Format::Bru)));
    assert_eq!(
        kind_of("/c/Stripe.Postman_Collection.json", "Stripe.Postman_Collection.json", false, &None),
        Some(EntryKind::Postman)
    );
    assert!(may_be_spec("api.YAML"));
    assert!(!may_be_spec("notes.txt"));
    let head = Some(b"openapi: 3.0.0\ninfo:\n".to_vec());
    assert_eq!(kind_of("/c/api.yaml", "api.yaml", false, &head), Some(EntryKind::OpenApi));
    let json_head = Some(b"{\"swagger\": \"2.0\"}".to_vec());
    assert_eq!(kind_of("/c/api.json", "api.json", false, &json_head), Some(EntryKind::OpenApi));
    assert_eq!(kind_of("/c/data.json", "data.json", false, &Some(b"{\"a\":1}".to_vec())), None);
    assert_eq!(kind_of("/c/notes.txt", "notes.txt", false, &None), None);
}

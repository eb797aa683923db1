use binman_core::formats::openapi::{
    groups, is_spec, request, template, Endpoint, Operation, Parameter, PathItem, Spec,
};
use binman_core::formats::postman::is_collection;

#[test]
fn recognises_a_spec_by_content() {
    assert!(is_spec(br#"{"openapi": "3.0.0"}"#, "x.json"));
    assert!(is_spec(b"# comment\nopenapi: 3.0.0\ninfo:", "x.yaml"));
    assert!(!is_spec(br#"{"foo": 1}"#, "x.json"));
    assert!(!is_spec(b"name: not a spec", "x.yml"));
}

#[test]
fn only_the_first_kilobyte_is_read() {
    let mut late = vec![b' '; 1030];
    late.extend_from_slice(b"\nswagger: \"2.0\"");
    assert!(!is_spec(&late, "late.yaml"));
    assert!(is_spec(b"  swagger: \"2.0\"", "s.YML"));
    assert!(is_spec(b"{\"swagger\": \"2.0\"}", "S.JSON"));
}

#[test]
fn a_postman_export_is_known_by_its_name() {
    assert!(is_collection("API.Postman_Collection.json"));
    assert!(!is_collection("api.postman_environment.json"));
    assert!(!is_collection("collection.json"));
}

const JSON: &str = r#"{
  "openapi": "3.0.0",
  "info": {"title": "demo"},
  "servers": [{"url": "https://api.example.com/v1/"}],
  "paths": {
    "/users/{id}": {
      "parameters": [{"name": "verbose", "in": "query"}],
      "get": {
        "summary": "Get user",
        "tags": ["users"],
        "parameters": [{"name": "X-Trace", "in": "header"}]
      },
      "put": {
        "tags": ["users"],
        "requestBody": {"content": {"application/json": {"schema": {}}}}
      }
    },
    "/health": {"get": {"summary": "Health"}}
  }
}"#;

fn text(value: &serde_json::Value, key: &str) -> Option<String> {
    value.get(key).and_then(|v| v.as_str()).map(|v| v.to_string())
}

fn texts(value: &serde_json::Value, key: &str) -> Vec<String> {
    match value.get(key).and_then(|v| v.as_array()) {
        Some(items) => items.iter().filter_map(|v| v.as_str()).map(|v| v.to_string()).collect(),
        None => Vec::new(),
    }
}

fn parameters(value: &serde_json::Value) -> Vec<Parameter> {
    match value.get("parameters").and_then(|v| v.as_array()) {
        Some(items) => items.iter().map(|p| Parameter { name: text(p, "name"), location: text(p, "in") }).collect(),
        None => Vec::new(),
    }
}

fn operation(value: &serde_json::Value, key: &str) -> Option<Operation> {
    let op = value.get(key)?;
    Some(Operation {
        summary: text(op, "summary"),
        tags: texts(op, "tags"),
        parameters: parameters(op),
        request_body: op.get("requestBody").map(|body| match body.get("content").and_then(|c| c.as_object()) {
            Some(content) => content.keys().cloned().collect(),
            None => Vec::new(),
        }),
        consumes: texts(op, "consumes"),
    })
}

/// A spec's JSON as the library holds it.
fn spec_of(json: &str) -> Spec {
    let value: serde_json::Value = serde_json::from_str(json).expect("parses");
    let servers = match value.get("servers").and_then(|v| v.as_array()) {
        Some(servers) => servers.iter().map(|server| text(server, "url")).collect(),
        None => Vec::new(),
    };
    let mut paths: Vec<(String, PathItem)> = match value.get("paths").and_then(|v| v.as_object()) {
        Some(paths) => paths
            .iter()
            .map(|(route, item)| {
                (
                    route.clone(),
                    PathItem {
                        get: operation(item, "get"),
                        post: operation(item, "post"),
                        put: operation(item, "put"),
                        patch: operation(item, "patch"),
                        delete: operation(item, "delete"),
                        head: operation(item, "head"),
                        options: operation(item, "options"),
                        parameters: parameters(item),
                    },
                )
            })
            .collect(),
        None => Vec::new(),
    };
    paths.sort_by(|a, b| a.0.cmp(&b.0));
    Spec {
        servers,
        host: text(&value, "host"),
        base_path: text(&value, "basePath"),
        schemes: texts(&value, "schemes"),
        consumes: texts(&value, "consumes"),
        paths,
    }
}

#[test]
fn builds_the_request_an_operation_describes() {
    let spec = spec_of(JSON);
    let built = request(&spec, "/users/{id}", "get");
    assert_eq!(built.method, "GET");
    assert_eq!(built.url, "https://api.example.com/v1/users/{{id}}?verbose=");
    assert_eq!(built.header("X-Trace"), Some(""));

    let update = request(&spec, "/users/{id}", "PUT");
    assert_eq!(update.header("Content-Type"), Some("application/json"));
}

#[test]
fn groups_by_first_tag() {
    let spec = spec_of(JSON);
    let groups = groups(&spec);
    let tags: Vec<&str> = groups.iter().map(|group| group.tag.as_str()).collect();
    assert_eq!(tags, vec!["Default", "users"]);
    assert_eq!(groups[1].endpoints.len(), 2);
    assert_eq!(groups[1].endpoints[0].summary, "Get user");
}

#[test]
fn reads_yaml_and_leaves_the_host_to_a_variable() {
    // openapi: 3.0.3 / paths: /pets: get: {tags: [pets], summary: (null)}
    let spec = Spec {
        paths: vec![(
            "/pets".to_string(),
            PathItem {
                get: Some(Operation { tags: vec!["pets".to_string()], ..Operation::default() }),
                ..PathItem::default()
            },
        )],
        ..Spec::default()
    };
    let built = request(&spec, "/pets", "GET");
    assert_eq!(built.url, "{{URL}}/pets");
    assert_eq!(groups(&spec)[0].endpoints[0].summary, "");
}

#[test]
fn swagger_two_builds_its_base_from_host_and_path() {
    let spec = spec_of(
        r#"{"swagger":"2.0","host":"petstore.io","basePath":"/v2","schemes":["http"],
             "paths":{"/pet":{"post":{"parameters":[{"name":"body","in":"body"}]}}}}"#,
    );
    let built = request(&spec, "/pet", "POST");
    assert_eq!(built.url, "http://petstore.io/v2/pet");
    assert_eq!(built.header("Content-Type"), Some("application/json"));
}

#[test]
fn a_route_a_spec_does_not_have_is_only_its_url() {
    let spec = spec_of(JSON);
    let built = request(&spec, "/nowhere/{x}", "delete");
    assert_eq!(built.method, "DELETE");
    assert_eq!(built.url, "https://api.example.com/v1/nowhere/{{x}}");
    assert!(built.headers.is_empty());
}

#[test]
fn an_operation_s_own_parameter_replaces_the_path_s() {
    let spec = spec_of(
        r#"{"servers":[{"url":"/api"}],"paths":{"/a":{
            "parameters":[{"name":"q","in":"query"},{"name":"X-Id","in":"header"}],
            "get":{"parameters":[{"name":"q","in":"query"},{"name":"page","in":"QUERY"}]}}}}"#,
    );
    let built = request(&spec, "/a", "get");
    assert_eq!(built.url, "{{URL}}/api/a?q=&page=");
    assert_eq!(built.headers, vec![("X-Id".to_string(), String::new())]);
}

#[test]
fn a_body_parameter_sends_json_only_where_json_is_consumed() {
    let spec = spec_of(
        r#"{"host":"h","consumes":["application/xml"],"paths":{"/p":{
            "post":{"parameters":[{"name":"b","in":"body"}]},
            "put":{"consumes":["application/json; charset=utf-8"],"parameters":[{"name":"b","in":"body"}]}}}}"#,
    );
    assert_eq!(request(&spec, "/p", "post").header("Content-Type"), None);
    assert_eq!(request(&spec, "/p", "put").header("Content-Type"), Some("application/json"));
    assert_eq!(request(&spec, "/p", "put").url, "https://h/p");
}

#[test]
fn templates_double_each_closed_brace_pair() {
    assert_eq!(template("/users/{id}/posts/{post}"), "/users/{{id}}/posts/{{post}}");
    assert_eq!(template("/a/{open"), "/a/{open");
    assert_eq!(template("/plain"), "/plain");
}

#[test]
fn groups_sort_by_tag_and_keep_route_then_method_order() {
    let spec = spec_of(
        r#"{"paths":{
            "/b":{"post":{"tags":["zeta"]},"get":{"tags":["alpha"],"summary":"b"}},
            "/a":{"delete":{"tags":["alpha"]},"get":{"tags":["alpha","zeta"]}}}}"#,
    );
    let groups = groups(&spec);
    let tags: Vec<&str> = groups.iter().map(|group| group.tag.as_str()).collect();
    assert_eq!(tags, vec!["alpha", "zeta"]);
    let alpha: Vec<(&str, &str)> =
        groups[0].endpoints.iter().map(|e: &Endpoint| (e.route.as_str(), e.method.as_str())).collect();
    assert_eq!(alpha, vec![("/a", "GET"), ("/a", "DELETE"), ("/b", "GET")]);
    assert_eq!(groups[1].endpoints[0].route, "/b");
}

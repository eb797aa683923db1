use binman_core::body::BodyKind;
use binman_core::formats::graphql;
use binman_core::formats::Format;

#[test]
fn an_operation_alone_is_posted_as_json() {
    let request = graphql::parse("query { me { id } }");
    assert_eq!(request.method, "POST");
    assert_eq!(request.header("Content-Type"), Some("application/json"));
    assert_eq!(request.body, "{\"query\":\"query { me { id } }\"}");
    assert_eq!(request.kind, Some(BodyKind::Json));
}

#[test]
fn reads_the_header_and_the_variables() {
    let request = graphql::parse(
        "# URL: https://api.example.com/graphql\n\
         # Header: Authorization: Bearer abc\n\
         ---\n\
         query UserById($id: ID!) {\n  user(id: $id) { name }\n}\n\
         ---\n\
         {\"id\": \"42\"}\n",
    );
    assert_eq!(request.url, "https://api.example.com/graphql");
    assert_eq!(request.header("Authorization"), Some("Bearer abc"));
    assert_eq!(
        request.body,
        "{\"query\":\"query UserById($id: ID!) {\\n  user(id: $id) { name }\\n}\",\"variables\":{\"id\":\"42\"}}"
    );
}

#[test]
fn variables_that_are_not_json_are_left_out() {
    let request = graphql::parse("## url: https://x\r\n---\r\n{ a }\r\n---\r\nnot json");
    assert_eq!(request.url, "https://x");
    assert_eq!(request.body, "{\"query\":\"{ a }\"}");
}

#[test]
fn the_format_is_read_from_the_extension() {
    assert_eq!(Format::of("/a/b/list.http"), Some(Format::Http));
    assert_eq!(Format::of("users.BRU"), Some(Format::Bru));
    assert_eq!(Format::of("q.graphql"), Some(Format::Graphql));
    assert_eq!(Format::of("notes.txt"), None);
    assert_eq!(Format::of(".http"), None);
    assert_eq!(Format::Bru.label(), "Bruno");
    assert_eq!(Format::Http.parse("get https://x").method, "GET");
    assert_eq!(Format::Graphql.parse("{ a }").method, "POST");
}

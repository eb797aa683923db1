use binman_core::formats::http;
use binman_core::formats::http::parse;
use binman_core::request::Request;

#[test]
fn reads_the_request_line_headers_and_body() {
    let request = parse(
        "POST https://example.com/api\n\
         Content-Type: application/json\n\
         X-Custom: hello\n\
         \n\
         {\"hi\": 1}\n",
    );
    assert_eq!(request.method, "POST");
    assert_eq!(request.url, "https://example.com/api");
    assert_eq!(request.header("content-type"), Some("application/json"));
    assert_eq!(request.header("X-Custom"), Some("hello"));
    assert_eq!(request.body, "{\"hi\": 1}");
}

#[test]
fn uppercases_the_method() {
    assert_eq!(parse("get https://x").method, "GET");
}

#[test]
fn an_empty_file_is_an_empty_request() {
    let request = parse("");
    assert_eq!((request.method.as_str(), request.url.as_str()), ("", ""));
}

#[test]
fn reads_files_written_for_other_clients() {
    let request = parse(
        "### list users\n\
         # @name list\n\
         GET https://api.example.com/users HTTP/1.1\n\
         Accept: application/json\n\
         \n\
         ###\n\
         POST https://api.example.com/other\n",
    );
    assert_eq!(request.method, "GET");
    assert_eq!(request.url, "https://api.example.com/users");
    assert_eq!(request.body, "", "the next request is not this one's body");

    let bare = parse("https://api.example.com/health\n");
    assert_eq!((bare.method.as_str(), bare.url.as_str()), ("GET", "https://api.example.com/health"));
}

#[test]
fn round_trips_through_format() {
    let original = Request {
        method: "PUT".into(),
        url: "https://api.example.com/x".into(),
        headers: vec![
            ("Content-Type".into(), "application/json".into()),
            ("Accept".into(), "*/*".into()),
        ],
        body: "{\"k\":1}".into(),
        ..Request::default()
    };
    let again = parse(&http::format(&original));
    assert_eq!(again.method, original.method);
    assert_eq!(again.url, original.url);
    assert_eq!(again.headers, original.headers, "order is kept");
    assert_eq!(again.body, original.body);
}

#[test]
fn crlf_files_comments_among_headers_and_a_body_that_ends_in_a_break() {
    let request = parse("\r\n// note\r\nDELETE  https://x/1 \r\n# skip\r\nA : 1\r\n: nameless\r\nB:2\r\n\r\nline one\r\n\r\n### next\r\n");
    assert_eq!(request.method, "DELETE");
    assert_eq!(request.url, "https://x/1");
    assert_eq!(request.headers, vec![("A".to_string(), "1".to_string()), ("B".to_string(), "2".to_string())]);
    assert_eq!(request.body, "line one");
    let request = Request { body: "x\n".into(), ..Request::default() };
    assert_eq!(http::format(&request), "GET \n\nx\n");
}

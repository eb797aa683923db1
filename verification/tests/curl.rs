use binman_core::formats::curl;
use binman_core::formats::curl::{is_curl, parse};
use binman_core::request::Request;

#[test]
fn recognises_a_curl_command() {
    for (text, expected) in [
        ("curl https://x", true),
        ("  curl https://x", true),
        ("curl", true),
        ("$ curl https://x", true),
        ("wget https://x", false),
        ("https://example.com", false),
    ] {
        assert_eq!(is_curl(text), expected, "{text}");
    }
}

#[test]
fn a_bare_url_is_a_get() {
    let request = parse("curl https://example.com/x").unwrap();
    assert_eq!(
        (request.method.as_str(), request.url.as_str()),
        ("GET", "https://example.com/x")
    );
}

#[test]
fn reads_method_headers_and_data() {
    let request = parse(
        r#"curl -X POST -H "Content-Type: application/json" -H 'Authorization: Bearer abc' --data-raw '{"a":1}' https://example.com/api"#,
    )
    .unwrap();
    assert_eq!(request.method, "POST");
    assert_eq!(request.url, "https://example.com/api");
    assert_eq!(request.header("Content-Type"), Some("application/json"));
    assert_eq!(request.header("Authorization"), Some("Bearer abc"));
    assert_eq!(request.body, r#"{"a":1}"#);
}

#[test]
fn data_implies_a_form_post() {
    let request = parse(r#"curl -d "foo=bar" https://x"#).unwrap();
    assert_eq!(request.method, "POST");
    assert_eq!(
        request.header("Content-Type"),
        Some("application/x-www-form-urlencoded")
    );
}

#[test]
fn keeps_every_field_of_a_client_credentials_request() {
    let request = parse(
        "curl -s -X POST 'https://login.microsoftonline.com/tid/oauth2/v2.0/token' \
         -d 'grant_type=client_credentials' \
         -d 'client_id=abc' \
         -d 'scope=https://graph.microsoft.com/.default' \
         --data-urlencode 'client_secret=sec.ret~with/chars'",
    )
    .unwrap();
    assert_eq!(request.method, "POST");
    for expected in [
        "grant_type=client_credentials",
        "client_id=abc",
        "scope=https://graph.microsoft.com/.default",
        "client_secret=sec.ret~with%2Fchars",
    ] {
        assert!(
            request.body.contains(expected),
            "{expected} missing from {}",
            request.body
        );
    }
}

#[test]
fn user_becomes_basic_auth() {
    let request = parse("curl -u alice:secret https://x").unwrap();
    assert_eq!(
        request.header("Authorization"),
        Some("Basic YWxpY2U6c2VjcmV0")
    );
}

#[test]
fn follows_line_continuations() {
    let request = parse("curl -X POST \\\n  -H 'A: 1' \\\n  https://x").unwrap();
    assert_eq!(request.url, "https://x");
    assert_eq!(request.header("A"), Some("1"));
}

#[test]
fn reads_what_a_browser_copies() {
    let request = parse(
        "curl 'https://api.example.com/graphql' \
         -H 'accept: */*' \
         -b 'session=abc; theme=dark' \
         --data-raw $'{\"q\":\"it\\'s\"}' \
         --compressed",
    )
    .unwrap();
    assert_eq!(request.url, "https://api.example.com/graphql");
    assert_eq!(request.header("Cookie"), Some("session=abc; theme=dark"));
    assert_eq!(request.body, r#"{"q":"it's"}"#);
    assert_eq!(request.method, "POST");
}

#[test]
fn reads_values_written_against_their_flag() {
    let request = parse("curl -XPUT -H'X-A: 1' https://x").unwrap();
    assert_eq!(request.method, "PUT");
    assert_eq!(request.header("X-A"), Some("1"));
}

#[test]
fn an_unterminated_quote_is_an_error() {
    assert!(parse("curl 'https://x").is_err());
}

#[test]
fn exports_what_the_shell_will_read_back() {
    let request = Request {
        method: "POST".into(),
        url: "https://x/search?a=1&b=2".into(),
        headers: vec![("Content-Type".into(), "application/json".into())],
        body: r#"{"q":"it's"}"#.into(),
        ..Request::default()
    };
    let command = curl::format(&request, None);
    assert_eq!(
        command,
        r#"curl -X POST -H 'Content-Type: application/json' --data-raw '{"q":"it'\''s"}' 'https://x/search?a=1&b=2'"#
    );
    let again = parse(&command).unwrap();
    assert_eq!(again.url, request.url);
    assert_eq!(again.body, request.body);
}

#[test]
fn a_multipart_body_exports_as_fields() {
    let request = Request {
        method: "POST".into(),
        url: "https://x/upload".into(),
        headers: vec![(
            "Content-Type".into(),
            "multipart/form-data; boundary=b".into(),
        )],
        ..Request::default()
    };
    let fields = vec![("file".to_string(), "@/tmp/a.png".to_string())];
    assert_eq!(
        curl::format(&request, Some(&fields)),
        "curl -X POST -F file=@/tmp/a.png https://x/upload"
    );
}

#[test]
fn what_is_not_curl_says_so_and_json_adds_its_headers() {
    let error = parse("wget https://x").unwrap_err();
    assert_eq!(error.message(), "not a curl command");
    assert_eq!(parse("curl \"x").unwrap_err().message(), "the curl command has an unterminated quote");
    let request = parse("$ curl --json '{}' --unknown value -F a=b -A agent -e ref -b cookies.txt https://x -X").unwrap();
    assert_eq!(request.header("Content-Type"), Some("application/json"));
    assert_eq!(request.header("Accept"), Some("application/json"));
    assert_eq!(request.header("User-Agent"), Some("agent"));
    assert_eq!(request.header("Referer"), Some("ref"));
    assert_eq!(request.header("Cookie"), None);
    assert_eq!(request.body, "{}&a=b");
    assert_eq!(request.method, "POST");
    assert_eq!(request.url, "https://x");
    let request = parse("curl --data-urlencode 'q=a b/é' -F f=1 https://x").unwrap();
    assert_eq!(request.body, "q=a+b%2F%C3%A9&f=1");
    assert_eq!(request.header("Content-Type"), Some("multipart/form-data"));
}

#[test]
fn a_proxy_and_its_value_are_passed_over() {
    let request = parse("curl --proxy http://proxy:3128 https://api.example.com/x").unwrap();
    assert_eq!(request.url, "https://api.example.com/x");
    assert_eq!(request.method, "GET");
    assert!(request.headers.is_empty());
    assert_eq!(request.body, "");
    let request = parse("curl -x http://proxy:3128 --cert /tmp/c.pem https://h/y -H 'A: b'").unwrap();
    assert_eq!(request.url, "https://h/y");
    assert_eq!(request.headers, vec![("A".to_string(), "b".to_string())]);
}

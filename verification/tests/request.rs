use binman_core::request::{Request, header, is_method, set_header};

#[test]
fn headers_are_found_in_any_case() {
    let headers = vec![("content-type".to_string(), "text/plain".to_string())];
    assert_eq!(header(&headers, "Content-Type"), Some("text/plain"));
}

#[test]
fn setting_a_header_replaces_rather_than_duplicates() {
    let mut headers = vec![("authorization".to_string(), "old".to_string())];
    set_header(&mut headers, "Authorization", "new");
    assert_eq!(headers, vec![("authorization".into(), "new".into())]);
}

#[test]
fn the_first_of_repeated_headers_is_the_one_read_and_set() {
    let mut headers = vec![
        ("Accept".to_string(), "a".to_string()),
        ("ACCEPT".to_string(), "b".to_string()),
    ];
    assert_eq!(header(&headers, "accept"), Some("a"));
    set_header(&mut headers, "accept", "c");
    assert_eq!(headers[0], ("Accept".to_string(), "c".to_string()));
    assert_eq!(headers[1], ("ACCEPT".to_string(), "b".to_string()));
    set_header(&mut headers, "X-New", "1");
    assert_eq!(headers.len(), 3);
    assert!(is_method("patch"));
    assert!(!is_method("FETCH"));
}

#[test]
fn a_declared_kind_outranks_the_content_type() {
    let request = Request {
        headers: vec![("Content-Type".into(), "text/plain".into())],
        body: "x".into(),
        ..Request::default()
    };
    assert_eq!(request.body_kind(), binman_core::body::BodyKind::Text);
    let declared = Request { kind: Some(binman_core::body::BodyKind::Xml), ..request };
    assert_eq!(declared.body_kind(), binman_core::body::BodyKind::Xml);
}

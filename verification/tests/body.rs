use binman_core::body::{BodyKind, encode_form, parse_form};

#[test]
fn the_content_type_decides_and_a_bare_body_is_json() {
    assert_eq!(
        BodyKind::detect(Some("application/json; charset=utf-8"), ""),
        BodyKind::Json
    );
    assert_eq!(BodyKind::detect(Some("text/xml"), "<a/>"), BodyKind::Xml);
    assert_eq!(BodyKind::detect(None, "{}"), BodyKind::Json);
    assert_eq!(BodyKind::detect(None, ""), BodyKind::NoBody);
}

#[test]
fn kinds_cycle_round() {
    assert_eq!(BodyKind::NoBody.cycle(-1), BodyKind::Sparql);
    assert_eq!(BodyKind::Sparql.cycle(1), BodyKind::NoBody);
}

#[test]
fn a_form_body_decodes_to_pairs() {
    assert_eq!(
        parse_form("name=Jane+Doe&city=Reykjav%C3%ADk"),
        vec![
            ("name".to_string(), "Jane Doe".to_string()),
            ("city".to_string(), "Reykjavík".to_string())
        ]
    );
}

#[test]
fn encoding_a_form_leaves_placeholders_alone() {
    let body = encode_form(&[
        ("token".into(), "{{TOKEN}}".into()),
        ("q".into(), "a b&c".into()),
    ]);
    assert_eq!(body, "token={{TOKEN}}&q=a+b%26c");
}

#[test]
fn an_unknown_content_type_with_a_body_is_json_and_case_does_not_matter() {
    assert_eq!(BodyKind::detect(Some("  Multipart/Form-Data ; boundary=x"), ""), BodyKind::Multipart);
    assert_eq!(BodyKind::detect(Some("image/png"), "x"), BodyKind::Json);
    assert_eq!(BodyKind::detect(Some("image/png"), ""), BodyKind::NoBody);
    assert_eq!(BodyKind::Form.content_type(), Some("application/x-www-form-urlencoded"));
    assert!(BodyKind::Multipart.is_form());
    assert!(!BodyKind::Json.is_form());
    assert_eq!(encode_form(&[("".into(), "dropped".into()), ("a".into(), "é{{X}}~".into())]), "a=%C3%A9{{X}}%7E");
}

#[test]
fn multipart_carries_fields_and_files() {
    let fields = vec![
        ("name".to_string(), "alice".to_string()),
        ("upload".to_string(), "@data.txt".to_string()),
    ];
    let paths = binman_core::body::uploads(&fields, Some("/tmp/dir"));
    assert_eq!(paths, vec!["/tmp/dir/data.txt".to_string()]);
    let files = vec![Ok(b"hello world".to_vec())];
    let boundary = binman_core::body::boundary().expect("randomness");
    let encoded = binman_core::body::multipart(&fields, Some("/tmp/dir"), &boundary, &files)
        .expect("encodes");

    let named = encoded
        .content_type
        .strip_prefix("multipart/form-data; boundary=")
        .expect("the content type names its boundary");
    assert_eq!(named, boundary);
    let body = String::from_utf8(encoded.body).expect("text");
    assert!(body.contains("name=\"name\"\r\n\r\nalice\r\n"), "{body}");
    assert!(body.contains("filename=\"data.txt\""), "{body}");
    assert!(body.contains("hello world"), "{body}");
    assert!(body.ends_with(&format!("--{boundary}--\r\n")), "{body}");
}

#[test]
fn a_missing_upload_names_the_file() {
    let fields = vec![("upload".to_string(), "@/no/such/file".to_string())];
    let paths = binman_core::body::uploads(&fields, None);
    assert_eq!(paths, vec!["/no/such/file".to_string()]);
    let files = vec![Err("No such file or directory (os error 2)".to_string())];
    let error = binman_core::body::multipart(&fields, None, "b", &files)
        .err()
        .expect("fails")
        .message();
    assert!(error.contains("/no/such/file"), "{error}");
    assert_eq!(
        error,
        "reading /no/such/file for the upload field: No such file or directory (os error 2)"
    );
}

#[test]
fn a_multipart_body_is_laid_out_part_by_part() {
    let fields = vec![
        ("say \"hi\"".to_string(), "a\\b".to_string()),
        ("".to_string(), "@skipped".to_string()),
        ("f".to_string(), "@x/y.bin".to_string()),
    ];
    let files = vec![Ok(vec![0u8, 255])];
    let encoded = binman_core::body::multipart(&fields, None, "XYZ", &files).expect("encodes");
    let mut expected = b"--XYZ\r\nContent-Disposition: form-data; name=\"say \\\"hi\\\"\"\r\n\r\na\\b\r\n".to_vec();
    expected.extend_from_slice(b"--XYZ\r\nContent-Disposition: form-data; name=\"f\"; filename=\"y.bin\"\r\nContent-Type: application/octet-stream\r\n\r\n");
    expected.extend_from_slice(&[0u8, 255]);
    expected.extend_from_slice(b"\r\n--XYZ--\r\n");
    assert_eq!(encoded.body, expected);
    assert_eq!(encoded.content_type, "multipart/form-data; boundary=XYZ");
}

#[test]
fn a_boundary_is_thirty_two_hex_digits_and_fresh_each_time() {
    let a = binman_core::body::boundary().expect("randomness");
    let b = binman_core::body::boundary().expect("randomness");
    assert_eq!(a.len(), 32);
    assert!(a.chars().all(|c| c.is_ascii_digit() || ('a'..='f').contains(&c)), "{a}");
    assert_ne!(a, b);
}

#[test]
fn the_content_type_a_kind_is_sent_as_reads_back_as_that_kind() {
    for position in 0..7 {
        let kind = BodyKind::at(position);
        assert_eq!(BodyKind::detect(kind.content_type(), ""), kind);
    }
}

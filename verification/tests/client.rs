use std::time::Duration;

use binman_core::client::{event_end, human, Exchange, Trace};

#[test]
fn an_event_ends_at_its_blank_line() {
    assert_eq!(event_end(b"data: one\n\ndata: two"), Some(11));
    assert_eq!(event_end(b"data: one\r\n\r\n"), Some(13));
    assert_eq!(event_end(b"data: partial"), None);
}

#[test]
fn the_earlier_of_the_two_endings_closes_the_event() {
    assert_eq!(event_end(b"a\r\n\r\nb\n\n"), Some(5));
    assert_eq!(event_end(b"a\n\nb\r\n\r\n"), Some(3));
    assert_eq!(event_end(b""), None);
}

#[test]
fn timeouts_read_as_written() {
    assert_eq!(human(Duration::from_secs(30)), "30s");
    assert_eq!(human(Duration::from_secs(120)), "2m");
    assert_eq!(human(Duration::from_millis(1500)), "1500ms");
}

#[test]
fn a_minute_and_a_half_is_ninety_seconds() {
    assert_eq!(human(Duration::from_secs(90)), "90s");
    assert_eq!(human(Duration::from_secs(0)), "0s");
    assert_eq!(human(Duration::from_secs(3600)), "60m");
}

#[test]
fn a_response_reads_as_text_and_finds_its_headers_in_any_case() {
    let exchange = Exchange {
        status: 200,
        reason: "OK".into(),
        version: "HTTP/1.1".into(),
        url: "https://x".into(),
        headers: vec![("content-type".into(), "text/plain".into())],
        body: vec![b'h', b'i', 0xff],
        set_cookies: Vec::new(),
        jar: Vec::new(),
        trace: Trace::default(),
        streamed: false,
    };
    assert_eq!(exchange.text(), "hi\u{fffd}");
    assert_eq!(exchange.header("Content-Type"), Some("text/plain"));
    assert_eq!(exchange.header("Accept"), None);
}

#[test]
fn an_event_stream_is_known_by_its_content_type() {
    let headers = vec![("Content-Type".to_string(), "  Text/Event-Stream; charset=utf-8".to_string())];
    assert!(binman_core::client::is_event_stream(&headers));
    let json = vec![("content-type".to_string(), "application/json".to_string())];
    assert!(!binman_core::client::is_event_stream(&json));
    assert!(!binman_core::client::is_event_stream(&[]));
}

#[test]
fn complete_events_are_taken_and_the_rest_waits() {
    let mut pending = b"data: a\n\ndata: b\r\n\r\ndata: c".to_vec();
    let events = binman_core::client::take_events(&mut pending);
    assert_eq!(events, vec![b"data: a\n\n".to_vec(), b"data: b\r\n\r\n".to_vec()]);
    assert_eq!(pending, b"data: c".to_vec());
    let mut nothing = b"data: partial".to_vec();
    assert!(binman_core::client::take_events(&mut nothing).is_empty());
    assert_eq!(nothing, b"data: partial".to_vec());
}

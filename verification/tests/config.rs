use std::path::PathBuf;
use std::time::Duration;

use binman_core::config::{default_timeout, parse_duration, Config};
use binman_core::error::Error;

fn parse(text: &str) -> Result<Config, Error> {
    Config::parse(text, "/tmp/binman/config")
}

#[test]
fn reads_the_v1_file_as_documented() {
    let config = parse(
        "# Path to the directory containing your HTTP request files (required)\n\
         HTTP_FILES  = /srv/collections\n\
         TIMEOUT     = 45s\n\
         CLIENT_CERT = /etc/client.crt\n\
         CLIENT_KEY  = /etc/client.key\n",
    )
    .expect("parses");
    assert_eq!(PathBuf::from(&config.root), PathBuf::from("/srv/collections"));
    assert_eq!(config.timeout, Some(Duration::from_secs(45)));
    assert_eq!(
        config
            .client_identity
            .as_ref()
            .map(|(cert, key)| (PathBuf::from(cert), PathBuf::from(key))),
        Some((
            PathBuf::from("/etc/client.crt"),
            PathBuf::from("/etc/client.key")
        ))
    );
}

#[test]
fn http_files_is_required_and_the_message_says_where() {
    let error = parse("TIMEOUT = 5s\n").unwrap_err().message();
    assert!(error.contains("HTTP_FILES"), "{error}");
    assert!(error.contains("/tmp/binman/config"), "{error}");
}

#[test]
fn an_absent_timeout_is_thirty_seconds_and_zero_is_none() {
    assert_eq!(
        parse("HTTP_FILES = /x").unwrap().timeout,
        Some(default_timeout())
    );
    assert_eq!(parse("HTTP_FILES = /x\nTIMEOUT = 0").unwrap().timeout, None);
    assert_eq!(
        parse("HTTP_FILES = /x\nTIMEOUT = 0s").unwrap().timeout,
        None
    );
}

#[test]
fn a_timeout_that_is_not_a_duration_is_reported() {
    let error = parse("HTTP_FILES = /x\nTIMEOUT = 30").unwrap_err().message();
    assert!(error.contains("TIMEOUT = 30"), "{error}");
}

#[test]
fn one_half_of_a_client_identity_is_ignored() {
    let config = parse("HTTP_FILES = /x\nCLIENT_CERT = /c.crt").unwrap();
    assert_eq!(config.client_identity, None);
}

#[test]
fn durations_read_as_go_writes_them() {
    assert_eq!(parse_duration("1m30s"), Some(Duration::from_secs(90)));
    assert_eq!(parse_duration("500ms"), Some(Duration::from_millis(500)));
    assert_eq!(parse_duration("1.5s"), Some(Duration::from_millis(1500)));
    assert_eq!(parse_duration("2h"), Some(Duration::from_secs(7200)));
    assert_eq!(parse_duration("10"), None);
    assert_eq!(parse_duration("ten seconds"), None);
}

#[test]
fn the_default_timeout_is_thirty_seconds() {
    assert_eq!(default_timeout(), Duration::from_secs(30));
}

#[test]
fn durations_take_every_unit_and_fraction() {
    assert_eq!(parse_duration("  0 "), Some(Duration::ZERO));
    assert_eq!(parse_duration("7ns"), Some(Duration::from_nanos(7)));
    assert_eq!(parse_duration("3us"), Some(Duration::from_micros(3)));
    assert_eq!(parse_duration("3\u{b5}s"), Some(Duration::from_micros(3)));
    assert_eq!(parse_duration("3\u{3bc}s"), Some(Duration::from_micros(3)));
    assert_eq!(parse_duration(".5m"), Some(Duration::from_secs(30)));
    assert_eq!(parse_duration("2.s"), Some(Duration::from_secs(2)));
    assert_eq!(parse_duration("1.5ns"), Some(Duration::from_nanos(2)));
    assert_eq!(parse_duration("0.5ns"), Some(Duration::from_nanos(1)));
    assert_eq!(parse_duration("0.4ns"), Some(Duration::from_nanos(0)));
    assert_eq!(parse_duration("0.3ns0.3ns"), Some(Duration::from_nanos(1)));
    assert_eq!(parse_duration("0.25ns0.25ns"), Some(Duration::from_nanos(1)));
    assert_eq!(parse_duration("1.0000000001us"), Some(Duration::from_nanos(1000)));
    assert_eq!(parse_duration("0.0000000015s"), Some(Duration::from_nanos(2)));
    assert_eq!(parse_duration("1.25m"), Some(Duration::from_secs(75)));
    assert_eq!(parse_duration("0.0000000000001h"), Some(Duration::from_nanos(0)));
    assert_eq!(parse_duration("0.0000000000002h"), Some(Duration::from_nanos(1)));
    assert_eq!(parse_duration("1h1m1s1ms"), Some(Duration::from_millis(3_661_001)));
    assert_eq!(parse_duration("1..5s"), None);
    assert_eq!(parse_duration(".s"), None);
    assert_eq!(parse_duration("s"), None);
    assert_eq!(parse_duration(""), None);
    assert_eq!(parse_duration("1d"), None);
}

#[test]
fn a_sum_too_long_to_hold_stops_at_the_largest_duration() {
    assert_eq!(
        parse_duration("99999999999999999999h"),
        Some(Duration::from_nanos(u64::MAX))
    );
}

#[test]
fn comments_unknown_keys_and_empty_values_change_nothing() {
    let config = parse("# TIMEOUT = nonsense\nCOLOR = red\nTIMEOUT =\nno equals here\nHTTP_FILES = /a\nHTTP_FILES = /b").unwrap();
    assert_eq!(config.root, "/b");
    assert_eq!(config.timeout, Some(Duration::from_secs(30)));
}

#[test]
fn a_half_nanosecond_timeout_rounds_up_rather_than_to_none() {
    assert_eq!(parse("HTTP_FILES = /x\nTIMEOUT = 0.5ns").unwrap().timeout, Some(Duration::from_nanos(1)));
    assert_eq!(parse("HTTP_FILES = /x\nTIMEOUT = 0.4ns").unwrap().timeout, None);
}

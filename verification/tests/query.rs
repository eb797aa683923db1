use binman_core::query::{pairs, with_pairs};

fn pair(key: &str, value: &str) -> (String, String) {
    (key.to_string(), value.to_string())
}

#[test]
fn reads_the_query_as_typed() {
    assert_eq!(
        pairs("{{BASE}}/users?id={{ID}}&q=a%20b&flag#top"),
        vec![pair("id", "{{ID}}"), pair("q", "a%20b"), pair("flag", "")]
    );
    assert!(pairs("https://x/y").is_empty());
}

#[test]
fn writing_pairs_keeps_placeholders_and_the_fragment() {
    let url = with_pairs(
        "{{BASE}}/users?old=1#top",
        &[pair("id", "{{ID}}"), pair("q", "a&b")],
    );
    assert_eq!(url, "{{BASE}}/users?id={{ID}}&q=a%26b#top");
}

#[test]
fn removing_the_last_pair_drops_the_question_mark() {
    assert_eq!(with_pairs("https://x/y?a=1", &[]), "https://x/y");
}

#[test]
fn what_is_written_reads_back() {
    let url = with_pairs("https://x/y", &[pair("a b", "c=d #"), pair("", "skipped"), pair("k", "")]);
    assert_eq!(url, "https://x/y?a%20b=c=d%20%23&k=");
    assert_eq!(pairs(&url), vec![pair("a%20b", "c=d%20%23"), pair("k", "")]);
    assert_eq!(pairs("x?&&a=1&"), vec![pair("a", "1")]);
}

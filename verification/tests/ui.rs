use binman_core::ui::{masked, pad, truncate};

#[test]
fn truncation_marks_what_it_cut() {
    assert_eq!(truncate("hello", 10), "hello");
    assert_eq!(truncate("hello world", 8), "hello w…");
    assert_eq!(truncate("hello", 1), "…");
}

#[test]
fn truncation_counts_columns_not_characters() {
    assert_eq!(truncate("日本語です", 5), "日本…");
    assert_eq!(truncate("abc", 0), "…");
}

#[test]
fn padding_fills_to_the_width_and_never_cuts() {
    assert_eq!(pad("ab", 5), "ab   ");
    assert_eq!(pad("abcdef", 3), "abcdef");
    assert_eq!(pad("日", 3), "日 ");
}

#[test]
fn a_secret_shows_its_first_five_characters() {
    assert_eq!(masked("client_secret", "abcdefgh"), "abcde•••");
    assert_eq!(masked("Password", "abcde"), "abcde");
    assert_eq!(masked("token", "abcdefgh"), "abcdefgh");
}

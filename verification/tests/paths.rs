use binman_core::paths::{in_name_order, lineage};

#[test]
fn walks_up_to_the_root_and_no_further() {
    let got = lineage("/c/a/b", "/c");
    assert_eq!(got, vec!["/c/a/b".to_string(), "/c/a".to_string(), "/c".to_string()]);
}

#[test]
fn a_directory_outside_the_root_stops_at_the_filesystem_root() {
    let got = lineage("/x/y", "/c");
    assert_eq!(got.last(), Some(&"/".to_string()));
}

#[test]
fn a_root_written_with_a_trailing_slash_is_the_same_root() {
    let got = lineage("/c/a", "/c/");
    assert_eq!(got, vec!["/c/a".to_string(), "/c".to_string()]);
}

#[test]
fn a_relative_directory_ends_at_the_empty_path() {
    let got = lineage("a/b", "/nowhere");
    assert_eq!(got, vec!["a/b".to_string(), "a".to_string(), "".to_string()]);
}

#[test]
fn names_are_put_in_order() {
    let files = vec![
        (".env.staging".to_string(), "/c/.env.staging".to_string()),
        (".env".to_string(), "/c/.env".to_string()),
        ("a.bru".to_string(), "/c/a.bru".to_string()),
    ];
    let names: Vec<String> = in_name_order(&files).into_iter().map(|f| f.0).collect();
    assert_eq!(names, vec![".env", ".env.staging", "a.bru"]);
}

use binman_core::dotenv;
use binman_core::dotenv::{env_files, label_of};

#[test]
fn reads_keys_values_and_comments() {
    let vars = dotenv::parse("# comment\nFOO=bar\nBAZ = qux\n\nQUOTED=\"a b\"\nSINGLE='c'\n");
    assert_eq!(vars.get("FOO").map(|v| v.as_str()), Some("bar"));
    assert_eq!(vars.get("BAZ").map(|v| v.as_str()), Some("qux"));
    assert_eq!(vars.get("QUOTED").map(|v| v.as_str()), Some("a b"));
    assert_eq!(vars.get("SINGLE").map(|v| v.as_str()), Some("c"));
}

#[test]
fn a_later_line_wins_and_mismatched_quotes_stay() {
    let vars = dotenv::parse("A=1\r\nA=2\nB=\"x'\n=nokey\nnoequals\n  # indented comment\nC='\n");
    assert_eq!(vars.get("A").map(|v| v.as_str()), Some("2"));
    assert_eq!(vars.get("B").map(|v| v.as_str()), Some("\"x'"));
    assert_eq!(vars.get("C").map(|v| v.as_str()), Some("'"));
    assert_eq!(vars.len(), 3);
}

#[test]
fn walks_up_and_the_deeper_file_wins() {
    assert_eq!(label_of(".env").as_deref(), Some("default"));
    assert_eq!(label_of(".env.staging").as_deref(), Some("staging"));
    assert_eq!(label_of(".env."), None);
    assert_eq!(label_of("env"), None);
    let files = vec![
        (".env".to_string(), "/c/users/.env".to_string()),
        ("notes".to_string(), "/c/users/notes".to_string()),
        (".env".to_string(), "/c/.env".to_string()),
        (".env.staging".to_string(), "/c/.env.staging".to_string()),
    ];
    let found = env_files(&files);
    let labels: Vec<(&str, &str)> = found.iter().map(|f| (f.label.as_str(), f.path.as_str())).collect();
    assert_eq!(labels, vec![("default", "/c/users/.env"), ("staging", "/c/.env.staging")]);
}

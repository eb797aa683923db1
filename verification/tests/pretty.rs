use binman_core::pretty::{render, Piece, Role};

fn text(lines: &[Vec<Piece>]) -> Vec<String> {
    lines
        .iter()
        .map(|line| line.iter().map(|piece| piece.text.as_str()).collect())
        .collect()
}

#[test]
fn reindents_without_reordering_or_reformatting() {
    let lines = render(
        r#"{"zeta":1.0,"alpha":[true,null],"id":12345678901234567890,"empty":{},"s":"a\"b"}"#,
    );
    assert_eq!(
        text(&lines),
        vec![
            "{",
            "  \"zeta\": 1.0,",
            "  \"alpha\": [",
            "    true,",
            "    null",
            "  ],",
            "  \"id\": 12345678901234567890,",
            "  \"empty\": {},",
            "  \"s\": \"a\\\"b\"",
            "}",
        ]
    );
}

#[test]
fn keys_and_values_are_told_apart() {
    let lines = render(r#"{"name":"Jane"}"#);
    let pieces = &lines[1];
    let key = pieces.iter().find(|piece| piece.text == "\"name\"").unwrap();
    let value = pieces.iter().find(|piece| piece.text == "\"Jane\"").unwrap();
    assert_eq!(key.role, Role::Key);
    assert_eq!(value.role, Role::String);
}

#[test]
fn what_is_not_json_is_shown_as_it_came() {
    assert_eq!(
        text(&render("<html>\n\t<b>hi</b>\r\n</html>")),
        vec!["<html>", "    <b>hi</b>", "</html>"]
    );
    assert_eq!(text(&render("{not json")), vec!["{not json"]);
}

#[test]
fn words_are_marked_by_what_they_are() {
    let lines = render("[true, null, -1.5e3]");
    let roles: Vec<Role> = lines
        .iter()
        .flat_map(|line| line.iter())
        .filter(|piece| piece.role != Role::Indent && piece.role != Role::Punctuation)
        .map(|piece| piece.role)
        .collect();
    assert_eq!(roles, vec![Role::Bool, Role::Null, Role::Number]);
    assert_eq!(text(&lines), vec!["[", "  true,", "  null,", "  -1.5e3", "]"]);
}

#[test]
fn controls_are_made_visible_and_plain_text_keeps_its_lines() {
    assert_eq!(text(&render("a\u{7}b\n\nc")), vec!["a\u{b7}b", "", "c"]);
    let lines = render("plain");
    assert_eq!(lines[0][0].role, Role::Text);
}

#[test]
fn whitespace_around_json_is_dropped() {
    assert_eq!(text(&render("  \n[ ]\n")), vec!["[]"]);
}

#[test]
fn each_piece_carries_its_role_and_an_indent_is_one_piece_two_spaces_a_level() {
    let lines = render(r#"{"a": [1, "x"], "b": false}"#);
    let shape: Vec<Vec<(String, Role)>> = lines
        .iter()
        .map(|line| line.iter().map(|piece| (piece.text.clone(), piece.role)).collect())
        .collect();
    let p = |text: &str, role: Role| (text.to_string(), role);
    assert_eq!(
        shape,
        vec![
            vec![p("{", Role::Punctuation)],
            vec![p("  ", Role::Indent), p("\"a\"", Role::Key), p(": ", Role::Punctuation), p("[", Role::Punctuation)],
            vec![p("    ", Role::Indent), p("1", Role::Number), p(",", Role::Punctuation)],
            vec![p("    ", Role::Indent), p("\"x\"", Role::String)],
            vec![p("  ", Role::Indent), p("]", Role::Punctuation), p(",", Role::Punctuation)],
            vec![p("  ", Role::Indent), p("\"b\"", Role::Key), p(": ", Role::Punctuation), p("false", Role::Bool)],
            vec![p("}", Role::Punctuation)],
        ]
    );
}

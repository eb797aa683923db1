use binman_core::app::line::{Key, LineInput};

fn key(code: Key) -> Key {
    code
}

fn ch(c: char) -> Key {
    Key::Char { ch: c, ctrl: false, alt: false }
}

#[test]
fn edits_at_the_cursor_a_character_at_a_time() {
    let mut input = LineInput::new("héllo");
    input.handle(key(Key::Left));
    input.handle(key(Key::Left));
    input.handle(key(Key::Backspace));
    assert_eq!(input.text(), "hélo");
    input.handle(ch('L'));
    assert_eq!(input.text(), "héLlo");
    assert_eq!(input.cursor(), 3);
}

#[test]
fn a_pasted_curl_command_lands_on_one_line() {
    let mut input = LineInput::default();
    input.paste("curl -X POST \\\n  -H 'A: 1' \\\n  https://x");
    assert_eq!(input.text(), "curl -X POST    -H 'A: 1'    https://x");
}

#[test]
fn ctrl_u_clears_back_to_the_start() {
    let mut input = LineInput::new("https://example.com/users");
    input.handle(key(Key::Home));
    for _ in 0..8 {
        input.handle(key(Key::Right));
    }
    assert!(input.handle(Key::Char { ch: 'u', ctrl: true, alt: false }));
    assert_eq!(input.text(), "example.com/users");
}

#[test]
fn windows_line_breaks_and_continuations_become_single_spaces() {
    let mut input = LineInput::new("ab");
    input.handle(key(Key::Left));
    input.paste("1\\\r\n2\r\n3\r4\n5");
    assert_eq!(input.text(), "a1 2 3 4 5b");
    assert_eq!(input.cursor(), 10);
}

#[test]
fn nothing_before_the_cursor_means_nothing_to_erase() {
    let mut input = LineInput::new("abc");
    input.handle(key(Key::Home));
    assert!(!input.handle(key(Key::Backspace)));
    assert!(!input.clear_before());
    assert!(input.delete());
    assert_eq!(input.text(), "bc");
    input.handle(key(Key::End));
    assert!(!input.delete());
    assert_eq!(input.cursor(), 2);
    input.handle(key(Key::Right));
    assert_eq!(input.cursor(), 2, "the cursor stops at the end");
}

#[test]
fn control_and_alt_characters_are_not_typed() {
    let mut input = LineInput::new("abc");
    assert!(!input.handle(Key::Char { ch: 'x', ctrl: false, alt: true }));
    assert!(!input.handle(Key::Char { ch: 'a', ctrl: true, alt: false }));
    assert_eq!(input.cursor(), 0);
    assert_eq!(input.text(), "abc");
    input.set("zz");
    assert_eq!((input.text(), input.cursor()), ("zz", 2));
}

#[test]
fn the_window_scrolls_only_as_far_as_the_cursor_needs() {
    let input = LineInput::new("abcdefghij");
    assert_eq!(input.first_visible(20), 0);
    assert_eq!(input.first_visible(5), 6, "four characters and the cursor cell");
}

#[test]
fn a_click_lands_the_cursor_under_it() {
    let mut input = LineInput::new("https://example.com");
    input.place_cursor(0, 8);
    assert_eq!(input.cursor(), 8);
    input.place_cursor(4, 2);
    assert_eq!(input.cursor(), 6, "counted from the first character shown");
    input.place_cursor(0, 99);
    assert_eq!(input.cursor(), 19, "past the end is the end");
}

#[test]
fn wide_characters_take_two_columns_of_the_window() {
    let mut input = LineInput::new("日本語");
    assert_eq!(input.first_visible(5), 1, "two wide characters and the cursor cell");
    input.place_cursor(0, 3);
    assert_eq!(input.cursor(), 1, "a click on the second half of a wide character stays before the next");
    input.place_cursor(7, 0);
    assert_eq!(input.cursor(), 3);
}

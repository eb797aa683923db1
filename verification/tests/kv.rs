use binman_core::app::kv::{Column, KvTable};

fn table() -> KvTable {
    let mut table = KvTable::default();
    table.set_rows(vec![("Accept".into(), "*/*".into())]);
    table
}

#[test]
fn the_add_row_appends_a_pair() {
    let mut table = table();
    table.add();
    table.input().unwrap().set("X-Trace");
    assert!(!table.advance(), "Enter on the name moves to the value");
    table.input().unwrap().set("abc");
    assert!(table.advance(), "Enter on the value keeps the row");
    assert_eq!(table.rows[1], ("X-Trace".to_string(), "abc".to_string()));
    assert_eq!(table.selected, 1);
}

#[test]
fn emptying_a_row_removes_it() {
    let mut table = table();
    table.begin();
    table.input().unwrap().set("");
    table.advance();
    table.input().unwrap().set("");
    table.advance();
    assert!(table.rows.is_empty());
}

#[test]
fn an_empty_new_row_is_not_kept() {
    let mut table = table();
    table.add();
    assert!(!table.commit());
    assert_eq!(table.rows.len(), 1);
}

#[test]
fn escape_leaves_the_row_as_it_was() {
    let mut table = table();
    table.begin();
    table.input().unwrap().set("Changed");
    table.cancel();
    assert_eq!(table.rows[0].0, "Accept");
}

#[test]
fn the_selection_stays_between_the_first_row_and_the_add_row() {
    let mut table = table();
    table.move_selection(5);
    assert_eq!(table.selected, 1);
    table.move_selection(-9);
    assert_eq!(table.selected, 0);
    table.last();
    assert_eq!(table.selected, 0);
    assert!(table.delete());
    assert!(table.rows.is_empty());
    assert!(!table.delete());
}

#[test]
fn a_name_is_kept_trimmed_and_back_returns_to_it() {
    let mut table = table();
    table.begin();
    table.input().unwrap().set("  Accept-Language ");
    table.advance();
    table.back();
    assert_eq!(table.edit.as_ref().map(|edit| edit.column), Some(Column::Name));
    assert!(table.commit());
    assert_eq!(table.rows[0], ("Accept-Language".to_string(), "*/*".to_string()));
}

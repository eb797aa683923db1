use binman_core::app::overlay::{
    CollectionForm, Command, Entry, FormField, Picker, PickerKind,
};
use binman_core::app::line::LineInput;
use binman_core::app::tab::{AuthForm, ResponseView, Section};
use binman_core::app::{host_of, tone_of, Tone};
use binman_core::auth::{Auth, AuthKind};
use binman_core::ui::{rows_for, scroll_offset};
use binman_core::workspace::{check_name, name_for, Scope, Source};

fn entry(label: &str) -> Entry<Command> {
    Entry {
        method: Some("GET".into()),
        label: label.into(),
        detail: "users".into(),
        hint: "",
        action: Command::Help,
    }
}

#[test]
fn typing_narrows_by_subsequence() {
    let mut picker = Picker::new(
        PickerKind::Find,
        vec![entry("list.http"), entry("create.http")],
        0,
    );
    for ch in "crt".chars() {
        picker.push(ch);
    }
    assert_eq!(picker.matches(), vec![1]);
    assert_eq!(picker.chosen(), Some(1));
}

#[test]
fn the_selection_wraps() {
    let mut picker = Picker::new(PickerKind::Find, vec![entry("a"), entry("b")], 0);
    picker.move_selection(-1);
    assert_eq!(picker.selected, 1);
}

#[test]
fn the_query_is_read_without_regard_to_case_and_can_be_taken_back() {
    let mut picker = Picker::new(PickerKind::Find, vec![entry("List.http"), entry("create.http")], 5);
    assert_eq!(picker.selected, 1);
    picker.push('L');
    picker.push('S');
    assert_eq!(picker.matches(), vec![0]);
    picker.backspace();
    picker.backspace();
    picker.backspace();
    assert_eq!(picker.matches(), vec![0, 1]);
    picker.push('z');
    assert_eq!(picker.chosen(), None);
    picker.move_selection(3);
    assert_eq!(picker.selected, 0);
}

#[test]
fn a_host_is_what_a_url_reaches() {
    assert_eq!(
        host_of("https://api.example.com/v1/users?x=1"),
        "https://api.example.com"
    );
    assert_eq!(host_of("http://localhost:8080"), "http://localhost:8080");
    assert_eq!(host_of("{{BASE}}/users"), "{{BASE}}");
}

#[test]
fn a_status_reads_in_its_tone() {
    assert_eq!(tone_of(204), Tone::Success);
    assert_eq!(tone_of(302), Tone::Info);
    assert_eq!(tone_of(404), Tone::Warning);
    assert_eq!(tone_of(503), Tone::Error);
    assert_eq!(tone_of(42), Tone::Error);
}

#[test]
fn scrolling_moves_the_minimum() {
    assert_eq!(scroll_offset(0, 5, 10), 0);
    assert_eq!(scroll_offset(0, 12, 10), 3);
    assert_eq!(scroll_offset(10, 4, 10), 4);
}

#[test]
fn a_wrapped_line_takes_as_many_rows_as_it_fills() {
    assert_eq!(rows_for(0, 10), 1);
    assert_eq!(rows_for(10, 0), 1);
    assert_eq!(rows_for(10, 10), 1);
    assert_eq!(rows_for(11, 10), 2);
    assert_eq!(scroll_offset(3, 7, 0), 0);
}

#[test]
fn commands_say_what_they_do_and_which_key_runs_them() {
    assert_eq!(Command::Find.label(), "Find a request\u{2026}");
    assert_eq!(Command::SaveAs.hint(), "\u{2303}S");
    assert_eq!(Command::RemoveCollection.hint(), "");
    assert_eq!(PickerKind::History.title(), "History");
    assert!(!PickerKind::Environments.filters());
    assert!(PickerKind::Commands.filters());
}

#[test]
fn sections_and_views_cycle_round() {
    assert_eq!(Section::Params.cycle(-1), Section::Info);
    assert_eq!(Section::Info.cycle(1), Section::Params);
    assert_eq!(Section::Body.label(), "Body");
    assert_eq!(ResponseView::Body.cycle(-1), ResponseView::Trace);
    assert_eq!(ResponseView::Cookies.cycle(7), ResponseView::Trace);
    assert_eq!(ResponseView::Trace.label(), "Trace");
}

#[test]
fn auth_values_are_kept_per_kind() {
    let mut form = AuthForm::loaded(&Auth {
        kind: AuthKind::Basic,
        values: vec!["alice".into(), "secret".into()],
    });
    assert_eq!(form.values(), vec!["alice".to_string(), "secret".to_string()]);
    form.cycle(-1);
    assert_eq!(form.kind, AuthKind::Bearer);
    form.begin();
    form.edit.as_mut().unwrap().set("tok");
    form.commit();
    assert_eq!(form.value(0), "tok");
    form.cycle(1);
    assert_eq!(form.value(0), "alice");
    form.move_selection(5);
    assert_eq!(form.selected, 1);
    form.clear();
    assert_eq!(form.auth().values, vec!["alice".to_string(), String::new()]);
    let empty = AuthForm::default();
    assert_eq!(empty.kind, AuthKind::NoAuth);
    assert!(empty.values().is_empty());
}

#[test]
fn the_collection_form_offers_saved_in_only_with_a_project() {
    let mut form = CollectionForm::build(
        LineInput::new("~/api"),
        LineInput::new(""),
        Scope::Project,
        None,
        Some("./.binman.json".into()),
        "~/.config/binman/collections.json".into(),
    );
    assert_eq!(form.fields(), vec![FormField::Path, FormField::Name, FormField::Scope]);
    form.next_field(-1);
    assert_eq!(form.field, FormField::Scope);
    assert!(form.input().is_none());
    assert_eq!(form.scope_display(), "./.binman.json");
    form.toggle_scope();
    assert_eq!(form.scope_display(), "~/.config/binman/collections.json");
    form.next_field(1);
    form.input().unwrap().set("  ");
    assert_eq!(form.placeholder("/home/me/api", true), "");
    assert_eq!(FormField::Scope.label(), "Saved in");

    let mut alone = CollectionForm::build(
        LineInput::new("x"),
        LineInput::new(""),
        Scope::User,
        None,
        None,
        "~/c.json".into(),
    );
    assert_eq!(alone.fields(), vec![FormField::Path, FormField::Name]);
    alone.toggle_scope();
    assert_eq!(alone.scope, Scope::User);
    assert_eq!(alone.placeholder("/srv/Shop.Postman_Collection.json", false), "Shop");
}

#[test]
fn an_unnamed_collection_is_called_what_its_file_is() {
    assert_eq!(name_for("/srv/petstore.yaml", false), "petstore");
    assert_eq!(name_for("/srv/petstore.yaml", true), "petstore.yaml");
    assert_eq!(name_for("/srv/requests", true), "requests");
    assert_eq!(name_for("/srv/a.JSON", false), "a");
}

#[test]
fn a_name_that_would_read_as_a_path_is_refused() {
    assert!(check_name("api").is_ok());
    assert_eq!(check_name("  ").unwrap_err().message(), "A collection needs a name");
    assert!(check_name("a/b").unwrap_err().message().contains("slash"));
    assert_eq!(Source::Project.scope(), Some(Scope::Project));
    assert_eq!(Source::Argument.scope(), None);
}

#[test]
fn sizes_read_as_people_say_them() {
    assert_eq!(binman_core::app::size(512), "512 B");
    assert_eq!(binman_core::app::size(3277), "3.2 KB");
    assert_eq!(binman_core::app::size(3 * 1024 * 1024), "3.0 MB");
}

#[test]
fn sizes_round_as_the_float_formatting_does() {
    fn by_float(bytes: usize) -> String {
        const KIB: f64 = 1024.0;
        let bytes_f = bytes as f64;
        if bytes_f < KIB {
            format!("{bytes} B")
        } else if bytes_f < KIB * KIB {
            format!("{:.1} KB", bytes_f / KIB)
        } else {
            format!("{:.1} MB", bytes_f / (KIB * KIB))
        }
    }
    let mut n = 0usize;
    while n < 5_000_000 {
        assert_eq!(binman_core::app::size(n), by_float(n), "{n}");
        n += 97;
    }
    for n in [1023, 1024, 1280, 1331, 1792, 2304, 1_048_575, 1_048_576, 1_310_720, 2_883_584, 10_485_760] {
        assert_eq!(binman_core::app::size(n), by_float(n), "{n}");
    }
}

use binman_core::app::session::{Opening, Session, TabState};
use binman_core::source::Origin;

fn tab(id: u64) -> TabState {
    TabState { id, origin: None, dirty: false, generation: 0, sending: false }
}

fn session() -> Session {
    Session { tabs: vec![tab(1)], active: 0, next_tab_id: 1 }
}

#[test]
fn a_request_opens_in_the_blank_tab_and_then_switches_to_it() {
    let mut s = session();
    assert_eq!(s.open(Origin::File("/c/a.http".into())), Opening::Load(0));
    s.tabs[0].dirty = true;
    assert_eq!(s.open(Origin::File("/c/b.http".into())), Opening::Load(1));
    assert_eq!(s.tabs[1].id, 2);
    assert_eq!(s.open(Origin::File("/c/a.http".into())), Opening::Switch(0));
    assert_eq!(s.active, 0);
    assert_eq!(s.tabs.len(), 2);
}

#[test]
fn a_tab_awaiting_a_reply_is_not_reused() {
    let mut s = session();
    s.open(Origin::File("/c/a.http".into()));
    let (cancels, id, generation) = s.start_send();
    assert_eq!((cancels, id, generation), (false, 1, 1));
    assert_eq!(s.open(Origin::File("/c/b.http".into())), Opening::Load(1));
}

#[test]
fn sending_again_drops_the_earlier_reply() {
    let mut s = session();
    let (_, id, first) = s.start_send();
    let (cancels, _, second) = s.start_send();
    assert!(cancels);
    assert_eq!(s.finish(id, first), None);
    assert!(s.tabs[0].sending);
    assert_eq!(s.finish(id, second), Some(0));
    assert!(!s.tabs[0].sending);
    assert_eq!(s.finish(99, second), None);
}

#[test]
fn the_last_tab_stays_open_and_closing_brings_the_next_forward() {
    let mut s = session();
    assert_eq!(s.close_tab().err(), Some("The last tab stays open".to_string()));
    assert_eq!(s.tabs.len(), 1);
    let mut s = Session { tabs: vec![tab(1), tab(2), tab(3)], active: 1, next_tab_id: 3 };
    assert_eq!(s.close_tab().map(|closed| closed.id), Ok(2));
    assert_eq!(s.active, 1);
    assert_eq!(s.tabs[1].id, 3);
    assert_eq!(s.close_tab().map(|closed| closed.id), Ok(3));
    assert_eq!(s.active, 0);
}

#[test]
fn tabs_are_selected_by_index_and_cycled_round() {
    let mut s = Session { tabs: vec![tab(1), tab(2), tab(3)], active: 0, next_tab_id: 3 };
    s.select_tab(2);
    assert_eq!(s.active, 2);
    s.select_tab(5);
    assert_eq!(s.active, 2);
    s.cycle_tab(1);
    assert_eq!(s.active, 0);
    s.cycle_tab(-1);
    assert_eq!(s.active, 2);
    s.cycle_tab(-7);
    assert_eq!(s.active, 1);
}

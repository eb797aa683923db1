use binman_core::app::mouse::{divider_at, Area, Divider, Target, Targets};
use binman_core::app::tab::Section;
use binman_core::app::Pane;

fn area(x: u16, y: u16, width: u16, height: u16) -> Area {
    Area { x, y, width, height }
}

fn screen() -> Targets {
    let mut targets = Targets::new();
    targets.add(area(0, 1, 30, 20), Target::Pane(Pane::Collections));
    targets.add(area(30, 1, 50, 8), Target::Pane(Pane::Request));
    targets.add(area(30, 9, 50, 12), Target::Pane(Pane::Response));
    targets.add(area(31, 2, 10, 1), Target::Section(Section::Headers));
    targets.add(area(5, 5, 0, 3), Target::Help);
    targets
}

#[test]
fn a_click_finds_what_was_drawn_last_on_top() {
    let targets = screen();
    assert_eq!(targets.drawn.len(), 4, "nothing drawn in an empty area is recorded");
    assert_eq!(targets.at(32, 2).map(|(_, t)| t), Some(Target::Section(Section::Headers)));
    assert_eq!(targets.at(32, 3).map(|(_, t)| t), Some(Target::Pane(Pane::Request)));
    assert_eq!(targets.at(90, 3), None);
    assert_eq!(Target::Section(Section::Headers).pane(), Some(Pane::Request));
    assert_eq!(Target::Node(3).pane(), Some(Pane::Collections));
    assert_eq!(Target::Help.pane(), None);
}

#[test]
fn either_line_of_a_seam_can_be_pulled() {
    let targets = screen();
    let under = |column, row| targets.at(column, row);
    assert_eq!(divider_at(false, under(29, 5), &targets, 29, 5), Some(Divider::Sidebar));
    assert_eq!(divider_at(false, under(30, 12), &targets, 30, 12), Some(Divider::Sidebar));
    assert_eq!(divider_at(false, under(40, 8), &targets, 40, 8), Some(Divider::Split));
    assert_eq!(divider_at(false, under(40, 9), &targets, 40, 9), Some(Divider::Split));
    assert_eq!(divider_at(false, under(40, 5), &targets, 40, 5), None);
    assert_eq!(divider_at(true, under(29, 5), &targets, 29, 5), None, "not behind a modal");
    assert_eq!(divider_at(false, under(32, 2), &targets, 32, 2), None, "not on a section tab");
}

//! What a click reaches.
//!
//! Each draw records what it put where: a pane, a tab, a row, the
//! environment picker. A click is looked up in what was drawn last. The one
//! thing the mouse does that no key does is pull the seams between the
//! panes, which this finds too.

use vstd::prelude::*;

use super::tab::{ResponseView, Section};
use super::Pane;

verus! {

/// A rectangle of terminal cells.
#[derive(Debug, Clone, Copy, PartialEq, Eq, Default, Structural)]
pub struct Area {
    pub x: u16,
    pub y: u16,
    pub width: u16,
    pub height: u16,
}

/// `a + b`, or the most a `u16` holds.
pub open spec fn add_capped(a: u16, b: u16) -> u16 {
    if a + b > u16::MAX { u16::MAX } else { (a + b) as u16 }
}

/// `a - b`, or nothing below zero.
pub open spec fn sub_capped(a: u16, b: u16) -> u16 {
    if a >= b { (a - b) as u16 } else { 0 }
}

fn add_capped_exec(a: u16, b: u16) -> (r: u16)
    ensures
        r == add_capped(a, b),
{
    if a as u32 + b as u32 > u16::MAX as u32 { u16::MAX } else { a + b }
}

fn sub_capped_exec(a: u16, b: u16) -> (r: u16)
    ensures
        r == sub_capped(a, b),
{
    if a >= b { a - b } else { 0 }
}

impl Area {
    /// The column just past the right edge.
    pub open spec fn right_edge(self) -> u16 {
        add_capped(self.x, self.width)
    }

    /// The row just past the bottom edge.
    pub open spec fn bottom_edge(self) -> u16 {
        add_capped(self.y, self.height)
    }

    /// Whether the cell at `column`, `row` is inside.
    pub open spec fn holds(self, column: u16, row: u16) -> bool {
        self.x <= column < self.right_edge() && self.y <= row < self.bottom_edge()
    }

    pub fn right(self) -> (r: u16)
        ensures
            r == self.right_edge(),
    {
        add_capped_exec(self.x, self.width)
    }

    pub fn bottom(self) -> (r: u16)
        ensures
            r == self.bottom_edge(),
    {
        add_capped_exec(self.y, self.height)
    }

    pub fn is_empty(self) -> (r: bool)
        ensures
            r == (self.width == 0 || self.height == 0),
    {
        self.width == 0 || self.height == 0
    }

    pub fn contains(self, column: u16, row: u16) -> (r: bool)
        ensures
            r == self.holds(column, row),
    {
        column >= self.x && column < self.right() && row >= self.y && row < self.bottom()
    }
}

/// Something on screen a click can reach.
#[derive(Debug, Clone, Copy, PartialEq, Eq, Structural)]
pub enum Target {
    /// Anywhere in a pane: a click there gives it focus.
    Pane(Pane),
    EnvPicker,
    Tab(usize),
    NewTab,
    Method,
    /// The URL's text, drawn from its `start`th character.
    Url { start: usize },
    /// Send, or Cancel while the request is out.
    Send,
    Section(Section),
    /// What kind of body or auth the section holds.
    Kind,
    /// A row of the request's section: a table row, an auth field, a variable.
    Row(usize),
    /// The body or the rules, as text.
    Editor,
    View(ResponseView),
    /// A row of the collections, by its place among the visible rows.
    Node(usize),
    Palette,
    Help,
    CycleFocus,
    /// An entry of the open list, by its place among the matches.
    Entry(usize),
    /// The open list itself, so a click inside it does not count as a click
    /// away from it.
    Overlay,
}

/// The pane a click on a target gives focus to.
pub open spec fn pane_of(target: Target) -> Option<Pane> {
    match target {
        Target::Pane(pane) => Some(pane),
        Target::Method | Target::Url { .. } => Some(Pane::Url),
        Target::Section(_) | Target::Kind | Target::Row(_) | Target::Editor => Some(Pane::Request),
        Target::View(_) => Some(Pane::Response),
        Target::Node(_) => Some(Pane::Collections),
        _ => None,
    }
}

impl Target {
    /// The pane a click on this gives focus to.
    pub fn pane(self) -> (r: Option<Pane>)
        ensures
            r == pane_of(self),
    {
        match self {
            Target::Pane(pane) => Some(pane),
            Target::Method | Target::Url { .. } => Some(Pane::Url),
            Target::Section(_) | Target::Kind | Target::Row(_) | Target::Editor => Some(Pane::Request),
            Target::View(_) => Some(Pane::Response),
            Target::Node(_) => Some(Pane::Collections),
            _ => None,
        }
    }
}

/// A seam between panes that can be dragged.
#[derive(Debug, Clone, Copy, PartialEq, Eq, Structural)]
pub enum Divider {
    /// Between the collections and the request over the response. Moves
    /// left and right.
    Sidebar,
    /// Between the request and the response. Moves up and down.
    Split,
}

/// Where each target was drawn, in the order it was.
#[derive(Debug, Default)]
pub struct Targets {
    pub drawn: Vec<(Area, Target)>,
}

/// The last target drawn over the cell, since it sits on top.
pub open spec fn topmost(drawn: Seq<(Area, Target)>, column: u16, row: u16) -> Option<(Area, Target)>
    decreases drawn.len(),
{
    if drawn.len() == 0 {
        None
    } else if drawn.last().0.holds(column, row) {
        Some(drawn.last())
    } else {
        topmost(drawn.drop_last(), column, row)
    }
}

/// Where a pane was first drawn.
pub open spec fn pane_area(drawn: Seq<(Area, Target)>, pane: Pane) -> Option<Area>
    decreases drawn.len(),
{
    if drawn.len() == 0 {
        None
    } else if drawn[0].1 == Target::Pane(pane) {
        Some(drawn[0].0)
    } else {
        pane_area(drawn.skip(1), pane)
    }
}

impl Targets {
    pub fn new() -> (r: Targets)
        ensures
            r.drawn@.len() == 0,
    {
        Targets { drawn: Vec::new() }
    }

    /// Records a target, unless it was drawn nowhere.
    pub fn add(&mut self, area: Area, target: Target)
        ensures
            final(self).drawn@ == if area.width == 0 || area.height == 0 {
                old(self).drawn@
            } else {
                old(self).drawn@.push((area, target))
            },
    {
        if !area.is_empty() {
            self.drawn.push((area, target));
        }
    }

    /// What is under a cell: the target drawn last, since it sits on top.
    pub fn at(&self, column: u16, row: u16) -> (r: Option<(Area, Target)>)
        ensures
            r == topmost(self.drawn@, column, row),
    {
        let mut k = self.drawn.len();
        assert(self.drawn@.take(k as int) =~= self.drawn@);
        while k > 0
            invariant
                k <= self.drawn@.len(),
                topmost(self.drawn@.take(k as int), column, row) == topmost(self.drawn@, column, row),
            decreases k,
        {
            let (area, target) = self.drawn[k - 1];
            assert(self.drawn@.take(k as int).drop_last() =~= self.drawn@.take(k - 1));
            assert(self.drawn@.take(k as int).last() == (area, target));
            if area.contains(column, row) {
                return Some((area, target));
            }
            k -= 1;
        }
        None
    }

    /// Where a pane was drawn, border and all.
    pub fn pane(&self, pane: Pane) -> (r: Option<Area>)
        ensures
            r == pane_area(self.drawn@, pane),
    {
        let mut k: usize = 0;
        assert(self.drawn@.skip(0) =~= self.drawn@);
        while k < self.drawn.len()
            invariant
                k <= self.drawn@.len(),
                pane_area(self.drawn@.skip(k as int), pane) == pane_area(self.drawn@, pane),
            decreases self.drawn@.len() - k,
        {
            let (area, target) = self.drawn[k];
            assert(self.drawn@.skip(k as int)[0] == (area, target));
            assert(self.drawn@.skip(k as int).skip(1) =~= self.drawn@.skip(k + 1));
            if target == Target::Pane(pane) {
                return Some(area);
            }
            k += 1;
        }
        None
    }
}

/// Whether `n` is the line `edge` or the one after it: two lines count for
/// a seam, a pane's own border and the one drawn against it.
pub open spec fn on_seam(n: u16, edge: u16) -> bool {
    n == edge || n == add_capped(edge, 1)
}

/// The seam a press at `column`, `row` lands on, if either: only bare
/// border counts, so the press must land on a pane itself, and nothing
/// behind an open modal is within reach.
pub open spec fn seam_at(overlay_open: bool, under: Option<(Area, Target)>, drawn: Seq<(Area, Target)>, column: u16, row: u16) -> Option<Divider> {
    if overlay_open || !(under matches Some((_, Target::Pane(_)))) {
        None
    } else if pane_area(drawn, Pane::Collections) matches Some(c)
        && on_seam(column, sub_capped(c.right_edge(), 1)) && c.y <= row < c.bottom_edge() {
        Some(Divider::Sidebar)
    } else if pane_area(drawn, Pane::Request) matches Some(q)
        && on_seam(row, sub_capped(q.bottom_edge(), 1)) && q.x <= column < q.right_edge() {
        Some(Divider::Split)
    } else {
        None
    }
}

/// Which seam a press landed on, if either.
pub fn divider_at(overlay_open: bool, under: Option<(Area, Target)>, targets: &Targets, column: u16, row: u16) -> (r: Option<Divider>)
    ensures
        r == seam_at(overlay_open, under, targets.drawn@, column, row),
{
    let on_pane = match under {
        Some((_, Target::Pane(_))) => true,
        _ => false,
    };
    if overlay_open || !on_pane {
        return None;
    }
    match targets.pane(Pane::Collections) {
        Some(collections) => {
            let edge = sub_capped_exec(collections.right(), 1);
            if (column == edge || column == add_capped_exec(edge, 1)) && row >= collections.y && row < collections.bottom() {
                return Some(Divider::Sidebar);
            }
        },
        None => {},
    }
    match targets.pane(Pane::Request) {
        Some(request) => {
            let edge = sub_capped_exec(request.bottom(), 1);
            if (row == edge || row == add_capped_exec(edge, 1)) && column >= request.x && column < request.right() {
                return Some(Divider::Split);
            }
        },
        None => {},
    }
    None
}

} // verus!

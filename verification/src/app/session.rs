//! The tabs the front end keeps, as far as its decisions go: which tab a
//! request opens in, and which reply a tab takes. Reading files, sending and
//! drawing are the caller's; each step here says what to do next.

use vstd::prelude::*;

use crate::cycle::wrap;
use crate::paths::{paths_equal, same_path};
use crate::source::Origin;

verus! {

/// What the decisions need of a tab.
#[derive(Debug)]
pub struct TabState {
    pub id: u64,
    /// The request it shows, once one is opened in it.
    pub origin: Option<Origin>,
    /// Whether anything was typed into it since it was opened or saved.
    pub dirty: bool,
    /// Bumped by every send, so a reply to an earlier one is known.
    pub generation: u64,
    /// Whether a reply is awaited.
    pub sending: bool,
}

/// Two origins name the same request: the same kind, the same file as
/// `Path` compares them, and the same place in it.
pub open spec fn same_origin(a: Origin, b: Origin) -> bool {
    match (a, b) {
        (Origin::File(p), Origin::File(q)) => same_path(p@, q@),
        (Origin::Postman { path: p, item: i }, Origin::Postman { path: q, item: j }) => same_path(p@, q@) && i@ == j@,
        (Origin::OpenApi { path: p, route: r, method: m }, Origin::OpenApi { path: q, route: s, method: n }) =>
            same_path(p@, q@) && r@ == s@ && m@ == n@,
        _ => false,
    }
}

pub open spec fn holds(tab: TabState, origin: Origin) -> bool {
    tab.origin matches Some(held) && same_origin(held, origin)
}

/// The first tab that shows `origin`.
pub open spec fn first_holding(tabs: Seq<TabState>, origin: Origin) -> Option<int>
    decreases tabs.len(),
{
    if tabs.len() == 0 {
        None
    } else if holds(tabs.last(), origin) {
        match first_holding(tabs.drop_last(), origin) {
            Some(i) => Some(i),
            None => Some(tabs.len() - 1),
        }
    } else {
        first_holding(tabs.drop_last(), origin)
    }
}

/// The first tab with `id`.
pub open spec fn tab_with_id(tabs: Seq<TabState>, id: u64) -> Option<int>
    decreases tabs.len(),
{
    if tabs.len() == 0 {
        None
    } else {
        match tab_with_id(tabs.drop_last(), id) {
            Some(i) => Some(i),
            None => if tabs.last().id == id { Some(tabs.len() - 1) } else { None },
        }
    }
}

/// Where an opened request goes.
#[derive(Debug, Clone, Copy, PartialEq, Eq, Structural)]
pub enum Opening {
    /// A tab already shows it: that tab comes to the front, as it is.
    Switch(usize),
    /// Read it into this tab, which now shows it.
    Load(usize),
}

/// A tab's state once a send from it starts: the reply to any earlier send
/// is no longer wanted.
pub open spec fn sent(tab: TabState) -> TabState {
    TabState { generation: (tab.generation + 1) as u64, sending: true, ..tab }
}

/// Which tab takes the reply to the send `generation` of the tab `id`:
/// that tab, while that send is its latest; none otherwise.
pub open spec fn taker(tabs: Seq<TabState>, id: u64, generation: u64) -> Option<int> {
    match tab_with_id(tabs, id) {
        Some(i) => if tabs[i].generation == generation { Some(i) } else { None },
        None => None,
    }
}

pub struct Session {
    pub tabs: Vec<TabState>,
    /// The tab in front.
    pub active: usize,
    /// The id the last tab made was given.
    pub next_tab_id: u64,
}

impl Session {
    pub open spec fn wf(&self) -> bool {
        self.active < self.tabs@.len()
    }

    fn same(a: &Origin, b: &Origin) -> (r: bool)
        ensures
            r == same_origin(*a, *b),
    {
        match (a, b) {
            (Origin::File(p), Origin::File(q)) => paths_equal(p.as_str(), q.as_str()),
            (Origin::Postman { path: p, item: i }, Origin::Postman { path: q, item: j }) => {
                if !paths_equal(p.as_str(), q.as_str()) {
                    return false;
                }
                if i.len() != j.len() {
                    assert(i@ != j@);
                    return false;
                }
                let ghost answer = same_origin(*a, *b);
                assert(answer == (i@ == j@));
                let mut k: usize = 0;
                while k < i.len()
                    invariant
                        k <= i@.len(),
                        answer == (i@ == j@),
                        answer == same_origin(*a, *b),
                        i@.len() == j@.len(),
                        i@.take(k as int) == j@.take(k as int),
                    decreases i@.len() - k,
                {
                    if i[k] != j[k] {
                        assert(i@[k as int] != j@[k as int]);
                        return false;
                    }
                    assert(i@.take(k + 1) == i@.take(k as int).push(i@[k as int]));
                    assert(j@.take(k + 1) == j@.take(k as int).push(j@[k as int]));
                    k += 1;
                }
                assert(i@.take(i@.len() as int) == i@);
                assert(j@.take(j@.len() as int) == j@);
                true
            },
            (Origin::OpenApi { path: p, route: r, method: m }, Origin::OpenApi { path: q, route: s, method: n }) =>
                paths_equal(p.as_str(), q.as_str()) && crate::text::same(&crate::text::chars_of(r.as_str()), &crate::text::chars_of(s.as_str()))
                    && crate::text::same(&crate::text::chars_of(m.as_str()), &crate::text::chars_of(n.as_str())),
            _ => false,
        }
    }

    /// Opens `origin`: the tab that already shows it comes to the front;
    /// otherwise it is read into the tab in front, or into a new tab when
    /// that one holds unsaved typing or awaits a reply.
    pub fn open(&mut self, origin: Origin) -> (r: Opening)
        requires
            old(self).wf(),
            old(self).next_tab_id < u64::MAX,
        ensures
            final(self).wf(),
            match first_holding(old(self).tabs@, origin) {
                Some(i) => r == Opening::Switch(i as usize) && final(self).active == i
                    && final(self).tabs@ == old(self).tabs@ && final(self).next_tab_id == old(self).next_tab_id,
                None => {
                    let front = old(self).tabs@[old(self).active as int];
                    if front.dirty || front.sending {
                        let n = old(self).tabs@.len();
                        &&& r == Opening::Load(n as usize)
                        &&& final(self).active == n
                        &&& final(self).next_tab_id == old(self).next_tab_id + 1
                        &&& final(self).tabs@ == old(self).tabs@.push(TabState {
                            id: (old(self).next_tab_id + 1) as u64, origin: Some(origin), dirty: false, generation: 0, sending: false,
                        })
                    } else {
                        &&& r == Opening::Load(old(self).active)
                        &&& final(self).active == old(self).active
                        &&& final(self).next_tab_id == old(self).next_tab_id
                        &&& final(self).tabs@ == old(self).tabs@.update(old(self).active as int,
                            TabState { origin: Some(origin), dirty: false, ..front })
                    }
                },
            },
    {
        let ghost tabs = self.tabs@;
        let mut i: usize = 0;
        while i < self.tabs.len()
            invariant
                i <= self.tabs@.len(),
                tabs == self.tabs@,
                tabs == old(self).tabs@,
                self.active == old(self).active,
                self.next_tab_id == old(self).next_tab_id,
                self.wf(),
                first_holding(tabs.take(i as int), origin) is None,
            decreases self.tabs@.len() - i,
        {
            assert(tabs.take(i + 1).drop_last() == tabs.take(i as int));
            assert(tabs.take(i + 1).last() == tabs[i as int]);
            let found = match &self.tabs[i].origin {
                Some(held) => Session::same(held, &origin),
                None => false,
            };
            if found {
                proof {
                    lemma_first_prefix(tabs, origin, i as int + 1);
                }
                self.active = i;
                return Opening::Switch(i);
            }
            i += 1;
        }
        assert(tabs.take(tabs.len() as int) == tabs);
        let active = self.active;
        if self.tabs[active].dirty || self.tabs[active].sending {
            self.next_tab_id = self.next_tab_id + 1;
            self.tabs.push(TabState { id: self.next_tab_id, origin: Some(origin), dirty: false, generation: 0, sending: false });
            self.active = self.tabs.len() - 1;
            Opening::Load(self.active)
        } else {
            let mut tab = self.tabs.remove(active);
            tab.origin = Some(origin);
            tab.dirty = false;
            self.tabs.insert(active, tab);
            proof {
                assert(self.tabs@ =~= tabs.update(active as int, TabState { origin: Some(origin), dirty: false, ..tabs[active as int] }));
            }
            Opening::Load(active)
        }
    }

    /// Starts a send from the tab in front. Gives whether a send from it was
    /// still awaited, which the caller calls off, and the tab's id and the
    /// send's generation, which its reply must carry.
    pub fn start_send(&mut self) -> (r: (bool, u64, u64))
        requires
            old(self).wf(),
            old(self).tabs@[old(self).active as int].generation < u64::MAX,
        ensures
            final(self).wf(),
            final(self).active == old(self).active,
            final(self).next_tab_id == old(self).next_tab_id,
            final(self).tabs@ == old(self).tabs@.update(old(self).active as int, sent(old(self).tabs@[old(self).active as int])),
            r == (old(self).tabs@[old(self).active as int].sending, old(self).tabs@[old(self).active as int].id,
                (old(self).tabs@[old(self).active as int].generation + 1) as u64),
    {
        let active = self.active;
        let mut tab = self.tabs.remove(active);
        let cancels = tab.sending;
        let id = tab.id;
        let generation = tab.generation + 1;
        tab.generation = generation;
        tab.sending = true;
        self.tabs.insert(active, tab);
        proof {
            assert(self.tabs@ =~= old(self).tabs@.update(active as int, sent(old(self).tabs@[active as int])));
        }
        (cancels, id, generation)
    }

    /// Closes the tab in front and hands it back, so its send can be called
    /// off; the tab after it comes to the front, or the one before when it
    /// was the last. The last tab stays open.
    pub fn close_tab(&mut self) -> (r: Result<TabState, String>)
        requires
            old(self).wf(),
        ensures
            final(self).wf(),
            final(self).next_tab_id == old(self).next_tab_id,
            old(self).tabs@.len() <= 1 ==> (r matches Err(message) && message@ == "The last tab stays open"@)
                && final(self).tabs@ == old(self).tabs@ && final(self).active == old(self).active,
            old(self).tabs@.len() > 1 ==> (r matches Ok(closed) && closed == old(self).tabs@[old(self).active as int])
                && final(self).tabs@ == old(self).tabs@.remove(old(self).active as int)
                && final(self).active == if old(self).active < old(self).tabs@.len() - 1 { old(self).active as int } else { old(self).tabs@.len() - 2 },
    {
        if self.tabs.len() <= 1 {
            return Err("The last tab stays open".to_string());
        }
        let closed = self.tabs.remove(self.active);
        if self.active >= self.tabs.len() {
            self.active = self.tabs.len() - 1;
        }
        Ok(closed)
    }

    /// Brings the tab at `index` to the front, when there is one.
    pub fn select_tab(&mut self, index: usize)
        requires
            old(self).wf(),
        ensures
            final(self).wf(),
            final(self).tabs@ == old(self).tabs@,
            final(self).next_tab_id == old(self).next_tab_id,
            final(self).active == if index < old(self).tabs@.len() { index } else { old(self).active },
    {
        if index < self.tabs.len() {
            self.active = index;
        }
    }

    /// Brings forward the tab `delta` places round from the one in front.
    pub fn cycle_tab(&mut self, delta: isize)
        requires
            old(self).wf(),
        ensures
            final(self).wf(),
            final(self).tabs@ == old(self).tabs@,
            final(self).next_tab_id == old(self).next_tab_id,
            final(self).active as int == (old(self).active as int + delta as int) % (old(self).tabs@.len() as int),
    {
        self.active = wrap(self.active as i128 + delta as i128, self.tabs.len());
    }

    /// A reply has come to the send `generation` of the tab `id`. Gives the
    /// tab that takes it, which no longer awaits one; a reply to a send
    /// since called off, or to a tab since closed, is dropped.
    pub fn finish(&mut self, id: u64, generation: u64) -> (r: Option<usize>)
        requires
            old(self).wf(),
        ensures
            final(self).wf(),
            final(self).active == old(self).active,
            final(self).next_tab_id == old(self).next_tab_id,
            match taker(old(self).tabs@, id, generation) {
                Some(i) => r == Some(i as usize)
                    && final(self).tabs@ == old(self).tabs@.update(i, TabState { sending: false, ..old(self).tabs@[i] }),
                None => r is None && final(self).tabs@ == old(self).tabs@,
            },
    {
        let ghost tabs = self.tabs@;
        let mut i: usize = 0;
        while i < self.tabs.len()
            invariant
                i <= self.tabs@.len(),
                tabs == self.tabs@,
                tabs == old(self).tabs@,
                self.active == old(self).active,
                self.next_tab_id == old(self).next_tab_id,
                self.wf(),
                tab_with_id(tabs.take(i as int), id) is None,
            decreases self.tabs@.len() - i,
        {
            assert(tabs.take(i + 1).drop_last() == tabs.take(i as int));
            assert(tabs.take(i + 1).last() == tabs[i as int]);
            if self.tabs[i].id == id {
                proof {
                    lemma_id_prefix(tabs, id, i as int + 1);
                }
                if self.tabs[i].generation != generation {
                    return None;
                }
                let mut tab = self.tabs.remove(i);
                tab.sending = false;
                self.tabs.insert(i, tab);
                proof {
                    assert(self.tabs@ =~= tabs.update(i as int, TabState { sending: false, ..tabs[i as int] }));
                }
                return Some(i);
            }
            i += 1;
        }
        assert(tabs.take(tabs.len() as int) == tabs);
        None
    }
}

proof fn lemma_first_prefix(tabs: Seq<TabState>, origin: Origin, n: int)
    requires
        0 <= n <= tabs.len(),
        first_holding(tabs.take(n), origin) is Some,
    ensures
        first_holding(tabs, origin) == first_holding(tabs.take(n), origin),
    decreases tabs.len() - n,
{
    if n < tabs.len() {
        assert(tabs.take(n + 1).drop_last() == tabs.take(n));
        lemma_first_prefix(tabs, origin, n + 1);
    } else {
        assert(tabs.take(n) == tabs);
    }
}

proof fn lemma_id_prefix(tabs: Seq<TabState>, id: u64, n: int)
    requires
        0 <= n <= tabs.len(),
        tab_with_id(tabs.take(n), id) is Some,
    ensures
        tab_with_id(tabs, id) == tab_with_id(tabs.take(n), id),
    decreases tabs.len() - n,
{
    if n < tabs.len() {
        assert(tabs.take(n + 1).drop_last() == tabs.take(n));
        lemma_id_prefix(tabs, id, n + 1);
    } else {
        assert(tabs.take(n) == tabs);
    }
}

/// Sending again from a tab calls off the send before: the reply to the
/// earlier one is dropped, and only the reply to the latest is taken.
pub proof fn a_second_send_supersedes_the_first(tabs: Seq<TabState>, at: int)
    requires
        0 <= at < tabs.len(),
        tab_with_id(tabs, tabs[at].id) == Some(at),
        tabs[at].generation + 2 <= u64::MAX,
    ensures
        ({
            let once = tabs.update(at, sent(tabs[at]));
            let twice = once.update(at, sent(once[at]));
            &&& taker(twice, tabs[at].id, (tabs[at].generation + 1) as u64) is None
            &&& taker(twice, tabs[at].id, (tabs[at].generation + 2) as u64) == Some(at)
        }),
{
    let once = tabs.update(at, sent(tabs[at]));
    let twice = once.update(at, sent(once[at]));
    lemma_same_ids(tabs, twice, tabs[at].id);
}

/// Two tab lists with the same ids in the same places find the same tab.
proof fn lemma_same_ids(a: Seq<TabState>, b: Seq<TabState>, id: u64)
    requires
        a.len() == b.len(),
        forall|i: int| 0 <= i < a.len() ==> (#[trigger] a[i]).id == b[i].id,
    ensures
        tab_with_id(a, id) == tab_with_id(b, id),
    decreases a.len(),
{
    if a.len() > 0 {
        lemma_same_ids(a.drop_last(), b.drop_last(), id);
    }
}

/// Opening a request that a tab already shows brings forward the first tab
/// that shows it, whatever the tabs after it hold.
pub proof fn reopening_switches(tabs: Seq<TabState>, at: int, origin: Origin)
    requires
        0 <= at < tabs.len(),
        holds(tabs[at], origin),
        forall|i: int| 0 <= i < at ==> !holds(#[trigger] tabs[i], origin),
    ensures
        first_holding(tabs, origin) == Some(at),
    decreases tabs.len(),
{
    if tabs.len() - 1 > at {
        reopening_switches(tabs.drop_last(), at, origin);
    } else {
        lemma_none_before(tabs.drop_last(), origin);
    }
}

proof fn lemma_none_before(tabs: Seq<TabState>, origin: Origin)
    requires
        forall|i: int| 0 <= i < tabs.len() ==> !holds(#[trigger] tabs[i], origin),
    ensures
        first_holding(tabs, origin) is None,
    decreases tabs.len(),
{
    if tabs.len() > 0 {
        lemma_none_before(tabs.drop_last(), origin);
    }
}

} // verus!

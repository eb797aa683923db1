//! The collections tree.
//!
//! Each registered collection is a row of the top level. Directories load as
//! they are opened, a Postman collection or an OpenAPI spec expands into its
//! requests the same way, and a request is a leaf. Nodes carry ids that
//! outlive a reload, so nothing is keyed on a row that has since moved.
//!
//! The nodes live in one arena, each listing its children by slot. A child
//! always sits after its parent, so walking down always moves forward: a
//! node read again gets fresh children at the end, and the ones it had are
//! simply no longer reached.
//!
//! Reading from disk is the front end's: opening a node that has not been
//! read says so, and what was read comes back as [`Contents`].

use vstd::prelude::*;

use crate::collection::{Entry, EntryKind};
use crate::formats::openapi::Group;
use crate::formats::postman;
use crate::formats::Format;
use crate::collection::{path_under, strip_root};
use crate::paths::{components_of, join_path, joined_path, parent_of, parent_path, path_components, paths_equal, same_path};
use crate::source::Origin;
use crate::workspace::{Collection, Source};

verus! {

#[derive(Debug, Clone, Copy, PartialEq, Eq, Hash, PartialOrd, Ord, Structural)]
pub struct NodeId(pub u64);

#[derive(Debug, Clone)]
pub enum NodeKind {
    /// A registered collection: a directory of requests, or one file that
    /// holds them.
    Root { name: String, path: String, source: Source },
    Dir { path: String, name: String },
    /// A `.http`, `.bru` or `.graphql` file.
    File { path: String, name: String, format: Format, method: Option<String> },
    /// A Postman collection file.
    Collection { path: String, name: String },
    /// A folder inside a Postman collection.
    Folder { name: String },
    /// A request inside a Postman collection.
    Item { origin: Origin, name: String, method: String },
    /// An OpenAPI spec file.
    Spec { path: String, name: String },
    Tag { name: String },
    Operation { origin: Origin, route: String, method: String, summary: String },
    /// A leaf that carries a message rather than a request: "(empty)", or why
    /// a file would not read.
    Note { text: String, is_error: bool },
}

#[derive(Debug, Clone, Copy, PartialEq, Eq, Structural)]
pub enum LoadState {
    /// Children not read yet; expanding reads them.
    Pending,
    Loaded,
    /// Nothing to read: a request, or a note.
    Leaf,
}

#[derive(Debug)]
pub struct Node {
    pub id: NodeId,
    pub kind: NodeKind,
    /// The children, by slot in the tree's arena.
    pub children: Vec<usize>,
    pub expanded: bool,
    pub state: LoadState,
}

/// The request a node opens, if it is one.
pub open spec fn node_origin(kind: NodeKind) -> Option<Origin> {
    match kind {
        NodeKind::File { path, .. } => Some(Origin::File(path)),
        NodeKind::Item { origin, .. } => Some(origin),
        NodeKind::Operation { origin, .. } => Some(origin),
        _ => None,
    }
}

/// An origin written out as plain values, to say one is another's copy.
pub open spec fn origin_view(origin: Origin) -> (int, Seq<char>, Seq<usize>, Seq<char>, Seq<char>) {
    match origin {
        Origin::File(path) => (0, path@, Seq::empty(), Seq::empty(), Seq::empty()),
        Origin::Postman { path, item } => (1, path@, item@, Seq::empty(), Seq::empty()),
        Origin::OpenApi { path, route, method } => (2, path@, Seq::empty(), route@, method@),
    }
}

fn copy_positions(v: &Vec<usize>) -> (r: Vec<usize>)
    ensures
        r@ == v@,
{
    let mut out: Vec<usize> = Vec::new();
    let mut i: usize = 0;
    while i < v.len()
        invariant
            i <= v@.len(),
            out@ == v@.take(i as int),
        decreases v@.len() - i,
    {
        out.push(v[i]);
        assert(v@.take(i + 1) =~= v@.take(i as int).push(v@[i as int]));
        i += 1;
    }
    assert(v@.take(v@.len() as int) =~= v@);
    out
}

/// A copy of an origin, field for field.
pub fn copy_origin(origin: &Origin) -> (r: Origin)
    ensures
        origin_view(r) == origin_view(*origin),
{
    match origin {
        Origin::File(path) => Origin::File(path.clone()),
        Origin::Postman { path, item } => Origin::Postman { path: path.clone(), item: copy_positions(item) },
        Origin::OpenApi { path, route, method } => Origin::OpenApi {
            path: path.clone(),
            route: route.clone(),
            method: method.clone(),
        },
    }
}

impl Node {
    pub fn is_expandable(&self) -> (r: bool)
        ensures
            r == (self.state != LoadState::Leaf),
    {
        self.state != LoadState::Leaf
    }

    /// The request this node opens, if it is one.
    pub fn origin(&self) -> (r: Option<Origin>)
        ensures
            match (r, node_origin(self.kind)) {
                (Some(o), Some(expected)) => origin_view(o) == origin_view(expected),
                (None, None) => true,
                _ => false,
            },
    {
        match &self.kind {
            NodeKind::File { path, .. } => Some(Origin::File(path.clone())),
            NodeKind::Item { origin, .. } => Some(copy_origin(origin)),
            NodeKind::Operation { origin, .. } => Some(copy_origin(origin)),
            _ => None,
        }
    }
}

#[derive(Debug, Clone, Copy, PartialEq, Eq, Structural)]
pub struct VisibleNode {
    pub id: NodeId,
    pub depth: usize,
}

/// The rows of a walk over the arena: each node's slot, its depth, and its
/// parent's slot.
pub type Row = (usize, usize, Option<usize>);

/// Walking the nodes of `list` in order, each followed by its children (by
/// all of them, or only an expanded node's): the slots of a list are those
/// after `above`, so every step moves forward in the arena.
pub open spec fn walk_list(nodes: Seq<Node>, list: Seq<usize>, above: int, depth: nat, parent: Option<usize>, all: bool) -> Seq<(usize, nat, Option<usize>)>
    decreases nodes.len() - above, list.len(),
{
    if list.len() == 0 || above >= nodes.len() {
        Seq::empty()
    } else {
        let before = walk_list(nodes, list.drop_last(), above, depth, parent, all);
        let c = list.last();
        if above < c && c < nodes.len() {
            before + walk_node(nodes, c as int, depth, parent, all)
        } else {
            before
        }
    }
}

/// A node's row, then the walk over its children.
pub open spec fn walk_node(nodes: Seq<Node>, i: int, depth: nat, parent: Option<usize>, all: bool) -> Seq<(usize, nat, Option<usize>)>
    decreases nodes.len() - i + 1, 0nat,
{
    if i < 0 || i >= nodes.len() {
        Seq::empty()
    } else {
        seq![(i as usize, depth, parent)] + if all || nodes[i].expanded {
            walk_list(nodes, nodes[i].children@, i, depth + 1, Some(i as usize), all)
        } else {
            Seq::empty()
        }
    }
}

/// Each child sits after its parent, in the arena.
pub open spec fn arena_ok(nodes: Seq<Node>) -> bool {
    forall|s: int, k: int| 0 <= s < nodes.len() && 0 <= k < nodes[s].children@.len()
        ==> s < #[trigger] nodes[s].children@[k] < nodes.len()
}

pub open spec fn row_views(rows: Seq<Row>) -> Seq<(usize, nat, Option<usize>)> {
    rows.map_values(|row: Row| (row.0, row.1 as nat, row.2))
}

/// The first row from `from` on whose node has id `id`.
pub open spec fn first_with_id(rows: Seq<(usize, nat, Option<usize>)>, nodes: Seq<Node>, id: NodeId, from: int) -> Option<int>
    decreases rows.len() - from,
{
    if from < 0 || from >= rows.len() {
        None
    } else if rows[from].0 < nodes.len() && nodes[rows[from].0 as int].id == id {
        Some(from)
    } else {
        first_with_id(rows, nodes, id, from + 1)
    }
}

/// The first row from `from` on that is the node at slot `slot`.
pub open spec fn first_with_slot(rows: Seq<(usize, nat, Option<usize>)>, slot: usize, from: int) -> Option<int>
    decreases rows.len() - from,
{
    if from < 0 || from >= rows.len() {
        None
    } else if rows[from].0 == slot {
        Some(from)
    } else {
        first_with_slot(rows, slot, from + 1)
    }
}

proof fn lemma_walk_list(nodes: Seq<Node>, list: Seq<usize>, above: int, depth: nat, parent: Option<usize>, all: bool)
    requires
        arena_ok(nodes),
        -1 <= above,
        nodes.len() <= usize::MAX,
        parent matches Some(q) ==> q <= above,
    ensures
        forall|k: int| 0 <= k < walk_list(nodes, list, above, depth, parent, all).len() ==> {
            let row = #[trigger] walk_list(nodes, list, above, depth, parent, all)[k];
            &&& above < row.0 < nodes.len()
            &&& (row.2 matches Some(p) ==> p < row.0)
        },
    decreases nodes.len() - above, list.len(),
{
    if list.len() == 0 || above >= nodes.len() {
    } else {
        lemma_walk_list(nodes, list.drop_last(), above, depth, parent, all);
        let c = list.last();
        if above < c && c < nodes.len() {
            lemma_walk_node(nodes, c as int, depth, parent, all);
            let before = walk_list(nodes, list.drop_last(), above, depth, parent, all);
            let here = walk_node(nodes, c as int, depth, parent, all);
            assert forall|k: int| 0 <= k < (before + here).len() implies {
                let row = #[trigger] (before + here)[k];
                &&& above < row.0 < nodes.len()
                &&& (row.2 matches Some(p) ==> p < row.0)
            } by {
                if k >= before.len() {
                    assert((before + here)[k] == here[k - before.len()]);
                }
            }
        }
    }
}

proof fn lemma_walk_node(nodes: Seq<Node>, i: int, depth: nat, parent: Option<usize>, all: bool)
    requires
        arena_ok(nodes),
        0 <= i < nodes.len(),
        nodes.len() <= usize::MAX,
        parent matches Some(q) ==> q < i,
    ensures
        forall|k: int| 0 <= k < walk_node(nodes, i, depth, parent, all).len() ==> {
            let row = #[trigger] walk_node(nodes, i, depth, parent, all)[k];
            &&& i <= row.0 < nodes.len()
            &&& (row.2 matches Some(p) ==> p < row.0)
        },
        walk_node(nodes, i, depth, parent, all).len() > 0,
        walk_node(nodes, i, depth, parent, all)[0] == (i as usize, depth, parent),
    decreases nodes.len() - i + 1, 0nat,
{
    let head = seq![(i as usize, depth, parent)];
    if all || nodes[i].expanded {
        lemma_walk_list(nodes, nodes[i].children@, i, depth + 1, Some(i as usize), all);
        let rest = walk_list(nodes, nodes[i].children@, i, depth + 1, Some(i as usize), all);
        assert forall|k: int| 0 <= k < (head + rest).len() implies {
            let row = #[trigger] (head + rest)[k];
            &&& i <= row.0 < nodes.len()
            &&& (row.2 matches Some(p) ==> p < row.0)
        } by {
            if k >= 1 {
                assert((head + rest)[k] == rest[k - 1]);
            }
        }
    } else {
        assert(head + Seq::<(usize, nat, Option<usize>)>::empty() =~= head);
    }
}

pub struct Tree {
    /// Every node ever made, by slot.
    pub nodes: Vec<Node>,
    /// The collections' rows, by slot.
    pub roots: Vec<usize>,
    /// The id the last node made was given.
    pub next_id: u64,
    pub selected: usize,
    pub offset: usize,
}

/// What reading a node gave: the front end reads, the tree files it.
pub enum Contents {
    /// A directory's entries, each with the method a request file's first
    /// line names.
    Listing(Vec<(Entry, Option<String>)>),
    /// A collection that is one request file.
    File(Entry, Option<String>),
    /// A Postman collection file, read from `path`.
    Postman { path: String, collection: postman::Collection },
    /// An OpenAPI spec file's operations by tag, read from `path`.
    Spec { path: String, groups: Vec<Group> },
    /// Why it could not be read.
    Failed(String),
}

impl Tree {
    /// Each child sits after its parent, and every slot named is one.
    pub closed spec fn wf(&self) -> bool {
        &&& forall|s: int, k: int| 0 <= s < self.nodes@.len() && 0 <= k < self.nodes@[s].children@.len()
            ==> s < #[trigger] self.nodes@[s].children@[k] < self.nodes@.len()
        &&& forall|k: int| 0 <= k < self.roots@.len() ==> #[trigger] self.roots@[k] < self.nodes@.len()
        &&& self.roots@.no_duplicates()
    }

    /// The nodes, by slot.
    pub closed spec fn arena(&self) -> Seq<Node> {
        self.nodes@
    }

    /// The rows, every node reached from the roots in order.
    pub closed spec fn all_rows(&self) -> Seq<(usize, nat, Option<usize>)> {
        walk_list(self.nodes@, self.roots@, -1, 0, None, true)
    }

    /// The rows the sidebar draws: a node's children only under an
    /// expanded node.
    pub closed spec fn shown_rows(&self) -> Seq<(usize, nat, Option<usize>)> {
        walk_list(self.nodes@, self.roots@, -1, 0, None, false)
    }

    /// The id of the selected row, when there is a row there.
    pub open spec fn selection(&self) -> Option<NodeId> {
        if self.selected < self.visible_view().len() {
            Some(self.visible_view()[self.selected as int].0)
        } else {
            None
        }
    }

    /// The slot of the node the selected row shows.
    pub open spec fn selected_slot(&self) -> Option<usize> {
        if self.selected < self.shown_rows().len() {
            Some(self.shown_rows()[self.selected as int].0)
        } else {
            None
        }
    }

    /// The ids and depths of the rows the sidebar draws.
    pub open spec fn visible_view(&self) -> Seq<(NodeId, nat)> {
        self.shown_rows().map_values(|row: (usize, nat, Option<usize>)| (self.arena()[row.0 as int].id, row.1))
    }
}

impl Tree {
    fn collect_list(&self, list: &Vec<usize>, above: Ghost<int>, depth: usize, parent: Option<usize>, all: bool, out: &mut Vec<Row>)
        requires
            self.wf(),
            -1 <= above@ < self.nodes@.len(),
            depth <= above@ + 1,
            forall|k: int| 0 <= k < list@.len() ==> above@ < #[trigger] list@[k] < self.nodes@.len(),
        ensures
            row_views(final(out)@) == row_views(old(out)@) + walk_list(self.nodes@, list@, above@, depth as nat, parent, all),
        decreases self.nodes@.len() - above@, list@.len(),
    {
        let ghost start = row_views(out@);
        let ghost nodes = self.nodes@;
        let mut k: usize = 0;
        assert(list@.take(0) =~= Seq::<usize>::empty());
        while k < list.len()
            invariant
                self.wf(),
                nodes == self.nodes@,
                -1 <= above@ < nodes.len(),
                depth <= above@ + 1,
                forall|j: int| 0 <= j < list@.len() ==> above@ < #[trigger] list@[j] < nodes.len(),
                k <= list@.len(),
                row_views(out@) == start + walk_list(nodes, list@.take(k as int), above@, depth as nat, parent, all),
            decreases list@.len() - k,
        {
            let c = list[k];
            let ghost t = list@.take(k + 1);
            assert(t.drop_last() =~= list@.take(k as int));
            assert(t.last() == c);
            let ghost before = row_views(out@);
            self.collect_node(c, depth, parent, all, out);
            assert(start + walk_list(nodes, t, above@, depth as nat, parent, all)
                =~= before + walk_node(nodes, c as int, depth as nat, parent, all));
            k += 1;
        }
        assert(list@.take(list@.len() as int) =~= list@);
    }

    fn collect_node(&self, i: usize, depth: usize, parent: Option<usize>, all: bool, out: &mut Vec<Row>)
        requires
            self.wf(),
            i < self.nodes@.len(),
            depth <= i,
        ensures
            row_views(final(out)@) == row_views(old(out)@) + walk_node(self.nodes@, i as int, depth as nat, parent, all),
        decreases self.nodes@.len() - i + 1, 0nat,
    {
        let n = self.nodes.len();
        assert(depth < n);
        let ghost before = row_views(out@);
        out.push((i, depth, parent));
        assert(row_views(out@) =~= before + seq![(i, depth as nat, parent)]);
        if all || self.nodes[i].expanded {
            let ghost mid = row_views(out@);
            self.collect_list(&self.nodes[i].children, Ghost(i as int), depth + 1, Some(i), all, out);
            assert(row_views(out@) =~= before + (seq![(i, depth as nat, parent)]
                + walk_list(self.nodes@, self.nodes@[i as int].children@, i as int, (depth + 1) as nat, Some(i), all)));
        } else {
            assert(seq![(i, depth as nat, parent)] + Seq::<(usize, nat, Option<usize>)>::empty() =~= seq![(i, depth as nat, parent)]);
        }
    }

    /// The rows from the roots: every node, or only what expanded nodes
    /// show.
    fn rows(&self, all: bool) -> (r: Vec<Row>)
        requires
            self.wf(),
        ensures
            row_views(r@) == walk_list(self.nodes@, self.roots@, -1, 0, None, all),
    {
        let mut out: Vec<Row> = Vec::new();
        assert(row_views(out@) =~= Seq::<(usize, nat, Option<usize>)>::empty());
        self.collect_list(&self.roots, Ghost(-1), 0, None, all, &mut out);
        assert(row_views(out@) =~= walk_list(self.nodes@, self.roots@, -1, 0, None, all));
        out
    }

    /// The rows the sidebar draws, in order, with their depth.
    pub fn visible(&self) -> (r: Vec<VisibleNode>)
        requires
            self.wf(),
        ensures
            r@.map_values(|v: VisibleNode| (v.id, v.depth as nat)) == self.visible_view(),
    {
        let rows = self.rows(false);
        let ghost shown = self.shown_rows();
        let mut out: Vec<VisibleNode> = Vec::new();
        let mut k: usize = 0;
        let n = self.nodes.len();
        proof {
            lemma_walk_list(self.nodes@, self.roots@, -1, 0, None, false);
        }
        while k < rows.len()
            invariant
                k <= rows@.len(),
                row_views(rows@) == shown,
                shown == self.shown_rows(),
                forall|j: int| 0 <= j < shown.len() ==> (#[trigger] shown[j]).0 < self.nodes@.len(),
                out@.map_values(|v: VisibleNode| (v.id, v.depth as nat))
                    == shown.take(k as int).map_values(|row: (usize, nat, Option<usize>)| (self.arena()[row.0 as int].id, row.1)),
            decreases rows@.len() - k,
        {
            let (slot, depth, _) = rows[k];
            assert(shown[k as int] == (slot, depth as nat, rows@[k as int].2));
            let ghost before = out@.map_values(|v: VisibleNode| (v.id, v.depth as nat));
            out.push(VisibleNode { id: self.nodes[slot].id, depth });
            assert(out@.map_values(|v: VisibleNode| (v.id, v.depth as nat)) =~= before.push((self.nodes@[slot as int].id, depth as nat)));
            assert(shown.take(k + 1).map_values(|row: (usize, nat, Option<usize>)| (self.arena()[row.0 as int].id, row.1))
                =~= shown.take(k as int).map_values(|row: (usize, nat, Option<usize>)| (self.arena()[row.0 as int].id, row.1))
                    .push((self.nodes@[slot as int].id, depth as nat)));
            k += 1;
        }
        assert(shown.take(rows@.len() as int) =~= shown);
        out
    }
}

/// Where `selected + delta` lands, kept among `count` rows.
pub open spec fn moved(selected: int, delta: int, count: int) -> int {
    if selected + delta < 0 {
        0
    } else if selected + delta > count - 1 {
        count - 1
    } else {
        selected + delta
    }
}

impl Tree {
    /// The slot of the node the first row with `id` shows.
    fn slot_with_id(&self, rows: &Vec<Row>, id: NodeId) -> (r: Option<usize>)
        requires
            self.wf(),
            row_views(rows@) == self.all_rows(),
        ensures
            match first_with_id(self.all_rows(), self.arena(), id, 0) {
                Some(k) => r == Some(self.all_rows()[k].0) && k < rows@.len() && rows@[k] == (rows@[k].0, rows@[k].1, rows@[k].2),
                None => r is None,
            },
            r matches Some(slot) ==> slot < self.arena().len(),
    {
        let ghost all = self.all_rows();
        let mut k: usize = 0;
        while k < rows.len()
            invariant
                k <= rows@.len(),
                row_views(rows@) == all,
                all == self.all_rows(),
                first_with_id(all, self.nodes@, id, k as int) == first_with_id(all, self.nodes@, id, 0),
            decreases rows@.len() - k,
        {
            let slot = rows[k].0;
            assert(all[k as int].0 == slot);
            if slot < self.nodes.len() && self.nodes[slot].id == id {
                return Some(slot);
            }
            k += 1;
        }
        None
    }

    /// The node with `id`, wherever it is in the tree.
    pub fn find(&self, id: NodeId) -> (r: Option<&Node>)
        requires
            self.wf(),
        ensures
            match first_with_id(self.all_rows(), self.arena(), id, 0) {
                Some(k) => r matches Some(node) && *node == self.arena()[self.all_rows()[k].0 as int],
                None => r is None,
            },
    {
        let rows = self.rows(true);
        match self.slot_with_id(&rows, id) {
            Some(slot) => Some(&self.nodes[slot]),
            None => None,
        }
    }

    /// The parent of the node with `id`, or nothing for a collection's row
    /// or an id not in the tree.
    pub fn parent_of(&self, id: NodeId) -> (r: Option<NodeId>)
        requires
            self.wf(),
        ensures
            match first_with_id(self.all_rows(), self.arena(), id, 0) {
                Some(k) => match self.all_rows()[k].2 {
                    Some(p) => r == Some(self.arena()[p as int].id),
                    None => r is None,
                },
                None => r is None,
            },
    {
        let rows = self.rows(true);
        let ghost all = self.all_rows();
        let n = self.nodes.len();
        proof {
            lemma_walk_list(self.nodes@, self.roots@, -1, 0, None, true);
        }
        let mut k: usize = 0;
        while k < rows.len()
            invariant
                n == self.nodes@.len(),
                k <= rows@.len(),
                row_views(rows@) == all,
                all == self.all_rows(),
                forall|j: int| 0 <= j < all.len() ==> (#[trigger] all[j]).0 < n && (all[j].2 matches Some(p) ==> p < all[j].0),
                first_with_id(all, self.nodes@, id, k as int) == first_with_id(all, self.nodes@, id, 0),
            decreases rows@.len() - k,
        {
            let (slot, _, parent) = rows[k];
            assert(all[k as int] == (slot, all[k as int].1, parent));
            if self.nodes[slot].id == id {
                return match parent {
                    Some(p) => Some(self.nodes[p].id),
                    None => None,
                };
            }
            k += 1;
        }
        None
    }

    /// The id of the selected row.
    pub fn selected_id(&self) -> (r: Option<NodeId>)
        requires
            self.wf(),
        ensures
            r == self.selection(),
    {
        let visible = self.visible();
        if self.selected < visible.len() {
            let ghost v = visible@.map_values(|v: VisibleNode| (v.id, v.depth as nat));
            assert(v[self.selected as int] == (visible@[self.selected as int].id, visible@[self.selected as int].depth as nat));
            Some(visible[self.selected].id)
        } else {
            None
        }
    }

    /// The selected row's node.
    pub fn selected(&self) -> (r: Option<&Node>)
        requires
            self.wf(),
        ensures
            match self.selection() {
                Some(id) => match first_with_id(self.all_rows(), self.arena(), id, 0) {
                    Some(k) => r matches Some(node) && *node == self.arena()[self.all_rows()[k].0 as int],
                    None => r is None,
                },
                None => r is None,
            },
    {
        match self.selected_id() {
            Some(id) => self.find(id),
            None => None,
        }
    }

    /// The name of the collection whose own row is selected.
    pub fn selected_root(&self) -> (r: Option<&str>)
        requires
            self.wf(),
        ensures
            match self.selection() {
                Some(id) => match first_with_id(self.all_rows(), self.arena(), id, 0) {
                    Some(k) => match self.arena()[self.all_rows()[k].0 as int].kind {
                        NodeKind::Root { name, .. } => r matches Some(n) && n@ == name@,
                        _ => r is None,
                    },
                    None => r is None,
                },
                None => r is None,
            },
    {
        match self.selected() {
            Some(node) => match &node.kind {
                NodeKind::Root { name, .. } => Some(name.as_str()),
                _ => None,
            },
            None => None,
        }
    }

    /// The first row the sidebar draws for `id`.
    fn visible_index(&self, id: NodeId) -> (r: Option<usize>)
        requires
            self.wf(),
        ensures
            match r {
                Some(x) => first_visible(self.visible_view(), id, 0) == Some(x as int),
                None => first_visible(self.visible_view(), id, 0) is None,
            },
    {
        let visible = self.visible();
        let ghost v = self.visible_view();
        let mut k: usize = 0;
        while k < visible.len()
            invariant
                k <= visible@.len(),
                visible@.map_values(|v: VisibleNode| (v.id, v.depth as nat)) == v,
                v == self.visible_view(),
                first_visible(v, id, k as int) == first_visible(v, id, 0),
            decreases visible@.len() - k,
        {
            assert(v[k as int].0 == visible@[k as int].id);
            if visible[k].id == id {
                return Some(k);
            }
            k += 1;
        }
        None
    }

    /// Selects the first row that shows the node with `id`, when one does.
    pub fn select_id(&mut self, id: NodeId)
        requires
            old(self).wf(),
        ensures
            final(self).wf(),
            final(self).nodes == old(self).nodes,
            final(self).roots == old(self).roots,
            final(self).offset == old(self).offset,
            final(self).next_id == old(self).next_id,
            final(self).selected == match first_visible(old(self).visible_view(), id, 0) {
                Some(k) => k,
                None => old(self).selected as int,
            },
    {
        match self.visible_index(id) {
            Some(k) => {
                self.selected = k;
            },
            None => {},
        }
    }

    /// Moves the selection by `delta` rows, kept among the rows there are.
    pub fn move_selection(&mut self, delta: isize)
        requires
            old(self).wf(),
        ensures
            final(self).wf(),
            final(self).arena() == old(self).arena(),
            final(self).roots == old(self).roots,
            final(self).offset == old(self).offset,
            old(self).visible_view().len() == 0 ==> final(self).selected == old(self).selected,
            old(self).visible_view().len() > 0 ==> final(self).selected == moved(old(self).selected as int, delta as int, old(self).visible_view().len() as int),
    {
        let count = self.visible().len();
        if count > 0 {
            let target: i128 = self.selected as i128 + delta as i128;
            self.selected = if target < 0 {
                0
            } else if target > (count - 1) as i128 {
                count - 1
            } else {
                target as usize
            };
        }
    }

    pub fn select_first(&mut self)
        ensures
            final(self).selected == 0,
            final(self).arena() == old(self).arena(),
            final(self).roots == old(self).roots,
            final(self).offset == old(self).offset,
    {
        self.selected = 0;
    }

    pub fn select_last(&mut self)
        requires
            old(self).wf(),
        ensures
            final(self).wf(),
            final(self).selected == if old(self).visible_view().len() > 0 { old(self).visible_view().len() - 1 } else { 0 },
            final(self).arena() == old(self).arena(),
            final(self).roots == old(self).roots,
            final(self).offset == old(self).offset,
    {
        let count = self.visible().len();
        self.selected = if count > 0 { count - 1 } else { 0 };
    }

    /// Keeps the selection on a row that is there.
    fn clamp_selection(&mut self)
        requires
            old(self).wf(),
        ensures
            final(self).wf(),
            final(self).selected == if old(self).selected < old(self).visible_view().len() {
                old(self).selected as int
            } else if old(self).visible_view().len() > 0 {
                old(self).visible_view().len() - 1
            } else {
                0
            },
            final(self).arena() == old(self).arena(),
            final(self).roots == old(self).roots,
            final(self).offset == old(self).offset,
    {
        let count = self.visible().len();
        let last = if count > 0 { count - 1 } else { 0 };
        if self.selected > last {
            self.selected = last;
        }
    }
}

/// The node a listed entry becomes.
pub open spec fn entry_kind(entry: Entry, method: Option<String>) -> NodeKind {
    match entry.kind {
        EntryKind::Dir => NodeKind::Dir { path: entry.path, name: entry.name },
        EntryKind::Request(format) => NodeKind::File { path: entry.path, name: entry.name, format, method },
        EntryKind::Postman => NodeKind::Collection { path: entry.path, name: entry.name },
        EntryKind::OpenApi => NodeKind::Spec { path: entry.path, name: entry.name },
    }
}

/// Whether an entry's node has children to read: everything but a
/// request file.
pub open spec fn entry_state(entry: Entry) -> LoadState {
    match entry.kind {
        EntryKind::Request(_) => LoadState::Leaf,
        _ => LoadState::Pending,
    }
}

/// The kinds of the nodes that what was read becomes, directly under the
/// node it was read for, when that is a flat list: a listing's entries, a
/// request file, or the note that says why nothing could be read. `None`
/// for a Postman collection or a spec, whose nodes nest.
pub open spec fn flat_kinds(contents: Contents) -> Option<Seq<(NodeKind, LoadState)>> {
    match contents {
        Contents::Listing(entries) => Some(entries@.map_values(|e: (Entry, Option<String>)| (entry_kind(e.0, e.1), entry_state(e.0)))),
        Contents::File(entry, method) => Some(seq![(entry_kind(entry, method), entry_state(entry))]),
        Contents::Failed(why) => Some(seq![(NodeKind::Note { text: why, is_error: true }, LoadState::Leaf)]),
        _ => None,
    }
}

/// `node`, opened or closed.
pub open spec fn with_expanded(node: Node, expanded: bool) -> Node {
    Node { id: node.id, kind: node.kind, children: node.children, expanded, state: node.state }
}

/// The first of the rows the sidebar draws, from `from` on, that is `id`.
pub open spec fn first_visible(rows: Seq<(NodeId, nat)>, id: NodeId, from: int) -> Option<int>
    decreases rows.len() - from,
{
    if from < 0 || from >= rows.len() {
        None
    } else if rows[from].0 == id {
        Some(from)
    } else {
        first_visible(rows, id, from + 1)
    }
}

/// `new` is `old` with nodes added after it.
pub open spec fn extends(new: Seq<Node>, old: Seq<Node>) -> bool {
    &&& old.len() <= new.len()
    &&& new.take(old.len() as int) == old
}

proof fn lemma_extends(a: Seq<Node>, b: Seq<Node>, c: Seq<Node>)
    requires
        extends(a, b),
        extends(b, c),
    ensures
        extends(a, c),
{
    assert(a.take(c.len() as int) =~= b.take(c.len() as int));
}

/// What "(empty)" stands in for: a note that there is nothing.
pub open spec fn is_empty_note(kind: NodeKind) -> bool {
    kind matches NodeKind::Note { text, is_error } && text@ == "(empty)"@ && !is_error
}

impl Tree {
    /// The tree's nodes from `start` on are the ones made since, each after
    /// the one it was made under.
    pub open spec fn grew_from(&self, old: Seq<Node>) -> bool {
        extends(self.arena(), old)
    }

    /// Makes a node with a fresh id, at the end of the arena.
    fn make(&mut self, kind: NodeKind, state: LoadState) -> (r: usize)
        requires
            old(self).wf(),
        ensures
            final(self).wf(),
            r == old(self).nodes@.len(),
            final(self).nodes@.len() == old(self).nodes@.len() + 1,
            final(self).grew_from(old(self).nodes@),
            final(self).nodes@[r as int].kind == kind,
            final(self).nodes@[r as int].state == state,
            final(self).nodes@[r as int].children@.len() == 0,
            !final(self).nodes@[r as int].expanded,
            final(self).roots == old(self).roots,
            final(self).selected == old(self).selected,
            final(self).offset == old(self).offset,
    {
        if self.next_id < u64::MAX {
            self.next_id = self.next_id + 1;
        }
        let slot = self.nodes.len();
        let ghost before = self.nodes@;
        self.nodes.push(Node { id: NodeId(self.next_id), kind, children: Vec::new(), expanded: false, state });
        assert(self.nodes@.take(before.len() as int) =~= before);
        slot
    }

    /// A note: "(empty)", or why something would not read.
    fn note(&mut self, text: String, is_error: bool) -> (r: usize)
        requires
            old(self).wf(),
        ensures
            final(self).wf(),
            r == old(self).nodes@.len(),
            final(self).nodes@.len() == old(self).nodes@.len() + 1,
            final(self).grew_from(old(self).nodes@),
            final(self).nodes@[r as int].kind == (NodeKind::Note { text, is_error }),
            final(self).nodes@[r as int].state == LoadState::Leaf,
            final(self).roots == old(self).roots,
            final(self).selected == old(self).selected,
            final(self).offset == old(self).offset,
    {
        self.make(NodeKind::Note { text, is_error }, LoadState::Leaf)
    }

    /// Opens or closes the node at `slot`.
    fn set_open(&mut self, slot: usize, expanded: bool)
        requires
            old(self).wf(),
            slot < old(self).nodes@.len(),
        ensures
            final(self).wf(),
            final(self).nodes@ == old(self).nodes@.update(slot as int, with_expanded(old(self).nodes@[slot as int], expanded)),
            final(self).roots == old(self).roots,
            final(self).selected == old(self).selected,
            final(self).offset == old(self).offset,
            final(self).next_id == old(self).next_id,
    {
        self.nodes[slot].expanded = expanded;
    }

    /// Gives the node at `slot` what was read under it, and opens it.
    fn fill(&mut self, slot: usize, children: Vec<usize>)
        requires
            old(self).wf(),
            slot < old(self).nodes@.len(),
            forall|k: int| 0 <= k < children@.len() ==> slot < #[trigger] children@[k] < old(self).nodes@.len(),
        ensures
            final(self).wf(),
            final(self).nodes@.len() == old(self).nodes@.len(),
            forall|j: int| 0 <= j < old(self).nodes@.len() && j != slot ==> final(self).nodes@[j] == old(self).nodes@[j],
            final(self).nodes@[slot as int].id == old(self).nodes@[slot as int].id,
            final(self).nodes@[slot as int].kind == old(self).nodes@[slot as int].kind,
            final(self).nodes@[slot as int].children@ == children@,
            final(self).nodes@[slot as int].state == LoadState::Loaded,
            final(self).nodes@[slot as int].expanded,
            final(self).roots == old(self).roots,
            final(self).selected == old(self).selected,
            final(self).offset == old(self).offset,
            final(self).next_id == old(self).next_id,
    {
        self.nodes[slot].children = children;
        self.nodes[slot].state = LoadState::Loaded;
        self.nodes[slot].expanded = true;
    }

    /// The node an entry of a listing becomes.
    fn entry(&mut self, entry: Entry, method: Option<String>) -> (r: usize)
        requires
            old(self).wf(),
        ensures
            final(self).wf(),
            r == old(self).nodes@.len(),
            final(self).nodes@.len() == old(self).nodes@.len() + 1,
            final(self).grew_from(old(self).nodes@),
            final(self).nodes@[r as int].kind == entry_kind(entry, method),
            final(self).nodes@[r as int].state == entry_state(entry),
            final(self).roots == old(self).roots,
            final(self).selected == old(self).selected,
            final(self).offset == old(self).offset,
    {
        let Entry { name, path, kind } = entry;
        match kind {
            EntryKind::Dir => self.make(NodeKind::Dir { path, name }, LoadState::Pending),
            EntryKind::Request(format) => self.make(NodeKind::File { path, name, format, method }, LoadState::Leaf),
            EntryKind::Postman => self.make(NodeKind::Collection { path, name }, LoadState::Pending),
            EntryKind::OpenApi => self.make(NodeKind::Spec { path, name }, LoadState::Pending),
        }
    }
}

impl Tree {
    /// Slots made since the arena had `start` nodes.
    pub open spec fn made_since(&self, slots: Seq<usize>, start: int) -> bool {
        forall|k: int| 0 <= k < slots.len() ==> start <= #[trigger] slots[k] < self.arena().len()
    }

    /// "(empty)" in place of nothing.
    fn or_empty(&mut self, children: Vec<usize>) -> (r: Vec<usize>)
        requires
            old(self).wf(),
        ensures
            final(self).wf(),
            final(self).grew_from(old(self).nodes@),
            final(self).roots == old(self).roots,
            final(self).selected == old(self).selected,
            final(self).offset == old(self).offset,
            r@.len() > 0,
            children@.len() > 0 ==> r@ == children@ && final(self).nodes@ == old(self).nodes@,
            children@.len() == 0 ==> r@.len() == 1 && r@[0] == old(self).nodes@.len()
                && is_empty_note(final(self).nodes@[old(self).nodes@.len() as int].kind)
                && final(self).nodes@[old(self).nodes@.len() as int].state == LoadState::Leaf,
            children@.len() == 0 ==> final(self).nodes@.len() == old(self).nodes@.len() + 1,
    {
        if children.len() == 0 {
            proof {
                reveal_strlit("(empty)");
            }
            let slot = self.note("(empty)".to_string(), false);
            let mut out: Vec<usize> = Vec::new();
            out.push(slot);
            assert(out@ =~= seq![slot]);
            out
        } else {
            assert(self.nodes@.take(self.nodes@.len() as int) =~= self.nodes@);
            children
        }
    }

    /// The nodes of one level of a Postman collection: a request is a leaf
    /// that opens its item by position, a folder opens with its own items
    /// under it. `fuel` bounds how deep folders are followed, which a
    /// collection read from a file never reaches.
    fn postman_level(&mut self, path: &String, collection: &postman::Collection, level: &Vec<usize>, trail: &mut Vec<usize>, fuel: usize) -> (r: Vec<usize>)
        requires
            old(self).wf(),
        ensures
            final(self).wf(),
            final(self).grew_from(old(self).nodes@),
            final(self).made_since(r@, old(self).nodes@.len() as int),
            final(self).roots == old(self).roots,
            final(self).selected == old(self).selected,
            final(self).offset == old(self).offset,
            final(trail)@ == old(trail)@,
        decreases fuel,
    {
        let ghost start = self.nodes@;
        let ghost trail_start = trail@;
        let mut out: Vec<usize> = Vec::new();
        let mut i: usize = 0;
        assert(self.nodes@.take(start.len() as int) =~= start);
        while i < level.len()
            invariant
                self.wf(),
                self.grew_from(start),
                self.made_since(out@, start.len() as int),
                self.roots == old(self).roots,
                self.selected == old(self).selected,
                self.offset == old(self).offset,
                trail@ == trail_start,
            decreases level@.len() - i,
        {
            let at = level[i];
            if at < collection.nodes.len() {
                let item = &collection.nodes[at];
                trail.push(i);
                let ghost before = self.nodes@;
                if item.is_request() {
                    let position = copy_positions(trail);
                    let slot = self.make(
                        NodeKind::Item {
                            origin: Origin::Postman { path: path.clone(), item: position },
                            name: item.name.clone(),
                            method: item.method(),
                        },
                        LoadState::Leaf,
                    );
                    out.push(slot);
                } else {
                    let folder = self.make(NodeKind::Folder { name: item.name.clone() }, LoadState::Loaded);
                    let ghost made = self.nodes@;
                    let children = if fuel > 0 {
                        self.postman_level(path, collection, &item.items, trail, fuel - 1)
                    } else {
                        proof {
                            assert(self.nodes@.take(self.nodes@.len() as int) =~= self.nodes@);
                        }
                        Vec::new()
                    };
                    assert(self.grew_from(made));
                    proof {
                        lemma_extends(self.nodes@, made, before);
                        lemma_extends(self.nodes@, before, start);
                    }
                    let ghost pre_len = self.nodes@.len();
                    let ghost pre = children@;
                    assert(made.len() == folder + 1);
                    assert(forall|k: int| 0 <= k < pre.len() ==> folder < #[trigger] pre[k] < pre_len);
                    let children = self.or_empty(children);
                    assert(forall|k: int| 0 <= k < children@.len() ==> folder < #[trigger] children@[k] < self.nodes@.len()) by {
                        if pre.len() == 0 {
                            assert(children@.len() == 1 && children@[0] == pre_len);
                        } else {
                            assert(children@ == pre);
                        }
                    }
                    self.fill(folder, children);
                    out.push(folder);
                }
                let _ = trail.pop();
                assert(trail@ =~= trail_start);
                assert(self.grew_from(start)) by {
                    assert(self.nodes@.take(start.len() as int) =~= start);
                }
            }
            i += 1;
        }
        out
    }

    /// The nodes of a spec: a tag for each group, open, with its
    /// operations under it.
    fn spec_nodes(&mut self, path: &String, groups: &Vec<Group>) -> (r: Vec<usize>)
        requires
            old(self).wf(),
        ensures
            final(self).wf(),
            final(self).grew_from(old(self).nodes@),
            final(self).made_since(r@, old(self).nodes@.len() as int),
            final(self).roots == old(self).roots,
            final(self).selected == old(self).selected,
            final(self).offset == old(self).offset,
    {
        let ghost start = self.nodes@;
        let mut out: Vec<usize> = Vec::new();
        let mut g: usize = 0;
        assert(self.nodes@.take(start.len() as int) =~= start);
        while g < groups.len()
            invariant
                self.wf(),
                self.grew_from(start),
                self.made_since(out@, start.len() as int),
                self.roots == old(self).roots,
                self.selected == old(self).selected,
                self.offset == old(self).offset,
            decreases groups@.len() - g,
        {
            let group = &groups[g];
            let ghost before_tag = self.nodes@;
            let tag = self.make(NodeKind::Tag { name: group.tag.clone() }, LoadState::Loaded);
            proof {
                lemma_extends(self.nodes@, before_tag, start);
            }
            let mut children: Vec<usize> = Vec::new();
            let mut e: usize = 0;
            while e < group.endpoints.len()
                invariant
                    self.wf(),
                    self.grew_from(start),
                    tag < self.nodes@.len(),
                    start.len() <= tag,
                    forall|k: int| 0 <= k < children@.len() ==> tag < #[trigger] children@[k] < self.nodes@.len(),
                    self.made_since(out@, start.len() as int),
                    self.roots == old(self).roots,
                    self.selected == old(self).selected,
                    self.offset == old(self).offset,
                decreases group.endpoints@.len() - e,
            {
                let endpoint = &group.endpoints[e];
                let ghost before = self.nodes@;
                let slot = self.make(
                    NodeKind::Operation {
                        origin: Origin::OpenApi {
                            path: path.clone(),
                            route: endpoint.route.clone(),
                            method: endpoint.method.clone(),
                        },
                        route: endpoint.route.clone(),
                        method: endpoint.method.clone(),
                        summary: endpoint.summary.clone(),
                    },
                    LoadState::Leaf,
                );
                children.push(slot);
                proof {
                    lemma_extends(self.nodes@, before, start);
                }
                e += 1;
            }
            let ghost before_fill = self.nodes@;
            self.fill(tag, children);
            out.push(tag);
            assert(extends(self.nodes@, start)) by {
                assert(self.nodes@.take(start.len() as int) =~= before_fill.take(start.len() as int));
            }
            g += 1;
        }
        out
    }
}

fn copy_entry(entry: &Entry) -> (r: Entry)
    ensures
        r == *entry,
{
    Entry { name: entry.name.clone(), path: entry.path.clone(), kind: entry.kind }
}

fn copy_method(method: &Option<String>) -> (r: Option<String>)
    ensures
        r == *method,
{
    match method {
        Some(m) => Some(m.clone()),
        None => None,
    }
}

proof fn lemma_kept(a: Seq<Node>, b: Seq<Node>, x: int)
    requires
        extends(a, b),
        0 <= x < b.len(),
    ensures
        a[x] == b[x],
{
    assert(a.take(b.len() as int)[x] == a[x]);
}

impl Tree {
    /// The nodes what was read becomes, "(empty)" when it is nothing.
    fn build(&mut self, contents: Contents) -> (r: Vec<usize>)
        requires
            old(self).wf(),
        ensures
            final(self).wf(),
            final(self).grew_from(old(self).nodes@),
            final(self).made_since(r@, old(self).nodes@.len() as int),
            final(self).roots == old(self).roots,
            final(self).selected == old(self).selected,
            final(self).offset == old(self).offset,
            r@.len() > 0,
            match flat_kinds(contents) {
                Some(kinds) => if kinds.len() == 0 {
                    &&& r@.len() == 1
                    &&& is_empty_note(final(self).nodes@[r@[0] as int].kind)
                    &&& final(self).nodes@[r@[0] as int].state == LoadState::Leaf
                } else {
                    &&& r@.len() == kinds.len()
                    &&& forall|j: int| 0 <= j < kinds.len() ==> (#[trigger] final(self).nodes@[r@[j] as int]).kind == kinds[j].0
                        && final(self).nodes@[r@[j] as int].state == kinds[j].1
                },
                None => true,
            },
    {
        let ghost start = self.nodes@;
        let ghost given = contents;
        proof {
            assert(self.nodes@.take(start.len() as int) =~= start);
        }
        let made: Vec<usize> = match contents {
            Contents::Listing(entries) => {
                let mut out: Vec<usize> = Vec::new();
                let mut i: usize = 0;
                while i < entries.len()
                    invariant
                        self.wf(),
                        self.grew_from(start),
                        self.made_since(out@, start.len() as int),
                        self.roots == old(self).roots,
                        self.selected == old(self).selected,
                        self.offset == old(self).offset,
                        i <= entries@.len(),
                        out@.len() == i,
                        forall|j: int| 0 <= j < i ==> (#[trigger] self.nodes@[out@[j] as int]).kind == entry_kind(entries@[j].0, entries@[j].1)
                            && self.nodes@[out@[j] as int].state == entry_state(entries@[j].0),
                    decreases entries@.len() - i,
                {
                    let entry = copy_entry(&entries[i].0);
                    let method = copy_method(&entries[i].1);
                    let ghost before = self.nodes@;
                    let slot = self.entry(entry, method);
                    proof {
                        lemma_extends(self.nodes@, before, start);
                        assert forall|j: int| 0 <= j < i implies (#[trigger] self.nodes@[out@[j] as int]).kind == entry_kind(entries@[j].0, entries@[j].1)
                            && self.nodes@[out@[j] as int].state == entry_state(entries@[j].0) by {
                            lemma_kept(self.nodes@, before, out@[j] as int);
                        }
                    }
                    out.push(slot);
                    i += 1;
                }
                proof {
                    assert(flat_kinds(given) == Some(entries@.map_values(|e: (Entry, Option<String>)| (entry_kind(e.0, e.1), entry_state(e.0)))));
                }
                out
            },
            Contents::File(entry, method) => {
                let slot = self.entry(entry, method);
                let mut out: Vec<usize> = Vec::new();
                out.push(slot);
                out
            },
            Contents::Failed(why) => {
                let slot = self.note(why, true);
                let mut out: Vec<usize> = Vec::new();
                out.push(slot);
                out
            },
            Contents::Postman { path, collection } => {
                let mut trail: Vec<usize> = Vec::new();
                let fuel = collection.nodes.len();
                self.postman_level(&path, &collection, &collection.items, &mut trail, fuel)
            },
            Contents::Spec { path, groups } => self.spec_nodes(&path, &groups),
        };
        let ghost before = self.nodes@;
        let ghost pre = made@;
        let r = self.or_empty(made);
        proof {
            lemma_extends(self.nodes@, before, start);
            if pre.len() > 0 {
                assert(r@ == pre);
            }
        }
        r
    }
}

/// The slot of the node the first row with `id` shows, among every node
/// reached from the roots.
pub open spec fn slot_of(tree: Tree, id: NodeId) -> Option<usize> {
    match first_with_id(tree.all_rows(), tree.arena(), id, 0) {
        Some(k) => Some(tree.all_rows()[k].0),
        None => None,
    }
}

/// What opening or closing the node at `slot` does: a leaf stays as it
/// is, an open node closes, a closed one that was read opens, and one not
/// read yet stays as it is until it has been.
pub open spec fn toggled(nodes: Seq<Node>, slot: int) -> Seq<Node> {
    let node = nodes[slot];
    if node.state == LoadState::Leaf {
        nodes
    } else if node.expanded {
        nodes.update(slot, with_expanded(node, false))
    } else if node.state == LoadState::Pending {
        nodes
    } else {
        nodes.update(slot, with_expanded(node, true))
    }
}

/// Whether opening the node at `slot` must wait for it to be read.
pub open spec fn needs_reading(nodes: Seq<Node>, slot: int) -> bool {
    let node = nodes[slot];
    node.state == LoadState::Pending && !node.expanded
}

/// What loading `contents` under the node with `id` did to the tree: that
/// node now has the nodes read as its children, is read and open, and no
/// other node that was there has changed.
pub open spec fn loaded(before: Tree, after: Tree, id: NodeId, contents: Contents) -> bool {
    match slot_of(before, id) {
        Some(slot) => {
            let node = after.nodes@[slot as int];
            let children = node.children@;
            &&& before.nodes@.len() <= after.nodes@.len()
            &&& forall|j: int| 0 <= j < before.nodes@.len() && j != slot ==> #[trigger] after.nodes@[j] == before.nodes@[j]
            &&& node.id == before.nodes@[slot as int].id
            &&& node.kind == before.nodes@[slot as int].kind
            &&& node.state == LoadState::Loaded
            &&& node.expanded
            &&& children.len() > 0
            &&& after.made_since(children, before.nodes@.len() as int)
            &&& match flat_kinds(contents) {
                Some(kinds) => if kinds.len() == 0 {
                    children.len() == 1 && is_empty_note(after.nodes@[children[0] as int].kind)
                } else {
                    &&& children.len() == kinds.len()
                    &&& forall|j: int| 0 <= j < kinds.len() ==> (#[trigger] after.nodes@[children[j] as int]).kind == kinds[j].0
                        && after.nodes@[children[j] as int].state == kinds[j].1
                },
                None => true,
            }
        },
        None => after.nodes@ == before.nodes@,
    }
}

impl Tree {
    fn toggle_slot(&mut self, slot: usize) -> (needs_read: bool)
        requires
            old(self).wf(),
            slot < old(self).nodes@.len(),
        ensures
            final(self).wf(),
            final(self).nodes@ == toggled(old(self).nodes@, slot as int),
            needs_read == needs_reading(old(self).nodes@, slot as int),
            final(self).roots == old(self).roots,
            final(self).selected == old(self).selected,
            final(self).offset == old(self).offset,
            final(self).next_id == old(self).next_id,
    {
        let state = self.nodes[slot].state;
        if state == LoadState::Leaf {
            return false;
        }
        if self.nodes[slot].expanded {
            self.set_open(slot, false);
            return false;
        }
        if state == LoadState::Pending {
            return true;
        }
        self.set_open(slot, true);
        false
    }

    /// Opens or closes a node. Opening one whose children have not been
    /// read yet changes nothing and answers `true`: the front end reads
    /// them and hands them to [`Tree::load`], which opens it.
    pub fn toggle(&mut self, id: NodeId) -> (needs_read: bool)
        requires
            old(self).wf(),
        ensures
            final(self).wf(),
            final(self).roots == old(self).roots,
            final(self).selected == old(self).selected,
            final(self).offset == old(self).offset,
            match slot_of(*old(self), id) {
                Some(slot) => final(self).nodes@ == toggled(old(self).nodes@, slot as int)
                    && needs_read == needs_reading(old(self).nodes@, slot as int),
                None => final(self).nodes@ == old(self).nodes@ && !needs_read,
            },
    {
        let rows = self.rows(true);
        match self.slot_with_id(&rows, id) {
            Some(slot) => self.toggle_slot(slot),
            None => false,
        }
    }

    /// Gives the node with `id` what was read under it, replacing what it
    /// had, and opens it.
    pub fn load(&mut self, id: NodeId, contents: Contents)
        requires
            old(self).wf(),
        ensures
            final(self).wf(),
            final(self).roots == old(self).roots,
            final(self).selected == old(self).selected,
            final(self).offset == old(self).offset,
            loaded(*old(self), *final(self), id, contents),
    {
        let rows = self.rows(true);
        match self.slot_with_id(&rows, id) {
            Some(slot) => {
                let ghost start = self.nodes@;
                let children = self.build(contents);
                let ghost built = self.nodes@;
                let ghost kids = children@;
                self.fill(slot, children);
                proof {
                    assert forall|j: int| 0 <= j < start.len() && j != slot implies #[trigger] self.nodes@[j] == start[j] by {
                        lemma_kept(built, start, j);
                    }
                    assert forall|j: int| 0 <= j < kids.len() implies #[trigger] self.nodes@[kids[j] as int] == built[kids[j] as int] by {
                        assert(kids[j] != slot);
                    }
                    lemma_kept(built, start, slot as int);
                }
            },
            None => {},
        }
    }

    /// Collapses the selected node, or steps to its parent when it is
    /// already collapsed: the movement people expect from a file tree.
    pub fn collapse_or_parent(&mut self)
        requires
            old(self).wf(),
        ensures
            final(self).wf(),
            final(self).roots == old(self).roots,
            final(self).offset == old(self).offset,
            match old(self).selection() {
                None => final(self).nodes == old(self).nodes && final(self).selected == old(self).selected,
                Some(id) => match slot_of(*old(self), id) {
                    Some(slot) => if old(self).nodes@[slot as int].expanded {
                        final(self).nodes@ == old(self).nodes@.update(slot as int, with_expanded(old(self).nodes@[slot as int], false))
                            && final(self).selected == old(self).selected
                    } else {
                        &&& final(self).nodes == old(self).nodes
                        &&& final(self).selected == match first_with_id(old(self).all_rows(), old(self).arena(), id, 0) {
                            Some(k) => match old(self).all_rows()[k].2 {
                                Some(p) => match first_visible(old(self).visible_view(), old(self).arena()[p as int].id, 0) {
                                    Some(v) => v,
                                    None => old(self).selected as int,
                                },
                                None => old(self).selected as int,
                            },
                            None => old(self).selected as int,
                        }
                    },
                    None => final(self).nodes == old(self).nodes && final(self).selected == old(self).selected,
                },
            },
    {
        let id = match self.selected_id() {
            Some(id) => id,
            None => return,
        };
        let rows = self.rows(true);
        match self.slot_with_id(&rows, id) {
            Some(slot) => {
                if self.nodes[slot].expanded {
                    self.set_open(slot, false);
                    return;
                }
            },
            None => return,
        }
        match self.parent_of(id) {
            Some(parent) => self.select_id(parent),
            None => {},
        }
    }
}

/// Whether a collection's row is the node for `collection`: the same name,
/// and a path that names the same place.
pub open spec fn root_for(node: Node, collection: Collection) -> bool {
    node.kind matches NodeKind::Root { name, path, .. } && name@ == collection.name@ && same_path(path@, collection.path@)
}

/// `node`, a collection's row, with its source replaced.
pub open spec fn with_source(node: Node, source: Source) -> Node {
    Node {
        id: node.id,
        kind: match node.kind {
            NodeKind::Root { name, path, .. } => NodeKind::Root { name, path, source },
            other => other,
        },
        children: node.children,
        expanded: node.expanded,
        state: node.state,
    }
}

/// `node` is `old`, but for the source a collection's row names.
pub open spec fn same_but_source(node: Node, old: Node) -> bool {
    &&& node.id == old.id
    &&& node.children == old.children
    &&& node.expanded == old.expanded
    &&& node.state == old.state
    &&& match (node.kind, old.kind) {
        (NodeKind::Root { name, path, .. }, NodeKind::Root { name: old_name, path: old_path, .. }) => name == old_name && path == old_path,
        (kind, old_kind) => kind == old_kind,
    }
}

/// The first root from `from` on that is a collection's row called `name`.
pub open spec fn root_named(nodes: Seq<Node>, roots: Seq<usize>, name: Seq<char>, from: int) -> Option<usize>
    decreases roots.len() - from,
{
    if from < 0 || from >= roots.len() {
        None
    } else if roots[from] < nodes.len() && (nodes[roots[from] as int].kind matches NodeKind::Root { name: held, .. } && held@ == name) {
        Some(roots[from])
    } else {
        root_named(nodes, roots, name, from + 1)
    }
}

/// Whether the collection a row stands for starts open: the project's, one
/// named on the command line, or the only one there is.
pub open spec fn starts_open(node: Node, only: bool) -> bool {
    only || (node.kind matches NodeKind::Root { source, .. } && (source == Source::Project || source == Source::Argument))
}

impl Tree {
    fn set_source(&mut self, slot: usize, source: Source)
        requires
            old(self).wf(),
            slot < old(self).nodes@.len(),
        ensures
            final(self).wf(),
            final(self).nodes@ == old(self).nodes@.update(slot as int, with_source(old(self).nodes@[slot as int], source)),
            final(self).roots == old(self).roots,
            final(self).selected == old(self).selected,
            final(self).offset == old(self).offset,
            final(self).next_id == old(self).next_id,
    {
        let kind = match &self.nodes[slot].kind {
            NodeKind::Root { name, path, .. } => Some(NodeKind::Root { name: name.clone(), path: path.clone(), source }),
            _ => None,
        };
        match kind {
            Some(kind) => {
                self.nodes[slot].kind = kind;
            },
            None => {},
        }
    }

    /// Where among `kept` the row for `collection` is.
    fn kept_for(&self, kept: &Vec<usize>, collection: &Collection) -> (r: Option<usize>)
        requires
            forall|k: int| 0 <= k < kept@.len() ==> #[trigger] kept@[k] < self.nodes@.len(),
        ensures
            match r {
                Some(k) => k < kept@.len() && root_for(self.nodes@[kept@[k as int] as int], *collection)
                    && forall|j: int| 0 <= j < k ==> !root_for(#[trigger] self.nodes@[kept@[j] as int], *collection),
                None => forall|j: int| 0 <= j < kept@.len() ==> !root_for(#[trigger] self.nodes@[kept@[j] as int], *collection),
            },
    {
        let mut k: usize = 0;
        while k < kept.len()
            invariant
                k <= kept@.len(),
                forall|j: int| 0 <= j < kept@.len() ==> #[trigger] kept@[j] < self.nodes@.len(),
                forall|j: int| 0 <= j < k ==> !root_for(#[trigger] self.nodes@[kept@[j] as int], *collection),
            decreases kept@.len() - k,
        {
            let slot = kept[k];
            let matched = match &self.nodes[slot].kind {
                NodeKind::Root { name, path, .. } => *name == collection.name && paths_equal(path.as_str(), collection.path.as_str()),
                _ => false,
            };
            if matched {
                return Some(k);
            }
            k += 1;
        }
        None
    }

    /// Brings the top level in line with the collections, keeping each one
    /// still there as it was: open, with what was read under it.
    pub fn sync(&mut self, collections: &[Collection])
        requires
            old(self).wf(),
        ensures
            final(self).wf(),
            final(self).offset == old(self).offset,
            final(self).roots@.len() == collections@.len(),
            old(self).nodes@.len() <= final(self).nodes@.len(),
            forall|j: int| 0 <= j < collections@.len() ==> {
                let slot = #[trigger] final(self).roots@[j];
                let node = final(self).nodes@[slot as int];
                let c = collections@[j];
                &&& slot < final(self).nodes@.len()
                &&& node.kind matches NodeKind::Root { name, source, .. } && name@ == c.name@ && source == c.source
                &&& if slot < old(self).nodes@.len() {
                    &&& old(self).roots@.contains(slot)
                    &&& root_for(old(self).nodes@[slot as int], c)
                    &&& same_but_source(node, old(self).nodes@[slot as int])
                } else {
                    &&& node.kind matches NodeKind::Root { path, .. } && path@ == c.path@
                    &&& node.state == LoadState::Pending
                    &&& node.children@.len() == 0
                    &&& !node.expanded
                }
            },
            forall|j: int, k: int|
                0 <= j < collections@.len() && 0 <= k < old(self).roots@.len()
                && root_for(old(self).nodes@[old(self).roots@[k] as int], #[trigger] collections@[j])
                && (forall|i: int| 0 <= i < collections@.len() && i != j ==> !root_for(old(self).nodes@[#[trigger] old(self).roots@[k] as int], collections@[i]))
                && (forall|m: int| 0 <= m < old(self).roots@.len() && old(self).roots@[m] != old(self).roots@[k]
                    ==> !root_for(old(self).nodes@[#[trigger] old(self).roots@[m] as int], collections@[j]))
                ==> final(self).roots@[j] == old(self).roots@[k],
            final(self).selected == if old(self).selected < final(self).visible_view().len() {
                old(self).selected as int
            } else if final(self).visible_view().len() > 0 {
                final(self).visible_view().len() - 1
            } else {
                0
            },
    {
        let ghost old_nodes = self.nodes@;
        let ghost old_roots = self.roots@;
        let mut kept: Vec<usize> = Vec::new();
        std::mem::swap(&mut kept, &mut self.roots);
        let mut roots: Vec<usize> = Vec::new();
        let mut i: usize = 0;
        while i < collections.len()
            invariant
                self.wf(),
                self.roots@.len() == 0,
                self.offset == old(self).offset,
                self.selected == old(self).selected,
                i <= collections@.len(),
                old_nodes.len() <= self.nodes@.len(),
                old_nodes == old(self).nodes@,
                old_roots == old(self).roots@,
                forall|k: int| 0 <= k < kept@.len() ==> old_roots.contains(#[trigger] kept@[k]),
                kept@.no_duplicates(),
                roots@.no_duplicates(),
                kept@.disjoint(roots@),
                forall|k: int| 0 <= k < kept@.len() ==> #[trigger] kept@[k] < old_nodes.len(),
                forall|s: int| 0 <= s < old_nodes.len() ==> same_but_source(#[trigger] self.nodes@[s], old_nodes[s]),
                forall|k: int| 0 <= k < old_roots.len()
                    && (forall|c: int| 0 <= c < i ==> !root_for(old_nodes[#[trigger] old_roots[k] as int], collections@[c]))
                    ==> kept@.contains(#[trigger] old_roots[k]),
                roots@.len() == i,
                forall|j: int, k: int|
                    0 <= j < i && 0 <= k < old_roots.len()
                    && root_for(old_nodes[old_roots[k] as int], #[trigger] collections@[j])
                    && (forall|c: int| 0 <= c < collections@.len() && c != j ==> !root_for(old_nodes[#[trigger] old_roots[k] as int], collections@[c]))
                    && (forall|m: int| 0 <= m < old_roots.len() && old_roots[m] != old_roots[k]
                        ==> !root_for(old_nodes[#[trigger] old_roots[m] as int], collections@[j]))
                    ==> roots@[j] == old_roots[k],
                forall|j: int| 0 <= j < i ==> {
                    let slot = #[trigger] roots@[j];
                    let node = self.nodes@[slot as int];
                    let c = collections@[j];
                    &&& slot < self.nodes@.len()
                    &&& node.kind matches NodeKind::Root { name, source, .. } && name@ == c.name@ && source == c.source
                    &&& if slot < old_nodes.len() {
                        &&& old_roots.contains(slot)
                        &&& root_for(old_nodes[slot as int], c)
                        &&& same_but_source(node, old_nodes[slot as int])
                    } else {
                        &&& node.kind matches NodeKind::Root { path, .. } && path@ == c.path@
                        &&& node.state == LoadState::Pending
                        &&& node.children@.len() == 0
                        &&& !node.expanded
                    }
                },
            decreases collections@.len() - i,
        {
            let c = &collections[i];
            let ghost nodes_before = self.nodes@;
            let ghost kept_before = kept@;
            let ghost roots_before = roots@;
            proof {
                assert forall|k: int| 0 <= k < kept@.len() implies
                    root_for(#[trigger] self.nodes@[kept@[k] as int], *c) == root_for(old_nodes[kept@[k] as int], *c) by {
                    assert(same_but_source(self.nodes@[kept@[k] as int], old_nodes[kept@[k] as int]));
                }
            }
            match self.kept_for(&kept, c) {
                Some(pos) => {
                    let slot = kept.swap_remove(pos);
                    self.set_source(slot, c.source);
                    roots.push(slot);
                    proof {
                        let last = kept_before.len() - 1;
                        assert(slot == kept_before[pos as int]);
                        assert forall|a: int| 0 <= a < kept@.len() implies #[trigger] kept@[a] == kept_before[if a == pos { last } else { a }] by {}
                        assert forall|a: int, b: int| 0 <= a < kept@.len() && 0 <= b < kept@.len() && a != b implies #[trigger] kept@[a] != #[trigger] kept@[b] by {
                            let ia = if a == pos { last } else { a };
                            let ib = if b == pos { last } else { b };
                            assert(ia != ib);
                        }
                        assert forall|a: int| 0 <= a < kept@.len() implies #[trigger] kept@[a] != slot by {
                            let ia = if a == pos { last } else { a };
                            assert(ia != pos);
                        }
                        assert(!roots_before.contains(slot)) by {
                            if roots_before.contains(slot) {
                                let r = choose|r: int| 0 <= r < roots_before.len() && roots_before[r] == slot;
                                assert(kept_before.disjoint(roots_before));
                                assert(kept_before[pos as int] != roots_before[r]);
                            }
                        }
                        assert(roots@ == roots_before.push(slot));
                        assert forall|a: int, b: int| 0 <= a < roots@.len() && 0 <= b < roots@.len() && a != b implies #[trigger] roots@[a] != #[trigger] roots@[b] by {
                            if a == roots_before.len() {
                                assert(roots_before[b] != slot);
                            } else if b == roots_before.len() {
                                assert(roots_before[a] != slot);
                            }
                        }
                        assert forall|a: int, b: int| 0 <= a < kept@.len() && 0 <= b < roots@.len() implies #[trigger] kept@[a] != #[trigger] roots@[b] by {
                            let ia = if a == pos { last } else { a };
                            if b < roots_before.len() {
                                assert(kept_before[ia] != roots_before[b]);
                            }
                        }
                        assert forall|j: int| 0 <= j < i implies #[trigger] roots@[j] != slot by {
                            assert(roots@[j] == roots_before[j]);
                        }
                        assert forall|k: int| 0 <= k < kept@.len() implies old_roots.contains(#[trigger] kept@[k]) && kept@[k] < old_nodes.len() by {
                            if k == pos {
                                assert(kept@[k] == kept_before[kept_before.len() - 1]);
                                assert(old_roots.contains(kept_before[kept_before.len() - 1]));
                            } else {
                                assert(kept@[k] == kept_before[k]);
                                assert(old_roots.contains(kept_before[k]));
                            }
                        }
                        assert forall|t: int| 0 <= t < old_nodes.len() implies same_but_source(#[trigger] self.nodes@[t], old_nodes[t]) by {
                            if t != slot {
                                assert(self.nodes@[t] == nodes_before[t]);
                            }
                        }
                        assert forall|k: int| 0 <= k < old_roots.len()
                            && (forall|cc: int| 0 <= cc < i + 1 ==> !root_for(old_nodes[#[trigger] old_roots[k] as int], collections@[cc]))
                            implies kept@.contains(#[trigger] old_roots[k]) by {
                            assert(forall|cc: int| 0 <= cc < i ==> !root_for(old_nodes[#[trigger] old_roots[k] as int], collections@[cc]));
                            assert(kept_before.contains(old_roots[k]));
                            let x = choose|x: int| 0 <= x < kept_before.len() && kept_before[x] == old_roots[k];
                            assert(!root_for(old_nodes[old_roots[k] as int], collections@[i as int]));
                            assert(x != pos);
                            if x == kept_before.len() - 1 {
                                assert(kept@[pos as int] == old_roots[k]);
                            } else {
                                assert(kept@[x] == old_roots[k]);
                            }
                        }
                        assert forall|j: int, k: int|
                            0 <= j < i + 1 && 0 <= k < old_roots.len()
                            && root_for(old_nodes[old_roots[k] as int], #[trigger] collections@[j])
                            && (forall|cc: int| 0 <= cc < collections@.len() && cc != j ==> !root_for(old_nodes[#[trigger] old_roots[k] as int], collections@[cc]))
                            && (forall|m: int| 0 <= m < old_roots.len() && old_roots[m] != old_roots[k]
                                ==> !root_for(old_nodes[#[trigger] old_roots[m] as int], collections@[j]))
                            implies roots@[j] == old_roots[k] by {
                            if j == i {
                                assert(forall|cc: int| 0 <= cc < i ==> !root_for(old_nodes[#[trigger] old_roots[k] as int], collections@[cc]));
                                assert(kept_before.contains(old_roots[k]));
                                let found = kept_before[pos as int];
                                assert(old_roots.contains(found));
                                let m = choose|m: int| 0 <= m < old_roots.len() && old_roots[m] == found;
                                assert(root_for(old_nodes[found as int], collections@[j]));
                                assert(old_roots[m] == old_roots[k]);
                            }
                        }
                    }
                },
                None => {
                    let slot = self.make(
                        NodeKind::Root { name: c.name.clone(), path: c.path.clone(), source: c.source },
                        LoadState::Pending,
                    );
                    roots.push(slot);
                    proof {
                        assert(roots@ == roots_before.push(slot));
                        assert forall|a: int, b: int| 0 <= a < roots@.len() && 0 <= b < roots@.len() && a != b implies #[trigger] roots@[a] != #[trigger] roots@[b] by {
                            if a == roots_before.len() {
                                assert(roots_before[b] < nodes_before.len());
                            } else if b == roots_before.len() {
                                assert(roots_before[a] < nodes_before.len());
                            }
                        }
                        assert forall|a: int, b: int| 0 <= a < kept@.len() && 0 <= b < roots@.len() implies #[trigger] kept@[a] != #[trigger] roots@[b] by {
                            if b == roots_before.len() {
                                assert(kept@[a] < old_nodes.len());
                            }
                        }
                        assert forall|t: int| 0 <= t < old_nodes.len() implies same_but_source(#[trigger] self.nodes@[t], old_nodes[t]) by {
                            lemma_kept(self.nodes@, nodes_before, t);
                        }
                        assert forall|j: int| 0 <= j < i implies {
                            let slot = #[trigger] roots@[j];
                            let node = self.nodes@[slot as int];
                            let c = collections@[j];
                            &&& slot < self.nodes@.len()
                            &&& node.kind matches NodeKind::Root { name, source, .. } && name@ == c.name@ && source == c.source
                            &&& if slot < old_nodes.len() {
                                &&& old_roots.contains(slot)
                                &&& root_for(old_nodes[slot as int], c)
                                &&& same_but_source(node, old_nodes[slot as int])
                            } else {
                                &&& node.kind matches NodeKind::Root { path, .. } && path@ == c.path@
                                &&& node.state == LoadState::Pending
                                &&& node.children@.len() == 0
                                &&& !node.expanded
                            }
                        } by {
                            assert(roots@[j] == roots_before[j]);
                            lemma_kept(self.nodes@, nodes_before, roots@[j] as int);
                        }
                        assert forall|k: int| 0 <= k < old_roots.len()
                            && (forall|cc: int| 0 <= cc < i + 1 ==> !root_for(old_nodes[#[trigger] old_roots[k] as int], collections@[cc]))
                            implies kept@.contains(#[trigger] old_roots[k]) by {
                            assert(forall|cc: int| 0 <= cc < i ==> !root_for(old_nodes[#[trigger] old_roots[k] as int], collections@[cc]));
                        }
                        assert forall|j: int, k: int|
                            0 <= j < i + 1 && 0 <= k < old_roots.len()
                            && root_for(old_nodes[old_roots[k] as int], #[trigger] collections@[j])
                            && (forall|cc: int| 0 <= cc < collections@.len() && cc != j ==> !root_for(old_nodes[#[trigger] old_roots[k] as int], collections@[cc]))
                            && (forall|m: int| 0 <= m < old_roots.len() && old_roots[m] != old_roots[k]
                                ==> !root_for(old_nodes[#[trigger] old_roots[m] as int], collections@[j]))
                            implies roots@[j] == old_roots[k] by {
                            if j == i {
                                assert(forall|cc: int| 0 <= cc < i ==> !root_for(old_nodes[#[trigger] old_roots[k] as int], collections@[cc]));
                                assert(kept_before.contains(old_roots[k]));
                                let x = choose|x: int| 0 <= x < kept_before.len() && kept_before[x] == old_roots[k];
                                assert(!root_for(nodes_before[kept_before[x] as int], *c));
                                assert(root_for(nodes_before[kept_before[x] as int], *c) == root_for(old_nodes[kept_before[x] as int], *c));
                                assert(false);
                            } else {
                                assert(roots@[j] == roots_before[j]);
                            }
                        }
                    }
                },
            }
            i += 1;
        }
        self.roots = roots;
        self.clamp_selection();
    }
}

/// Whether reading a node again can find something new: a collection, a
/// directory, a Postman collection or a spec.
pub open spec fn rereadable(kind: NodeKind) -> bool {
    kind is Root || kind is Dir || kind is Collection || kind is Spec
}

/// The parent slot the first row for `slot` records.
pub open spec fn parent_slot(rows: Seq<(usize, nat, Option<usize>)>, slot: usize) -> Option<usize> {
    match first_with_slot(rows, slot, 0) {
        Some(k) => rows[k].2,
        None => None,
    }
}

/// From `slot` up through its parents, the collection's row it is in.
pub open spec fn top_slot(rows: Seq<(usize, nat, Option<usize>)>, slot: usize) -> usize
    decreases slot,
{
    match parent_slot(rows, slot) {
        Some(p) => if p < slot {
            top_slot(rows, p)
        } else {
            slot
        },
        None => slot,
    }
}

/// From `slot` up through its parents, the first node that can be read
/// again.
pub open spec fn reread_slot(rows: Seq<(usize, nat, Option<usize>)>, nodes: Seq<Node>, slot: usize) -> Option<usize>
    decreases slot,
{
    if slot < nodes.len() && rereadable(nodes[slot as int].kind) {
        Some(slot)
    } else {
        match parent_slot(rows, slot) {
            Some(p) => if p < slot {
                reread_slot(rows, nodes, p)
            } else {
                None
            },
            None => None,
        }
    }
}

/// The name a node that can be read again goes by.
pub open spec fn reread_name(kind: NodeKind) -> Option<Seq<char>> {
    match kind {
        NodeKind::Root { name, .. } => Some(name@),
        NodeKind::Dir { name, .. } => Some(name@),
        NodeKind::Collection { name, .. } => Some(name@),
        NodeKind::Spec { name, .. } => Some(name@),
        _ => None,
    }
}

impl Tree {
    /// The collections, as rows not read yet. [`Tree::first_open`] names
    /// the ones to open straight away.
    pub fn new(collections: &[Collection]) -> (r: Tree)
        ensures
            r.wf(),
            r.roots@.len() == collections@.len(),
            r.selected == 0,
            r.offset == 0,
            forall|j: int| 0 <= j < collections@.len() ==> {
                let node = r.nodes@[#[trigger] r.roots@[j] as int];
                &&& node.kind == (NodeKind::Root {
                    name: node.kind->Root_name,
                    path: node.kind->Root_path,
                    source: collections@[j].source,
                })
                &&& node.kind->Root_name@ == collections@[j].name@
                &&& node.kind->Root_path@ == collections@[j].path@
                &&& node.state == LoadState::Pending
                &&& !node.expanded
            },
    {
        let mut tree = Tree { nodes: Vec::new(), roots: Vec::new(), next_id: 0, selected: 0, offset: 0 };
        assert(tree.roots@.no_duplicates());
        tree.sync(collections);
        tree
    }

    /// The collections to open straight away: the project's, those named on
    /// the command line, or the only one there is. The rest wait to be
    /// opened, so a long list of your own stays a list.
    pub fn first_open(&self) -> (r: Vec<NodeId>)
        requires
            self.wf(),
        ensures
            r@ == self.roots@.filter(|slot: usize| starts_open(self.nodes@[slot as int], self.roots@.len() == 1))
                .map_values(|slot: usize| self.nodes@[slot as int].id),
    {
        let only = self.roots.len() == 1;
        let ghost keep = |slot: usize| starts_open(self.nodes@[slot as int], self.roots@.len() == 1);
        let mut out: Vec<NodeId> = Vec::new();
        let mut k: usize = 0;
        while k < self.roots.len()
            invariant
                self.wf(),
                k <= self.roots@.len(),
                only == (self.roots@.len() == 1),
                keep == (|slot: usize| starts_open(self.nodes@[slot as int], self.roots@.len() == 1)),
                out@ == self.roots@.take(k as int).filter(keep).map_values(|slot: usize| self.nodes@[slot as int].id),
            decreases self.roots@.len() - k,
        {
            let slot = self.roots[k];
            let opens = only || match &self.nodes[slot].kind {
                NodeKind::Root { source, .. } => *source == Source::Project || *source == Source::Argument,
                _ => false,
            };
            proof {
                let t = self.roots@.take(k + 1);
                assert(t.drop_last() =~= self.roots@.take(k as int));
                assert(t.last() == slot);
                reveal(Seq::filter);
                assert(t.filter(keep) == if keep(slot) { self.roots@.take(k as int).filter(keep).push(slot) } else { self.roots@.take(k as int).filter(keep) });
                assert(opens == keep(slot));
            }
            if opens {
                let ghost before = out@;
                out.push(self.nodes[slot].id);
                assert(out@ =~= before.push(self.nodes@[slot as int].id));
                assert(self.roots@.take(k + 1).filter(keep).map_values(|slot: usize| self.nodes@[slot as int].id)
                    =~= self.roots@.take(k as int).filter(keep).map_values(|slot: usize| self.nodes@[slot as int].id).push(self.nodes@[slot as int].id));
            }
            k += 1;
        }
        assert(self.roots@.take(self.roots@.len() as int) =~= self.roots@);
        out
    }

    /// The first root that is a collection called `name`.
    fn root_slot(&self, name: &str) -> (r: Option<usize>)
        requires
            self.wf(),
        ensures
            r == root_named(self.nodes@, self.roots@, name@, 0),
            r matches Some(slot) ==> slot < self.nodes@.len(),
    {
        let mut k: usize = 0;
        while k < self.roots.len()
            invariant
                self.wf(),
                k <= self.roots@.len(),
                root_named(self.nodes@, self.roots@, name@, k as int) == root_named(self.nodes@, self.roots@, name@, 0),
            decreases self.roots@.len() - k,
        {
            let slot = self.roots[k];
            let named = match &self.nodes[slot].kind {
                NodeKind::Root { name: held, .. } => crate::text::same(&crate::text::chars_of(held.as_str()), &crate::text::chars_of(name)),
                _ => false,
            };
            if named {
                return Some(slot);
            }
            k += 1;
        }
        None
    }

    /// Selects a collection's row and opens it. When it has not been read
    /// yet, answers its id: the front end reads it and hands what it read
    /// to [`Tree::load`].
    pub fn select_root(&mut self, name: &str) -> (to_read: Option<NodeId>)
        requires
            old(self).wf(),
        ensures
            final(self).wf(),
            final(self).roots == old(self).roots,
            final(self).offset == old(self).offset,
            match root_named(old(self).nodes@, old(self).roots@, name@, 0) {
                None => final(self).nodes == old(self).nodes && final(self).selected == old(self).selected && to_read is None,
                Some(slot) => {
                    let node = old(self).nodes@[slot as int];
                    &&& final(self).nodes@ == if node.expanded { old(self).nodes@ } else { toggled(old(self).nodes@, slot as int) }
                    &&& to_read == if !node.expanded && needs_reading(old(self).nodes@, slot as int) { Some(node.id) } else { None }
                    &&& final(self).selected == match first_visible(final(self).visible_view(), node.id, 0) {
                        Some(v) => v,
                        None => old(self).selected as int,
                    }
                },
            },
    {
        let slot = match self.root_slot(name) {
            Some(slot) => slot,
            None => return None,
        };
        let id = self.nodes[slot].id;
        let needs_read = if !self.nodes[slot].expanded { self.toggle_slot(slot) } else { false };
        self.select_id(id);
        if needs_read {
            Some(id)
        } else {
            None
        }
    }
}

impl Tree {
    /// The parent the first row for `slot` records.
    fn parent_slot_in(&self, rows: &Vec<Row>, slot: usize) -> (r: Option<usize>)
        requires
            self.wf(),
            row_views(rows@) == self.all_rows(),
        ensures
            r == parent_slot(self.all_rows(), slot),
            r matches Some(p) ==> p < slot,
    {
        let ghost all = self.all_rows();
        let n = self.nodes.len();
        proof {
            lemma_walk_list(self.nodes@, self.roots@, -1, 0, None, true);
        }
        let mut k: usize = 0;
        while k < rows.len()
            invariant
                k <= rows@.len(),
                row_views(rows@) == all,
                all == self.all_rows(),
                forall|j: int| 0 <= j < all.len() ==> ((#[trigger] all[j]).2 matches Some(p) ==> p < all[j].0),
                first_with_slot(all, slot, k as int) == first_with_slot(all, slot, 0),
            decreases rows@.len() - k,
        {
            let (at, _, parent) = rows[k];
            assert(all[k as int] == (at, all[k as int].1, parent));
            if at == slot {
                return parent;
            }
            k += 1;
        }
        None
    }

    /// The selected row's slot.
    fn selected_slot_exec(&self, shown: &Vec<Row>) -> (r: Option<usize>)
        requires
            self.wf(),
            row_views(shown@) == self.shown_rows(),
        ensures
            r == self.selected_slot(),
            r matches Some(s) ==> s < self.nodes@.len(),
    {
        let n = self.nodes.len();
        proof {
            lemma_walk_list(self.nodes@, self.roots@, -1, 0, None, false);
        }
        if self.selected < shown.len() {
            assert(self.shown_rows()[self.selected as int].0 == shown@[self.selected as int].0);
            Some(shown[self.selected].0)
        } else {
            None
        }
    }

    /// The name of the collection the selected row is in.
    pub fn selected_collection(&self) -> (r: Option<&str>)
        requires
            self.wf(),
        ensures
            match self.selected_slot() {
                None => r is None,
                Some(slot) => match self.arena()[top_slot(self.all_rows(), slot) as int].kind {
                    NodeKind::Root { name, .. } => r matches Some(n) && n@ == name@,
                    _ => r is None,
                },
            },
    {
        let all = self.rows(true);
        let shown = self.rows(false);
        let mut slot = match self.selected_slot_exec(&shown) {
            Some(slot) => slot,
            None => return None,
        };
        let ghost start = slot;
        loop
            invariant
                self.wf(),
                row_views(all@) == self.all_rows(),
                slot < self.nodes@.len(),
                self.selected_slot() == Some(start),
                top_slot(self.all_rows(), slot) == top_slot(self.all_rows(), start),
            ensures
                parent_slot(self.all_rows(), slot) is None,
                slot < self.nodes@.len(),
                top_slot(self.all_rows(), slot) == top_slot(self.all_rows(), start),
                self.selected_slot() == Some(start),
            decreases slot,
        {
            match self.parent_slot_in(&all, slot) {
                Some(parent) => {
                    slot = parent;
                },
                None => break,
            }
        }
        match &self.nodes[slot].kind {
            NodeKind::Root { name, .. } => Some(name.as_str()),
            _ => None,
        }
    }

    /// The node to read again for the selected row: the row itself when it
    /// is a collection, a directory, a Postman collection or a spec, or else
    /// what it sits in, since that is where a new file would appear.
    /// Nothing when nothing is selected. The front end reads it and hands
    /// what it read to [`Tree::reloaded`].
    pub fn reload_selected(&self) -> (r: Option<NodeId>)
        requires
            self.wf(),
        ensures
            match self.selected_slot() {
                None => r is None,
                Some(slot) => match reread_slot(self.all_rows(), self.arena(), slot) {
                    Some(target) => r == Some(self.arena()[target as int].id),
                    None => r is None,
                },
            },
    {
        let all = self.rows(true);
        let shown = self.rows(false);
        let mut slot = match self.selected_slot_exec(&shown) {
            Some(slot) => slot,
            None => return None,
        };
        let ghost start = slot;
        loop
            invariant
                self.wf(),
                row_views(all@) == self.all_rows(),
                slot < self.nodes@.len(),
                self.selected_slot() == Some(start),
                reread_slot(self.all_rows(), self.nodes@, slot) == reread_slot(self.all_rows(), self.nodes@, start),
            decreases slot,
        {
            let readable = match &self.nodes[slot].kind {
                NodeKind::Root { .. } | NodeKind::Dir { .. } | NodeKind::Collection { .. } | NodeKind::Spec { .. } => true,
                _ => false,
            };
            if readable {
                return Some(self.nodes[slot].id);
            }
            match self.parent_slot_in(&all, slot) {
                Some(parent) => {
                    slot = parent;
                },
                None => return None,
            }
        }
    }

    /// Files what was read again under the node with `id`, as
    /// [`Tree::load`] does, keeps the selection on a row that is there, and
    /// says what was read.
    pub fn reloaded(&mut self, id: NodeId, contents: Contents) -> (r: Option<String>)
        requires
            old(self).wf(),
        ensures
            final(self).wf(),
            final(self).roots == old(self).roots,
            final(self).offset == old(self).offset,
            loaded(*old(self), *final(self), id, contents),
            final(self).selected == if old(self).selected < final(self).visible_view().len() {
                old(self).selected as int
            } else if final(self).visible_view().len() > 0 {
                final(self).visible_view().len() - 1
            } else {
                0
            },
            match slot_of(*old(self), id) {
                Some(slot) => match (r, reread_name(old(self).arena()[slot as int].kind)) {
                    (Some(name), Some(expected)) => name@ == expected,
                    (None, None) => true,
                    _ => false,
                },
                None => r is None,
            },
    {
        let rows = self.rows(true);
        let slot = self.slot_with_id(&rows, id);
        self.load(id, contents);
        self.clamp_selection();
        match slot {
            Some(slot) => match &self.nodes[slot].kind {
                NodeKind::Root { name, .. } | NodeKind::Dir { name, .. } | NodeKind::Collection { name, .. }
                | NodeKind::Spec { name, .. } => Some(name.clone()),
                _ => None,
            },
            None => None,
        }
    }
}

/// The text of each string.
pub open spec fn text_views(v: Seq<String>) -> Seq<Seq<char>> {
    v.map_values(|s: String| s@)
}

/// A directory's node read again: each node of what was read, except that
/// a directory that was already there is kept as it was, open, with its
/// children.
pub open spec fn merged_ok(nodes: Seq<Node>, kept: Seq<usize>, fresh: Seq<usize>, merged: Seq<usize>) -> bool {
    &&& merged.len() == fresh.len()
    &&& forall|k: int| 0 <= k < fresh.len() ==> {
        ||| #[trigger] merged[k] == fresh[k]
        ||| (kept.contains(merged[k]) && nodes[merged[k] as int].kind is Dir && nodes[fresh[k] as int].kind is Dir
            && same_path(nodes[merged[k] as int].kind->Dir_path@, nodes[fresh[k] as int].kind->Dir_path@))
    }
    &&& forall|k: int| 0 <= k < fresh.len() && !(nodes[fresh[k] as int].kind is Dir) ==> #[trigger] merged[k] == fresh[k]
}

/// The collection row a path lies under, the deepest of them, and the
/// directories from it down to the one that holds the path.
pub open spec fn reveal_dirs(root: Seq<char>, relative: Seq<Seq<char>>) -> Seq<Seq<char>>
    decreases relative.len(),
{
    if relative.len() == 0 {
        seq![root]
    } else {
        let above = reveal_dirs(root, relative.drop_last());
        above.push(joined_path(above.last(), relative.last()))
    }
}

/// Whether a node is the directory at `path`.
pub open spec fn dir_at(kind: NodeKind, path: Seq<char>) -> bool {
    kind is Dir && same_path(kind->Dir_path@, path)
}

/// Whether a node is the request file at `path`.
pub open spec fn file_at(kind: NodeKind, path: Seq<char>) -> bool {
    kind is File && same_path(kind->File_path@, path)
}

impl Tree {
    /// A directory as just read, with each subdirectory that was already
    /// there kept as it was, so reading it again adds what is new without
    /// closing everything under it.
    /// Where among `kept` a directory at `path` is.
    fn kept_dir(&self, kept: &Vec<usize>, path: &str) -> (r: Option<usize>)
        requires
            forall|k: int| 0 <= k < kept@.len() ==> #[trigger] kept@[k] < self.nodes@.len(),
        ensures
            r matches Some(j) ==> j < kept@.len() && self.nodes@[kept@[j as int] as int].kind is Dir
                && same_path(self.nodes@[kept@[j as int] as int].kind->Dir_path@, path@),
            forall|k: int| 0 <= k < kept@.len() && (r matches Some(j) ==> k < j)
                ==> !dir_at(self.nodes@[#[trigger] kept@[k] as int].kind, path@),
    {
        let mut j: usize = 0;
        while j < kept.len()
            invariant
                j <= kept@.len(),
                forall|k: int| 0 <= k < kept@.len() ==> #[trigger] kept@[k] < self.nodes@.len(),
                forall|k: int| 0 <= k < j ==> !dir_at(self.nodes@[#[trigger] kept@[k] as int].kind, path@),
            decreases kept@.len() - j,
        {
            match &self.nodes[kept[j]].kind {
                NodeKind::Dir { path: old, .. } => {
                    if paths_equal(old.as_str(), path) {
                        return Some(j);
                    }
                },
                _ => {},
            }
            j += 1;
        }
        None
    }

    fn merge(&self, kept: Vec<usize>, fresh: &Vec<usize>) -> (r: Vec<usize>)
        requires
            forall|k: int| 0 <= k < kept@.len() ==> #[trigger] kept@[k] < self.nodes@.len(),
            forall|k: int| 0 <= k < fresh@.len() ==> #[trigger] fresh@[k] < self.nodes@.len(),
        ensures
            merged_ok(self.nodes@, kept@, fresh@, r@),
    {
        let ghost original = kept@;
        let mut kept = kept;
        let mut out: Vec<usize> = Vec::new();
        let mut i: usize = 0;
        while i < fresh.len()
            invariant
                i <= fresh@.len(),
                out@.len() == i,
                forall|k: int| 0 <= k < kept@.len() ==> #[trigger] kept@[k] < self.nodes@.len(),
                forall|k: int| 0 <= k < kept@.len() ==> original.contains(#[trigger] kept@[k]),
                forall|k: int| 0 <= k < fresh@.len() ==> #[trigger] fresh@[k] < self.nodes@.len(),
                merged_ok(self.nodes@, original, fresh@.take(i as int), out@),
            decreases fresh@.len() - i,
        {
            let slot = fresh[i];
            let mut chosen = slot;
            match &self.nodes[slot].kind {
                NodeKind::Dir { path, .. } => {
                    match self.kept_dir(&kept, path.as_str()) {
                        Some(j) => {
                            proof {
                                assert(original.contains(kept@[j as int]));
                            }
                            chosen = kept.swap_remove(j);
                        },
                        None => {},
                    }
                },
                _ => {},
            }
            let ghost before = out@;
            out.push(chosen);
            proof {
                assert(fresh@.take(i + 1) =~= fresh@.take(i as int).push(slot));
                assert forall|k: int| 0 <= k < kept@.len() implies original.contains(#[trigger] kept@[k]) by {}
                assert forall|k: int| 0 <= k < i + 1 implies {
                    ||| #[trigger] out@[k] == fresh@.take(i + 1)[k]
                    ||| (original.contains(out@[k]) && self.nodes@[out@[k] as int].kind is Dir && self.nodes@[fresh@.take(i + 1)[k] as int].kind is Dir
                        && same_path(self.nodes@[out@[k] as int].kind->Dir_path@, self.nodes@[fresh@.take(i + 1)[k] as int].kind->Dir_path@))
                } by {
                    if k < i {
                        assert(out@[k] == before[k]);
                        assert(fresh@.take(i + 1)[k] == fresh@.take(i as int)[k]);
                    }
                }
            }
            i += 1;
        }
        assert(fresh@.take(fresh@.len() as int) =~= fresh@);
        out
    }
}

impl Tree {
    /// Whether the collection row at `slot` holds `path`, and no collection
    /// row that holds it lies deeper.
    pub open spec fn deepest(&self, slot: usize, path: Seq<char>) -> bool {
        let root = self.nodes@[slot as int].kind->Root_path@;
        &&& self.roots@.contains(slot)
        &&& slot < self.nodes@.len()
        &&& self.nodes@[slot as int].kind is Root
        &&& path_under(root, path) is Some
        &&& forall|k: int| 0 <= k < self.roots@.len() && (#[trigger] self.nodes@[self.roots@[k] as int]).kind is Root
            && path_under(self.nodes@[self.roots@[k] as int].kind->Root_path@, path) is Some
            ==> components_of(self.nodes@[self.roots@[k] as int].kind->Root_path@).len() <= components_of(root).len()
    }

    /// Whether revealing `path` reads again under the collection row at
    /// `slot`, the deepest row the path lies under, with `id`, down through
    /// `dirs`.
    pub open spec fn plans(&self, slot: usize, path: Seq<char>, id: NodeId, dirs: Seq<Seq<char>>) -> bool {
        let root = self.nodes@[slot as int].kind->Root_path@;
        &&& self.deepest(slot, path)
        &&& id == self.nodes@[slot as int].id
        &&& parent_path(path) matches Some(parent)
        &&& path_under(root, parent) matches Some(rest)
        &&& dirs == reveal_dirs(root, components_of(rest))
    }

    /// Reads a directory under the node at `slot` again and opens it,
    /// keeping what was open under it.
    fn refresh(&mut self, slot: usize, contents: Contents)
        requires
            old(self).wf(),
            slot < old(self).nodes@.len(),
        ensures
            final(self).wf(),
            final(self).roots == old(self).roots,
            final(self).selected == old(self).selected,
            final(self).offset == old(self).offset,
            old(self).nodes@.len() <= final(self).nodes@.len(),
            forall|j: int| 0 <= j < old(self).nodes@.len() && j != slot ==> #[trigger] final(self).nodes@[j] == old(self).nodes@[j],
            final(self).nodes@[slot as int].id == old(self).nodes@[slot as int].id,
            final(self).nodes@[slot as int].kind == old(self).nodes@[slot as int].kind,
            final(self).nodes@[slot as int].state == LoadState::Loaded,
            final(self).nodes@[slot as int].expanded,
    {
        let kept = copy_positions(&self.nodes[slot].children);
        let ghost start = self.nodes@;
        let fresh = self.build(contents);
        proof {
            assert forall|k: int| 0 <= k < kept@.len() implies #[trigger] kept@[k] < self.nodes@.len() && slot < kept@[k] by {
                assert(kept@[k] == start[slot as int].children@[k]);
            }
        }
        let merged = self.merge(kept, &fresh);
        let ghost built = self.nodes@;
        proof {
            assert forall|k: int| 0 <= k < merged@.len() implies slot < #[trigger] merged@[k] < self.nodes@.len() by {
                if merged@[k] != fresh@[k] {
                    let x = choose|x: int| 0 <= x < kept@.len() && kept@[x] == merged@[k];
                    assert(kept@[x] < self.nodes@.len() && slot < kept@[x]);
                }
            }
            lemma_kept(built, start, slot as int);
        }
        self.fill(slot, merged);
        proof {
            assert forall|j: int| 0 <= j < start.len() && j != slot implies #[trigger] self.nodes@[j] == start[j] by {
                lemma_kept(built, start, j);
            }
        }
    }

    /// The collection a path lies under, the deepest of those it does, and
    /// the directories from there down to the one that holds the path: what
    /// to read again to show a file just written, for [`Tree::reveal_file`]. Nothing when no
    /// collection holds it.
    pub fn reveal_plan(&self, path: &str) -> (r: Option<(NodeId, Vec<String>)>)
        requires
            self.wf(),
        ensures
            match r {
                Some((id, dirs)) => exists|slot: usize| #[trigger] self.plans(slot, path@, id, text_views(dirs@)),
                None => {
                    ||| forall|k: int| 0 <= k < self.roots@.len() && (#[trigger] self.nodes@[self.roots@[k] as int]).kind is Root
                        ==> path_under(self.nodes@[self.roots@[k] as int].kind->Root_path@, path@) is None
                    ||| parent_path(path@) is None
                    ||| exists|slot: usize| #[trigger] self.deepest(slot, path@) && (parent_path(path@) matches Some(parent)
                        && path_under(self.nodes@[slot as int].kind->Root_path@, parent) is None)
                },
            },
    {
        let mut best: Option<(usize, usize)> = None;
        let mut k: usize = 0;
        while k < self.roots.len()
            invariant
                self.wf(),
                k <= self.roots@.len(),
                best matches Some((slot, count)) ==> {
                    &&& self.roots@.contains(slot)
                    &&& self.nodes@[slot as int].kind is Root
                    &&& path_under(self.nodes@[slot as int].kind->Root_path@, path@) is Some
                    &&& count == components_of(self.nodes@[slot as int].kind->Root_path@).len()
                    &&& forall|j: int| 0 <= j < k && (#[trigger] self.nodes@[self.roots@[j] as int]).kind is Root
                        && path_under(self.nodes@[self.roots@[j] as int].kind->Root_path@, path@) is Some
                        ==> components_of(self.nodes@[self.roots@[j] as int].kind->Root_path@).len() <= count
                },
                best is None ==> forall|j: int| 0 <= j < k && (#[trigger] self.nodes@[self.roots@[j] as int]).kind is Root
                    ==> path_under(self.nodes@[self.roots@[j] as int].kind->Root_path@, path@) is None,
            decreases self.roots@.len() - k,
        {
            let slot = self.roots[k];
            match &self.nodes[slot].kind {
                NodeKind::Root { path: root, .. } => {
                    if strip_root(root.as_str(), path).is_some() {
                        let count = path_components(root.as_str()).len();
                        let better = match best {
                            Some((_, most)) => count >= most,
                            None => true,
                        };
                        if better {
                            best = Some((slot, count));
                        }
                    }
                },
                _ => {},
            }
            k += 1;
        }
        let slot = match best {
            Some((slot, _)) => slot,
            None => return None,
        };
        let root = match &self.nodes[slot].kind {
            NodeKind::Root { path: root, .. } => root.clone(),
            _ => return None,
        };
        let parent = match parent_of(path) {
            Some(parent) => parent,
            None => return None,
        };
        assert(self.deepest(slot, path@));
        let rest = match strip_root(root.as_str(), parent.as_str()) {
            Some(rest) => rest,
            None => return None,
        };
        let components = path_components(rest.as_str());
        let ghost comps = components_of(rest@);
        let mut dirs: Vec<String> = Vec::new();
        dirs.push(root.clone());
        let mut i: usize = 0;
        assert(comps.take(0) =~= Seq::<Seq<char>>::empty());
        while i < components.len()
            invariant
                i <= components@.len(),
                components@.map_values(|c: String| c@) == comps,
                text_views(dirs@) == reveal_dirs(root@, comps.take(i as int)),
                dirs@.len() == i + 1,
            decreases components@.len() - i,
        {
            let last = dirs[dirs.len() - 1].clone();
            let next = join_path(last.as_str(), components[i].as_str());
            let ghost before = text_views(dirs@);
            dirs.push(next);
            proof {
                assert(comps.take(i + 1).drop_last() =~= comps.take(i as int));
                assert(comps.take(i + 1).last() == components@[i as int]@);
                assert(before.last() == last@);
                assert(text_views(dirs@) =~= before.push(next@));
            }
            i += 1;
        }
        assert(comps.take(components@.len() as int) =~= comps);
        assert(self.roots@.contains(slot));
        assert(self.nodes@[slot as int].kind is Root);
        assert(path_under(root@, path@) is Some);
        assert(parent_path(path@) == Some(parent@));
        assert(path_under(root@, parent@) == Some(rest@));
        assert(text_views(dirs@) == reveal_dirs(root@, components_of(rest@)));
        let id = self.nodes[slot].id;
        assert(self.plans(slot, path@, id, text_views(dirs@)));
        let ghost dv = dirs@;
        let result = Some((id, dirs));
        assert(result matches Some((i, d)) && i == id && d@ == dv);
        result
    }

    /// The child of the node at `slot` that is a directory at `dir`.
    fn child_dir(&self, slot: usize, dir: &str) -> (r: Option<usize>)
        requires
            self.wf(),
            slot < self.nodes@.len(),
        ensures
            r matches Some(child) ==> self.nodes@[slot as int].children@.contains(child) && slot < child < self.nodes@.len()
                && dir_at(self.nodes@[child as int].kind, dir@)
                && exists|k: int| 0 <= k < self.nodes@[slot as int].children@.len()
                    && #[trigger] self.nodes@[slot as int].children@[k] == child
                    && forall|j: int| 0 <= j < k
                        ==> !dir_at(self.nodes@[#[trigger] self.nodes@[slot as int].children@[j] as int].kind, dir@),
            r is None ==> forall|k: int| 0 <= k < self.nodes@[slot as int].children@.len()
                ==> !dir_at(self.nodes@[#[trigger] self.nodes@[slot as int].children@[k] as int].kind, dir@),
    {
        let mut k: usize = 0;
        while k < self.nodes[slot].children.len()
            invariant
                self.wf(),
                slot < self.nodes@.len(),
                k <= self.nodes@[slot as int].children@.len(),
                forall|j: int| 0 <= j < k
                    ==> !dir_at(self.nodes@[#[trigger] self.nodes@[slot as int].children@[j] as int].kind, dir@),
            decreases self.nodes@[slot as int].children@.len() - k,
        {
            let child = self.nodes[slot].children[k];
            match &self.nodes[child].kind {
                NodeKind::Dir { path, .. } => {
                    if paths_equal(path.as_str(), dir) {
                        return Some(child);
                    }
                },
                _ => {},
            }
            k += 1;
        }
        None
    }

    /// The child of the node at `slot` that is the request file at `file`.
    fn child_file(&self, slot: usize, file: &str) -> (r: Option<NodeId>)
        requires
            self.wf(),
            slot < self.nodes@.len(),
        ensures
            r matches Some(id) ==> exists|k: int| 0 <= k < self.nodes@[slot as int].children@.len()
                && #[trigger] self.nodes@[self.nodes@[slot as int].children@[k] as int].id == id
                && self.nodes@[self.nodes@[slot as int].children@[k] as int].kind is File
                && same_path(self.nodes@[self.nodes@[slot as int].children@[k] as int].kind->File_path@, file@)
                && forall|j: int| 0 <= j < k
                    ==> !file_at(self.nodes@[#[trigger] self.nodes@[slot as int].children@[j] as int].kind, file@),
            r is None ==> forall|k: int| 0 <= k < self.nodes@[slot as int].children@.len()
                ==> !file_at(self.nodes@[#[trigger] self.nodes@[slot as int].children@[k] as int].kind, file@),
    {
        let mut k: usize = 0;
        while k < self.nodes[slot].children.len()
            invariant
                self.wf(),
                slot < self.nodes@.len(),
                k <= self.nodes@[slot as int].children@.len(),
                forall|j: int| 0 <= j < k
                    ==> !file_at(self.nodes@[#[trigger] self.nodes@[slot as int].children@[j] as int].kind, file@),
            decreases self.nodes@[slot as int].children@.len() - k,
        {
            let child = self.nodes[slot].children[k];
            match &self.nodes[child].kind {
                NodeKind::File { path, .. } => {
                    if paths_equal(path.as_str(), file) {
                        return Some(self.nodes[child].id);
                    }
                },
                _ => {},
            }
            k += 1;
        }
        None
    }

    /// Whether `chain` is a way down the tree that reveal opened: its first
    /// node, then one child after another, each the directory `dirs` names
    /// at its place, every one of them read and open.
    pub open spec fn walked(&self, chain: Seq<usize>, dirs: Seq<Seq<char>>) -> bool {
        &&& 1 <= chain.len() <= dirs.len()
        &&& forall|i: int| 0 <= i < chain.len() ==> (#[trigger] chain[i]) < self.nodes@.len()
            && self.nodes@[chain[i] as int].expanded && self.nodes@[chain[i] as int].state == LoadState::Loaded
        &&& forall|i: int| 0 <= i < chain.len() - 1 ==> self.nodes@[chain[i] as int].children@.contains(#[trigger] chain[i + 1])
            && dir_at(self.nodes@[chain[i + 1] as int].kind, dirs[i + 1])
    }

    /// Whether a child of the node at `slot` is the directory at `dir`.
    pub open spec fn has_dir_child(&self, slot: usize, dir: Seq<char>) -> bool {
        exists|k: int| 0 <= k < self.nodes@[slot as int].children@.len()
            && dir_at(self.nodes@[#[trigger] self.nodes@[slot as int].children@[k] as int].kind, dir)
    }

    /// Whether the node with `id` is a child of the node at `slot` and the
    /// request file at `file`.
    pub open spec fn file_child(&self, slot: usize, file: Seq<char>, id: NodeId) -> bool {
        exists|k: int| 0 <= k < self.nodes@[slot as int].children@.len()
            && #[trigger] self.nodes@[self.nodes@[slot as int].children@[k] as int].id == id
            && file_at(self.nodes@[self.nodes@[slot as int].children@[k] as int].kind, file)
    }

    /// Whether a child of the node at `slot` is the request file at `file`.
    pub open spec fn has_file_child(&self, slot: usize, file: Seq<char>) -> bool {
        exists|k: int| 0 <= k < self.nodes@[slot as int].children@.len()
            && file_at(self.nodes@[#[trigger] self.nodes@[slot as int].children@[k] as int].kind, file)
    }

    /// The rows of a way down from a collection row are all drawn: each
    /// node's walk lies within what the sidebar shows.
    proof fn lemma_chain_shown(&self, chain: Seq<usize>, m: int) -> (dp: (nat, Option<usize>))
        requires
            self.wf(),
            self.roots@.contains(chain[0]),
            0 <= m < chain.len(),
            forall|i: int| 0 <= i < chain.len() ==> (#[trigger] chain[i]) < self.nodes@.len()
                && self.nodes@[chain[i] as int].expanded,
            forall|i: int| 0 <= i < chain.len() - 1 ==> self.nodes@[chain[i] as int].children@.contains(#[trigger] chain[i + 1]),
        ensures
            forall|r: (usize, nat, Option<usize>)| walk_node(self.nodes@, chain[m] as int, dp.0, dp.1, false).contains(r)
                ==> #[trigger] self.shown_rows().contains(r),
        decreases m,
    {
        if m == 0 {
            let k = choose|k: int| 0 <= k < self.roots@.len() && self.roots@[k] == chain[0];
            lemma_list_holds(self.nodes@, self.roots@, -1, 0, None, false, k);
            (0, None)
        } else {
            let (d, p) = self.lemma_chain_shown(chain, m - 1);
            let up = chain[m - 1];
            let i = m - 1;
            assert(self.nodes@[chain[i] as int].children@.contains(chain[i + 1]));
            assert(chain[i + 1] == chain[m]);
            let k = choose|k: int| 0 <= k < self.nodes@[up as int].children@.len() && self.nodes@[up as int].children@[k] == chain[m];
            lemma_open_holds(self.nodes@, up as int, d, p, k);
            (d + 1, Some(up))
        }
    }

    /// Opens the directories down to a file just written and selects it.
    /// Each is read again on the way, from `listings`, what reading each of
    /// `dirs` from [`Tree::reveal_plan`] gave, since the file and maybe the
    /// directory were not there when it was last read; what was already
    /// open under each stays open.
    pub fn reveal_file(&mut self, path: &str, root: NodeId, dirs: &Vec<String>, listings: Vec<Contents>)
        requires
            old(self).wf(),
        ensures
            final(self).wf(),
            final(self).roots == old(self).roots,
            final(self).offset == old(self).offset,
            old(self).nodes@.len() <= final(self).nodes@.len(),
            final(self).selected == old(self).selected || (final(self).selection() matches Some(id)
                && exists|slot: int| 0 <= slot < final(self).nodes@.len() && (#[trigger] final(self).nodes@[slot]).id == id
                    && final(self).nodes@[slot].kind is File && same_path(final(self).nodes@[slot].kind->File_path@, path@)),
            (slot_of(*old(self), root) is None || dirs@.len() == 0 || listings@.len() == 0) ==> *final(self) == *old(self),
            match slot_of(*old(self), root) {
                Some(s) => dirs@.len() > 0 && listings@.len() > 0 ==> {
                    &&& s < final(self).nodes@.len()
                    &&& final(self).nodes@[s as int].id == old(self).nodes@[s as int].id
                    &&& final(self).nodes@[s as int].kind == old(self).nodes@[s as int].kind
                    &&& final(self).nodes@[s as int].state == LoadState::Loaded
                    &&& final(self).nodes@[s as int].expanded
                    &&& exists|chain: Seq<usize>| #[trigger] final(self).walked(chain, text_views(dirs@)) && chain[0] == s
                        && chain.len() <= listings@.len()
                        && (forall|j: int| 0 <= j < old(self).nodes@.len() && !chain.contains(j as usize)
                            ==> #[trigger] final(self).nodes@[j] == old(self).nodes@[j])
                        && (chain.len() < dirs@.len() && chain.len() < listings@.len()
                            ==> !final(self).has_dir_child(chain.last(), text_views(dirs@)[chain.len() as int]))
                        && ((chain.len() == dirs@.len() || chain.len() == listings@.len()) && old(self).roots@.contains(s)
                            && final(self).has_file_child(chain.last(), path@)
                            ==> (final(self).selection() matches Some(id) && final(self).file_child(chain.last(), path@, id)))
                },
                None => true,
            },
    {
        let rows = self.rows(true);
        let mut parent = match self.slot_with_id(&rows, root) {
            Some(slot) => slot,
            None => return,
        };
        if dirs.len() == 0 || listings.len() == 0 {
            return;
        }
        let ghost given = listings@.len();
        let ghost dv = text_views(dirs@);
        assert(slot_of(*old(self), root) == Some(parent));
        let mut rest = listings;
        let first = rest.remove(0);
        let ghost s = parent;
        let ghost start_node = self.nodes@[s as int];
        self.refresh(parent, first);
        let ghost mut chain: Seq<usize> = seq![parent];
        let mut k: usize = 1;
        assert(self.walked(chain, dv));
        assert forall|j: int| 0 <= j < old(self).nodes@.len() && !chain.contains(j as usize)
            implies #[trigger] self.nodes@[j] == old(self).nodes@[j] by {
            if j == s as int {
                assert(chain[0] == s);
            }
        }
        while k < dirs.len() && rest.len() > 0
            invariant
                self.wf(),
                self.roots == old(self).roots,
                self.offset == old(self).offset,
                self.selected == old(self).selected,
                old(self).nodes@.len() <= self.nodes@.len(),
                parent < self.nodes@.len(),
                s <= parent,
                slot_of(*old(self), root) == Some(s),
                dirs@.len() > 0,
                given > 0,
                given == listings@.len(),
                dv == text_views(dirs@),
                k <= dirs@.len(),
                rest@.len() + k == given,
                chain.len() == k,
                chain[0] == s,
                chain.last() == parent,
                forall|i: int| 0 <= i < chain.len() ==> #[trigger] chain[i] <= parent,
                self.walked(chain, dv),
                forall|j: int| 0 <= j < old(self).nodes@.len() && !chain.contains(j as usize)
                    ==> #[trigger] self.nodes@[j] == old(self).nodes@[j],
                start_node == old(self).nodes@[s as int],
                self.nodes@[s as int].id == start_node.id,
                self.nodes@[s as int].kind == start_node.kind,
                self.nodes@[s as int].state == LoadState::Loaded,
                self.nodes@[s as int].expanded,
            decreases dirs@.len() - k,
        {
            let child = match self.child_dir(parent, dirs[k].as_str()) {
                Some(child) => child,
                None => {
                    assert(dv[k as int] == dirs@[k as int]@);
                    assert(!self.has_dir_child(chain.last(), dv[chain.len() as int]));
                    assert(self.walked(chain, dv));
                    return;
                },
            };
            let contents = rest.remove(0);
            let ghost before = self.nodes@;
            self.refresh(child, contents);
            proof {
                assert(dv[k as int] == dirs@[k as int]@);
                let grown = chain.push(child);
                assert forall|i: int| 0 <= i < grown.len() implies (#[trigger] grown[i]) < self.nodes@.len()
                    && self.nodes@[grown[i] as int].expanded && self.nodes@[grown[i] as int].state == LoadState::Loaded by {
                    if i < chain.len() {
                        assert(grown[i] == chain[i]);
                        assert(chain[i] <= parent);
                        assert(self.nodes@[chain[i] as int] == before[chain[i] as int]);
                    }
                }
                assert forall|i: int| 0 <= i < grown.len() - 1 implies self.nodes@[grown[i] as int].children@.contains(#[trigger] grown[i + 1])
                    && dir_at(self.nodes@[grown[i + 1] as int].kind, dv[i + 1]) by {
                    assert(grown[i] == chain[i]);
                    assert(chain[i] <= parent);
                    assert(self.nodes@[chain[i] as int] == before[chain[i] as int]);
                    if i + 1 < chain.len() {
                        assert(grown[i + 1] == chain[i + 1]);
                        assert(chain[i + 1] <= parent);
                        assert(self.nodes@[chain[i + 1] as int] == before[chain[i + 1] as int]);
                    }
                }
                assert(self.walked(grown, dv));
                assert forall|j: int| 0 <= j < old(self).nodes@.len() && !grown.contains(j as usize)
                    implies #[trigger] self.nodes@[j] == old(self).nodes@[j] by {
                    assert(grown[chain.len() as int] == child);
                    if chain.contains(j as usize) {
                        let x = choose|x: int| 0 <= x < chain.len() && chain[x] == j as usize;
                        assert(grown[x] == chain[x]);
                    }
                    assert(j != child as int);
                    assert(self.nodes@[j] == before[j]);
                }
                chain = grown;
            }
            parent = child;
            k += 1;
        }
        assert(self.walked(chain, dv));
        match self.child_file(parent, path) {
            Some(id) => {
                let ghost before = *self;
                proof {
                    if old(self).roots@.contains(s) {
                        let (d, p) = self.lemma_chain_shown(chain, chain.len() - 1);
                        let c = choose|c: int| 0 <= c < self.nodes@[parent as int].children@.len()
                            && #[trigger] self.nodes@[self.nodes@[parent as int].children@[c] as int].id == id
                            && self.nodes@[self.nodes@[parent as int].children@[c] as int].kind is File
                            && same_path(self.nodes@[self.nodes@[parent as int].children@[c] as int].kind->File_path@, path@);
                        let f = self.nodes@[parent as int].children@[c];
                        lemma_open_holds(self.nodes@, parent as int, d, p, c);
                        let w = walk_node(self.nodes@, f as int, d + 1, Some(parent), false);
                        assert(w[0] == (f, d + 1, Some(parent)));
                        assert(w.contains((f, d + 1, Some(parent))));
                        assert(walk_node(self.nodes@, parent as int, d, p, false).contains((f, d + 1, Some(parent))));
                        assert(self.shown_rows().contains((f, d + 1, Some(parent))));
                        let j = choose|j: int| 0 <= j < self.shown_rows().len() && self.shown_rows()[j] == (f, d + 1, Some(parent));
                        assert(self.visible_view()[j].0 == id);
                        lemma_first_visible_found(self.visible_view(), id, 0, j);
                        assert(self.file_child(parent, path@, id));
                    }
                }
                self.select_id(id);
                proof {
                    if self.selected != before.selected {
                        let v = first_visible(before.visible_view(), id, 0);
                        lemma_first_visible(before.visible_view(), id, 0);
                    }
                    if old(self).roots@.contains(s) {
                        lemma_first_visible(before.visible_view(), id, 0);
                        assert(self.visible_view() == before.visible_view());
                    }
                    assert(self.walked(chain, dv));
                }
            },
            None => {
                assert(!self.has_file_child(parent, path@));
            },
        }
    }
}

/// A row with `id` at or after `from` means the first from there is found.
proof fn lemma_first_visible_found(rows: Seq<(NodeId, nat)>, id: NodeId, from: int, j: int)
    requires
        0 <= from <= j < rows.len(),
        rows[j].0 == id,
    ensures
        first_visible(rows, id, from) is Some,
    decreases j - from,
{
    if rows[from].0 != id {
        lemma_first_visible_found(rows, id, from + 1, j);
    }
}

/// Every row a listed node's walk gives is among the list's rows.
proof fn lemma_list_holds(nodes: Seq<Node>, list: Seq<usize>, above: int, depth: nat, parent: Option<usize>, all: bool, k: int)
    requires
        0 <= k < list.len(),
        above < list[k] < nodes.len(),
    ensures
        forall|r: (usize, nat, Option<usize>)| walk_node(nodes, list[k] as int, depth, parent, all).contains(r)
            ==> #[trigger] walk_list(nodes, list, above, depth, parent, all).contains(r),
    decreases list.len(),
{
    let before = walk_list(nodes, list.drop_last(), above, depth, parent, all);
    let whole = walk_list(nodes, list, above, depth, parent, all);
    if k == list.len() - 1 {
        let w = walk_node(nodes, list[k] as int, depth, parent, all);
        assert(whole == before + w);
        assert forall|r: (usize, nat, Option<usize>)| w.contains(r) implies #[trigger] whole.contains(r) by {
            let j = choose|j: int| 0 <= j < w.len() && w[j] == r;
            assert(whole[before.len() + j] == r);
        }
    } else {
        assert(list.drop_last()[k] == list[k]);
        lemma_list_holds(nodes, list.drop_last(), above, depth, parent, all, k);
        let c = list.last();
        let extra = if above < c && c < nodes.len() { walk_node(nodes, c as int, depth, parent, all) } else { Seq::empty() };
        assert(whole == before + extra);
        assert forall|r: (usize, nat, Option<usize>)| before.contains(r) implies #[trigger] whole.contains(r) by {
            let j = choose|j: int| 0 <= j < before.len() && before[j] == r;
            assert(whole[j] == r);
        }
    }
}

/// Under an open node, each child's rows are among the node's.
proof fn lemma_open_holds(nodes: Seq<Node>, i: int, depth: nat, parent: Option<usize>, k: int)
    requires
        0 <= i < nodes.len(),
        nodes[i].expanded,
        0 <= k < nodes[i].children@.len(),
        i < nodes[i].children@[k] < nodes.len(),
    ensures
        forall|r: (usize, nat, Option<usize>)| walk_node(nodes, nodes[i].children@[k] as int, depth + 1, Some(i as usize), false).contains(r)
            ==> #[trigger] walk_node(nodes, i, depth, parent, false).contains(r),
{
    let list = nodes[i].children@;
    lemma_list_holds(nodes, list, i, depth + 1, Some(i as usize), false, k);
    let rest = walk_list(nodes, list, i, depth + 1, Some(i as usize), false);
    let whole = walk_node(nodes, i, depth, parent, false);
    assert(whole == seq![(i as usize, depth, parent)] + rest);
    assert forall|r: (usize, nat, Option<usize>)| rest.contains(r) implies #[trigger] whole.contains(r) by {
        let j = choose|j: int| 0 <= j < rest.len() && rest[j] == r;
        assert(whole[j + 1] == r);
    }
}

proof fn lemma_first_visible(rows: Seq<(NodeId, nat)>, id: NodeId, from: int)
    requires
        0 <= from,
    ensures
        first_visible(rows, id, from) matches Some(k) ==> from <= k < rows.len() && rows[k].0 == id,
    decreases rows.len() - from,
{
    if from < rows.len() && rows[from].0 != id {
        lemma_first_visible(rows, id, from + 1);
    }
}

} // verus!

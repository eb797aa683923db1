use binman_core::app::tree::{Contents, NodeKind, Tree};
use binman_core::collection::{Entry, EntryKind};
use binman_core::formats::openapi::{Endpoint, Group};
use binman_core::formats::postman::{Collection as PostmanCollection, Info, Item, PostmanRequest, PostmanUrl, RequestField};
use binman_core::formats::Format;
use binman_core::source::Origin;
use binman_core::workspace::{Collection, Source};

fn collection_at(name: &str, path: &str, source: Source) -> Collection {
    Collection { name: name.into(), path: path.into(), source }
}

fn dir(name: &str, path: &str) -> (Entry, Option<String>) {
    (Entry { name: name.into(), path: path.into(), kind: EntryKind::Dir }, None)
}

fn file(name: &str, path: &str, method: &str) -> (Entry, Option<String>) {
    (
        Entry { name: name.into(), path: path.into(), kind: EntryKind::Request(Format::Http) },
        Some(method.into()),
    )
}

fn postman_entry(path: &str) -> (Entry, Option<String>) {
    (
        Entry { name: "api.postman_collection.json".into(), path: path.into(), kind: EntryKind::Postman },
        None,
    )
}

/// A collection root holding a directory of requests and a Postman export.
fn root_listing() -> Contents {
    Contents::Listing(vec![dir("users", "/c/users"), postman_entry("/c/api.postman_collection.json")])
}

fn users_listing() -> Contents {
    Contents::Listing(vec![file("list.http", "/c/users/list.http", "GET")])
}

fn auth_collection() -> PostmanCollection {
    PostmanCollection {
        info: Info { name: "api".into() },
        items: vec![0],
        nodes: vec![
            Item { name: "Auth".into(), request: None, items: vec![1] },
            Item {
                name: "Login".into(),
                request: Some(RequestField::Full(PostmanRequest {
                    method: "POST".into(),
                    url: PostmanUrl::Raw("https://x".into()),
                    header: Vec::new(),
                    body: None,
                })),
                items: Vec::new(),
            },
        ],
        variables: Vec::new(),
    }
}

/// Opens every node the tree asks to be read with what the scratch
/// directory holds.
fn open(tree: &mut Tree, id: binman_core::app::tree::NodeId, contents: Contents) {
    if tree.toggle(id) {
        tree.load(id, contents);
    }
}

/// A tree of the one collection, which starts open.
fn tree_of(path: &str, contents: Contents) -> Tree {
    let mut tree = Tree::new(&[collection_at("c", path, Source::User)]);
    let first = tree.first_open();
    assert_eq!(first.len(), 1);
    open(&mut tree, first[0], contents);
    tree
}

fn names(tree: &Tree) -> Vec<String> {
    tree.visible()
        .iter()
        .filter_map(|visible| tree.find(visible.id))
        .map(|node| match &node.kind {
            NodeKind::Root { name, .. }
            | NodeKind::Dir { name, .. }
            | NodeKind::File { name, .. }
            | NodeKind::Collection { name, .. }
            | NodeKind::Folder { name }
            | NodeKind::Item { name, .. }
            | NodeKind::Spec { name, .. }
            | NodeKind::Tag { name } => name.clone(),
            NodeKind::Operation { route, .. } => route.clone(),
            NodeKind::Note { text, .. } => text.clone(),
        })
        .collect()
}

#[test]
fn directories_load_as_they_are_opened() {
    let mut tree = tree_of("/c", root_listing());
    assert_eq!(names(&tree), vec!["c", "users", "api.postman_collection.json"]);

    let users = tree.visible()[1].id;
    assert!(tree.toggle(users), "a directory not read yet asks to be");
    tree.load(users, users_listing());
    assert_eq!(names(&tree), vec!["c", "users", "list.http", "api.postman_collection.json"]);
    assert!(tree.find(tree.visible()[2].id).unwrap().origin().is_some());
    assert!(!tree.toggle(users), "closing needs nothing read");
    assert_eq!(names(&tree), vec!["c", "users", "api.postman_collection.json"]);
    assert!(!tree.toggle(users), "opening again reads nothing");
    assert_eq!(names(&tree).len(), 4);
}

#[test]
fn a_collection_opens_with_its_folders_open() {
    let mut tree = tree_of("/c", root_listing());
    let collection = tree.visible()[2].id;
    open(
        &mut tree,
        collection,
        Contents::Postman { path: "/c/api.postman_collection.json".into(), collection: auth_collection() },
    );
    assert_eq!(names(&tree), vec!["c", "users", "api.postman_collection.json", "Auth", "Login"]);
    let login = tree.find(tree.visible()[4].id).unwrap();
    match &login.kind {
        NodeKind::Item { method, origin, .. } => {
            assert_eq!(method, "POST");
            assert_eq!(
                *origin,
                Origin::Postman { path: "/c/api.postman_collection.json".into(), item: vec![0, 0] }
            );
        }
        other => panic!("{other:?}"),
    }
}

#[test]
fn a_new_file_appears_when_its_directory_is_reloaded() {
    let mut tree = tree_of("/c", root_listing());
    let users = tree.visible()[1].id;
    open(&mut tree, users, users_listing());

    tree.selected = 2;
    let target = tree.reload_selected().expect("something to read");
    assert_eq!(target, users, "a request reloads the directory it sits in");
    let read = tree.reloaded(
        target,
        Contents::Listing(vec![
            file("create.http", "/c/users/create.http", "POST"),
            file("list.http", "/c/users/list.http", "GET"),
        ]),
    );
    assert_eq!(read.as_deref(), Some("users"));
    assert!(names(&tree).contains(&"create.http".to_string()));
}

#[test]
fn only_the_collections_you_came_for_start_open() {
    let mut tree = Tree::new(&[
        collection_at("api", "/c/users", Source::Project),
        collection_at("mine", "/c", Source::User),
    ]);
    let first = tree.first_open();
    assert_eq!(first, vec![tree.visible()[0].id]);
    open(&mut tree, first[0], users_listing());
    assert_eq!(names(&tree), vec!["api", "list.http", "mine"]);
}

#[test]
fn a_collection_that_is_one_file_holds_its_requests() {
    let mut tree = Tree::new(&[collection_at("c", "/c/api.postman_collection.json", Source::User)]);
    let first = tree.first_open();
    open(
        &mut tree,
        first[0],
        Contents::Postman { path: "/c/api.postman_collection.json".into(), collection: auth_collection() },
    );
    assert_eq!(names(&tree), vec!["c", "Auth", "Login"]);
}

#[test]
fn a_collection_that_is_not_there_says_so() {
    let mut tree = Tree::new(&[collection_at("c", "/c/gone", Source::User)]);
    let first = tree.first_open();
    open(&mut tree, first[0], Contents::Failed("/c/gone is not there".into()));
    let note = &names(&tree)[1];
    assert!(note.ends_with("is not there"), "{note}");
}

#[test]
fn a_new_list_of_collections_keeps_the_ones_still_there_as_they_were() {
    let mine = collection_at("mine", "/c", Source::User);
    let mut tree = tree_of("/c", root_listing());
    tree.sync(std::slice::from_ref(&mine));
    if let Some(id) = tree.select_root("mine") {
        tree.load(id, root_listing());
    }
    let users = tree.visible()[1].id;
    open(&mut tree, users, users_listing());

    tree.sync(&[collection_at("api", "/c/users", Source::Project), mine]);
    assert_eq!(
        names(&tree),
        vec!["api", "mine", "users", "list.http", "api.postman_collection.json"]
    );
}

#[test]
fn an_empty_directory_says_so_and_a_spec_lists_its_tags() {
    let mut tree = tree_of("/c", Contents::Listing(Vec::new()));
    assert_eq!(names(&tree), vec!["c", "(empty)"]);
    let mut tree2 = Tree::new(&[collection_at("s", "/c/openapi.yaml", Source::User)]);
    let first = tree2.first_open();
    open(
        &mut tree2,
        first[0],
        Contents::Spec {
            path: "/c/openapi.yaml".into(),
            groups: vec![Group {
                tag: "pets".into(),
                endpoints: vec![Endpoint { route: "/pets/{id}".into(), method: "GET".into(), summary: "".into() }],
            }],
        },
    );
    assert_eq!(names(&tree2), vec!["s", "pets", "/pets/{id}"]);
    tree.selected = 1;
    tree.collapse_or_parent();
    assert_eq!(tree.selected, 0, "a leaf steps to its parent");
    tree.collapse_or_parent();
    assert_eq!(names(&tree), vec!["c"], "an open node closes");
}

#[test]
fn the_selection_stays_among_the_rows() {
    let mut tree = tree_of("/c", root_listing());
    tree.move_selection(10);
    assert_eq!(tree.selected, 2);
    tree.move_selection(-10);
    assert_eq!(tree.selected, 0);
    tree.select_last();
    assert_eq!(tree.selected, 2);
    tree.select_first();
    assert_eq!(tree.selected, 0);
    assert_eq!(tree.selected_root(), Some("c"));
    tree.selected = 1;
    assert_eq!(tree.selected_collection(), Some("c"));
    assert_eq!(tree.selected_root(), None);
    let users = tree.visible()[1].id;
    assert_eq!(tree.parent_of(users), Some(tree.visible()[0].id));
}

#[test]
fn a_file_just_written_is_shown_and_selected() {
    let mut tree = tree_of("/c", root_listing());
    let (root, dirs) = tree.reveal_plan("/c/users/get.http").expect("under a collection");
    assert_eq!(dirs, vec!["/c".to_string(), "/c/users".to_string()]);
    tree.reveal_file(
        "/c/users/get.http",
        root,
        &dirs,
        vec![
            root_listing(),
            Contents::Listing(vec![
                file("get.http", "/c/users/get.http", "GET"),
                file("list.http", "/c/users/list.http", "GET"),
            ]),
        ],
    );
    assert_eq!(
        names(&tree),
        vec!["c", "users", "get.http", "list.http", "api.postman_collection.json"]
    );
    assert_eq!(tree.selected, 2);
    assert!(tree.reveal_plan("/elsewhere/x.http").is_none());
}

#[test]
fn the_deepest_collection_holding_a_file_is_the_one_read() {
    let tree = Tree::new(&[
        collection_at("outer", "/c", Source::User),
        collection_at("inner", "/c/users", Source::User),
    ]);
    let (root, dirs) = tree.reveal_plan("/c/users/a/b.http").expect("under a collection");
    assert_eq!(root, tree.visible()[1].id);
    assert_eq!(dirs, vec!["/c/users".to_string(), "/c/users/a".to_string()]);
}

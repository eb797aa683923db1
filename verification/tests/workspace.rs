use binman_core::workspace::{merged, Collection, Source};

fn collection(name: &str, path: &str, source: Source) -> Collection {
    Collection { name: name.to_string(), path: path.to_string(), source }
}

fn listed(collections: &[Collection]) -> Vec<(String, String, Source)> {
    collections.iter().map(|c| (c.name.clone(), c.path.clone(), c.source)).collect()
}

#[test]
fn a_project_joins_your_collections_rather_than_replacing_them() {
    let list = merged(&vec![
        collection("mine", "/home/me/mine", Source::User),
        collection("api", "/repo/requests", Source::Project),
    ]);
    assert_eq!(
        listed(&list),
        vec![
            ("api".to_string(), "/repo/requests".to_string(), Source::Project),
            ("mine".to_string(), "/home/me/mine".to_string(), Source::User),
        ]
    );
}

#[test]
fn the_project_wins_a_name_both_use() {
    let list = merged(&vec![
        collection("api", "/elsewhere", Source::User),
        collection("api", "/repo/requests", Source::Project),
    ]);
    assert_eq!(listed(&list), vec![("api".to_string(), "/repo/requests".to_string(), Source::Project)]);
}

#[test]
fn the_list_goes_by_name_whatever_the_case_and_ties_keep_their_order() {
    let list = merged(&vec![
        collection("zeta", "/z", Source::Config),
        collection("Beta", "/b1", Source::User),
        collection("alpha", "/a", Source::Project),
        collection("beta", "/b2", Source::Argument),
    ]);
    let names: Vec<String> = list.iter().map(|c| c.name.clone()).collect();
    assert_eq!(names, vec!["alpha", "Beta", "beta", "zeta"]);
}

#[test]
fn an_argument_listed_again_takes_its_own_place() {
    let list = merged(&vec![
        collection("mine", "/home/me/mine", Source::Config),
        collection("mine", "/tmp/mine", Source::Argument),
    ]);
    assert_eq!(listed(&list), vec![("mine".to_string(), "/tmp/mine".to_string(), Source::Argument)]);
}

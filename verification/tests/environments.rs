use binman_core::app::{stale_after, Tone};
use binman_core::env::{discover, EnvKind};
use binman_core::send::{choose_environment, root_for, unset_message, unset_names};
use binman_core::request::Request;
use binman_core::vars::{Scope, Vars};

fn files(names: &[&str], dir: &str) -> Vec<(String, String)> {
    names.iter().map(|n| (n.to_string(), format!("{dir}/{n}"))).collect()
}

#[test]
fn environments_come_dotenv_then_bruno_then_postman() {
    let levels = vec![
        files(&["b.postman_environment.json", ".env.staging", "x.http"], "/c/api"),
        files(&[".env", ".env.staging", "A.Postman_Environment.json", "b.postman_environment.json"], "/c"),
    ];
    let bruno = vec![
        Vec::new(),
        files(&["prod.bru", "dev.bru", "notes.txt"], "/c/environments"),
    ];
    let found: Vec<(String, String, EnvKind)> =
        discover(&levels, &bruno).into_iter().map(|e| (e.label, e.path, e.kind)).collect();
    assert_eq!(
        found,
        vec![
            ("staging".to_string(), "/c/api/.env.staging".to_string(), EnvKind::Dotenv),
            ("default".to_string(), "/c/.env".to_string(), EnvKind::Dotenv),
            ("dev".to_string(), "/c/environments/dev.bru".to_string(), EnvKind::Bruno),
            ("prod".to_string(), "/c/environments/prod.bru".to_string(), EnvKind::Bruno),
            ("b".to_string(), "/c/api/b.postman_environment.json".to_string(), EnvKind::Postman),
            ("A".to_string(), "/c/A.Postman_Environment.json".to_string(), EnvKind::Postman),
        ]
    );
}

#[test]
fn the_nearest_environments_directory_is_the_one() {
    let levels = vec![Vec::new(), Vec::new()];
    let bruno = vec![files(&["local.bru"], "/c/api/environments"), files(&["prod.bru"], "/c/environments")];
    let labels: Vec<String> = discover(&levels, &bruno).into_iter().map(|e| e.label).collect();
    assert_eq!(labels, vec!["local"]);
}

#[test]
fn an_environment_is_chosen_by_name_or_refused() {
    let levels = vec![files(&[".env", ".env.prod"], "/c")];
    let envs = discover(&levels, &Vec::new());
    assert_eq!(choose_environment(&envs, None, "r.http"), Ok(Some(0)));
    assert_eq!(choose_environment(&envs, Some("prod"), "r.http"), Ok(Some(1)));
    assert_eq!(
        choose_environment(&envs, Some("qa"), "r.http"),
        Err("There is no environment called qa above r.http — there is default, prod".to_string())
    );
    assert_eq!(
        choose_environment(&Vec::new(), Some("qa"), "r.http"),
        Err("There are no environments above r.http".to_string())
    );
    assert_eq!(choose_environment(&Vec::new(), None, "r.http"), Ok(None));
}

#[test]
fn unset_variables_stop_the_send_and_are_named() {
    let mut request = Request::default();
    request.url = "{{BASE}}/users/{{ID}}".into();
    request.headers.push(("Authorization".into(), "Bearer {{TOKEN}}".into()));
    request.body = "{\"id\": \"{{ID}}\"}".into();
    let mut environment = Vars::new();
    environment.insert("BASE".into(), "https://x".into());
    let empty = Vars::new();
    let scope = Scope {
        collection: &empty,
        environment: &environment,
        request: &empty,
        extracted: &empty,
        overrides: &empty,
    };
    let unset = unset_names(&request, &Vec::new(), &scope);
    assert_eq!(unset, vec!["ID", "TOKEN"]);
    assert_eq!(
        unset_message(&unset),
        "ID, TOKEN are not set — --env picks an environment, and --var NAME=VALUE gives a value"
    );
    assert_eq!(
        unset_message(&vec!["ID".to_string()]),
        "ID is not set — --env picks an environment, and --var NAME=VALUE gives a value"
    );
}

#[test]
fn a_file_outside_every_collection_looks_no_higher_than_its_directory() {
    let roots = vec!["/work/api".to_string(), "/work".to_string()];
    assert_eq!(root_for("/work/api/users/list.http", &roots), "/work/api");
    assert_eq!(root_for("/elsewhere/r.http", &roots), "/elsewhere");
}

#[test]
fn only_an_informational_message_fades_after_six_seconds() {
    assert!(!stale_after(Tone::Info, 6_000_000_000));
    assert!(stale_after(Tone::Info, 6_000_000_001));
    assert!(!stale_after(Tone::Error, 60_000_000_000));
}

use std::path::PathBuf;

use binman_core::send::Options;

fn args(list: &[&str]) -> Vec<String> {
    list.iter().map(|arg| arg.to_string()).collect()
}

#[test]
fn the_arguments_are_read_and_checked() {
    let options = Options::parse(args(&[
        "a.http",
        "--env",
        "dev",
        "--var",
        "Q=a=b",
        "--include",
    ]))
    .unwrap();
    assert_eq!(PathBuf::from(&options.file), PathBuf::from("a.http"));
    assert_eq!(options.env.as_deref(), Some("dev"));
    assert_eq!(options.vars.get("Q").map(|v| v.as_str()), Some("a=b"), "only the first = splits");
    assert!(options.with_headers);

    for (list, complaint) in [
        (&[][..], "needs a request file"),
        (&["a.http", "--var", "Q"][..], "NAME=VALUE"),
        (&["a.http", "--env"][..], "--env needs"),
        (&["a.http", "--bogus"][..], "--bogus"),
        (&["a.http", "b.http"][..], "one request file"),
    ] {
        let error = Options::parse(args(list)).unwrap_err();
        assert!(error.contains(complaint), "{list:?}: {error}");
    }
}

#[test]
fn the_short_flag_and_later_values_win() {
    let options = Options::parse(args(&["-i", "--var", "A=1", "--var", "A=2", "x.bru"])).unwrap();
    assert!(options.with_headers);
    assert_eq!(options.vars.get("A").map(|v| v.as_str()), Some("2"));
    assert_eq!(options.env, None);
}

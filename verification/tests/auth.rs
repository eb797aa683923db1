use binman_core::auth::{AuthKind, header, is_secret};

fn values(list: &[&str]) -> Vec<String> {
    list.iter().map(|value| value.to_string()).collect()
}

#[test]
fn each_kind_becomes_its_header() {
    assert_eq!(
        header(AuthKind::Bearer, &values(&["abc"])),
        Some(("Authorization".into(), "Bearer abc".into()))
    );
    assert_eq!(
        header(AuthKind::Basic, &values(&["alice", "secret"])),
        Some(("Authorization".into(), "Basic YWxpY2U6c2VjcmV0".into()))
    );
    assert_eq!(
        header(AuthKind::ApiKey, &values(&["X-Api-Key", "k"])),
        Some(("X-Api-Key".into(), "k".into()))
    );
}

#[test]
fn empty_fields_add_nothing() {
    assert_eq!(header(AuthKind::Bearer, &values(&[""])), None);
    assert_eq!(header(AuthKind::Basic, &values(&["", ""])), None);
    assert_eq!(header(AuthKind::ClientCredentials, &values(&["u", "i", "s", ""])), None);
}

#[test]
fn auth_kinds_cycle_round_both_ways() {
    assert_eq!(AuthKind::NoAuth.cycle(-1), AuthKind::ClientCredentials);
    assert_eq!(AuthKind::ClientCredentials.cycle(1), AuthKind::NoAuth);
    assert_eq!(AuthKind::Bearer.cycle(7), AuthKind::ApiKey);
    assert_eq!(AuthKind::Basic.cycle(isize::MIN), AuthKind::ALL[((2i128 + isize::MIN as i128).rem_euclid(5)) as usize]);
}

#[test]
fn secrets_are_told_by_their_field_names() {
    assert!(is_secret("Client Secret"));
    assert!(is_secret("Password"));
    assert!(!is_secret("Username"));
    assert_eq!(AuthKind::Basic.fields(), &["Username", "Password"]);
    assert_eq!(AuthKind::ClientCredentials.label(), "OAuth2 client credentials");
}

#[test]
fn basic_auth_with_only_a_password_is_still_sent() {
    assert_eq!(
        header(AuthKind::Basic, &values(&["", "pw"])),
        Some(("Authorization".into(), "Basic OnB3".into()))
    );
    assert_eq!(header(AuthKind::ApiKey, &values(&["X-Key"])), Some(("X-Key".into(), "".into())));
}

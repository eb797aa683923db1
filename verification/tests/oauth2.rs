use binman_core::oauth2::{
    check, refused, seconds, settle_token, token_form, token_of, undecodable, unreachable_endpoint, Expiry, Grant,
    TokenCache, TokenResponse,
};

fn grant(url: &str, scope: &str) -> Grant {
    Grant {
        token_url: url.to_string(),
        client_id: "id".into(),
        client_secret: "secret".into(),
        scope: scope.to_string(),
    }
}

fn response(token: Option<&str>, expires_in: Option<Expiry>) -> TokenResponse {
    TokenResponse { access_token: token.map(str::to_string), expires_in }
}

#[test]
fn sends_the_grant_as_a_form() {
    assert_eq!(
        token_form(&grant("https://auth/token", "read write")),
        "grant_type=client_credentials&client_id=id&client_secret=secret&scope=read+write"
    );
    let mut odd = grant("https://auth/token", "");
    odd.client_secret = "sec.ret~with/chars&=".into();
    assert_eq!(
        token_form(&odd),
        "grant_type=client_credentials&client_id=id&client_secret=sec.ret%7Ewith%2Fchars%26%3D"
    );
}

#[test]
fn an_empty_scope_is_not_sent() {
    let form = token_form(&grant("https://auth/token", ""));
    assert!(!form.contains("scope"), "{form}");
}

#[test]
fn a_token_is_reused_until_it_nears_expiry() {
    let g = grant("https://auth/token", "");
    let mut cache = TokenCache::new();
    assert_eq!(cache.cached(&g, 0), None);
    let (token, lifetime) = token_of(&response(Some("tok-1"), Some(Expiry::Number(Some(3600))))).unwrap();
    cache.store(&g, token, 1_000, lifetime);
    assert_eq!(cache.cached(&g, 2_000).as_deref(), Some("tok-1"));
    assert_eq!(cache.cached(&g, 3_570_999).as_deref(), Some("tok-1"));
    assert_eq!(cache.cached(&g, 3_571_000), None, "thirty seconds before expiry it is fetched again");
    assert_eq!(cache.cached(&grant("https://auth/token", "other"), 2_000), None, "a scope is its own key");
}

#[test]
fn a_token_inside_the_skew_window_is_fetched_again() {
    let g = grant("https://auth/token", "");
    let mut cache = TokenCache::new();
    let (token, lifetime) = token_of(&response(Some("tok-1"), Some(Expiry::Number(Some(10))))).unwrap();
    cache.store(&g, token, 0, lifetime);
    assert_eq!(cache.cached(&g, 0), None);
    cache.store(&g, "tok-2".into(), 0, 3600);
    assert_eq!(cache.cached(&g, 0).as_deref(), Some("tok-2"), "a new token replaces the old");
}

#[test]
fn a_token_without_an_expiry_gets_an_hour() {
    assert_eq!(token_of(&response(Some("tok"), None)).unwrap(), ("tok".to_string(), 3600));
    assert_eq!(
        token_of(&response(Some("tok"), Some(Expiry::Number(Some(0))))).unwrap().1,
        3600,
        "zero is no expiry"
    );
    assert_eq!(token_of(&response(Some("tok"), Some(Expiry::Other))).unwrap().1, 3600);
}

#[test]
fn an_expiry_sent_as_a_string_is_honoured() {
    assert_eq!(
        token_of(&response(Some("tok"), Some(Expiry::Text("3600".into())))).unwrap().1,
        3600
    );
    assert_eq!(seconds(&Expiry::Text(" 90 ".into())), Some(90));
    assert_eq!(seconds(&Expiry::Text("+7".into())), Some(7));
    assert_eq!(seconds(&Expiry::Text("-7".into())), None);
    assert_eq!(seconds(&Expiry::Text("1.5".into())), None);
    assert_eq!(seconds(&Expiry::Text("18446744073709551616".into())), None);
    assert_eq!(seconds(&Expiry::Text("18446744073709551615".into())), Some(u64::MAX));
}

#[test]
fn a_refusal_is_reported_whole_and_not_cached() {
    let error = refused("401 Unauthorized", " {\"error\":\"invalid_client\"}\n").message();
    assert_eq!(
        error,
        "OAuth2: the token endpoint answered 401 Unauthorized: {\"error\":\"invalid_client\"}"
    );
}

#[test]
fn a_success_without_a_token_is_an_error() {
    assert!(token_of(&response(None, Some(Expiry::Number(Some(3600))))).is_err());
    assert_eq!(
        token_of(&response(Some(""), None)).unwrap_err().message(),
        "OAuth2: the token response had no access_token"
    );
}

#[test]
fn a_body_that_is_not_json_says_so() {
    let error = undecodable("expected value at line 1 column 1").message();
    assert!(error.contains("decode"), "{error}");
    assert_eq!(
        unreachable_endpoint(false, "connection refused").message(),
        "OAuth2: reaching the token endpoint: connection refused"
    );
}

#[test]
fn missing_credentials_fail_before_any_request() {
    let mut no_url = grant("  ", "");
    assert!(check(&no_url).is_err());
    no_url.token_url = "https://auth".into();
    assert!(check(&no_url).is_ok());
    let mut no_id = grant("https://auth", "");
    no_id.client_id = "".into();
    assert_eq!(
        check(&no_id).unwrap_err().message(),
        "OAuth2: a token URL and a client ID are both needed"
    );
}

#[test]
fn a_refused_answer_leaves_the_cache_as_it_was() {
    let mut cache = TokenCache::new();
    let grant = grant("https://auth/token", "");
    let parsed = Ok(response(Some("abc"), None));
    let refusal = settle_token(&mut cache, &grant, 1_000, 401, "401 Unauthorized", "nope", &parsed).unwrap_err();
    assert_eq!(refusal.message(), "OAuth2: the token endpoint answered 401 Unauthorized: nope");
    assert_eq!(cache.cached(&grant, 1_000), None);
}

#[test]
fn a_granted_token_is_kept_and_handed_back() {
    let mut cache = TokenCache::new();
    let grant = grant("https://auth/token", "read");
    let parsed = Ok(response(Some("abc"), Some(Expiry::Number(Some(3600)))));
    assert_eq!(settle_token(&mut cache, &grant, 1_000, 200, "200 OK", "{}", &parsed).unwrap(), "abc");
    assert_eq!(cache.cached(&grant, 2_000), Some("abc".to_string()));
    let broken: Result<TokenResponse, String> = Err("expected value".to_string());
    let error = settle_token(&mut cache, &grant, 1_000, 200, "200 OK", "<html>", &broken).unwrap_err();
    assert_eq!(error.message(), "OAuth2: could not decode the token response: expected value");
}

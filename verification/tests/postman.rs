use binman_core::body::BodyKind;
use binman_core::formats::postman::{
    convert, environment_vars, BodyOptions, Collection, EnvironmentValue, FormPart, GraphqlBody,
    Info, Item, Pair, PostmanBody, PostmanRequest, PostmanUrl, RawOptions, RequestField,
};

fn pair(key: &str, value: &str, disabled: bool) -> Pair {
    Pair { key: key.into(), value: value.into(), disabled }
}

fn body(mode: &str) -> PostmanBody {
    PostmanBody {
        mode: mode.into(),
        raw: String::new(),
        urlencoded: Vec::new(),
        formdata: Vec::new(),
        graphql: None,
        options: None,
    }
}

fn request(method: &str, body: Option<PostmanBody>) -> PostmanRequest {
    PostmanRequest {
        method: method.into(),
        url: PostmanUrl::Object { raw: "{{base}}/users".into() },
        header: vec![pair("Accept", "*/*", false), pair("X-Off", "1", true), pair("", "x", false)],
        body,
    }
}

#[test]
fn a_raw_json_body_keeps_its_language() {
    let mut raw = body("raw");
    raw.raw = "{\"a\":1}".into();
    raw.options = Some(BodyOptions { raw: Some(RawOptions { language: "json".into() }) });
    let converted = convert(&request("post", Some(raw)));
    assert_eq!(converted.method, "POST");
    assert_eq!(converted.url, "{{base}}/users");
    assert_eq!(converted.headers, vec![("Accept".to_string(), "*/*".to_string())]);
    assert_eq!(converted.body, "{\"a\":1}");
    assert_eq!(converted.kind, Some(BodyKind::Json));
}

#[test]
fn form_bodies_are_encoded_and_files_marked() {
    let mut form = body("urlencoded");
    form.urlencoded = vec![pair("a", "1 2", false), pair("b", "x", true)];
    let converted = convert(&request("", Some(form)));
    assert_eq!(converted.method, "GET");
    assert_eq!(converted.body, "a=1+2");
    assert_eq!(converted.kind, Some(BodyKind::Form));

    let mut multi = body("formdata");
    multi.formdata = vec![
        FormPart { key: "name".into(), value: "Jane".into(), src: String::new(), kind: "text".into(), disabled: false },
        FormPart { key: "avatar".into(), value: String::new(), src: "/tmp/a.png".into(), kind: "file".into(), disabled: false },
    ];
    let converted = convert(&request("put", Some(multi)));
    assert_eq!(converted.body, "name=Jane&avatar=%40%2Ftmp%2Fa.png");
    assert_eq!(converted.kind, Some(BodyKind::Multipart));
}

#[test]
fn a_graphql_body_goes_out_as_json() {
    let mut graphql = body("graphql");
    graphql.graphql = Some(GraphqlBody { query: "{ me }".into(), variables: "{\"id\": 1}".into() });
    let converted = convert(&request("POST", Some(graphql)));
    assert_eq!(converted.body, "{\"query\":\"{ me }\",\"variables\":{\"id\":1}}");
    assert_eq!(converted.kind, Some(BodyKind::Json));
    let converted = convert(&request("POST", Some(body("file"))));
    assert_eq!(converted.body, "");
    assert_eq!(converted.kind, None);
}

#[test]
fn items_are_found_by_position_and_a_folder_is_not_a_request() {
    let login = Item {
        name: "Login".into(),
        request: Some(RequestField::Full(request("post", None))),
        items: Vec::new(),
    };
    let bare = Item { name: "Ping".into(), request: Some(RequestField::Url("https://x/ping".into())), items: Vec::new() };
    let folder = Item { name: "Auth".into(), request: None, items: vec![0, 1] };
    let collection = Collection {
        info: Info { name: "api".into() },
        items: vec![2],
        nodes: vec![login, bare, folder],
        variables: vec![pair("base", "https://x", false), pair("off", "1", true)],
    };
    assert_eq!(collection.item_at(&[0, 0]).map(|item| item.name.as_str()), Some("Login"));
    assert_eq!(collection.item_at(&[0, 1]).unwrap().method(), "GET");
    assert_eq!(collection.item_at(&[0, 0]).unwrap().method(), "POST");
    assert!(collection.item_at(&[1]).is_none());
    assert_eq!(collection.request_at(&[0, 1]).unwrap().url, "https://x/ping");
    assert_eq!(collection.request_at(&[0, 0]).unwrap().method, "POST");
    let error = collection.request_at(&[0]).unwrap_err().message();
    assert!(error.contains("Auth is a folder, not a request"), "{error}");
    assert!(collection.request_at(&[5]).unwrap_err().message().contains("no item at that position"));
    assert_eq!(collection.vars().get("base").map(|v| v.as_str()), Some("https://x"));
    assert_eq!(collection.vars().len(), 1);
}

#[test]
fn environment_values_switched_off_are_left_out() {
    let vars = environment_vars(&vec![
        EnvironmentValue { key: "A".into(), value: "1".into(), enabled: None },
        EnvironmentValue { key: "B".into(), value: "2".into(), enabled: Some(false) },
        EnvironmentValue { key: "C".into(), value: "3".into(), enabled: Some(true) },
    ]);
    assert_eq!(vars.len(), 2);
    assert_eq!(vars.get("C").map(|v| v.as_str()), Some("3"));
}

use grhooks::template::{render_secret, Json, Namespace};

fn obj(fields: Vec<(&str, Json)>) -> Json {
    Json::Object(fields.into_iter().map(|(k, v)| (k.to_string(), v)).collect())
}

fn lookup<'a>(ns: &'a Namespace, key: &str) -> Option<&'a str> {
    ns.bindings.iter().rev().find(|(k, _)| k == key).map(|(_, v)| v.as_str())
}

#[test]
fn payload_is_flattened_under_event() {
    let payload = obj(vec![
        ("repository", obj(vec![("name", Json::Str("grhooks".to_string()))])),
        (
            "items",
            Json::Array(vec![Json::Number("1".to_string()), Json::Bool(true), Json::Null]),
        ),
    ]);
    let ns = Namespace::build("push", &payload);
    let expected: Vec<(String, String)> = vec![
        ("event.type", "push"),
        ("event.repository.name", "grhooks"),
        ("event.items[0]", "1"),
        ("event.items[1]", "true"),
        ("event.items[2]", "null"),
    ]
    .into_iter()
    .map(|(k, v)| (k.to_string(), v.to_string()))
    .collect();
    assert_eq!(ns.bindings, expected);
}

#[test]
fn array_indices_are_decimal() {
    let items: Vec<Json> = (0..12).map(|i| Json::Number(i.to_string())).collect();
    let ns = Namespace::build("e", &obj(vec![("a", Json::Array(items))]));
    assert_eq!(lookup(&ns, "event.a[10]"), Some("10"));
    assert_eq!(lookup(&ns, "event.a[11]"), Some("11"));
    assert_eq!(ns.bindings.len(), 13);
}

#[test]
fn scalar_payload_binds_event_itself() {
    let ns = Namespace::build("e", &Json::Bool(false));
    assert_eq!(lookup(&ns, "event"), Some("false"));
    let ns = Namespace::build("e", &Json::Array(vec![]));
    assert_eq!(ns.bindings.len(), 1);
}

#[test]
fn later_binding_wins_when_rendering() {
    let ns = Namespace::build("push", &obj(vec![("type", Json::Str("override".to_string()))]));
    assert_eq!(ns.render("${{event.type}}").as_deref(), Some("override"));
}

#[test]
fn render_uses_dollar_braces() {
    let ns = Namespace::build("push", &obj(vec![("ref", Json::Str("refs/heads/main".to_string()))]));
    assert_eq!(ns.render("echo ${{event.ref}} $HOME {{x}}").as_deref(), Some("echo refs/heads/main $HOME {{x}}"));
    assert_eq!(ns.render("echo ${{event.missing}}"), None);
}

#[test]
fn secrets_render_per_event_or_stay_literal() {
    assert_eq!(render_secret("key-${{event.type}}", "push"), "key-push");
    assert_eq!(render_secret("plain", "push"), "plain");
    assert_eq!(render_secret("bad-${{event.nope}}", "push"), "bad-${{event.nope}}");
}

#[test]
fn distinct_leaves_get_distinct_paths() {
    let payload = obj(vec![
        ("a", obj(vec![("b", Json::Number("1".to_string())), ("c", Json::Array(vec![Json::Null, Json::Null]))])),
        ("b", Json::Array(vec![obj(vec![("a", Json::Bool(true))]), Json::Str("x".to_string())])),
    ]);
    let ns = Namespace::build("e", &payload);
    let mut keys: Vec<&String> = ns.bindings.iter().map(|(k, _)| k).collect();
    let n = keys.len();
    keys.sort();
    keys.dedup();
    assert_eq!(keys.len(), n);
    assert_eq!(n, 6);
    // keys with dots can collide, which is why the law excludes them
    let clash = obj(vec![
        ("a.b", Json::Number("1".to_string())),
        ("a", obj(vec![("b", Json::Number("2".to_string()))])),
    ]);
    let ns = Namespace::build("e", &clash);
    assert_eq!(ns.bindings[1].0, ns.bindings[2].0);
    assert_eq!(ns.render("${{event.a.b}}").as_deref(), Some("2"));
}

#[test]
fn non_ascii_templates() {
    let ns = Namespace::build("push", &Json::Null);
    // text without a template passes through whatever it holds
    assert_eq!(ns.render("échec ✓").as_deref(), Some("échec ✓"));
    // non-ASCII text holding a template is refused rather than risked
    assert_eq!(ns.render("\né${{x"), None);
    assert_eq!(ns.render("${{x éé\n"), None);
    assert_eq!(ns.render("é ${{event.type}}"), None);
    assert_eq!(render_secret("clé-${{event.type}}", "push"), "clé-${{event.type}}");
    // ASCII syntax errors are reported as failures
    assert_eq!(ns.render("\n${{x"), None);
    assert_eq!(ns.render("${{ div(1, 0) }}"), None);
}

#[test]
fn parenthesis_bound_on_templates() {
    let ns = Namespace::build("push", &Json::Null);
    let few = format!("{} ${{{{event.type}}}}", "(".repeat(512));
    assert_eq!(ns.render(&few), Some(format!("{} push", "(".repeat(512))));
    let many = format!("{} ${{{{event.type}}}}", "(".repeat(513));
    assert_eq!(ns.render(&many), None);
    let plain = "(".repeat(2000);
    assert_eq!(ns.render(&plain).as_deref(), Some(plain.as_str()));
}

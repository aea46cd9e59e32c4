use grhooks::config::{Config, WebhookConfig};

fn def(path: &str, events: &[&str], command: &str) -> WebhookConfig {
    WebhookConfig {
        path: Some(path.to_string()),
        secret: None,
        events: events.iter().map(|e| e.to_string()).collect(),
        shell: None,
        command: Some(command.to_string()),
        script: None,
    }
}

fn table(defs: Vec<WebhookConfig>) -> Config {
    Config { webhooks: defs, ..Config::default() }
}

fn sorted(mut v: Vec<String>) -> Vec<String> {
    v.sort();
    v
}

fn paths(c: &Config) -> Vec<String> {
    c.webhooks.iter().map(|w| w.path.clone().unwrap_or_default()).collect()
}

#[test]
fn default_config() {
    let c = Config::default();
    assert_eq!(c.port, 8080);
    assert_eq!(c.verbose, "info");
    assert!(c.webhooks.is_empty());
}

#[test]
fn fragments_with_same_path_unite_events() {
    let merged = Config::from_fragments(vec![
        table(vec![def("/ci", &["push"], "echo one")]),
        table(vec![def("/ci", &["tag"], "echo two")]),
    ]);
    assert_eq!(merged.webhooks.len(), 1);
    let w = &merged.webhooks[0];
    assert_eq!(sorted(w.events.clone()), vec!["push".to_string(), "tag".to_string()]);
    // the incoming definition's other fields win
    assert_eq!(w.command.as_deref(), Some("echo two"));
    assert_eq!(merged.port, 8080);
}

#[test]
fn merge_appends_new_paths_and_moves_merged_to_end() {
    let mut a = table(vec![def("/a", &["push"], "a"), def("/b", &[], "b")]);
    a.port = 9000;
    a.merge(table(vec![def("/a", &["tag", "push"], "a2"), def("/c", &["x"], "c")]));
    assert_eq!(paths(&a), vec!["/b", "/a", "/c"]);
    assert_eq!(sorted(a.webhooks[1].events.clone()), vec!["push".to_string(), "tag".to_string()]);
    assert_eq!(a.port, 9000);
}

#[test]
fn merge_with_itself_changes_nothing() {
    let defs = || vec![def("/a", &["push", "tag"], "a"), def("/b", &["x"], "b")];
    let mut a = table(defs());
    a.merge(table(defs()));
    assert_eq!(paths(&a), vec!["/a", "/b"]);
    assert_eq!(sorted(a.webhooks[0].events.clone()), vec!["push".to_string(), "tag".to_string()]);
    assert_eq!(a.webhooks[1].events, vec!["x".to_string()]);
}

#[test]
fn merge_of_disjoint_tables_commutes() {
    let left = || table(vec![def("/a", &["1"], "a")]);
    let right = || table(vec![def("/b", &["2"], "b"), def("/c", &["3"], "c")]);
    let mut ab = left();
    ab.merge(right());
    let mut ba = right();
    ba.merge(left());
    assert_eq!(sorted(paths(&ab)), sorted(paths(&ba)));
    assert_eq!(ab.find("/b").unwrap().command, ba.find("/b").unwrap().command);
}

#[test]
fn find_routes_by_path() {
    let c = table(vec![def("/a", &[], "a"), def("/b", &[], "b")]);
    assert_eq!(c.find("/b").unwrap().command.as_deref(), Some("b"));
    assert!(c.find("/z").is_none());
}

#[test]
fn reload_rebuilds_the_table() {
    let mut c = table(vec![def("/old", &[], "x")]);
    c.port = 1234;
    c.reload(vec![table(vec![def("/n", &["a"], "1")]), table(vec![def("/n", &["b"], "2")])]);
    assert_eq!(paths(&c), vec!["/n"]);
    assert_eq!(sorted(c.webhooks[0].events.clone()), vec!["a".to_string(), "b".to_string()]);
    assert_eq!(c.port, 1234);
}

#[test]
fn first_parsed_falls_back_to_default() {
    let c = Config::first_parsed(vec![None, Some(table(vec![def("/p", &[], "p")])), None]);
    assert_eq!(paths(&c), vec!["/p"]);
    let d = Config::first_parsed(vec![None, None]);
    assert_eq!(d.port, 8080);
    assert!(d.webhooks.is_empty());
}

#[test]
fn path_lines_describe_each_webhook() {
    let mut unrouted = def("/x", &[], "x");
    unrouted.path = None;
    let c = table(vec![def("/ci", &["push", "tag"], "a"), unrouted]);
    assert_eq!(
        c.path_lines(),
        vec![
            "Webhook path: /ci".to_string(),
            "\tEvents: push, tag".to_string(),
            "Webhook path: (none)".to_string(),
            "\tEvents: ".to_string(),
        ]
    );
}

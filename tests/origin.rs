use grhooks::headers::Headers;
use grhooks::origin::{Error, GitHubValidator, GitLabValidator, Origin, WebhookOrigin, WebhookValidator};

fn headers(pairs: &[(&str, &str)]) -> Headers {
    let mut h = Headers::new();
    for (n, v) in pairs {
        h.insert(n, v);
    }
    h
}

fn github_headers() -> Vec<(&'static str, &'static str)> {
    vec![
        ("X-GitHub-Hook-ID", "1"),
        ("X-GitHub-Event", "push"),
        ("X-GitHub-Delivery", "abc"),
        ("User-Agent", "GitHub-Hookshot/123"),
    ]
}

fn gitlab_headers() -> Vec<(&'static str, &'static str)> {
    vec![
        ("X-Gitlab-Event", "Push Hook"),
        ("X-Gitlab-Webhook-UUID", "u1"),
        ("X-Gitlab-UUID", "u2"),
        ("User-Agent", "Gitlab/17.0"),
    ]
}

fn generic_headers() -> Vec<(&'static str, &'static str)> {
    vec![("X-Webhook-ID", "7"), ("X-Webhook-Event", "deploy"), ("User-Agent", "curl/8")]
}

#[test]
fn complete_headers_pass_each_dialect() {
    assert_eq!(Origin::GitHub.validate_headers(&headers(&github_headers())), Ok(()));
    assert_eq!(Origin::GitLab.validate_headers(&headers(&gitlab_headers())), Ok(()));
    assert_eq!(Origin::Generic.validate_headers(&headers(&generic_headers())), Ok(()));
}

#[test]
fn each_missing_header_is_named() {
    for (origin, all) in [
        (Origin::GitHub, github_headers()),
        (Origin::GitLab, gitlab_headers()),
        (Origin::Generic, generic_headers()),
    ] {
        for skip in 0..all.len() {
            let rest: Vec<(&str, &str)> =
                all.iter().enumerate().filter(|(i, _)| *i != skip).map(|(_, p)| *p).collect();
            assert_eq!(
                origin.validate_headers(&headers(&rest)),
                Err(Error::MissingHeader(all[skip].0)),
                "{:?} without {}",
                origin,
                all[skip].0
            );
        }
    }
}

#[test]
fn header_names_ignore_ascii_case() {
    let h = headers(&[
        ("x-github-hook-id", "1"),
        ("x-github-event", "push"),
        ("X-GITHUB-DELIVERY", "abc"),
        ("user-agent", "GitHub-Hookshot/1"),
    ]);
    assert_eq!(Origin::GitHub.validate_headers(&h), Ok(()));
    assert_eq!(Origin::GitHub.extract_event_type(&h), Ok("push".to_string()));
}

#[test]
fn wrong_user_agent_is_refused() {
    let mut pairs = github_headers();
    pairs[3] = ("User-Agent", "curl/8");
    assert_eq!(Origin::GitHub.validate_headers(&headers(&pairs)), Err(Error::InvalidUserAgent));
    let mut pairs = gitlab_headers();
    pairs[3] = ("User-Agent", "GitHub-Hookshot/1");
    assert_eq!(GitLabValidator.validate_headers(&headers(&pairs)), Err(Error::InvalidUserAgent));
    // the generic dialect puts no constraint on the agent
    assert_eq!(WebhookValidator.validate_headers(&headers(&generic_headers())), Ok(()));
}

#[test]
fn unreadable_user_agent_counts_as_missing() {
    let mut h = headers(&github_headers()[..3]);
    h.entries.push(grhooks::headers::Header { name: "User-Agent".to_string(), value: None });
    assert_eq!(GitHubValidator.validate_headers(&h), Err(Error::MissingHeader("User-Agent")));
}

#[test]
fn origin_is_detected_from_event_header() {
    assert_eq!(Origin::detect(&headers(&github_headers())), Ok(Origin::GitHub));
    assert_eq!(Origin::detect(&headers(&gitlab_headers())), Ok(Origin::GitLab));
    assert_eq!(Origin::detect(&headers(&generic_headers())), Ok(Origin::Generic));
    assert_eq!(
        Origin::detect(&headers(&[("User-Agent", "x")])),
        Err(Error::NoOriginHeader)
    );
}

#[test]
fn event_type_comes_from_dialect_header() {
    assert_eq!(GitLabValidator.extract_event_type(&headers(&gitlab_headers())), Ok("Push Hook".to_string()));
    assert_eq!(WebhookValidator.extract_event_type(&headers(&generic_headers())), Ok("deploy".to_string()));
    assert_eq!(
        GitHubValidator.extract_event_type(&headers(&generic_headers())),
        Err(Error::MissingHeader("X-GitHub-Event"))
    );
}

#[test]
fn gitlab_signature_needs_instance_header_only() {
    let h = headers(&gitlab_headers());
    assert_eq!(Origin::GitLab.validate_signature(&h, "s", b"{}"), Err(Error::MissingHeader("X-Gitlab-Instance")));
    let mut h = h;
    h.insert("X-Gitlab-Instance", "https://gitlab.example");
    assert_eq!(Origin::GitLab.validate_signature(&h, "s", b"{}"), Ok(()));
    let mut unreadable = headers(&gitlab_headers());
    unreadable.entries.push(grhooks::headers::Header { name: "X-Gitlab-Instance".to_string(), value: None });
    assert_eq!(
        Origin::GitLab.validate_signature(&unreadable, "s", b"{}"),
        Err(Error::MissingHeader("X-Gitlab-Instance"))
    );
}

#[test]
fn error_status_and_message() {
    assert_eq!(Error::InvalidSignature.status(), 401);
    assert_eq!(Error::InvalidUserAgent.status(), 400);
    assert_eq!(Error::MissingHeader("X-A").status(), 400);
    assert_eq!(Error::MissingHeader("X-A").message(), "Missing required header: X-A");
    assert_eq!(Error::InvalidSignature.message(), "Invalid signature");
    assert_eq!(Error::InvalidUserAgent.message(), "Invalid user agent");
    assert_eq!(Error::UnsupportedEvent.message(), "Unsupported event type");
    assert_eq!(Error::NoOriginHeader.message(), "No provider event header");
    assert_eq!(Error::NoOriginHeader.status(), 400);
}

#[test]
fn default_origin_is_github() {
    assert_eq!(Origin::default(), Origin::GitHub);
}

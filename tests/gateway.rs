use grhooks::config::{Config, WebhookConfig};
use grhooks::dispatch::{command_outcome, plan, render_script, shell_invocation, ExecError, Job};
use grhooks::gateway::{allows_event, respond, screen, HeaderValidationError};
use grhooks::headers::Headers;
use grhooks::origin::{Error, Origin};
use grhooks::template::{Json, Namespace};
use hmac::{Hmac, Mac};

const BODY: &[u8] = br#"{"ref":"refs/heads/main"}"#;

fn ci(secret: Option<&str>) -> WebhookConfig {
    WebhookConfig {
        path: Some("/ci".to_string()),
        secret: secret.map(|s| s.to_string()),
        events: vec!["push".to_string()],
        shell: None,
        command: Some("echo ${{event.type}}".to_string()),
        script: None,
    }
}

fn table(w: WebhookConfig) -> Config {
    Config { webhooks: vec![w], ..Config::default() }
}

fn sign(secret: &str, body: &[u8]) -> String {
    let mut mac = Hmac::<sha2::Sha256>::new_from_slice(secret.as_bytes()).unwrap();
    mac.update(body);
    format!("sha256={}", hex::encode(mac.finalize().into_bytes()))
}

fn delivery(event: &str, signature: Option<String>) -> Headers {
    let mut h = Headers::new();
    h.insert("X-GitHub-Hook-ID", "1");
    h.insert("X-GitHub-Event", event);
    h.insert("X-GitHub-Delivery", "d-1");
    h.insert("User-Agent", "GitHub-Hookshot/abc");
    if let Some(s) = signature {
        h.insert("X-Hub-Signature-256", &s);
    }
    h
}

fn payload() -> Json {
    Json::Object(vec![("ref".to_string(), Json::Str("refs/heads/main".to_string()))])
}

#[test]
fn push_with_valid_signature_runs_command() {
    let config = table(ci(Some("s3cr3t")));
    let headers = delivery("push", Some(sign("s3cr3t", BODY)));
    let admitted = match screen(&config, "/ci", &headers, BODY) {
        Ok(a) => a,
        Err(r) => panic!("rejected: {}", r.message()),
    };
    assert_eq!(admitted.origin, Origin::GitHub);
    assert_eq!(admitted.event_type, "push");
    let ns = Namespace::build(&admitted.event_type, &payload());
    let inv = match plan(admitted.webhook, &ns) {
        Ok(Job::Run(inv)) => inv,
        _ => panic!("expected a command"),
    };
    assert_eq!(inv.program, "sh");
    assert_eq!(inv.args, vec!["-c".to_string(), "echo push".to_string()]);
    let (status, body) = respond(command_outcome(true, "exit status: 0", "echo push", "", "push\n"));
    assert_eq!(status, 200);
    assert_eq!(body, "push");
}

#[test]
fn unlisted_event_is_not_allowed() {
    let config = table(ci(None));
    let headers = delivery("pull_request", None);
    match screen(&config, "/ci", &headers, BODY) {
        Err(r) => {
            assert!(matches!(r, HeaderValidationError::EventNotAllowed(_)));
            assert_eq!(r.status(), 400);
            assert_eq!(r.message(), "Event 'pull_request' not allowed");
        }
        Ok(_) => panic!("admitted"),
    }
}

#[test]
fn signature_over_other_body_is_unauthorized() {
    let config = table(ci(Some("s3cr3t")));
    let headers = delivery("push", Some(sign("s3cr3t", b"{\"ref\":\"other\"}")));
    match screen(&config, "/ci", &headers, BODY) {
        Err(r) => {
            assert!(matches!(r, HeaderValidationError::OriginValidation(Error::InvalidSignature)));
            assert_eq!(r.status(), 401);
        }
        Ok(_) => panic!("admitted"),
    }
}

#[test]
fn signature_is_checked_before_event_filter() {
    let config = table(ci(Some("s3cr3t")));
    let headers = delivery("pull_request", Some(sign("wrong", BODY)));
    assert!(matches!(
        screen(&config, "/ci", &headers, BODY),
        Err(HeaderValidationError::OriginValidation(Error::InvalidSignature))
    ));
}

#[test]
fn unrouted_path_is_not_found() {
    let config = table(ci(None));
    let r = screen(&config, "/nope", &delivery("push", None), BODY);
    match r {
        Err(r) => {
            assert!(matches!(r, HeaderValidationError::WebhookNotFound));
            assert_eq!(r.status(), 404);
        }
        Ok(_) => panic!("admitted"),
    }
}

#[test]
fn malformed_headers_rejected_before_routing() {
    let config = table(ci(None));
    let mut h = Headers::new();
    h.insert("X-GitHub-Event", "push");
    let r = screen(&config, "/nope", &h, BODY);
    assert!(matches!(r, Err(HeaderValidationError::OriginValidation(Error::MissingHeader("X-GitHub-Hook-ID")))));
    let r = screen(&config, "/ci", &Headers::new(), BODY);
    assert!(matches!(r, Err(HeaderValidationError::OriginValidation(Error::NoOriginHeader))));
}

#[test]
fn secret_is_rendered_with_event_type() {
    let config = table(ci(Some("key-${{event.type}}")));
    let headers = delivery("push", Some(sign("key-push", BODY)));
    assert!(screen(&config, "/ci", &headers, BODY).is_ok());
}

#[test]
fn empty_or_wildcard_filter_allows_all() {
    let mut w = ci(None);
    w.events = vec![];
    assert!(allows_event(&w, "anything"));
    w.events = vec!["*".to_string()];
    assert!(allows_event(&w, "anything"));
    w.events = vec!["push".to_string()];
    assert!(!allows_event(&w, "tag"));
}

#[test]
fn failing_script_answers_500_with_stderr() {
    let mut w = ci(None);
    w.command = None;
    w.script = Some("/etc/hooks/deploy.sh".to_string());
    let ns = Namespace::build("push", &payload());
    let (shell, path) = match plan(&w, &ns) {
        Ok(Job::Script(shell, path)) => (shell, path),
        _ => panic!("expected a script"),
    };
    assert_eq!(path, "/etc/hooks/deploy.sh");
    let text = render_script(&ns, "\n echo ${{event.ref}}; exit 2\n").ok().unwrap();
    assert_eq!(text, "echo refs/heads/main; exit 2");
    let inv = shell.with_argument("/tmp/script-1".to_string());
    assert_eq!(inv.args, vec!["-c".to_string(), "/tmp/script-1".to_string()]);
    let outcome = command_outcome(false, "exit status: 2", "script: /tmp/script-1", "boom", "");
    let (status, body) = respond(outcome);
    assert_eq!(status, 500);
    assert_eq!(body, "Command failed (exit status: 2 - script: /tmp/script-1):\nSTDERR: boom\nSTDOUT: ");
}

#[test]
fn dispatch_errors() {
    let mut w = ci(None);
    w.command = None;
    let ns = Namespace::build("push", &Json::Null);
    assert!(matches!(plan(&w, &ns), Err(ExecError::NoCommand)));
    w.command = Some("echo ${{nope}}".to_string());
    assert!(matches!(plan(&w, &ns), Err(ExecError::RenderCommand)));
    w.shell = Some(vec![]);
    assert!(matches!(shell_invocation(&w), Err(ExecError::EmptyShell)));
    assert!(matches!(plan(&w, &ns), Err(ExecError::EmptyShell)));
    assert!(matches!(render_script(&ns, "${{"), Err(ExecError::RenderScript)));
    assert_eq!(ExecError::NoCommand.message(), "No command or script provided");
}

#[test]
fn shell_override_and_trimmed_command() {
    let mut w = ci(None);
    w.shell = Some(vec!["bash".to_string(), "-e".to_string(), "-c".to_string()]);
    w.command = Some("  echo ${{event.type}} \n".to_string());
    let ns = Namespace::build("tag", &Json::Null);
    match plan(&w, &ns) {
        Ok(Job::Run(inv)) => {
            assert_eq!(inv.program, "bash");
            assert_eq!(inv.args, vec!["-e".to_string(), "-c".to_string(), "echo tag".to_string()]);
        }
        _ => panic!("expected a command"),
    }
}

#[test]
fn successful_output_is_trimmed() {
    assert_eq!(command_outcome(true, "exit status: 0", "c", "warn", "  ok \n").ok(), Some("ok".to_string()));
}

use grhooks::headers::Headers;
use grhooks::origin::{Error, Origin, WebhookOrigin};
use grhooks::signature::{has_prefix, matches_digest, sha1_signature_valid, sha256_signature_valid, strip_repeated};
use hmac::{Hmac, Mac};

fn sign256(secret: &str, body: &[u8]) -> String {
    let mut mac = Hmac::<sha2::Sha256>::new_from_slice(secret.as_bytes()).unwrap();
    mac.update(body);
    hex::encode(mac.finalize().into_bytes())
}

fn sign1(secret: &str, body: &[u8]) -> String {
    let mut mac = Hmac::<sha1::Sha1>::new_from_slice(secret.as_bytes()).unwrap();
    mac.update(body);
    hex::encode(mac.finalize().into_bytes())
}

#[test]
fn digest_is_compared_as_lowercase_hex() {
    assert!(matches_digest("sha256=0aff", "sha256=", &[0x0a, 0xff]));
    assert!(matches_digest("sha256=sha256=0aff", "sha256=", &[0x0a, 0xff]));
    assert!(!matches_digest("sha256=0AFF", "sha256=", &[0x0a, 0xff]));
    assert!(!matches_digest("0aff", "sha256=", &[0x0a, 0xfe]));
    assert!(!matches_digest("0aff00", "sha256=", &[0x0a, 0xff]));
    assert!(matches_digest("", "sha256=", &[]));
}

#[test]
fn mismatch_position_does_not_change_answer() {
    let good = sign256("k", b"body");
    let mut early = good.clone().into_bytes();
    early[0] = if early[0] == b'0' { b'1' } else { b'0' };
    let mut late = good.clone().into_bytes();
    let n = late.len() - 1;
    late[n] = if late[n] == b'0' { b'1' } else { b'0' };
    assert!(sha256_signature_valid(&good, "k", b"body"));
    assert!(!sha256_signature_valid(std::str::from_utf8(&early).unwrap(), "k", b"body"));
    assert!(!sha256_signature_valid(std::str::from_utf8(&late).unwrap(), "k", b"body"));
}

#[test]
fn known_hmac_vectors() {
    // RFC 4231 test case 2
    let sig = "5bdcc146bf60754e6a042426089575c75a003f089d2739839dec58b964ec3843";
    assert!(sha256_signature_valid(sig, "Jefe", b"what do ya want for nothing?"));
    // RFC 2202 test case 2
    let sig = "sha1=effcdf6ae5eb2fa2d27416d5f184df9c259a7c79";
    assert!(sha1_signature_valid(sig, "Jefe", b"what do ya want for nothing?"));
}

#[test]
fn prefix_helpers() {
    assert!(has_prefix("ab", "abc"));
    assert!(!has_prefix("abcd", "abc"));
    assert!(has_prefix("", "x"));
    assert_eq!(strip_repeated("xxxy", "x"), "y");
    assert_eq!(strip_repeated("abc", ""), "abc");
}

fn github(sig_header: &str, sig: &str) -> Headers {
    let mut h = Headers::new();
    h.insert("X-GitHub-Event", "push");
    h.insert(sig_header, sig);
    h
}

#[test]
fn github_prefers_sha256_and_falls_back_to_sha1() {
    let body = br#"{"ref":"refs/heads/main"}"#;
    let h = github("X-Hub-Signature-256", &format!("sha256={}", sign256("s3cr3t", body)));
    assert_eq!(Origin::GitHub.validate_signature(&h, "s3cr3t", body), Ok(()));
    let h = github("X-Hub-Signature", &format!("sha1={}", sign1("s3cr3t", body)));
    assert_eq!(Origin::GitHub.validate_signature(&h, "s3cr3t", body), Ok(()));
    assert_eq!(Origin::GitHub.validate_signature(&h, "other", body), Err(Error::InvalidSignature));
    let h = github("X-Other", "x");
    assert_eq!(Origin::GitHub.validate_signature(&h, "s3cr3t", body), Err(Error::MissingHeader("X-Hub-Signature")));
}

#[test]
fn generic_dialect_uses_its_own_headers() {
    let body = b"payload";
    let h = github("X-Webhook-Signature-256", &format!("sha256={}", sign256("k", body)));
    assert_eq!(Origin::Generic.validate_signature(&h, "k", body), Ok(()));
    let h = github("X-Webhook-Signature", &format!("sha1={}", sign1("k", body)));
    assert_eq!(Origin::Generic.validate_signature(&h, "k", body), Ok(()));
    let h = github("X-Hub-Signature-256", &format!("sha256={}", sign256("k", body)));
    assert_eq!(Origin::Generic.validate_signature(&h, "k", body), Err(Error::MissingHeader("X-Webhook-Signature")));
}

#[test]
fn unreadable_signature_header_is_invalid() {
    let body = b"payload";
    let mut h = Headers::new();
    h.insert("X-GitHub-Event", "push");
    h.entries.push(grhooks::headers::Header { name: "X-Hub-Signature-256".to_string(), value: None });
    assert_eq!(Origin::GitHub.validate_signature(&h, "k", body), Err(Error::InvalidSignature));
    // an unreadable stronger header is not skipped for a good weaker one
    h.insert("X-Hub-Signature", &format!("sha1={}", sign1("k", body)));
    assert_eq!(Origin::GitHub.validate_signature(&h, "k", body), Err(Error::InvalidSignature));
    let mut h = Headers::new();
    h.entries.push(grhooks::headers::Header { name: "X-Webhook-Signature".to_string(), value: None });
    assert_eq!(Origin::Generic.validate_signature(&h, "k", body), Err(Error::InvalidSignature));
}

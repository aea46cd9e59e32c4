//! Provider dialects: which headers a delivery must carry, where its event
//! type is read from, and how its signature is checked.

use crate::headers::{first_match, opt_view, present, text_of, Headers};
use crate::signature::{
    has_prefix, hex_text, hmac_sha1_of, hmac_sha256_of, sha1_signature_valid,
    sha256_signature_valid, strip_all,
};
use vstd::prelude::*;

verus! {

/// Why a delivery was refused by its dialect's checks.
#[derive(Clone, Copy, Debug, PartialEq, Eq)]
pub enum Error {
    NoOriginHeader,
    MissingHeader(&'static str),
    InvalidSignature,
    InvalidUserAgent,
    UnsupportedEvent,
}

/// What an [`Error`] says, with the header name as text.
pub enum Fault {
    NoOriginHeader,
    MissingHeader(Seq<char>),
    InvalidSignature,
    InvalidUserAgent,
    UnsupportedEvent,
}

impl View for Error {
    type V = Fault;

    open spec fn view(&self) -> Fault {
        match self {
            Error::NoOriginHeader => Fault::NoOriginHeader,
            Error::MissingHeader(h) => Fault::MissingHeader(h@),
            Error::InvalidSignature => Fault::InvalidSignature,
            Error::InvalidUserAgent => Fault::InvalidUserAgent,
            Error::UnsupportedEvent => Fault::UnsupportedEvent,
        }
    }
}

/// The fault of a check's result, `None` when it passed.
pub open spec fn fault_of<T>(r: Result<T, Error>) -> Option<Fault> {
    match r {
        Ok(_) => None,
        Err(e) => Some(e@),
    }
}

impl Error {
    /// The HTTP status that answers this refusal.
    pub fn status(&self) -> (r: u16)
        ensures
            r == (if *self == Error::InvalidSignature {
                401u16
            } else {
                400u16
            }),
    {
        match self {
            Error::InvalidSignature => 401,
            _ => 400,
        }
    }

    /// The account of this refusal.
    pub open spec fn message_spec(&self) -> Seq<char> {
        match *self {
            Error::NoOriginHeader => "No provider event header"@,
            Error::MissingHeader(h) => "Missing required header: "@ + h@,
            Error::InvalidSignature => "Invalid signature"@,
            Error::InvalidUserAgent => "Invalid user agent"@,
            Error::UnsupportedEvent => "Unsupported event type"@,
        }
    }

    /// A human-readable account of this refusal.
    pub fn message(&self) -> (r: String)
        ensures
            r@ == self.message_spec(),
    {
        match self {
            Error::MissingHeader(h) => {
                let mut s = "Missing required header: ".to_string();
                s.append(h);
                s
            },
            Error::NoOriginHeader => "No provider event header".to_string(),
            Error::InvalidSignature => "Invalid signature".to_string(),
            Error::InvalidUserAgent => "Invalid user agent".to_string(),
            Error::UnsupportedEvent => "Unsupported event type".to_string(),
        }
    }
}

/// The provider dialect of a delivery.
#[derive(Clone, Copy, Debug, PartialEq, Eq)]
pub enum Origin {
    GitHub,
    GitLab,
    Generic,
}

/// The headers a dialect requires, in the order they are checked.
pub open spec fn required_headers(o: Origin) -> Seq<Seq<char>> {
    match o {
        Origin::GitHub => seq![
            "X-GitHub-Hook-ID"@,
            "X-GitHub-Event"@,
            "X-GitHub-Delivery"@,
            "User-Agent"@,
        ],
        Origin::GitLab => seq![
            "X-Gitlab-Event"@,
            "X-Gitlab-Webhook-UUID"@,
            "X-Gitlab-UUID"@,
            "User-Agent"@,
        ],
        Origin::Generic => seq!["X-Webhook-ID"@, "X-Webhook-Event"@, "User-Agent"@],
    }
}

/// The prefix a dialect demands of the user agent, if any.
pub open spec fn agent_prefix(o: Origin) -> Option<Seq<char>> {
    match o {
        Origin::GitHub => Some("GitHub-Hookshot/"@),
        Origin::GitLab => Some("Gitlab/"@),
        Origin::Generic => None,
    }
}

/// The header that names the event type in a dialect.
pub open spec fn event_header(o: Origin) -> Seq<char> {
    match o {
        Origin::GitHub => "X-GitHub-Event"@,
        Origin::GitLab => "X-Gitlab-Event"@,
        Origin::Generic => "X-Webhook-Event"@,
    }
}

/// The first of `names` that no header carries.
pub open spec fn first_absent(hs: Seq<(Seq<char>, Option<Seq<char>>)>, names: Seq<Seq<char>>) -> Option<
    Seq<char>,
>
    decreases names.len(),
{
    if names.len() == 0 {
        None
    } else if !present(hs, names[0]) {
        Some(names[0])
    } else {
        first_absent(hs, names.drop_first())
    }
}

/// The outcome of header validation: the first required header that is
/// absent; else, for a dialect with an agent prefix, a missing or
/// unreadable user agent, or one without the prefix.
pub open spec fn header_fault(o: Origin, hs: Seq<(Seq<char>, Option<Seq<char>>)>) -> Option<Fault> {
    match first_absent(hs, required_headers(o)) {
        Some(n) => Some(Fault::MissingHeader(n)),
        None => match agent_prefix(o) {
            None => None,
            Some(p) => match text_of(hs, "User-Agent"@) {
                None => Some(Fault::MissingHeader("User-Agent"@)),
                Some(ua) => if p.is_prefix_of(ua) {
                    None
                } else {
                    Some(Fault::InvalidUserAgent)
                },
            },
        },
    }
}

/// Whether a signature header value carries the HMAC of `body`: the
/// SHA-256 MAC under the `sha256=` scheme, or the SHA-1 one under `sha1=`.
pub open spec fn signature_matches(strong: bool, v: Seq<char>, secret: Seq<char>, body: Seq<u8>) -> bool {
    if strong {
        strip_all(v, "sha256="@) == hex_text(hmac_sha256_of(secret, body))
    } else {
        strip_all(v, "sha1="@) == hex_text(hmac_sha1_of(secret, body))
    }
}

/// The check of one present signature header: an unreadable value or a
/// wrong signature both give the same fault.
pub open spec fn claim_fault(
    value: Option<Seq<char>>,
    strong: bool,
    secret: Seq<char>,
    body: Seq<u8>,
) -> Option<Fault> {
    match value {
        Some(v) => if signature_matches(strong, v, secret, body) {
            None
        } else {
            Some(Fault::InvalidSignature)
        },
        None => Some(Fault::InvalidSignature),
    }
}

/// The outcome of an HMAC signature check: the stronger SHA-256 header is
/// preferred when present; without it the SHA-1 header must be there.
pub open spec fn hmac_fault(
    hs: Seq<(Seq<char>, Option<Seq<char>>)>,
    strong: Seq<char>,
    weak: Seq<char>,
    secret: Seq<char>,
    body: Seq<u8>,
) -> Option<Fault> {
    match first_match(hs, strong) {
        Some(v) => claim_fault(v, true, secret, body),
        None => match first_match(hs, weak) {
            None => Some(Fault::MissingHeader(weak)),
            Some(v) => claim_fault(v, false, secret, body),
        },
    }
}

/// The outcome of signature validation in each dialect. GitLab deliveries
/// carry no HMAC: only a readable instance header is demanded of them.
pub open spec fn signature_fault(
    o: Origin,
    hs: Seq<(Seq<char>, Option<Seq<char>>)>,
    secret: Seq<char>,
    body: Seq<u8>,
) -> Option<Fault> {
    match o {
        Origin::GitHub => hmac_fault(
            hs,
            "X-Hub-Signature-256"@,
            "X-Hub-Signature"@,
            secret,
            body,
        ),
        Origin::Generic => hmac_fault(
            hs,
            "X-Webhook-Signature-256"@,
            "X-Webhook-Signature"@,
            secret,
            body,
        ),
        Origin::GitLab => if text_of(hs, "X-Gitlab-Instance"@) is Some {
            None
        } else {
            Some(Fault::MissingHeader("X-Gitlab-Instance"@))
        },
    }
}

/// The dialect that a header list announces, by its event header.
pub open spec fn detected(hs: Seq<(Seq<char>, Option<Seq<char>>)>) -> Option<Origin> {
    if present(hs, "X-GitHub-Event"@) {
        Some(Origin::GitHub)
    } else if present(hs, "X-Gitlab-Event"@) {
        Some(Origin::GitLab)
    } else if present(hs, "X-Webhook-Event"@) {
        Some(Origin::Generic)
    } else {
        None
    }
}

proof fn lemma_first_absent_at(
    hs: Seq<(Seq<char>, Option<Seq<char>>)>,
    names: Seq<Seq<char>>,
    i: int,
)
    requires
        0 <= i < names.len(),
        !present(hs, names[i]),
        forall|j: int| 0 <= j < i ==> present(hs, #[trigger] names[j]),
    ensures
        first_absent(hs, names) == Some(names[i]),
    decreases i,
{
    if i > 0 {
        assert(present(hs, names[0]));
        let rest = names.drop_first();
        assert forall|j: int| 0 <= j < i - 1 implies present(hs, #[trigger] rest[j]) by {
            assert(rest[j] == names[j + 1]);
        }
        lemma_first_absent_at(hs, rest, i - 1);
    }
}

/// A header list that carries every header its dialect requires but one
/// fails header validation with a missing-header fault that names exactly
/// that one.
pub proof fn lemma_missing_header_named(o: Origin, hs: Seq<(Seq<char>, Option<Seq<char>>)>, i: int)
    requires
        0 <= i < required_headers(o).len(),
        !present(hs, required_headers(o)[i]),
        forall|j: int|
            0 <= j < required_headers(o).len() && j != i ==> present(
                hs,
                #[trigger] required_headers(o)[j],
            ),
    ensures
        header_fault(o, hs) == Some(Fault::MissingHeader(required_headers(o)[i])),
{
    lemma_first_absent_at(hs, required_headers(o), i);
}

fn required_header_names(o: Origin) -> (r: Vec<&'static str>)
    ensures
        r@.map_values(|s: &'static str| s@) == required_headers(o),
{
    let r = match o {
        Origin::GitHub => vec!["X-GitHub-Hook-ID", "X-GitHub-Event", "X-GitHub-Delivery", "User-Agent"],
        Origin::GitLab => vec!["X-Gitlab-Event", "X-Gitlab-Webhook-UUID", "X-Gitlab-UUID", "User-Agent"],
        Origin::Generic => vec!["X-Webhook-ID", "X-Webhook-Event", "User-Agent"],
    };
    assert(r@.map_values(|s: &'static str| s@) =~= required_headers(o));
    r
}

fn event_header_name(o: Origin) -> (r: &'static str)
    ensures
        r@ == event_header(o),
{
    match o {
        Origin::GitHub => "X-GitHub-Event",
        Origin::GitLab => "X-Gitlab-Event",
        Origin::Generic => "X-Webhook-Event",
    }
}

impl Default for Origin {
    /// GitHub is the default dialect.
    fn default() -> (r: Origin)
        ensures
            r == Origin::GitHub,
    {
        Origin::GitHub
    }
}

impl Origin {
    /// Detects the dialect of a delivery from its event header.
    pub fn detect(headers: &Headers) -> (r: Result<Origin, Error>)
        ensures
            match detected(headers@) {
                Some(o) => r == Ok::<Origin, Error>(o),
                None => r matches Err(Error::NoOriginHeader),
            },
    {
        if headers.contains("X-GitHub-Event") {
            Ok(Origin::GitHub)
        } else if headers.contains("X-Gitlab-Event") {
            Ok(Origin::GitLab)
        } else if headers.contains("X-Webhook-Event") {
            Ok(Origin::Generic)
        } else {
            Err(Error::NoOriginHeader)
        }
    }
}

/// The checks of a provider dialect.
pub trait WebhookOrigin {
    /// The dialect whose rules these checks follow.
    spec fn dialect(&self) -> Origin;

    /// Checks that the dialect's required headers are there and that the
    /// user agent carries the dialect's prefix.
    fn validate_headers(&self, headers: &Headers) -> (r: Result<(), Error>)
        ensures
            fault_of(r) == header_fault(self.dialect(), headers@),
    ;

    /// Reads the event type from the dialect's event header.
    fn extract_event_type(&self, headers: &Headers) -> (r: Result<String, Error>)
        ensures
            match r {
                Ok(s) => text_of(headers@, event_header(self.dialect())) == Some(s@),
                Err(e) => text_of(headers@, event_header(self.dialect())) is None && e@
                    == Fault::MissingHeader(event_header(self.dialect())),
            },
    ;

    /// Verifies the delivery's signature over the raw body with `secret`.
    fn validate_signature(&self, headers: &Headers, secret: &str, body: &[u8]) -> (r: Result<
        (),
        Error,
    >)
        ensures
            fault_of(r) == signature_fault(self.dialect(), headers@, secret@, body@),
    ;
}

impl WebhookOrigin for Origin {
    open spec fn dialect(&self) -> Origin {
        *self
    }

    /// Checks that the dialect's required headers are there and that the
    /// user agent carries the dialect's prefix.
    fn validate_headers(&self, headers: &Headers) -> (r: Result<(), Error>)
    {
        let names = required_header_names(*self);
        let ghost spec_names = required_headers(*self);
        let n = names.len();
        let mut i: usize = 0;
        assert(spec_names.subrange(0, n as int) =~= spec_names);
        while i < n
            invariant
                n == names@.len(),
                spec_names == names@.map_values(|s: &'static str| s@),
                spec_names == required_headers(*self),
                i <= n,
                first_absent(headers@, spec_names) == first_absent(
                    headers@,
                    spec_names.subrange(i as int, n as int),
                ),
            decreases n - i,
        {
            let name = names[i];
            let ghost rest = spec_names.subrange(i as int, n as int);
            assert(rest[0] == name@);
            if !headers.contains(name) {
                return Err(Error::MissingHeader(name));
            }
            assert(rest.drop_first() =~= spec_names.subrange(i + 1, n as int));
            i = i + 1;
        }
        assert(spec_names.subrange(n as int, n as int) =~= Seq::<Seq<char>>::empty());
        let prefix = match self {
            Origin::GitHub => "GitHub-Hookshot/",
            Origin::GitLab => "Gitlab/",
            Origin::Generic => {
                return Ok(());
            },
        };
        match headers.text("User-Agent") {
            None => Err(Error::MissingHeader("User-Agent")),
            Some(ua) => {
                if has_prefix(prefix, ua.as_str()) {
                    Ok(())
                } else {
                    Err(Error::InvalidUserAgent)
                }
            },
        }
    }

    /// Reads the event type from the dialect's event header.
    fn extract_event_type(&self, headers: &Headers) -> (r: Result<String, Error>)
    {
        let name = event_header_name(*self);
        match headers.text(name) {
            Some(v) => Ok(v.clone()),
            None => Err(Error::MissingHeader(name)),
        }
    }

    /// Verifies the delivery's signature over the raw body with `secret`.
    fn validate_signature(&self, headers: &Headers, secret: &str, body: &[u8]) -> (r: Result<
        (),
        Error,
    >)
    {
        match self {
            Origin::GitHub => validate_hmac(
                headers,
                "X-Hub-Signature-256",
                "X-Hub-Signature",
                secret,
                body,
            ),
            Origin::Generic => validate_hmac(
                headers,
                "X-Webhook-Signature-256",
                "X-Webhook-Signature",
                secret,
                body,
            ),
            Origin::GitLab => {
                if headers.text("X-Gitlab-Instance").is_some() {
                    Ok(())
                } else {
                    Err(Error::MissingHeader("X-Gitlab-Instance"))
                }
            },
        }
    }
}

fn check_claim(value: &Option<String>, strong: bool, secret: &str, body: &[u8]) -> (r: Result<
    (),
    Error,
>)
    ensures
        fault_of(r) == claim_fault(opt_view(*value), strong, secret@, body@),
{
    let valid = match value {
        None => false,
        Some(v) => if strong {
            sha256_signature_valid(v.as_str(), secret, body)
        } else {
            sha1_signature_valid(v.as_str(), secret, body)
        },
    };
    if valid {
        Ok(())
    } else {
        Err(Error::InvalidSignature)
    }
}

fn validate_hmac(
    headers: &Headers,
    strong: &'static str,
    weak: &'static str,
    secret: &str,
    body: &[u8],
) -> (r: Result<(), Error>)
    ensures
        fault_of(r) == hmac_fault(headers@, strong@, weak@, secret@, body@),
{
    match headers.lookup(strong) {
        Some(v) => check_claim(v, true, secret, body),
        None => match headers.lookup(weak) {
            None => Err(Error::MissingHeader(weak)),
            Some(v) => check_claim(v, false, secret, body),
        },
    }
}

/// The checks for GitHub deliveries.
pub struct GitHubValidator;

impl WebhookOrigin for GitHubValidator {
    open spec fn dialect(&self) -> Origin {
        Origin::GitHub
    }

    fn validate_headers(&self, headers: &Headers) -> (r: Result<(), Error>) {
        Origin::GitHub.validate_headers(headers)
    }

    fn extract_event_type(&self, headers: &Headers) -> (r: Result<String, Error>) {
        Origin::GitHub.extract_event_type(headers)
    }

    fn validate_signature(&self, headers: &Headers, secret: &str, body: &[u8]) -> (r: Result<
        (),
        Error,
    >) {
        Origin::GitHub.validate_signature(headers, secret, body)
    }
}

/// The checks for GitLab deliveries.
pub struct GitLabValidator;

impl WebhookOrigin for GitLabValidator {
    open spec fn dialect(&self) -> Origin {
        Origin::GitLab
    }

    fn validate_headers(&self, headers: &Headers) -> (r: Result<(), Error>) {
        Origin::GitLab.validate_headers(headers)
    }

    fn extract_event_type(&self, headers: &Headers) -> (r: Result<String, Error>) {
        Origin::GitLab.extract_event_type(headers)
    }

    fn validate_signature(&self, headers: &Headers, secret: &str, body: &[u8]) -> (r: Result<
        (),
        Error,
    >) {
        Origin::GitLab.validate_signature(headers, secret, body)
    }
}

/// The checks for generic webhook deliveries.
pub struct WebhookValidator;

impl WebhookOrigin for WebhookValidator {
    open spec fn dialect(&self) -> Origin {
        Origin::Generic
    }

    fn validate_headers(&self, headers: &Headers) -> (r: Result<(), Error>) {
        Origin::Generic.validate_headers(headers)
    }

    fn extract_event_type(&self, headers: &Headers) -> (r: Result<String, Error>) {
        Origin::Generic.extract_event_type(headers)
    }

    fn validate_signature(&self, headers: &Headers, secret: &str, body: &[u8]) -> (r: Result<
        (),
        Error,
    >) {
        Origin::Generic.validate_signature(headers, secret, body)
    }
}

} // verus!

//! The request lifecycle up to dispatch: origin detection, header
//! validation, routing, signature verification, then the event filter, in
//! that order; and the HTTP answer for each outcome.

use crate::config::{holds_text, route, text_set, views, Config, WebhookConfig, WebhookView};
use crate::dispatch::ExecError;
use crate::headers::{text_of, Headers};
use crate::origin::{
    detected, event_header, header_fault, signature_fault, Error, Fault, Origin, WebhookOrigin,
};
use crate::template::{render_secret, render_spec};
use vstd::prelude::*;

verus! {

/// Why a delivery was turned away before dispatch.
pub enum HeaderValidationError {
    /// A header, user-agent or signature check failed.
    OriginValidation(Error),
    /// No webhook is routed at the path.
    WebhookNotFound,
    /// The webhook does not accept this event type.
    EventNotAllowed(String),
}

/// A delivery that passed every check.
pub struct Admission<'a> {
    pub origin: Origin,
    pub event_type: String,
    pub webhook: &'a WebhookConfig,
}

/// How a delivery fares before dispatch, as values.
pub enum Verdict {
    Refused(Fault),
    NotFound,
    EventNotAllowed(Seq<char>),
    Admitted(Origin, Seq<char>, WebhookView),
}

/// An event type passes a webhook's filter when the filter is empty,
/// holds the wildcard `*`, or names the event.
pub open spec fn event_allowed(events: Set<Seq<char>>, event: Seq<char>) -> bool {
    events.is_empty() || events.contains("*"@) || events.contains(event)
}

/// The key a secret renders to for an event type; the literal secret when
/// it does not render.
pub open spec fn secret_key(secret: Seq<char>, event: Seq<char>) -> Seq<char> {
    match render_spec(seq![("event.type"@, event)], secret) {
        Some(s) => s,
        None => secret,
    }
}

/// The event filter, the last step.
pub open spec fn filter_verdict(o: Origin, event: Seq<char>, w: WebhookView) -> Verdict {
    if event_allowed(w.events, event) {
        Verdict::Admitted(o, event, w)
    } else {
        Verdict::EventNotAllowed(event)
    }
}

/// What the pipeline decides for a delivery to `path` with these headers
/// and raw body, against a routing table.
pub open spec fn verdict(
    ws: Seq<WebhookView>,
    path: Seq<char>,
    hs: Seq<(Seq<char>, Option<Seq<char>>)>,
    body: Seq<u8>,
) -> Verdict {
    match detected(hs) {
        None => Verdict::Refused(Fault::NoOriginHeader),
        Some(o) => match header_fault(o, hs) {
            Some(f) => Verdict::Refused(f),
            None => match route(ws, path) {
                None => Verdict::NotFound,
                Some(w) => match text_of(hs, event_header(o)) {
                    None => Verdict::Refused(Fault::MissingHeader(event_header(o))),
                    Some(event) => match w.secret {
                        None => filter_verdict(o, event, w),
                        Some(secret) => match signature_fault(
                            o,
                            hs,
                            secret_key(secret, event),
                            body,
                        ) {
                            Some(f) => Verdict::Refused(f),
                            None => filter_verdict(o, event, w),
                        },
                    },
                },
            },
        },
    }
}

/// The verdict a pipeline result stands for.
pub open spec fn verdict_of(r: Result<Admission, HeaderValidationError>) -> Verdict {
    match r {
        Ok(a) => Verdict::Admitted(a.origin, a.event_type@, a.webhook@),
        Err(HeaderValidationError::OriginValidation(e)) => Verdict::Refused(e@),
        Err(HeaderValidationError::WebhookNotFound) => Verdict::NotFound,
        Err(HeaderValidationError::EventNotAllowed(e)) => Verdict::EventNotAllowed(e@),
    }
}

/// Whether a webhook's filter lets the event through.
pub fn allows_event(webhook: &WebhookConfig, event: &str) -> (r: bool)
    ensures
        r == event_allowed(webhook@.events, event@),
{
    if webhook.events.len() == 0 {
        assert(text_set(webhook.events@) =~= Set::<Seq<char>>::empty());
        return true;
    }
    assert(text_set(webhook.events@).contains(webhook.events@[0]@));
    holds_text(&webhook.events, &"*".to_string()) || holds_text(&webhook.events, &event.to_string())
}

/// Runs a delivery through the checks, in order; the first that fails
/// decides the rejection.
pub fn screen<'a>(config: &'a Config, path: &str, headers: &Headers, body: &[u8]) -> (r: Result<
    Admission<'a>,
    HeaderValidationError,
>)
    ensures
        verdict_of(r) == verdict(views(config.webhooks@), path@, headers@, body@),
{
    let origin = match Origin::detect(headers) {
        Ok(o) => o,
        Err(e) => {
            return Err(HeaderValidationError::OriginValidation(e));
        },
    };
    if let Err(e) = origin.validate_headers(headers) {
        return Err(HeaderValidationError::OriginValidation(e));
    }
    let webhook = match config.find(path) {
        Some(w) => w,
        None => {
            return Err(HeaderValidationError::WebhookNotFound);
        },
    };
    let event_type = match origin.extract_event_type(headers) {
        Ok(e) => e,
        Err(e) => {
            return Err(HeaderValidationError::OriginValidation(e));
        },
    };
    if let Some(secret) = &webhook.secret {
        let key = render_secret(secret.as_str(), event_type.as_str());
        if let Err(e) = origin.validate_signature(headers, key.as_str(), body) {
            return Err(HeaderValidationError::OriginValidation(e));
        }
    }
    if allows_event(webhook, event_type.as_str()) {
        Ok(Admission { origin, event_type, webhook })
    } else {
        Err(HeaderValidationError::EventNotAllowed(event_type))
    }
}

impl HeaderValidationError {
    /// The HTTP status that answers this rejection.
    pub fn status(&self) -> (r: u16)
        ensures
            r == match *self {
                HeaderValidationError::OriginValidation(Error::InvalidSignature) => 401u16,
                HeaderValidationError::WebhookNotFound => 404u16,
                _ => 400u16,
            },
    {
        match self {
            HeaderValidationError::OriginValidation(e) => e.status(),
            HeaderValidationError::WebhookNotFound => 404,
            HeaderValidationError::EventNotAllowed(_) => 400,
        }
    }

    /// A human-readable account of this rejection.
    pub fn message(&self) -> (r: String)
        ensures
            r@ == match *self {
                HeaderValidationError::OriginValidation(e) => e.message_spec(),
                HeaderValidationError::WebhookNotFound => "Webhook not configured"@,
                HeaderValidationError::EventNotAllowed(ev) => "Event '"@ + ev@ + "' not allowed"@,
            },
    {
        match self {
            HeaderValidationError::OriginValidation(e) => e.message(),
            HeaderValidationError::WebhookNotFound => "Webhook not configured".to_string(),
            HeaderValidationError::EventNotAllowed(ev) => {
                let mut m = "Event '".to_string();
                m.append(ev.as_str());
                m.append("' not allowed");
                m
            },
        }
    }
}

/// The HTTP answer to a dispatch: 200 with the output, or 500 with the
/// failure's account.
pub fn respond(outcome: Result<String, ExecError>) -> (r: (u16, String))
    ensures
        match outcome {
            Ok(out) => r.0 == 200 && r.1@ == out@,
            Err(e) => r.0 == 500 && r.1@ == e.message_spec(),
        },
{
    match outcome {
        Ok(out) => (200, out),
        Err(e) => (500, e.message()),
    }
}

} // verus!

//! Authentication and dispatch core of a webhook gateway: header and
//! signature checks for several provider dialects, a mergeable routing
//! table, template namespaces built from JSON payloads, and the decisions
//! that turn an authenticated delivery into a process invocation.

pub mod config;
pub mod dispatch;
pub mod gateway;
pub mod headers;
pub mod origin;
pub mod signature;
pub mod template;

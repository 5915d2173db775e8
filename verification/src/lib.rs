//! Serverless DNS over HTTPS resolver core: blocklist normalization, lookup and
//! artifact building, and the policy that a resolver applies to queries.

pub mod artifact;
pub mod base64url;
pub mod blocklist;
pub mod dns;
pub mod domain;
pub mod encode;
pub mod order;
pub mod parser;
pub mod resolve;
pub mod service;
pub mod text;
pub mod trie;

pub use crate::blocklist::{Blocklist, CompiledList, ListEntry, Manifest, Overlay};
pub use crate::domain::{encode_domain_key, normalize_domain, normalize_rule};
pub use crate::resolve::{
    decode_get_query, resolve_query, ResolveDecision, ResolveError, DEFAULT_UPSTREAM_DOH,
    DNS_MESSAGE_CONTENT_TYPE,
};

//! Validator for OpenAKB agent knowledge base descriptors.
//!
//! A descriptor is checked against the OpenAKB v1 JSON Schema, the
//! descriptor-local semantic rules and, in strict mode, the unknown-core-member
//! lint. Every finding carries a stable diagnostic code `AKB001`-`AKB012`.
//! Opt-in content checks verify hashes of fetched guide, capture, section and
//! sidecar bytes, the citations of fetched Markdown content, the binding and
//! references of provenance sidecars, and claim quotes against the captures
//! they cite; inline citations can also be extracted from Markdown content.

pub mod assoc;
pub mod catalog;
pub mod cite_check;
pub mod citations;
pub mod content;
pub mod graph;
pub mod json;
pub mod order;
pub mod quote;
pub mod result;
pub mod schema;
pub mod semantic;
pub mod shape;
pub mod sidecar;
pub mod strict;
pub mod text;
pub mod validator;

pub use catalog::{Code, LOCAL_ID_CHARSET, LOCAL_ID_MAX_LENGTH, PARENT_DEPTH_MAX, STRUCTURAL_DEPTH_MAX};
pub use citations::{extract_citations, Citation};
pub use content::{
    check_content_with, content_requests, CheckKind, ContentCheck, ContentReport, LocalFileResolver, Outcome,
    Unfetchable,
};
pub use json::Json;
pub use result::{json_pointer, Advisory, Finding, Segment, ValidationResult};
pub use validator::{validate, FullReport, Mode};

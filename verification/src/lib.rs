//! Document ingestion and encrypted storage for a local reading library.
//!
//! A raw file is classified by extension and magic bytes, its text is
//! extracted per format, sanitized, and assembled into an immutable
//! [`state::Document`].  Documents are persisted through an encrypted
//! key-value store: each record is serialized to JSON, sealed with
//! AES-256-GCM under a per-origin key, and base64-encoded.

pub mod codec;
pub mod crypto;
pub mod host;
pub mod parser;
pub mod state;
pub mod storage;
pub mod text;

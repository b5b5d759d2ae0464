//! Scans Certificate Transparency logs for X.509 certificates whose
//! extension set contains operator-chosen object identifiers (for example
//! `nameConstraints`), and emits the matching certificates together with
//! their issuer chain.
//!
//! The crate is organised bottom-up:
//! - [`encoding`]: big-endian integers, lexicographic byte order and
//!   lowercase hex on byte strings;
//! - [`oid`]: object identifiers as arc sequences;
//! - [`der`]: the DER descent that lists a certificate's extension OIDs;
//! - [`ct`]: the RFC 6962 binary decoder for `leaf_input` / `extra_data`;
//! - [`cache`]: the key and value byte formats of the on-disk entry cache;
//! - [`download`]: the ranged `get-entries` walk with adaptive batching;
//! - [`pipeline`]: log resolution and the per-entry match pipeline;
//! - [`errors`]: the error taxonomy shared by all of them.
//!
//! Input/output stays with the caller: HTTP transport, the key-value
//! store and the live-stream tail client hand this library plain bytes
//! and strings, and take plain values back.

pub mod cache;
pub mod ct;
pub mod der;
pub mod download;
pub mod encoding;
pub mod errors;
pub mod oid;
pub mod pipeline;

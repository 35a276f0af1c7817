//! An encrypted HTTP forward proxy, as a verified core.
//!
//! The crate holds the three parts that decide what the proxy does: the
//! chunked AEAD framing of payloads, the password-derived keys with their
//! public fingerprints, and the rules by which a request is rebuilt and a
//! response's headers are rewritten. Sockets, the HTTP client and the HTTP
//! server are left to the program around it.

pub mod chunk;
pub mod envelope;
pub mod errors;
pub mod forward;
pub mod frame;
pub mod handle;
pub mod keys;
pub mod pipeline;
pub mod rewrite;
pub mod text;
pub mod wire;

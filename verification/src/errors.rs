//! The kinds of failure that the proxy tells apart.

use vstd::prelude::*;

verus! {

/// Why a request or a stream was given up.
#[derive(Clone, Copy, Debug, PartialEq, Eq, Structural)]
pub enum ProxyError {
    /// The fingerprint is not in the keystore.
    AuthenticationFailure,
    /// The AEAD tag did not match: wrong key, or bytes changed on the way.
    DecryptionFailure,
    /// A frame or an envelope is malformed, truncated or too large to frame.
    FormatError,
    /// The origin could not be reached or did not answer.
    UpstreamError,
    /// The peer went away in the middle of a stream.
    StreamAbort,
}

/// The HTTP status that an error is answered with: a client error for what
/// the client sent wrongly, a server error for what the origin failed to do.
/// A stream that the client left gets no answer; its status, 499, is for the
/// record only.
pub open spec fn status_of(e: ProxyError) -> u16 {
    match e {
        ProxyError::AuthenticationFailure => 403,
        ProxyError::DecryptionFailure => 400,
        ProxyError::FormatError => 400,
        ProxyError::UpstreamError => 502,
        ProxyError::StreamAbort => 499,
    }
}

impl ProxyError {
    /// The HTTP status for this error.
    pub fn status(&self) -> (code: u16)
        ensures
            code == status_of(*self),
    {
        match self {
            ProxyError::AuthenticationFailure => 403,
            ProxyError::DecryptionFailure => 400,
            ProxyError::FormatError => 400,
            ProxyError::UpstreamError => 502,
            ProxyError::StreamAbort => 499,
        }
    }

    /// Whether the error is the client's (a 4xx status) rather than the
    /// origin's.
    pub fn is_client_error(&self) -> (b: bool)
        ensures
            b == (400 <= status_of(*self) < 500),
    {
        match self {
            ProxyError::UpstreamError => false,
            _ => true,
        }
    }
}

} // verus!

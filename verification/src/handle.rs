//! One proxied request, from the inbound bytes to the request for the
//! origin, and the client's side of the same exchange.
//!
//! Everything that can be refused is refused here, in this order and before
//! anything is sent on: a fingerprint that is not known, a body that is no
//! whole frame or does not open under the fingerprint's key, a plaintext
//! that is no envelope, a method that is no method.

use crate::envelope::{headers_view, Envelope, ProxyRequest};
use crate::errors::{status_of, ProxyError};
use crate::forward::{is_method, outbound_of, prepare, text_view, OutboundRequest};
use crate::frame::{
    aes256gcm_seal, announced_length, decode_once_spec, fresh_nonce, has_whole_frame, is_frame_of,
    lemma_decode_inverts_encode, seals_to, wire_frame, EncryptionCodec, MAX_PLAINTEXT,
};
use crate::keys::Keystore;
use crate::rewrite::{rewrite_response_headers, rewritten, serving_host};
use crate::wire::{lemma_parse_of_packed, packable, packed, parse_envelope};
use vstd::prelude::*;

verus! {

/// What the proxy does for an inbound request that it accepts.
pub struct Plan {
    /// The key of the client, under which the response is sealed.
    pub key: [u8; 32],
    /// The request to make of the origin.
    pub request: OutboundRequest,
}

/// The status that answers a fingerprint: 200 for one that is known, 403 for
/// any other.
pub open spec fn key_status(store: Map<Seq<char>, Seq<u8>>, fingerprint: Seq<char>) -> u16 {
    if store.contains_key(fingerprint) {
        200
    } else {
        403
    }
}

/// What becomes of an inbound request: the key and the request for the
/// origin, or the reason why it is refused.
pub open spec fn opened(
    store: Map<Seq<char>, Seq<u8>>,
    fingerprint: Seq<char>,
    body: Seq<u8>,
    cookie: Option<Seq<char>>,
) -> Result<(Seq<u8>, Envelope), ProxyError> {
    if !store.contains_key(fingerprint) {
        Err(ProxyError::AuthenticationFailure)
    } else {
        match decode_once_spec(store[fingerprint], body) {
            Err(e) => Err(e),
            Ok(plaintext) => match parse_envelope(plaintext) {
                None => Err(ProxyError::FormatError),
                Some(e) => if is_method(e.method) {
                    Ok((store[fingerprint], outbound_of(e, cookie)))
                } else {
                    Err(ProxyError::FormatError)
                },
            },
        }
    }
}

/// Answers the question whether a fingerprint is authorized, with an HTTP
/// status and nothing else.
pub fn check_key(keystore: &Keystore, fingerprint: &str) -> (status: u16)
    ensures
        status == key_status(keystore@, fingerprint@),
{
    if keystore.contains(fingerprint) {
        200
    } else {
        403
    }
}

/// Opens an inbound request: looks up the key of the fingerprint, opens the
/// body under it, reads the envelope, and makes the request for the origin
/// with the cookie that the inbound request carried. A body whose frame
/// holds less than a tag is never opened.
pub fn open_request(
    keystore: &Keystore,
    fingerprint: &str,
    body: &[u8],
    cookie: Option<&str>,
) -> (r: Result<Plan, ProxyError>)
    ensures
        r is Ok <==> opened(keystore@, fingerprint@, body@, text_view(cookie)) is Ok,
        r matches Ok(plan) ==> opened(keystore@, fingerprint@, body@, text_view(cookie)) == Ok::<
            (Seq<u8>, Envelope),
            ProxyError,
        >((plan.key@, plan.request@)),
        r matches Err(e) ==> opened(keystore@, fingerprint@, body@, text_view(cookie)) == Err::<
            (Seq<u8>, Envelope),
            ProxyError,
        >(e),
        r is Ok ==> has_whole_frame(body@) && announced_length(body@) >= 16,
{
    let key = match keystore.lookup(fingerprint) {
        Some(key) => key,
        None => {
            return Err(ProxyError::AuthenticationFailure);
        },
    };
    let codec = EncryptionCodec::new(key);
    let plaintext = match codec.decode_once(body) {
        Ok(plaintext) => plaintext,
        Err(e) => {
            return Err(e);
        },
    };
    let envelope = match ProxyRequest::deserialize(plaintext.as_slice()) {
        Ok(envelope) => envelope,
        Err(e) => {
            return Err(ProxyError::FormatError);
        },
    };
    proof {
        lemma_parse_of_packed(envelope@);
    }
    match prepare(&envelope, cookie) {
        Ok(request) => Ok(Plan { key, request }),
        Err(e) => Err(ProxyError::FormatError),
    }
}

/// What the origin did with the request.
pub enum OriginOutcome {
    /// The origin answered with a status and headers; the body follows.
    Answered { status: u16, headers: Vec<(String, String)> },
    /// The origin could not be reached, or did not answer in time.
    Failed,
}

/// The status and the headers that the proxy answers with.
pub struct ResponseHead {
    /// The HTTP status.
    pub status: u16,
    /// The headers, in the order in which they are sent.
    pub headers: Vec<(String, String)>,
    /// Whether a body follows: the origin's, in frames.
    pub has_body: bool,
}

/// The head of the answer to a request that was refused: the status of the
/// error, no headers and no body.
pub fn refusal_head(error: ProxyError) -> (head: ResponseHead)
    ensures
        head.status == status_of(error),
        head.headers@.len() == 0,
        !head.has_body,
{
    ResponseHead { status: error.status(), headers: Vec::new(), has_body: false }
}

/// The head of the answer to a request that was sent on: the origin's own
/// status with its headers rewritten, whatever that status is, or the
/// refusal for an upstream error where the origin failed.
pub fn response_head(outcome: &OriginOutcome, host_header: &str, url: &str) -> (head: ResponseHead)
    ensures
        *outcome matches OriginOutcome::Answered { status, headers } ==> (head.status == status
            && head.has_body && headers_view(head.headers@) == rewritten(
            headers_view(headers@),
            serving_host(host_header@),
            url@,
        )),
        *outcome is Failed ==> (head.status == status_of(ProxyError::UpstreamError)
            && head.headers@.len() == 0 && !head.has_body),
{
    match outcome {
        OriginOutcome::Answered { status, headers } => ResponseHead {
            status: *status,
            headers: rewrite_response_headers(headers, host_header, url),
            has_body: true,
        },
        OriginOutcome::Failed => refusal_head(ProxyError::UpstreamError),
    }
}

/// The client's side, under the nonce that is given: writes an envelope in
/// its binary form and seals it into one frame under the client's key. An
/// envelope that has no binary form, or whose binary form is too long for one
/// frame, is refused. The caller answers for the nonce: under one key no
/// nonce may be given twice.
pub fn serialize_proxy_request_with_nonce(
    request: &ProxyRequest,
    key: &[u8; 32],
    nonce: &[u8; 12],
) -> (r: Result<Vec<u8>, ProxyError>)
    ensures
        packable(request@) && packed(request@).len() <= MAX_PLAINTEXT ==> (r matches Ok(frame)
            && frame@ == wire_frame(nonce@, aes256gcm_seal(key@, nonce@, packed(request@)))
            && seals_to(
            key@,
            nonce@,
            packed(request@),
            aes256gcm_seal(key@, nonce@, packed(request@)),
        )),
        !(packable(request@) && packed(request@).len() <= MAX_PLAINTEXT) ==> r matches Err(
            ProxyError::FormatError,
        ),
{
    let bytes = match request.serialize() {
        Ok(bytes) => bytes,
        Err(e) => {
            return Err(ProxyError::FormatError);
        },
    };
    let codec = EncryptionCodec::new(*key);
    match codec.encode_once_with_nonce(nonce, bytes.as_slice()) {
        Ok(frame) => Ok(frame),
        Err(e) => Err(ProxyError::FormatError),
    }
}

/// The client's side: writes an envelope in its binary form and seals it
/// into one frame under the client's key and a freshly drawn nonce. An
/// envelope that has no binary form, or whose binary form is too long for one
/// frame, is refused.
pub fn serialize_proxy_request(request: &ProxyRequest, key: &[u8; 32]) -> (r: Result<
    Vec<u8>,
    ProxyError,
>)
    ensures
        packable(request@) && packed(request@).len() <= MAX_PLAINTEXT ==> (r matches Ok(frame)
            && is_frame_of(key@, packed(request@), frame@)),
        !(packable(request@) && packed(request@).len() <= MAX_PLAINTEXT) ==> r matches Err(
            ProxyError::FormatError,
        ),
{
    let nonce = fresh_nonce();
    let r = serialize_proxy_request_with_nonce(request, key, &nonce);
    proof {
        if packable(request@) && packed(request@).len() <= MAX_PLAINTEXT {
            let ciphertext = aes256gcm_seal(key@, nonce@, packed(request@));
            assert(is_frame_of(key@, packed(request@), wire_frame(nonce@, ciphertext)));
        }
    }
    r
}

/// End to end: what a client seals under a key whose fingerprint the
/// keystore knows, the proxy opens to the request that the client described,
/// the URL raised to `https` and the cookie taken from the inbound request.
pub proof fn lemma_sealed_request_opens(
    store: Map<Seq<char>, Seq<u8>>,
    fingerprint: Seq<char>,
    e: Envelope,
    frame: Seq<u8>,
    cookie: Option<Seq<char>>,
)
    requires
        store.contains_key(fingerprint),
        packable(e),
        packed(e).len() <= MAX_PLAINTEXT,
        is_frame_of(store[fingerprint], packed(e), frame),
        is_method(e.method),
    ensures
        opened(store, fingerprint, frame, cookie) == Ok::<(Seq<u8>, Envelope), ProxyError>(
            (store[fingerprint], outbound_of(e, cookie)),
        ),
{
    lemma_decode_inverts_encode(store[fingerprint], packed(e), frame);
    lemma_parse_of_packed(e);
}

/// A request under a fingerprint that the keystore does not know is refused
/// before anything is opened, whatever its body holds.
pub proof fn lemma_unknown_fingerprint_refused(
    store: Map<Seq<char>, Seq<u8>>,
    fingerprint: Seq<char>,
    body: Seq<u8>,
    cookie: Option<Seq<char>>,
)
    requires
        !store.contains_key(fingerprint),
    ensures
        opened(store, fingerprint, body, cookie) == Err::<(Seq<u8>, Envelope), ProxyError>(
            ProxyError::AuthenticationFailure,
        ),
{
}

} // verus!

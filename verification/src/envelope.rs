//! The request envelope: an HTTP request as the client describes it.

use vstd::prelude::*;

verus! {

/// An HTTP request to be made on the client's behalf. The order of the
/// headers matters: the proxy replays them as they stand.
pub struct ProxyRequest {
    /// The address to ask.
    pub url: String,
    /// The HTTP method.
    pub method: String,
    /// The request headers, as pairs of name and value.
    pub headers: Vec<(String, String)>,
    /// The request body, where there is one.
    pub body: Option<Vec<u8>>,
}

/// A request as a mathematical value: what an envelope says, and what a
/// request for the origin says.
pub struct Envelope {
    /// The address.
    pub url: Seq<char>,
    /// The HTTP method.
    pub method: Seq<char>,
    /// The headers in their order, each a name and a value.
    pub headers: Seq<(Seq<char>, Seq<char>)>,
    /// The body, where there is one.
    pub body: Option<Seq<u8>>,
}

/// A header as a pair of texts.
pub open spec fn header_view(h: (String, String)) -> (Seq<char>, Seq<char>) {
    (h.0@, h.1@)
}

/// A list of headers as a sequence of pairs of texts.
pub open spec fn headers_view(hs: Seq<(String, String)>) -> Seq<(Seq<char>, Seq<char>)> {
    hs.map_values(|h: (String, String)| header_view(h))
}

/// An optional byte buffer as an optional sequence of bytes.
pub open spec fn body_view(body: Option<Vec<u8>>) -> Option<Seq<u8>> {
    match body {
        Some(b) => Some(b@),
        None => None,
    }
}

impl View for ProxyRequest {
    type V = Envelope;

    open spec fn view(&self) -> Envelope {
        Envelope {
            url: self.url@,
            method: self.method@,
            headers: headers_view(self.headers@),
            body: body_view(self.body),
        }
    }
}

} // verus!

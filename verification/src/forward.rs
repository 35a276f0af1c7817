//! The forwarder's rules: how the request that goes to the origin is made
//! from the envelope and from what the inbound request itself carried.

use crate::envelope::{body_view, headers_view, Envelope, ProxyRequest};
use crate::errors::ProxyError;
use crate::text::{
    chars_of, joined, lower, lowered, same_chars, slice_chars, starts_with, string_of,
};
use vstd::prelude::*;
use vstd::slice::slice_to_vec;

verus! {

/// The request as it is sent to the origin.
pub struct OutboundRequest {
    /// The address, with `https` in place of `http`.
    pub url: String,
    /// The HTTP method, a valid token.
    pub method: String,
    /// The headers, the cookie taken from the inbound request.
    pub headers: Vec<(String, String)>,
    /// The body, where there is one.
    pub body: Option<Vec<u8>>,
}

impl View for OutboundRequest {
    type V = Envelope;

    open spec fn view(&self) -> Envelope {
        Envelope {
            url: self.url@,
            method: self.method@,
            headers: headers_view(self.headers@),
            body: body_view(self.body),
        }
    }
}

/// A URL with the scheme `http` raised to `https`; any other URL as it is.
pub open spec fn force_https_spec(url: Seq<char>) -> Seq<char> {
    if "http://"@.is_prefix_of(url) {
        "https://"@ + url.subrange(7, url.len() as int)
    } else {
        url
    }
}

/// Whether a name is `cookie`, in any case.
pub open spec fn is_cookie(name: Seq<char>) -> bool {
    lower(name) == "cookie"@
}

/// The headers that go to the origin: those of the envelope as they stand,
/// or, where the inbound request carried a cookie, those of the envelope
/// without their own cookies, and that cookie behind them.
pub open spec fn outbound_headers(
    headers: Seq<(Seq<char>, Seq<char>)>,
    cookie: Option<Seq<char>>,
) -> Seq<(Seq<char>, Seq<char>)> {
    match cookie {
        None => headers,
        Some(c) => headers.filter(|h: (Seq<char>, Seq<char>)| !is_cookie(h.0)).push(
            ("cookie"@, c),
        ),
    }
}

/// The request that goes to the origin for an envelope and the cookie of the
/// inbound request: the URL raised to `https`, the method and the body as
/// they are, the headers with the cookie replaced.
pub open spec fn outbound_of(e: Envelope, cookie: Option<Seq<char>>) -> Envelope {
    Envelope {
        url: force_https_spec(e.url),
        method: e.method,
        headers: outbound_headers(e.headers, cookie),
        body: e.body,
    }
}

/// A character that may stand in an HTTP method: a letter, a digit, or one of
/// ``!#$%&'*+-.^_`|~``.
pub open spec fn is_token_char(c: char) -> bool {
    ||| ('a' <= c && c <= 'z')
    ||| ('A' <= c && c <= 'Z')
    ||| ('0' <= c && c <= '9')
    ||| c == '!'
    ||| c == '#'
    ||| c == '$'
    ||| c == '%'
    ||| c == '&'
    ||| c == '\''
    ||| c == '*'
    ||| c == '+'
    ||| c == '-'
    ||| c == '.'
    ||| c == '^'
    ||| c == '_'
    ||| c == '`'
    ||| c == '|'
    ||| c == '~'
}

/// Whether a text is an HTTP method: one token character or more.
pub open spec fn is_method(method: Seq<char>) -> bool {
    method.len() > 0 && forall|i: int| 0 <= i < method.len() ==> is_token_char(#[trigger] method[i])
}

/// An optional text as an optional sequence of characters.
pub open spec fn text_view(text: Option<&str>) -> Option<Seq<char>> {
    match text {
        Some(t) => Some(t@),
        None => None,
    }
}

/// Asks `Method::from_bytes` of the `http` crate whether it takes the text
/// as a method. It does so for a text that is not empty and is made of token
/// characters only, each of which is one byte.
#[verifier::external_body]
fn method_accepted(method: &str) -> (ok: bool)
    ensures
        ok == is_method(method@),
{
    http::Method::from_bytes(method.as_bytes()).is_ok()
}

/// A URL with the scheme `http` raised to `https`.
pub fn force_https(url: &str) -> (out: String)
    ensures
        out@ == force_https_spec(url@),
{
    let chars = chars_of(url);
    let plain = chars_of("http://");
    proof {
        reveal_strlit("http://");
    }
    if starts_with(chars.as_slice(), plain.as_slice()) {
        let rest = string_of(slice_chars(chars.as_slice(), 7, chars.len()).as_slice());
        joined("https://", rest.as_str())
    } else {
        string_of(chars.as_slice())
    }
}

/// Whether a header name is `cookie`, in any case.
pub fn names_cookie(name: &str) -> (b: bool)
    ensures
        b == is_cookie(name@),
{
    let n = lowered(chars_of(name).as_slice());
    same_chars(n.as_slice(), chars_of("cookie").as_slice())
}

/// The headers that go to the origin, for the envelope's headers and the
/// cookie of the inbound request.
pub fn build_outbound_headers(headers: &Vec<(String, String)>, cookie: Option<&str>) -> (out: Vec<
    (String, String),
>)
    ensures
        headers_view(out@) == outbound_headers(headers_view(headers@), text_view(cookie)),
{
    let ghost hs = headers_view(headers@);
    let ghost keep = |h: (Seq<char>, Seq<char>)| !is_cookie(h.0);
    let mut out: Vec<(String, String)> = Vec::new();
    let mut i: usize = 0;
    proof {
        assert(hs.subrange(0, 0) =~= Seq::<(Seq<char>, Seq<char>)>::empty());
        assert(hs.subrange(0, 0).filter(keep) =~= Seq::<(Seq<char>, Seq<char>)>::empty()) by {
            reveal(Seq::filter);
        }
        assert(headers_view(out@) =~= Seq::<(Seq<char>, Seq<char>)>::empty());
    }
    while i < headers.len()
        invariant
            i <= headers.len(),
            hs == headers_view(headers@),
            keep == (|h: (Seq<char>, Seq<char>)| !is_cookie(h.0)),
            cookie is Some ==> headers_view(out@) == hs.subrange(0, i as int).filter(keep),
            cookie is None ==> headers_view(out@) == hs.subrange(0, i as int),
        decreases headers.len() - i,
    {
        let name = &headers[i].0;
        let value = &headers[i].1;
        let ghost before = headers_view(out@);
        proof {
            assert(hs.subrange(0, i + 1) =~= hs.subrange(0, i as int).push(hs[i as int]));
            assert(hs[i as int] == (name@, value@));
            hs.subrange(0, i as int).lemma_filter_push(hs[i as int], keep);
        }
        let dropped = cookie.is_some() && names_cookie(name.as_str());
        if !dropped {
            out.push((name.clone(), value.clone()));
            proof {
                assert(headers_view(out@) =~= before.push(hs[i as int]));
            }
        }
        i += 1;
    }
    proof {
        assert(hs.subrange(0, i as int) =~= hs);
    }
    match cookie {
        Some(c) => {
            let ghost before = headers_view(out@);
            out.push((string_of(chars_of("cookie").as_slice()), string_of(chars_of(c).as_slice())));
            proof {
                assert(headers_view(out@) =~= before.push(("cookie"@, c@)));
            }
        },
        None => {},
    }
    out
}

/// A copy of an optional byte buffer.
pub fn copy_body(body: &Option<Vec<u8>>) -> (out: Option<Vec<u8>>)
    ensures
        body_view(out) == body_view(*body),
{
    match body {
        Some(b) => Some(slice_to_vec(b.as_slice())),
        None => None,
    }
}

/// What is sent for an envelope whose method is known to be valid or not:
/// the outbound request, or a format error for a method that is none.
pub fn outbound_for(request: &ProxyRequest, cookie: Option<&str>, method_ok: bool) -> (r: Result<
    OutboundRequest,
    ProxyError,
>)
    ensures
        !method_ok ==> r matches Err(ProxyError::FormatError),
        method_ok ==> (r matches Ok(o) && o@ == outbound_of(request@, text_view(cookie))),
{
    if !method_ok {
        return Err(ProxyError::FormatError);
    }
    Ok(
        OutboundRequest {
            url: force_https(request.url.as_str()),
            method: request.method.clone(),
            headers: build_outbound_headers(&request.headers, cookie),
            body: copy_body(&request.body),
        },
    )
}

/// Makes the outbound request for an envelope and the cookie of the inbound
/// request. An envelope whose method is no HTTP method is refused.
pub fn prepare(request: &ProxyRequest, cookie: Option<&str>) -> (r: Result<
    OutboundRequest,
    ProxyError,
>)
    ensures
        !is_method(request.method@) ==> r matches Err(ProxyError::FormatError),
        is_method(request.method@) ==> (r matches Ok(o) && o@ == outbound_of(
            request@,
            text_view(cookie),
        )),
{
    let ok = method_accepted(request.method.as_str());
    outbound_for(request, cookie, ok)
}

/// Headers that the envelope gives and that are no cookies go out as they
/// came in, in their order, whether or not a cookie is added behind them.
pub proof fn lemma_outbound_keeps_plain_headers(
    headers: Seq<(Seq<char>, Seq<char>)>,
    cookie: Option<Seq<char>>,
)
    requires
        forall|i: int| 0 <= i < headers.len() ==> !is_cookie(#[trigger] headers[i].0),
    ensures
        outbound_headers(headers, cookie) == (match cookie {
            None => headers,
            Some(c) => headers.push(("cookie"@, c)),
        }),
{
    lemma_filter_keeps_all(headers);
}

/// A filter that every element passes changes nothing.
pub proof fn lemma_filter_keeps_all(headers: Seq<(Seq<char>, Seq<char>)>)
    requires
        forall|i: int| 0 <= i < headers.len() ==> !is_cookie(#[trigger] headers[i].0),
    ensures
        headers.filter(|h: (Seq<char>, Seq<char>)| !is_cookie(h.0)) == headers,
    decreases headers.len(),
{
    let keep = |h: (Seq<char>, Seq<char>)| !is_cookie(h.0);
    reveal(Seq::filter);
    if headers.len() > 0 {
        let front = headers.drop_last();
        assert forall|i: int| 0 <= i < front.len() implies !is_cookie(#[trigger] front[i].0) by {
            assert(front[i] == headers[i]);
        }
        lemma_filter_keeps_all(front);
        assert(!is_cookie(headers[headers.len() - 1].0));
        assert(front.filter(keep).push(headers.last()) =~= headers);
    }
}

} // verus!

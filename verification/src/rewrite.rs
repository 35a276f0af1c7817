//! The response rewriter: from the origin's headers to headers that a
//! same-origin streaming consumer can take.
//!
//! Headers are rewritten one by one, in the order in which the origin sent
//! them, and duplicates stay duplicates. A header whose name is not in the
//! table of rules passes through as it is.

use crate::envelope::headers_view;
use crate::text::{
    after_last, before_first, chars_of, find_after_last, find_first, joined, lower, lowered,
    same_chars, slice_chars, string_of,
};
use regex::Regex;
use vstd::prelude::*;

verus! {

/// The pattern of a cookie's `Domain=` attribute with its value, in any case.
pub const COOKIE_DOMAIN_PATTERN: &'static str = "(?i)(;\\s*domain=)[a-z0-9.-]+";

/// What the rule for a header name asks for.
#[derive(Clone, Copy, Debug, PartialEq, Eq, Structural)]
pub enum Rule {
    /// The header is left out.
    Drop,
    /// The header is kept under its lower-case name with `x-` before it.
    Prefix,
    /// The header is a cookie whose `Domain=` attribute is set to the proxy's
    /// own host.
    Rescope,
    /// The header passes through as it is.
    Keep,
}

/// What `Regex::replace_all` of the `regex` crate makes of a text, under the
/// regular expression that `Regex::new` compiles from a pattern and with a
/// replacement in which `$` names a capture group: the text after replacing,
/// or nothing where the pattern does not compile.
pub uninterp spec fn regex_replace_all(
    pattern: Seq<char>,
    text: Seq<char>,
    replacement: Seq<char>,
) -> Option<Seq<char>>;

/// Compiles `pattern` with `Regex::new` of the `regex` crate and replaces
/// every match in `text` with `Regex::replace_all`. The result is that
/// function's, by name; nothing more is claimed of it.
#[verifier::external_body]
fn replace_all(pattern: &str, text: &str, replacement: &str) -> (r: Option<String>)
    ensures
        r is Some <==> regex_replace_all(pattern@, text@, replacement@) is Some,
        r matches Some(s) ==> regex_replace_all(pattern@, text@, replacement@) == Some(s@),
{
    let re = Regex::new(pattern).ok()?;
    Some(re.replace_all(text, replacement).into_owned())
}

/// The rule for a header name. Names are compared without regard to case.
pub open spec fn rule_of(name: Seq<char>) -> Rule {
    let n = lower(name);
    if n == "transfer-encoding"@ || n == "content-security-policy"@ || n
        == "content-security-policy-report-only"@ || n == "x-frame-options"@ {
        Rule::Drop
    } else if n == "location"@ || n == "content-encoding"@ || n == "content-length"@ {
        Rule::Prefix
    } else if n == "set-cookie"@ {
        Rule::Rescope
    } else {
        Rule::Keep
    }
}

/// Whether a name is `content-disposition`, in any case.
pub open spec fn is_disposition(name: Seq<char>) -> bool {
    lower(name) == "content-disposition"@
}

/// Whether the table of rules has an entry for a name.
pub open spec fn in_table(name: Seq<char>) -> bool {
    rule_of(name) != Rule::Keep || is_disposition(name)
}

/// The host that the proxy is served from: the `Host` header without its
/// port.
pub open spec fn serving_host(host_header: Seq<char>) -> Seq<char> {
    before_first(host_header, ':')
}

/// The file name that a URL ends in: its last path segment, without the
/// query string.
pub open spec fn basename(url: Seq<char>) -> Seq<char> {
    before_first(after_last(url, '/'), '?')
}

/// The replacement that puts `host` behind a matched `Domain=`.
pub open spec fn domain_replacement(host: Seq<char>) -> Seq<char> {
    "${1}"@ + host
}

/// A cookie with its `Domain=` attribute, if it has one, set to `host`.
pub open spec fn rescoped_cookie(value: Seq<char>, host: Seq<char>) -> Seq<char> {
    match regex_replace_all(COOKIE_DOMAIN_PATTERN@, value, domain_replacement(host)) {
        Some(s) => s,
        None => value,
    }
}

/// What becomes of one header: nothing, or one header.
pub open spec fn rewrite_one(h: (Seq<char>, Seq<char>), host: Seq<char>) -> Seq<
    (Seq<char>, Seq<char>),
> {
    match rule_of(h.0) {
        Rule::Drop => seq![],
        Rule::Prefix => seq![("x-"@ + lower(h.0), h.1)],
        Rule::Rescope => seq![(h.0, rescoped_cookie(h.1, host))],
        Rule::Keep => seq![h],
    }
}

/// What becomes of a list of headers, one after the other.
pub open spec fn rewrite_all(hs: Seq<(Seq<char>, Seq<char>)>, host: Seq<char>) -> Seq<
    (Seq<char>, Seq<char>),
>
    decreases hs.len(),
{
    if hs.len() == 0 {
        seq![]
    } else {
        rewrite_all(hs.drop_last(), host) + rewrite_one(hs.last(), host)
    }
}

/// Whether one of the headers is a `content-disposition`.
pub open spec fn has_disposition(hs: Seq<(Seq<char>, Seq<char>)>) -> bool {
    exists|i: int| 0 <= i < hs.len() && is_disposition(#[trigger] hs[i].0)
}

/// The `content-disposition` that is made up for a response without one: the
/// file is shown inline under the name that the URL ends in. A URL that ends
/// in no name gives no header.
pub open spec fn synthesized_disposition(hs: Seq<(Seq<char>, Seq<char>)>, url: Seq<char>) -> Seq<
    (Seq<char>, Seq<char>),
> {
    if has_disposition(hs) || basename(url).len() == 0 {
        seq![]
    } else {
        seq![("content-disposition"@, "inline; filename*=UTF-8''"@ + basename(url))]
    }
}

/// The outbound headers for the origin's headers `hs`, a proxy served from
/// `host`, and a request for `url`.
pub open spec fn rewritten(hs: Seq<(Seq<char>, Seq<char>)>, host: Seq<char>, url: Seq<char>) -> Seq<
    (Seq<char>, Seq<char>),
> {
    rewrite_all(hs, host) + synthesized_disposition(hs, url)
}

/// A header whose name the table does not hold comes out as it went in.
pub proof fn lemma_passthrough_one(h: (Seq<char>, Seq<char>), host: Seq<char>)
    requires
        !in_table(h.0),
    ensures
        rewrite_one(h, host) == seq![h],
{
}

/// Rewriting goes header by header: what a list gives is what its front
/// gives, followed by what its back gives.
pub proof fn lemma_rewrite_all_concat(
    a: Seq<(Seq<char>, Seq<char>)>,
    b: Seq<(Seq<char>, Seq<char>)>,
    host: Seq<char>,
)
    ensures
        rewrite_all(a + b, host) == rewrite_all(a, host) + rewrite_all(b, host),
    decreases b.len(),
{
    if b.len() == 0 {
        assert(a + b =~= a);
        assert(rewrite_all(a, host) + rewrite_all(b, host) =~= rewrite_all(a, host));
    } else {
        assert((a + b).drop_last() =~= a + b.drop_last());
        assert((a + b).last() == b.last());
        lemma_rewrite_all_concat(a, b.drop_last(), host);
        assert(rewrite_all(a + b, host) =~= rewrite_all(a, host) + rewrite_all(b, host));
    }
}

/// Pass-through headers keep their place: a header that the table does not
/// hold stands in the output as it stood in the input, between what the
/// headers before it and the headers behind it became.
pub proof fn lemma_passthrough_in_place(
    before: Seq<(Seq<char>, Seq<char>)>,
    h: (Seq<char>, Seq<char>),
    behind: Seq<(Seq<char>, Seq<char>)>,
    host: Seq<char>,
)
    requires
        !in_table(h.0),
    ensures
        rewrite_all(before + seq![h] + behind, host) == rewrite_all(before, host) + seq![h]
            + rewrite_all(behind, host),
{
    lemma_rewrite_all_concat(before + seq![h], behind, host);
    lemma_rewrite_all_concat(before, seq![h], host);
    assert(seq![h].drop_last() =~= Seq::<(Seq<char>, Seq<char>)>::empty());
    assert(rewrite_all(seq![h], host) =~= seq![h]) by {
        assert(rewrite_all(seq![h].drop_last(), host) =~= seq![]);
    }
}

/// Headers of which none is in the table are untouched: the output holds
/// them all, each as it was, in their order and with their duplicates, and
/// behind them at most the `content-disposition` that was made up.
pub proof fn lemma_passthrough_unchanged(
    hs: Seq<(Seq<char>, Seq<char>)>,
    host: Seq<char>,
    url: Seq<char>,
)
    requires
        forall|i: int| 0 <= i < hs.len() ==> !in_table(#[trigger] hs[i].0),
    ensures
        rewrite_all(hs, host) == hs,
        rewritten(hs, host, url) == hs + synthesized_disposition(hs, url),
        rewritten(hs, host, url).subrange(0, hs.len() as int) == hs,
    decreases hs.len(),
{
    if hs.len() > 0 {
        let front = hs.drop_last();
        assert forall|i: int| 0 <= i < front.len() implies !in_table(#[trigger] front[i].0) by {
            assert(front[i] == hs[i]);
        }
        lemma_passthrough_unchanged(front, host, url);
        assert(!in_table(hs[hs.len() - 1].0));
        assert(rewrite_all(hs, host) =~= hs);
    } else {
        assert(rewrite_all(hs, host) =~= hs);
    }
    assert(rewritten(hs, host, url).subrange(0, hs.len() as int) =~= hs);
}

/// The rule for a header name.
pub fn rule_for(name: &str) -> (rule: Rule)
    ensures
        rule == rule_of(name@),
{
    let n = lowered(chars_of(name).as_slice());
    if same_chars(n.as_slice(), chars_of("transfer-encoding").as_slice()) || same_chars(
        n.as_slice(),
        chars_of("content-security-policy").as_slice(),
    ) || same_chars(n.as_slice(), chars_of("content-security-policy-report-only").as_slice())
        || same_chars(n.as_slice(), chars_of("x-frame-options").as_slice()) {
        Rule::Drop
    } else if same_chars(n.as_slice(), chars_of("location").as_slice()) || same_chars(
        n.as_slice(),
        chars_of("content-encoding").as_slice(),
    ) || same_chars(n.as_slice(), chars_of("content-length").as_slice()) {
        Rule::Prefix
    } else if same_chars(n.as_slice(), chars_of("set-cookie").as_slice()) {
        Rule::Rescope
    } else {
        Rule::Keep
    }
}

/// Whether a header name is `content-disposition`, in any case.
pub fn names_disposition(name: &str) -> (b: bool)
    ensures
        b == is_disposition(name@),
{
    let n = lowered(chars_of(name).as_slice());
    same_chars(n.as_slice(), chars_of("content-disposition").as_slice())
}

/// The host of a `Host` header: what stands before the port.
pub fn host_without_port(host_header: &str) -> (host: String)
    ensures
        host@ == serving_host(host_header@),
{
    let chars = chars_of(host_header);
    let end = find_first(chars.as_slice(), ':');
    string_of(slice_chars(chars.as_slice(), 0, end).as_slice())
}

/// The file name that a URL ends in.
pub fn url_basename(url: &str) -> (name: String)
    ensures
        name@ == basename(url@),
{
    let chars = chars_of(url);
    let start = find_after_last(chars.as_slice(), '/');
    let segment = slice_chars(chars.as_slice(), start, chars.len());
    let end = find_first(segment.as_slice(), '?');
    string_of(slice_chars(segment.as_slice(), 0, end).as_slice())
}

/// What the cookie is once the outcome of the replacement is known: the
/// replaced text, or the cookie as it was where there is none.
pub fn cookie_after(value: &str, replaced: Option<String>) -> (out: String)
    ensures
        out@ == (match replaced {
            Some(s) => s@,
            None => value@,
        }),
{
    match replaced {
        Some(s) => s,
        None => string_of(chars_of(value).as_slice()),
    }
}

/// A cookie with its `Domain=` attribute, if it has one, set to `host`.
pub fn rescope_cookie(value: &str, host: &str) -> (out: String)
    ensures
        out@ == rescoped_cookie(value@, host@),
{
    let replacement = joined("${1}", host);
    let replaced = replace_all(COOKIE_DOMAIN_PATTERN, value, replacement.as_str());
    cookie_after(value, replaced)
}

/// Rewrites the origin's headers for a proxy that was asked under the `Host`
/// header `host_header` for `url`.
pub fn rewrite_response_headers(
    origin: &Vec<(String, String)>,
    host_header: &str,
    url: &str,
) -> (out: Vec<(String, String)>)
    ensures
        headers_view(out@) == rewritten(
            headers_view(origin@),
            serving_host(host_header@),
            url@,
        ),
{
    let host = host_without_port(host_header);
    let ghost hs = headers_view(origin@);
    let mut out: Vec<(String, String)> = Vec::new();
    let mut seen_disposition = false;
    let mut i: usize = 0;
    proof {
        assert(headers_view(out@) =~= rewrite_all(hs.subrange(0, 0), host@));
    }
    while i < origin.len()
        invariant
            i <= origin.len(),
            hs == headers_view(origin@),
            host@ == serving_host(host_header@),
            headers_view(out@) == rewrite_all(hs.subrange(0, i as int), host@),
            seen_disposition == has_disposition(hs.subrange(0, i as int)),
        decreases origin.len() - i,
    {
        let name = &origin[i].0;
        let value = &origin[i].1;
        let ghost prefix = hs.subrange(0, i as int);
        let ghost next = hs.subrange(0, i + 1);
        let ghost before = headers_view(out@);
        proof {
            assert(next.drop_last() =~= prefix);
            assert(next.last() == hs[i as int]);
            assert(hs[i as int] == (name@, value@));
        }
        match rule_for(name.as_str()) {
            Rule::Drop => {
                proof {
                    assert(before + rewrite_one(hs[i as int], host@) =~= before);
                }
            },
            Rule::Prefix => {
                let lowered_name = string_of(lowered(chars_of(name.as_str()).as_slice()).as_slice());
                let new_name = joined("x-", lowered_name.as_str());
                out.push((new_name, value.clone()));
                proof {
                    assert(headers_view(out@) =~= before + rewrite_one(hs[i as int], host@));
                }
            },
            Rule::Rescope => {
                let new_value = rescope_cookie(value.as_str(), host.as_str());
                out.push((name.clone(), new_value));
                proof {
                    assert(headers_view(out@) =~= before + rewrite_one(hs[i as int], host@));
                }
            },
            Rule::Keep => {
                out.push((name.clone(), value.clone()));
                proof {
                    assert(headers_view(out@) =~= before + rewrite_one(hs[i as int], host@));
                }
            },
        }
        let is_disp = names_disposition(name.as_str());
        proof {
            if has_disposition(prefix) {
                let k = choose|k: int| 0 <= k < prefix.len() && is_disposition(#[trigger] prefix[k].0);
                assert(next[k] == prefix[k]);
            }
            if is_disp {
                assert(is_disposition(next[i as int].0));
            }
            if has_disposition(next) {
                let k = choose|k: int| 0 <= k < next.len() && is_disposition(#[trigger] next[k].0);
                if k < i {
                    assert(prefix[k] == next[k]);
                }
            }
        }
        seen_disposition = seen_disposition || is_disp;
        i += 1;
    }
    proof {
        assert(hs.subrange(0, i as int) =~= hs);
    }
    if !seen_disposition {
        let filename = url_basename(url);
        if filename.as_str().unicode_len() > 0 {
            let ghost before = headers_view(out@);
            let value = joined("inline; filename*=UTF-8''", filename.as_str());
            out.push((string_of(chars_of("content-disposition").as_slice()), value));
            proof {
                assert(headers_view(out@) =~= before + synthesized_disposition(hs, url@));
            }
        } else {
            proof {
                assert(headers_view(out@) + synthesized_disposition(hs, url@) =~= headers_view(
                    out@,
                ));
            }
        }
    } else {
        proof {
            assert(headers_view(out@) + synthesized_disposition(hs, url@) =~= headers_view(out@));
        }
    }
    out
}

} // verus!

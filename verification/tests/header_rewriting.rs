use swenc_proxy::rewrite::{
    host_without_port, rescope_cookie, rewrite_response_headers, rule_for, url_basename, Rule,
    COOKIE_DOMAIN_PATTERN,
};

fn headers(items: &[(&str, &str)]) -> Vec<(String, String)> {
    items.iter().map(|(n, v)| (n.to_string(), v.to_string())).collect()
}

#[test]
fn cookie_domain_is_rewritten_to_the_serving_host() {
    let out = rewrite_response_headers(
        &headers(&[("set-cookie", "id=1; Domain=origin.example; Path=/")]),
        "proxy.example",
        "https://origin.example/",
    );
    assert_eq!(out, headers(&[("set-cookie", "id=1; Domain=proxy.example; Path=/")]));
}

#[test]
fn cookie_domain_rewrite_ignores_case_and_strips_the_port() {
    assert_eq!(
        rescope_cookie("id=1; domain=origin.example; Path=/", "proxy.example"),
        "id=1; domain=proxy.example; Path=/"
    );
    assert_eq!(
        rescope_cookie("id=1;DOMAIN=.origin.example", "proxy.example"),
        "id=1;DOMAIN=proxy.example"
    );
    let out = rewrite_response_headers(
        &headers(&[("Set-Cookie", "a=b;   Domain=x.y-z.example")]),
        "proxy.example:8000",
        "https://origin.example/",
    );
    assert_eq!(out, headers(&[("Set-Cookie", "a=b;   Domain=proxy.example")]));
}

#[test]
fn cookie_without_domain_is_unchanged() {
    assert_eq!(rescope_cookie("id=1; Path=/; HttpOnly", "proxy.example"), "id=1; Path=/; HttpOnly");
    assert_eq!(rescope_cookie("", "proxy.example"), "");
    // a cookie whose own name is `domain` has no `;` before it
    assert_eq!(rescope_cookie("domain=abc", "proxy.example"), "domain=abc");
}

#[test]
fn cookie_pattern_is_the_domain_attribute() {
    assert_eq!(COOKIE_DOMAIN_PATTERN, r"(?i)(;\s*domain=)[a-z0-9.-]+");
    assert!(regex::Regex::new(COOKIE_DOMAIN_PATTERN).is_ok());
}

#[test]
fn content_disposition_is_synthesized_from_the_url() {
    let out = rewrite_response_headers(
        &headers(&[("content-type", "application/pdf")]),
        "proxy.example",
        "https://example.com/files/report.pdf?x=1",
    );
    assert_eq!(
        out,
        headers(&[
            ("content-type", "application/pdf"),
            ("content-disposition", "inline; filename*=UTF-8''report.pdf"),
        ])
    );
}

#[test]
fn content_disposition_of_the_origin_passes_through() {
    let origin = headers(&[("Content-Disposition", "attachment; filename=\"a.txt\"")]);
    let out =
        rewrite_response_headers(&origin, "proxy.example", "https://example.com/files/report.pdf");
    assert_eq!(out, origin);
    let plain = headers(&[("content-disposition", "inline")]);
    assert_eq!(
        rewrite_response_headers(&plain, "proxy.example", "https://example.com/report.pdf"),
        plain
    );
}

#[test]
fn no_content_disposition_for_a_url_without_a_name() {
    let origin = headers(&[("content-type", "text/html")]);
    assert_eq!(rewrite_response_headers(&origin, "proxy.example", "https://example.com/"), origin);
    assert_eq!(
        rewrite_response_headers(&origin, "proxy.example", "https://example.com/?q=1"),
        origin
    );
}

#[test]
fn basename_is_the_last_segment_without_the_query() {
    assert_eq!(url_basename("https://example.com/files/report.pdf?x=1"), "report.pdf");
    assert_eq!(url_basename("https://example.com/files/report.pdf"), "report.pdf");
    assert_eq!(url_basename("https://example.com/"), "");
    assert_eq!(url_basename("https://example.com"), "example.com");
    assert_eq!(url_basename("report.pdf?a?b"), "report.pdf");
    assert_eq!(url_basename("https://example.com/a?x=/b"), "b");
    assert_eq!(url_basename(""), "");
}

#[test]
fn host_without_port_cuts_at_the_colon() {
    assert_eq!(host_without_port("proxy.example:8000"), "proxy.example");
    assert_eq!(host_without_port("proxy.example"), "proxy.example");
    assert_eq!(host_without_port(":8000"), "");
    assert_eq!(host_without_port(""), "");
    assert_eq!(host_without_port("a:b:c"), "a");
}

#[test]
fn dropped_headers_are_dropped() {
    let out = rewrite_response_headers(
        &headers(&[
            ("transfer-encoding", "chunked"),
            ("content-security-policy", "default-src 'self'"),
            ("content-security-policy-report-only", "default-src 'self'"),
            ("x-frame-options", "DENY"),
            ("Transfer-Encoding", "gzip"),
        ]),
        "proxy.example",
        "https://example.com/",
    );
    assert_eq!(out, headers(&[]));
}

#[test]
fn renamed_headers_get_the_x_prefix() {
    let out = rewrite_response_headers(
        &headers(&[
            ("location", "https://example.com/next"),
            ("content-encoding", "gzip"),
            ("content-length", "1234"),
            ("Location", "/again"),
        ]),
        "proxy.example",
        "https://example.com/",
    );
    assert_eq!(
        out,
        headers(&[
            ("x-location", "https://example.com/next"),
            ("x-content-encoding", "gzip"),
            ("x-content-length", "1234"),
            ("x-location", "/again"),
        ])
    );
}

#[test]
fn other_headers_pass_through_in_order_with_duplicates() {
    let origin = headers(&[
        ("content-type", "text/html"),
        ("x-custom", "1"),
        ("vary", "accept"),
        ("x-custom", "2"),
        ("X-Custom", "1"),
        ("content-disposition", "inline"),
        ("x-location", "kept"),
        ("etag", "\"abc\""),
    ]);
    assert_eq!(
        rewrite_response_headers(&origin, "proxy.example", "https://example.com/a.txt"),
        origin
    );
}

#[test]
fn mixed_headers_keep_their_order() {
    let out = rewrite_response_headers(
        &headers(&[
            ("date", "today"),
            ("transfer-encoding", "chunked"),
            ("set-cookie", "a=1; Domain=origin.example"),
            ("location", "/next"),
            ("set-cookie", "b=2"),
            ("server", "nginx"),
        ]),
        "proxy.example:443",
        "https://origin.example/dir/page.html?y",
    );
    assert_eq!(
        out,
        headers(&[
            ("date", "today"),
            ("set-cookie", "a=1; Domain=proxy.example"),
            ("x-location", "/next"),
            ("set-cookie", "b=2"),
            ("server", "nginx"),
            ("content-disposition", "inline; filename*=UTF-8''page.html"),
        ])
    );
}

#[test]
fn no_headers_and_no_name_give_no_headers() {
    assert_eq!(rewrite_response_headers(&headers(&[]), "h", ""), headers(&[]));
}

#[test]
fn rules_by_name() {
    assert_eq!(rule_for("transfer-encoding"), Rule::Drop);
    assert_eq!(rule_for("X-Frame-Options"), Rule::Drop);
    assert_eq!(rule_for("Content-Security-Policy"), Rule::Drop);
    assert_eq!(rule_for("content-security-policy-report-only"), Rule::Drop);
    assert_eq!(rule_for("LOCATION"), Rule::Prefix);
    assert_eq!(rule_for("content-encoding"), Rule::Prefix);
    assert_eq!(rule_for("content-length"), Rule::Prefix);
    assert_eq!(rule_for("Set-Cookie"), Rule::Rescope);
    assert_eq!(rule_for("content-disposition"), Rule::Keep);
    assert_eq!(rule_for("content-type"), Rule::Keep);
    assert_eq!(rule_for(""), Rule::Keep);
    assert_eq!(rule_for("locatïon"), Rule::Keep);
}

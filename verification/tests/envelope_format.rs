use swenc_proxy::envelope::ProxyRequest;
use swenc_proxy::errors::ProxyError;
use swenc_proxy::wire::{read_len, write_len, Family};

fn headers(items: &[(&str, &str)]) -> Vec<(String, String)> {
    items.iter().map(|(n, v)| (n.to_string(), v.to_string())).collect()
}

fn envelope(url: &str, method: &str, hs: &[(&str, &str)], body: Option<&[u8]>) -> ProxyRequest {
    ProxyRequest {
        url: url.to_string(),
        method: method.to_string(),
        headers: headers(hs),
        body: body.map(|b| b.to_vec()),
    }
}

fn same(a: &ProxyRequest, b: &ProxyRequest) -> bool {
    a.url == b.url && a.method == b.method && a.headers == b.headers && a.body == b.body
}

fn round_trip(e: &ProxyRequest) {
    let bytes = e.serialize().ok().unwrap();
    let back = ProxyRequest::deserialize(&bytes).ok().unwrap();
    assert!(same(e, &back));
    assert_eq!(back.serialize().ok().unwrap(), bytes);
}

#[test]
fn smallest_envelope_bytes() {
    let e = envelope("", "", &[], None);
    assert_eq!(e.serialize(), Ok(vec![0x94, 0xa0, 0xa0, 0x90, 0xc0]));
}

#[test]
fn envelope_bytes_are_messagepack() {
    let e = envelope("http://example.com/", "GET", &[], None);
    let mut expected = vec![0x94, 0xa0 + 19];
    expected.extend_from_slice(b"http://example.com/");
    expected.push(0xa3);
    expected.extend_from_slice(b"GET");
    expected.push(0x90);
    expected.push(0xc0);
    assert_eq!(e.serialize(), Ok(expected));
}

#[test]
fn envelope_bytes_agree_with_rmp_serde() {
    let hs = headers(&[("accept", "*/*"), ("x-long", &"v".repeat(300))]);
    let e = ProxyRequest {
        url: "https://example.com/a/very/long/path/that/does/not/fit/a/fixstr".to_string(),
        method: "POST".to_string(),
        headers: hs.clone(),
        body: None,
    };
    let expected =
        rmp_serde::to_vec(&(e.url.clone(), e.method.clone(), hs, None::<String>)).unwrap();
    assert_eq!(e.serialize(), Ok(expected));
}

#[test]
fn rmp_serde_reads_what_serialize_wrote() {
    let e = envelope("https://example.com/", "GET", &[("a", "b"), ("a", "c")], None);
    let bytes = e.serialize().ok().unwrap();
    let back: (String, String, Vec<(String, String)>, Option<String>) =
        rmp_serde::from_slice(&bytes).unwrap();
    assert_eq!(back.0, e.url);
    assert_eq!(back.1, e.method);
    assert_eq!(back.2, e.headers);
    assert_eq!(back.3, None);
}

#[test]
fn headers_and_body_bytes() {
    let e = envelope("u", "M", &[("a", "bc")], Some(&[1, 2, 3]));
    assert_eq!(
        e.serialize(),
        Ok(vec![
            0x94, 0xa1, b'u', 0xa1, b'M', 0x91, 0x92, 0xa1, b'a', 0xa2, b'b', b'c', 0xc4, 3, 1, 2,
            3
        ])
    );
}

#[test]
fn empty_body_is_not_no_body() {
    let with = envelope("u", "M", &[], Some(&[]));
    let without = envelope("u", "M", &[], None);
    assert_eq!(with.serialize(), Ok(vec![0x94, 0xa1, b'u', 0xa1, b'M', 0x90, 0xc4, 0]));
    assert_eq!(without.serialize(), Ok(vec![0x94, 0xa1, b'u', 0xa1, b'M', 0x90, 0xc0]));
    round_trip(&with);
    round_trip(&without);
}

#[test]
fn envelopes_round_trip() {
    round_trip(&envelope("http://example.com/", "GET", &[], None));
    round_trip(&envelope(
        "https://example.com/x?y=z",
        "POST",
        &[("content-type", "text/plain"), ("x", ""), ("", "y"), ("x", "again")],
        Some(b"hello"),
    ));
    round_trip(&envelope("ünïcödé ✓ 🦀", "M-SEARCH", &[("ключ", "значение")], Some(&[0xff, 0x00])));
}

#[test]
fn every_length_form_round_trips() {
    for len in [0usize, 1, 31, 32, 255, 256, 65535, 65536, 70000] {
        let text = "a".repeat(len);
        let body = vec![7u8; len];
        round_trip(&envelope(&text, "GET", &[(&text, &text)], Some(&body)));
    }
    for count in [0usize, 1, 15, 16, 17, 65535, 65536] {
        let hs: Vec<(String, String)> =
            (0..count).map(|i| (format!("n{}", i), String::new())).collect();
        let e = ProxyRequest {
            url: String::new(),
            method: String::new(),
            headers: hs,
            body: None,
        };
        round_trip(&e);
    }
}

#[test]
fn length_headers_take_the_shortest_form() {
    let cases: Vec<(Family, u32, Vec<u8>)> = vec![
        (Family::Str, 0, vec![0xa0]),
        (Family::Str, 31, vec![0xbf]),
        (Family::Str, 32, vec![0xd9, 32]),
        (Family::Str, 255, vec![0xd9, 255]),
        (Family::Str, 256, vec![0xda, 1, 0]),
        (Family::Str, 65535, vec![0xda, 0xff, 0xff]),
        (Family::Str, 65536, vec![0xdb, 0, 1, 0, 0]),
        (Family::Str, 0xFFFF_FFFF, vec![0xdb, 0xff, 0xff, 0xff, 0xff]),
        (Family::Str, 0x0102_0304, vec![0xdb, 1, 2, 3, 4]),
        (Family::Bin, 0, vec![0xc4, 0]),
        (Family::Bin, 255, vec![0xc4, 255]),
        (Family::Bin, 256, vec![0xc5, 1, 0]),
        (Family::Bin, 65536, vec![0xc6, 0, 1, 0, 0]),
        (Family::Array, 0, vec![0x90]),
        (Family::Array, 15, vec![0x9f]),
        (Family::Array, 16, vec![0xdc, 0, 16]),
        (Family::Array, 255, vec![0xdc, 0, 255]),
        (Family::Array, 65535, vec![0xdc, 0xff, 0xff]),
        (Family::Array, 65536, vec![0xdd, 0, 1, 0, 0]),
    ];
    for (family, n, expected) in cases {
        let mut out = vec![0xEE];
        write_len(family, n, &mut out);
        assert_eq!(&out[1..], &expected[..]);
        assert_eq!(read_len(family, &out, 1), Some((n, out.len())));
        out.push(0x55);
        assert_eq!(read_len(family, &out, 1), Some((n, out.len() - 1)));
    }
}

#[test]
fn length_headers_in_a_longer_form_are_refused() {
    assert_eq!(read_len(Family::Str, &[0xd9, 31], 0), None);
    assert_eq!(read_len(Family::Str, &[0xda, 0, 255], 0), None);
    assert_eq!(read_len(Family::Str, &[0xdb, 0, 0, 255, 255], 0), None);
    assert_eq!(read_len(Family::Array, &[0xdc, 0, 15], 0), None);
    assert_eq!(read_len(Family::Array, &[0xdd, 0, 0, 1, 0], 0), None);
    assert_eq!(read_len(Family::Bin, &[0xc5, 0, 255], 0), None);
    assert_eq!(read_len(Family::Bin, &[0xc6, 0, 0, 1, 0], 0), None);
}

#[test]
fn length_headers_of_another_family_are_refused() {
    assert_eq!(read_len(Family::Str, &[0x90], 0), None);
    assert_eq!(read_len(Family::Str, &[0xc4, 1], 0), None);
    assert_eq!(read_len(Family::Array, &[0xa0], 0), None);
    assert_eq!(read_len(Family::Array, &[0xd9, 40], 0), None);
    assert_eq!(read_len(Family::Bin, &[0xa0], 0), None);
    assert_eq!(read_len(Family::Bin, &[0x00], 0), None);
    assert_eq!(read_len(Family::Bin, &[0xdc, 0, 16], 0), None);
}

#[test]
fn cut_length_headers_are_refused() {
    assert_eq!(read_len(Family::Str, &[], 0), None);
    assert_eq!(read_len(Family::Str, &[0xa0], 1), None);
    assert_eq!(read_len(Family::Str, &[0xd9], 0), None);
    assert_eq!(read_len(Family::Str, &[0xda, 1], 0), None);
    assert_eq!(read_len(Family::Str, &[0xdb, 0, 1, 0], 0), None);
}

#[test]
fn truncated_envelopes_are_format_errors() {
    let bytes = envelope("https://example.com/", "POST", &[("a", "b")], Some(b"body"))
        .serialize()
        .ok()
        .unwrap();
    for cut in 0..bytes.len() {
        assert!(matches!(ProxyRequest::deserialize(&bytes[..cut]), Err(ProxyError::FormatError)));
    }
    assert!(ProxyRequest::deserialize(&bytes).is_ok());
}

#[test]
fn trailing_bytes_are_a_format_error() {
    let mut bytes = envelope("u", "GET", &[], None).serialize().ok().unwrap();
    bytes.push(0);
    assert!(matches!(ProxyRequest::deserialize(&bytes), Err(ProxyError::FormatError)));
}

#[test]
fn malformed_envelopes_are_format_errors() {
    let bad: Vec<Vec<u8>> = vec![
        vec![],
        vec![0x93, 0xa0, 0xa0, 0x90],
        vec![0x95, 0xa0, 0xa0, 0x90, 0xc0, 0xc0],
        vec![0x94, 0xc0, 0xa0, 0x90, 0xc0],
        vec![0x94, 0xa0, 0x01, 0x90, 0xc0],
        vec![0x94, 0xa0, 0xa0, 0xa0, 0xc0],
        vec![0x94, 0xa0, 0xa0, 0x90, 0xa0],
        vec![0x94, 0xa0, 0xa0, 0x90, 0xc2],
        // a header that is no pair
        vec![0x94, 0xa0, 0xa0, 0x91, 0x91, 0xa0, 0xc0],
        vec![0x94, 0xa0, 0xa0, 0x91, 0x93, 0xa0, 0xa0, 0xa0, 0xc0],
        // fewer headers than announced
        vec![0x94, 0xa0, 0xa0, 0x92, 0x92, 0xa0, 0xa0, 0xc0],
        // text that is no UTF-8
        vec![0x94, 0xa1, 0xff, 0xa0, 0x90, 0xc0],
        vec![0x94, 0xa2, 0xc3, 0x28, 0xa0, 0x90, 0xc0],
        vec![0x94, 0xa3, 0xed, 0xa0, 0x80, 0xa0, 0x90, 0xc0],
        // a length in a longer form than it needs
        vec![0x94, 0xd9, 0x01, b'u', 0xa0, 0x90, 0xc0],
        vec![0x94, 0xa0, 0xa0, 0xdc, 0x00, 0x00, 0xc0],
        vec![0x94, 0xa0, 0xa0, 0x90, 0xc5, 0x00, 0x01, 0x07],
    ];
    for bytes in bad {
        assert!(matches!(ProxyRequest::deserialize(&bytes), Err(ProxyError::FormatError)));
    }
}

#[test]
fn non_ascii_text_is_utf8_on_the_wire() {
    let e = envelope("é", "", &[], None);
    assert_eq!(e.serialize(), Ok(vec![0x94, 0xa2, 0xc3, 0xa9, 0xa0, 0x90, 0xc0]));
    let back = ProxyRequest::deserialize(&[0x94, 0xa2, 0xc3, 0xa9, 0xa0, 0x90, 0xc0]).ok().unwrap();
    assert_eq!(back.url, "é");
}

#[test]
fn deserialize_reads_a_binary_body() {
    let back =
        ProxyRequest::deserialize(&[0x94, 0xa0, 0xa0, 0x90, 0xc4, 2, 0xde, 0xad]).ok().unwrap();
    assert_eq!(back.body, Some(vec![0xde, 0xad]));
    assert_eq!(back.headers, headers(&[]));
}

//! The binary form of an envelope: MessagePack, in its shortest spelling.
//!
//! An envelope is an array of four: the URL and the method as strings, the
//! headers as an array of pairs of strings, and the body as `nil` or as a
//! binary. Every length is written in the shortest form that holds it, so
//! that an envelope has one spelling and a spelling has one envelope.

use crate::envelope::{body_view, headers_view, Envelope, ProxyRequest};
use crate::errors::ProxyError;
use vstd::prelude::*;
use vstd::slice::{slice_subrange, slice_to_vec};
use vstd::utf8::{decode_utf8, encode_utf8, valid_utf8};

verus! {

/// The three kinds of value that carry a length.
#[derive(Clone, Copy, Debug, PartialEq, Eq, Structural)]
pub enum Family {
    /// A string of UTF-8 bytes.
    Str,
    /// A run of bytes.
    Bin,
    /// An array of values.
    Array,
}

/// Lengths below this bound are written into the first byte itself.
pub open spec fn fix_limit(f: Family) -> int {
    match f {
        Family::Str => 32,
        Family::Bin => 0,
        Family::Array => 16,
    }
}

/// The first byte of a value whose length, 0, is written into it.
pub open spec fn fix_base(f: Family) -> int {
    match f {
        Family::Str => 0xa0,
        Family::Bin => 0,
        Family::Array => 0x90,
    }
}

/// Whether the family has a form with one byte of length.
pub open spec fn has_short(f: Family) -> bool {
    f != Family::Array
}

/// The first byte of the form with one byte of length.
pub open spec fn tag8(f: Family) -> int {
    match f {
        Family::Str => 0xd9,
        Family::Bin => 0xc4,
        Family::Array => 0,
    }
}

/// The first byte of the form with two bytes of length.
pub open spec fn tag16(f: Family) -> int {
    match f {
        Family::Str => 0xda,
        Family::Bin => 0xc5,
        Family::Array => 0xdc,
    }
}

/// The first byte of the form with four bytes of length.
pub open spec fn tag32(f: Family) -> int {
    match f {
        Family::Str => 0xdb,
        Family::Bin => 0xc6,
        Family::Array => 0xdd,
    }
}

/// The least length that is written with two bytes.
pub open spec fn wide_from(f: Family) -> int {
    if has_short(f) {
        256
    } else {
        fix_limit(f)
    }
}

/// The bytes that announce a value of family `f` and length `n`, in the
/// shortest form that holds `n`. Lengths of more than one byte stand highest
/// byte first.
#[verifier::opaque]
pub open spec fn len_header(f: Family, n: int) -> Seq<u8>
    recommends
        0 <= n < 0x1_0000_0000,
{
    if n < fix_limit(f) {
        seq![(fix_base(f) + n) as u8]
    } else if has_short(f) && n < 256 {
        seq![tag8(f) as u8, n as u8]
    } else if n < 65536 {
        seq![tag16(f) as u8, (n / 256) as u8, (n % 256) as u8]
    } else {
        seq![
            tag32(f) as u8,
            (n / 16777216) as u8,
            ((n / 65536) % 256) as u8,
            ((n / 256) % 256) as u8,
            (n % 256) as u8,
        ]
    }
}

/// The length that the front of `b` announces for family `f`, with the number
/// of bytes that announce it; nothing where `b` does not begin with a header
/// of that family in its shortest form.
#[verifier::opaque]
pub open spec fn parse_len(f: Family, b: Seq<u8>) -> Option<(int, int)> {
    if b.len() == 0 {
        None
    } else {
        let t = b[0] as int;
        if fix_base(f) <= t < fix_base(f) + fix_limit(f) {
            Some((t - fix_base(f), 1))
        } else if has_short(f) && t == tag8(f) {
            if b.len() >= 2 && b[1] as int >= fix_limit(f) {
                Some((b[1] as int, 2))
            } else {
                None
            }
        } else if t == tag16(f) {
            if b.len() >= 3 && 256 * (b[1] as int) + b[2] as int >= wide_from(f) {
                Some((256 * (b[1] as int) + b[2] as int, 3))
            } else {
                None
            }
        } else if t == tag32(f) {
            if b.len() >= 5 && 16777216 * (b[1] as int) + 65536 * (b[2] as int) + 256 * (
            b[3] as int) + b[4] as int >= 65536 {
                Some(
                    (
                        16777216 * (b[1] as int) + 65536 * (b[2] as int) + 256 * (b[3] as int)
                            + b[4] as int,
                        5,
                    ),
                )
            } else {
                None
            }
        } else {
            None
        }
    }
}

/// A header reads back as the length that it was written for, whatever
/// follows it.
pub proof fn lemma_parse_len_of_header(f: Family, n: int, rest: Seq<u8>)
    requires
        0 <= n < 0x1_0000_0000,
    ensures
        1 <= len_header(f, n).len() <= 5,
        parse_len(f, len_header(f, n) + rest) == Some((n, len_header(f, n).len() as int)),
{
    reveal(len_header);
    reveal(parse_len);
    let h = len_header(f, n);
    let b = h + rest;
    assert(b[0] == h[0]);
    if n < fix_limit(f) {
    } else if has_short(f) && n < 256 {
        assert(b[1] == h[1]);
    } else if n < 65536 {
        assert(b[1] == h[1]);
        assert(b[2] == h[2]);
    } else {
        assert(b[1] == h[1]);
        assert(b[2] == h[2]);
        assert(b[3] == h[3]);
        assert(b[4] == h[4]);
    }
}

/// What reads as a header is the header of the length that was read.
pub proof fn lemma_header_of_parse_len(f: Family, b: Seq<u8>)
    requires
        parse_len(f, b) is Some,
    ensures
        match parse_len(f, b) {
            Some((n, w)) => 0 <= n < 0x1_0000_0000 && 1 <= w <= b.len() && b.subrange(0, w)
                == len_header(f, n),
            None => false,
        },
{
    reveal(len_header);
    reveal(parse_len);
    match parse_len(f, b) {
        Some((n, w)) => {
            assert(b.subrange(0, w) =~= len_header(f, n));
        },
        None => {},
    }
}

/// Writes the header of a value of family `f` and length `n` behind `out`.
pub fn write_len(f: Family, n: u32, out: &mut Vec<u8>)
    ensures
        final(out)@ == old(out)@ + len_header(f, n as int),
{
    proof {
        reveal(len_header);
    }
    let (limit, base, short, t8, t16, t32): (u32, u8, bool, u8, u8, u8) = match f {
        Family::Str => (32, 0xa0, true, 0xd9, 0xda, 0xdb),
        Family::Bin => (0, 0, true, 0xc4, 0xc5, 0xc6),
        Family::Array => (16, 0x90, false, 0, 0xdc, 0xdd),
    };
    if n < limit {
        out.push(base + (n as u8));
    } else if short && n < 256 {
        out.push(t8);
        out.push(n as u8);
    } else if n < 65536 {
        out.push(t16);
        out.push((n / 256) as u8);
        out.push((n % 256) as u8);
    } else {
        out.push(t32);
        out.push((n / 16777216) as u8);
        out.push(((n / 65536) % 256) as u8);
        out.push(((n / 256) % 256) as u8);
        out.push((n % 256) as u8);
    }
    assert(out@ =~= old(out)@ + len_header(f, n as int));
}

/// Reads the header of a value of family `f` at `pos`: the length and the
/// place behind the header.
pub fn read_len(f: Family, bytes: &[u8], pos: usize) -> (r: Option<(u32, usize)>)
    requires
        pos <= bytes@.len(),
    ensures
        r is Some <==> parse_len(f, bytes@.skip(pos as int)) is Some,
        r matches Some((n, next)) ==> parse_len(f, bytes@.skip(pos as int)) == Some(
            (n as int, next - pos),
        ) && pos < next <= bytes@.len(),
{
    proof {
        reveal(parse_len);
    }
    let ghost b = bytes@.skip(pos as int);
    let (limit, base, short, t8, t16, t32): (u8, u8, bool, u8, u8, u8) = match f {
        Family::Str => (32, 0xa0, true, 0xd9, 0xda, 0xdb),
        Family::Bin => (0, 0, true, 0xc4, 0xc5, 0xc6),
        Family::Array => (16, 0x90, false, 0, 0xdc, 0xdd),
    };
    let left: usize = bytes.len() - pos;
    if left == 0 {
        return None;
    }
    let t: u8 = bytes[pos];
    assert(b[0] == t);
    if base <= t && t - base < limit {
        Some(((t - base) as u32, pos + 1))
    } else if short && t == t8 {
        if left >= 2 && bytes[pos + 1] >= limit {
            assert(b[1] == bytes@[pos + 1]);
            Some((bytes[pos + 1] as u32, pos + 2))
        } else {
            proof {
                if left >= 2 {
                    assert(b[1] == bytes@[pos + 1]);
                }
            }
            None
        }
    } else if t == t16 {
        if left >= 3 {
            assert(b[1] == bytes@[pos + 1]);
            assert(b[2] == bytes@[pos + 2]);
            let n: u32 = 256 * (bytes[pos + 1] as u32) + (bytes[pos + 2] as u32);
            let low: u32 = if short {
                256
            } else {
                limit as u32
            };
            if n >= low {
                Some((n, pos + 3))
            } else {
                None
            }
        } else {
            None
        }
    } else if t == t32 {
        if left >= 5 {
            assert(b[1] == bytes@[pos + 1]);
            assert(b[2] == bytes@[pos + 2]);
            assert(b[3] == bytes@[pos + 3]);
            assert(b[4] == bytes@[pos + 4]);
            let n: u32 = 16777216 * (bytes[pos + 1] as u32) + 65536 * (bytes[pos + 2] as u32) + 256
                * (bytes[pos + 3] as u32) + (bytes[pos + 4] as u32);
            if n >= 65536 {
                Some((n, pos + 5))
            } else {
                None
            }
        } else {
            None
        }
    } else {
        None
    }
}

/// Whether a text is short enough to be written as one string.
pub open spec fn str_packable(s: Seq<char>) -> bool {
    encode_utf8(s).len() < 0x1_0000_0000
}

/// A text as a string: its header, then its UTF-8 bytes.
pub open spec fn pack_str(s: Seq<char>) -> Seq<u8> {
    len_header(Family::Str, encode_utf8(s).len() as int) + encode_utf8(s)
}

/// The string that `b` begins with, and the number of bytes that it takes.
#[verifier::opaque]
pub open spec fn parse_str(b: Seq<u8>) -> Option<(Seq<char>, int)> {
    match parse_len(Family::Str, b) {
        Some((n, w)) => if w + n <= b.len() && valid_utf8(b.subrange(w, w + n)) {
            Some((decode_utf8(b.subrange(w, w + n)), w + n))
        } else {
            None
        },
        None => None,
    }
}

/// A header as an array of two strings.
pub open spec fn pack_pair(h: (Seq<char>, Seq<char>)) -> Seq<u8> {
    seq![0x92u8] + pack_str(h.0) + pack_str(h.1)
}

/// The pair of strings that `b` begins with, and the bytes that it takes.
#[verifier::opaque]
pub open spec fn parse_pair(b: Seq<u8>) -> Option<((Seq<char>, Seq<char>), int)> {
    if b.len() > 0 && b[0] == 0x92 {
        match parse_str(b.skip(1)) {
            Some((name, c1)) => match parse_str(b.skip(1 + c1)) {
                Some((value, c2)) => Some(((name, value), 1 + c1 + c2)),
                None => None,
            },
            None => None,
        }
    } else {
        None
    }
}

/// The headers one after the other, each as a pair.
pub open spec fn pack_items(hs: Seq<(Seq<char>, Seq<char>)>) -> Seq<u8>
    decreases hs.len(),
{
    if hs.len() == 0 {
        seq![]
    } else {
        pack_pair(hs[0]) + pack_items(hs.drop_first())
    }
}

/// The `count` pairs that `b` begins with, and the bytes that they take.
pub open spec fn parse_items(b: Seq<u8>, count: nat) -> Option<
    (Seq<(Seq<char>, Seq<char>)>, int),
>
    decreases count,
{
    if count == 0 {
        Some((seq![], 0))
    } else {
        match parse_pair(b) {
            Some((h, c)) => match parse_items(b.skip(c), (count - 1) as nat) {
                Some((hs, c2)) => Some((seq![h] + hs, c + c2)),
                None => None,
            },
            None => None,
        }
    }
}

/// A body: `nil` where there is none, a binary where there is one.
pub open spec fn pack_body(body: Option<Seq<u8>>) -> Seq<u8> {
    match body {
        None => seq![0xc0u8],
        Some(v) => len_header(Family::Bin, v.len() as int) + v,
    }
}

/// The body that `b` begins with, and the bytes that it takes.
#[verifier::opaque]
pub open spec fn parse_body(b: Seq<u8>) -> Option<(Option<Seq<u8>>, int)> {
    if b.len() > 0 && b[0] == 0xc0 {
        Some((None, 1))
    } else {
        match parse_len(Family::Bin, b) {
            Some((n, w)) => if w + n <= b.len() {
                Some((Some(b.subrange(w, w + n)), w + n))
            } else {
                None
            },
            None => None,
        }
    }
}

/// Whether every header is a pair of texts that can be written.
pub open spec fn items_packable(hs: Seq<(Seq<char>, Seq<char>)>) -> bool {
    forall|i: int|
        0 <= i < hs.len() ==> str_packable((#[trigger] hs[i]).0) && str_packable(hs[i].1)
}

/// Whether an envelope can be written: each of its lengths is below 2^32.
pub open spec fn packable(e: Envelope) -> bool {
    &&& str_packable(e.url)
    &&& str_packable(e.method)
    &&& e.headers.len() < 0x1_0000_0000
    &&& items_packable(e.headers)
    &&& (e.body matches Some(v) ==> v.len() < 0x1_0000_0000)
}

/// An envelope in its binary form.
pub open spec fn packed(e: Envelope) -> Seq<u8> {
    seq![0x94u8] + pack_str(e.url) + pack_str(e.method) + len_header(
        Family::Array,
        e.headers.len() as int,
    ) + pack_items(e.headers) + pack_body(e.body)
}

/// The envelope that `b` is the binary form of, where it is one.
pub open spec fn parse_envelope(b: Seq<u8>) -> Option<Envelope> {
    if b.len() == 0 || b[0] != 0x94 {
        None
    } else {
        match parse_str(b.skip(1)) {
            None => None,
            Some((url, c1)) => match parse_str(b.skip(1 + c1)) {
                None => None,
                Some((method, c2)) => match parse_len(Family::Array, b.skip(1 + c1 + c2)) {
                    None => None,
                    Some((n, w)) => match parse_items(b.skip(1 + c1 + c2 + w), n as nat) {
                        None => None,
                        Some((headers, c3)) => match parse_body(b.skip(1 + c1 + c2 + w + c3)) {
                            None => None,
                            Some((body, c4)) => if 1 + c1 + c2 + w + c3 + c4 == b.len() {
                                Some(Envelope { url, method, headers, body })
                            } else {
                                None
                            },
                        },
                    },
                },
            },
        }
    }
}

/// A string reads back as the text that it was written for.
pub proof fn lemma_parse_str_of_packed(s: Seq<char>, rest: Seq<u8>)
    requires
        str_packable(s),
    ensures
        parse_str(pack_str(s) + rest) == Some((s, pack_str(s).len() as int)),
{
    reveal(parse_str);
    broadcast use vstd::utf8::encode_utf8_valid_utf8, vstd::utf8::encode_utf8_decode_utf8;

    let u = encode_utf8(s);
    let h = len_header(Family::Str, u.len() as int);
    let b = pack_str(s) + rest;
    lemma_parse_len_of_header(Family::Str, u.len() as int, u + rest);
    assert(b =~= h + (u + rest));
    assert(b.subrange(h.len() as int, (h.len() + u.len()) as int) =~= u);
}

/// What reads as a string is the string of the text that was read.
pub proof fn lemma_packed_of_parse_str(b: Seq<u8>)
    requires
        parse_str(b) is Some,
    ensures
        match parse_str(b) {
            Some((s, c)) => 1 <= c <= b.len() && str_packable(s) && b.subrange(0, c) == pack_str(
                s,
            ),
            None => false,
        },
{
    reveal(parse_str);
    broadcast use vstd::utf8::decode_utf8_encode_utf8;

    lemma_header_of_parse_len(Family::Str, b);
    match parse_len(Family::Str, b) {
        Some((n, w)) => {
            let u = b.subrange(w, w + n);
            assert(encode_utf8(decode_utf8(u)) == u);
            assert(b.subrange(0, w + n) =~= b.subrange(0, w) + u);
        },
        None => {},
    }
}

/// A pair reads back as the header that it was written for.
pub proof fn lemma_parse_pair_of_packed(h: (Seq<char>, Seq<char>), rest: Seq<u8>)
    requires
        str_packable(h.0),
        str_packable(h.1),
    ensures
        parse_pair(pack_pair(h) + rest) == Some((h, pack_pair(h).len() as int)),
{
    reveal(parse_pair);
    let b = pack_pair(h) + rest;
    let c1 = pack_str(h.0).len() as int;
    assert(b[0] == 0x92);
    assert(b.skip(1) =~= pack_str(h.0) + (pack_str(h.1) + rest));
    lemma_parse_str_of_packed(h.0, pack_str(h.1) + rest);
    assert(b.skip(1 + c1) =~= pack_str(h.1) + rest);
    lemma_parse_str_of_packed(h.1, rest);
}

/// What reads as a pair is the pair of the header that was read.
pub proof fn lemma_packed_of_parse_pair(b: Seq<u8>)
    requires
        parse_pair(b) is Some,
    ensures
        match parse_pair(b) {
            Some((h, c)) => 1 <= c <= b.len() && str_packable(h.0) && str_packable(h.1)
                && b.subrange(0, c) == pack_pair(h),
            None => false,
        },
{
    reveal(parse_pair);
    lemma_packed_of_parse_str(b.skip(1));
    match parse_str(b.skip(1)) {
        Some((name, c1)) => {
            lemma_packed_of_parse_str(b.skip(1 + c1));
            match parse_str(b.skip(1 + c1)) {
                Some((value, c2)) => {
                    assert(b.skip(1).subrange(0, c1) =~= b.subrange(1, 1 + c1));
                    assert(b.skip(1 + c1).subrange(0, c2) =~= b.subrange(1 + c1, 1 + c1 + c2));
                    assert(b.subrange(0, 1 + c1 + c2) =~= seq![0x92u8] + b.subrange(1, 1 + c1)
                        + b.subrange(1 + c1, 1 + c1 + c2));
                },
                None => {},
            }
        },
        None => {},
    }
}

/// Writing one header more adds its pair at the end.
pub proof fn lemma_pack_items_push(hs: Seq<(Seq<char>, Seq<char>)>, h: (Seq<char>, Seq<char>))
    ensures
        pack_items(hs.push(h)) == pack_items(hs) + pack_pair(h),
    decreases hs.len(),
{
    if hs.len() == 0 {
        assert(hs.push(h).drop_first() =~= hs);
        assert(pack_items(hs.push(h)) =~= pack_items(hs) + pack_pair(h));
    } else {
        assert(hs.push(h).drop_first() =~= hs.drop_first().push(h));
        lemma_pack_items_push(hs.drop_first(), h);
        assert(pack_items(hs.push(h)) =~= pack_items(hs) + pack_pair(h));
    }
}

/// Pairs read back as the headers that they were written for.
pub proof fn lemma_parse_items_of_packed(hs: Seq<(Seq<char>, Seq<char>)>, rest: Seq<u8>)
    requires
        items_packable(hs),
    ensures
        parse_items(pack_items(hs) + rest, hs.len()) == Some((hs, pack_items(hs).len() as int)),
    decreases hs.len(),
{
    if hs.len() > 0 {
        let b = pack_items(hs) + rest;
        let tail = hs.drop_first();
        let c = pack_pair(hs[0]).len() as int;
        assert(str_packable(hs[0].0) && str_packable(hs[0].1));
        assert forall|i: int| 0 <= i < tail.len() implies str_packable((#[trigger] tail[i]).0)
            && str_packable(tail[i].1) by {
            assert(tail[i] == hs[i + 1]);
        }
        assert(b =~= pack_pair(hs[0]) + (pack_items(tail) + rest));
        lemma_parse_pair_of_packed(hs[0], pack_items(tail) + rest);
        assert(b.skip(c) =~= pack_items(tail) + rest);
        lemma_parse_items_of_packed(tail, rest);
        assert(seq![hs[0]] + tail =~= hs);
    }
}

/// What reads as `count` pairs is the pairs of the headers that were read.
pub proof fn lemma_packed_of_parse_items(b: Seq<u8>, count: nat)
    requires
        parse_items(b, count) is Some,
    ensures
        match parse_items(b, count) {
            Some((hs, c)) => 0 <= c <= b.len() && hs.len() == count && items_packable(hs)
                && b.subrange(0, c) == pack_items(hs),
            None => false,
        },
    decreases count,
{
    if count == 0 {
        assert(b.subrange(0, 0) =~= pack_items(seq![]));
    } else {
        lemma_packed_of_parse_pair(b);
        match parse_pair(b) {
            Some((h, c)) => {
                lemma_packed_of_parse_items(b.skip(c), (count - 1) as nat);
                match parse_items(b.skip(c), (count - 1) as nat) {
                    Some((tail, c2)) => {
                        let hs = seq![h] + tail;
                        assert(hs.drop_first() =~= tail);
                        assert(hs[0] == h);
                        assert forall|i: int| 0 <= i < hs.len() implies str_packable(
                            (#[trigger] hs[i]).0,
                        ) && str_packable(hs[i].1) by {
                            if i > 0 {
                                assert(hs[i] == tail[i - 1]);
                            }
                        }
                        assert(b.skip(c).subrange(0, c2) =~= b.subrange(c, c + c2));
                        assert(b.subrange(0, c + c2) =~= b.subrange(0, c) + b.subrange(c, c + c2));
                    },
                    None => {},
                }
            },
            None => {},
        }
    }
}

/// A body reads back as what it was written for.
pub proof fn lemma_parse_body_of_packed(body: Option<Seq<u8>>, rest: Seq<u8>)
    requires
        body matches Some(v) ==> v.len() < 0x1_0000_0000,
    ensures
        parse_body(pack_body(body) + rest) == Some((body, pack_body(body).len() as int)),
{
    reveal(parse_body);
    reveal(len_header);
    reveal(parse_len);
    let b = pack_body(body) + rest;
    match body {
        None => {
            assert(b[0] == 0xc0);
        },
        Some(v) => {
            let h = len_header(Family::Bin, v.len() as int);
            lemma_parse_len_of_header(Family::Bin, v.len() as int, v + rest);
            assert(b =~= h + (v + rest));
            assert(b[0] == h[0]);
            assert(b.subrange(h.len() as int, (h.len() + v.len()) as int) =~= v);
        },
    }
}

/// What reads as a body is the written form of the body that was read.
pub proof fn lemma_packed_of_parse_body(b: Seq<u8>)
    requires
        parse_body(b) is Some,
    ensures
        match parse_body(b) {
            Some((body, c)) => 1 <= c <= b.len() && (body matches Some(v) ==> v.len()
                < 0x1_0000_0000) && b.subrange(0, c) == pack_body(body),
            None => false,
        },
{
    reveal(parse_body);
    reveal(len_header);
    reveal(parse_len);
    if b.len() > 0 && b[0] == 0xc0 {
        assert(b.subrange(0, 1) =~= seq![0xc0u8]);
    } else {
        lemma_header_of_parse_len(Family::Bin, b);
        match parse_len(Family::Bin, b) {
            Some((n, w)) => {
                assert(b.subrange(0, w + n) =~= b.subrange(0, w) + b.subrange(w, w + n));
            },
            None => {},
        }
    }
}

/// Reading inverts writing: the binary form of an envelope reads back as
/// that envelope.
pub proof fn lemma_parse_of_packed(e: Envelope)
    requires
        packable(e),
    ensures
        parse_envelope(packed(e)) == Some(e),
{
    let b = packed(e);
    let in_url = pack_str(e.url);
    let in_method = pack_str(e.method);
    let in_count = len_header(Family::Array, e.headers.len() as int);
    let in_items = pack_items(e.headers);
    let in_body = pack_body(e.body);
    let c1 = in_url.len() as int;
    let c2 = in_method.len() as int;
    let w = in_count.len() as int;
    let c3 = in_items.len() as int;
    let c4 = in_body.len() as int;
    assert(b[0] == 0x94);
    assert(b.skip(1) =~= in_url + (in_method + in_count + in_items + in_body));
    lemma_parse_str_of_packed(e.url, in_method + in_count + in_items + in_body);
    assert(b.skip(1 + c1) =~= in_method + (in_count + in_items + in_body));
    lemma_parse_str_of_packed(e.method, in_count + in_items + in_body);
    assert(b.skip(1 + c1 + c2) =~= in_count + (in_items + in_body));
    lemma_parse_len_of_header(Family::Array, e.headers.len() as int, in_items + in_body);
    assert(b.skip(1 + c1 + c2 + w) =~= in_items + in_body);
    lemma_parse_items_of_packed(e.headers, in_body);
    assert(b.skip(1 + c1 + c2 + w + c3) =~= in_body + Seq::<u8>::empty());
    lemma_parse_body_of_packed(e.body, Seq::<u8>::empty());
    assert(b.len() == 1 + c1 + c2 + w + c3 + c4);
}

/// Writing inverts reading: what reads as an envelope is the binary form of
/// that envelope, and of no other.
pub proof fn lemma_packed_of_parse(b: Seq<u8>)
    requires
        parse_envelope(b) is Some,
    ensures
        packable(parse_envelope(b).unwrap()),
        packed(parse_envelope(b).unwrap()) == b,
{
    lemma_packed_of_parse_str(b.skip(1));
    match parse_str(b.skip(1)) {
        None => {},
        Some((url, c1)) => {
            lemma_packed_of_parse_str(b.skip(1 + c1));
            match parse_str(b.skip(1 + c1)) {
                None => {},
                Some((method, c2)) => {
                    lemma_header_of_parse_len(Family::Array, b.skip(1 + c1 + c2));
                    match parse_len(Family::Array, b.skip(1 + c1 + c2)) {
                        None => {},
                        Some((n, w)) => {
                            lemma_packed_of_parse_items(b.skip(1 + c1 + c2 + w), n as nat);
                            match parse_items(b.skip(1 + c1 + c2 + w), n as nat) {
                                None => {},
                                Some((headers, c3)) => {
                                    lemma_packed_of_parse_body(b.skip(1 + c1 + c2 + w + c3));
                                    match parse_body(b.skip(1 + c1 + c2 + w + c3)) {
                                        None => {},
                                        Some((body, c4)) => {
                                            let q1 = 1 + c1;
                                            let q2 = q1 + c2;
                                            let q3 = q2 + w;
                                            let q4 = q3 + c3;
                                            let q5 = q4 + c4;
                                            assert(b.skip(1).subrange(0, c1) =~= b.subrange(
                                                1,
                                                q1,
                                            ));
                                            assert(b.skip(q1).subrange(0, c2) =~= b.subrange(
                                                q1,
                                                q2,
                                            ));
                                            assert(b.skip(q2).subrange(0, w) =~= b.subrange(
                                                q2,
                                                q3,
                                            ));
                                            assert(b.skip(q3).subrange(0, c3) =~= b.subrange(
                                                q3,
                                                q4,
                                            ));
                                            assert(b.skip(q4).subrange(0, c4) =~= b.subrange(
                                                q4,
                                                q5,
                                            ));
                                            assert(b =~= seq![0x94u8] + b.subrange(1, q1)
                                                + b.subrange(q1, q2) + b.subrange(q2, q3)
                                                + b.subrange(q3, q4) + b.subrange(q4, q5));
                                        },
                                    }
                                },
                            }
                        },
                    }
                },
            }
        },
    }
}

/// One spelling, one envelope: two envelopes with the same binary form are
/// the same envelope.
pub proof fn lemma_packed_is_injective(a: Envelope, b: Envelope)
    requires
        packable(a),
        packable(b),
        packed(a) == packed(b),
    ensures
        a == b,
{
    lemma_parse_of_packed(a);
    lemma_parse_of_packed(b);
}

/// Reads bytes as UTF-8 text with `std::str::from_utf8`. The call succeeds
/// on valid UTF-8 and on that only, and the text it gives spells the bytes.
#[verifier::external_body]
fn utf8_text(bytes: &[u8]) -> (r: Option<&str>)
    ensures
        r is Some <==> valid_utf8(bytes@),
        r matches Some(s) ==> encode_utf8(s@) == bytes@,
{
    std::str::from_utf8(bytes).ok()
}

/// Writes a text as a string behind `out`.
pub fn write_str(s: &str, out: &mut Vec<u8>)
    requires
        str_packable(s@),
    ensures
        final(out)@ == old(out)@ + pack_str(s@),
{
    let bytes = s.as_bytes();
    write_len(Family::Str, bytes.len() as u32, out);
    out.extend_from_slice(bytes);
    assert(out@ =~= old(out)@ + pack_str(s@));
}

/// Reads the string at `pos`: its text and the place behind it.
pub fn read_str(bytes: &[u8], pos: usize) -> (r: Option<(String, usize)>)
    requires
        pos <= bytes@.len(),
    ensures
        r is Some <==> parse_str(bytes@.skip(pos as int)) is Some,
        r matches Some((t, next)) ==> parse_str(bytes@.skip(pos as int)) == Some(
            (t@, next - pos),
        ) && pos < next <= bytes@.len(),
{
    broadcast use vstd::utf8::encode_utf8_decode_utf8;

    proof {
        reveal(parse_str);
    }
    let ghost b = bytes@.skip(pos as int);
    match read_len(Family::Str, bytes, pos) {
        None => None,
        Some((n, at)) => {
            if n as usize > bytes.len() - at {
                return None;
            }
            let end: usize = at + n as usize;
            let raw = slice_subrange(bytes, at, end);
            proof {
                assert(raw@ =~= b.subrange(at - pos, at - pos + n));
            }
            match utf8_text(raw) {
                Some(text) => Some((text.to_owned(), end)),
                None => None,
            }
        },
    }
}

/// Writes a header as a pair behind `out`.
pub fn write_pair(name: &str, value: &str, out: &mut Vec<u8>)
    requires
        str_packable(name@),
        str_packable(value@),
    ensures
        final(out)@ == old(out)@ + pack_pair((name@, value@)),
{
    out.push(0x92);
    write_str(name, out);
    write_str(value, out);
    assert(out@ =~= old(out)@ + pack_pair((name@, value@)));
}

/// Reads the pair at `pos`: the header and the place behind it.
pub fn read_pair(bytes: &[u8], pos: usize) -> (r: Option<((String, String), usize)>)
    requires
        pos <= bytes@.len(),
    ensures
        r is Some <==> parse_pair(bytes@.skip(pos as int)) is Some,
        r matches Some((t, next)) ==> parse_pair(bytes@.skip(pos as int)) == Some(
            ((t.0@, t.1@), next - pos),
        ) && pos < next <= bytes@.len(),
{
    proof {
        reveal(parse_pair);
    }
    let ghost b = bytes@.skip(pos as int);
    if pos == bytes.len() || bytes[pos] != 0x92 {
        proof {
            if pos < bytes@.len() {
                assert(b[0] == bytes@[pos as int]);
            }
        }
        return None;
    }
    proof {
        assert(b[0] == bytes@[pos as int]);
        assert(b.skip(1) =~= bytes@.skip(pos + 1));
    }
    match read_str(bytes, pos + 1) {
        None => None,
        Some((name, at)) => {
            proof {
                assert(b.skip(at - pos) =~= bytes@.skip(at as int));
            }
            match read_str(bytes, at) {
                None => None,
                Some((value, next)) => Some(((name, value), next)),
            }
        },
    }
}

/// Writes a body behind `out`.
pub fn write_body(body: &Option<Vec<u8>>, out: &mut Vec<u8>)
    requires
        *body matches Some(v) ==> v@.len() < 0x1_0000_0000,
    ensures
        final(out)@ == old(out)@ + pack_body(body_view(*body)),
{
    match body {
        None => {
            out.push(0xc0);
            assert(out@ =~= old(out)@ + pack_body(body_view(*body)));
        },
        Some(v) => {
            write_len(Family::Bin, v.len() as u32, out);
            out.extend_from_slice(v.as_slice());
            assert(out@ =~= old(out)@ + pack_body(body_view(*body)));
        },
    }
}

/// Reads the body at `pos`: the body and the place behind it.
pub fn read_body(bytes: &[u8], pos: usize) -> (r: Option<(Option<Vec<u8>>, usize)>)
    requires
        pos <= bytes@.len(),
    ensures
        r is Some <==> parse_body(bytes@.skip(pos as int)) is Some,
        r matches Some((t, next)) ==> parse_body(bytes@.skip(pos as int)) == Some(
            (body_view(t), next - pos),
        ) && pos < next <= bytes@.len(),
{
    proof {
        reveal(parse_body);
    }
    let ghost b = bytes@.skip(pos as int);
    if pos < bytes.len() && bytes[pos] == 0xc0 {
        assert(b[0] == bytes@[pos as int]);
        return Some((None, pos + 1));
    }
    proof {
        if pos < bytes@.len() {
            assert(b[0] == bytes@[pos as int]);
        }
    }
    match read_len(Family::Bin, bytes, pos) {
        None => None,
        Some((n, at)) => {
            if n as usize > bytes.len() - at {
                return None;
            }
            let end: usize = at + n as usize;
            let raw = slice_to_vec(slice_subrange(bytes, at, end));
            proof {
                assert(raw@ =~= b.subrange(at - pos, at - pos + n));
            }
            Some((Some(raw), end))
        },
    }
}

/// Reads the `count` pairs at `pos`: the headers and the place behind them.
pub fn read_items(bytes: &[u8], pos: usize, count: u32) -> (r: Option<
    (Vec<(String, String)>, usize),
>)
    requires
        pos <= bytes@.len(),
    ensures
        r is Some <==> parse_items(bytes@.skip(pos as int), count as nat) is Some,
        r matches Some((t, next)) ==> parse_items(bytes@.skip(pos as int), count as nat) == Some(
            (headers_view(t@), next - pos),
        ) && pos <= next <= bytes@.len(),
{
    let ghost whole = parse_items(bytes@.skip(pos as int), count as nat);
    let mut items: Vec<(String, String)> = Vec::new();
    let mut at: usize = pos;
    let mut k: u32 = 0;
    proof {
        match whole {
            Some((hs, c)) => {
                assert(headers_view(items@) + hs =~= hs);
            },
            None => {},
        }
    }
    while k < count
        invariant
            k <= count,
            pos <= at <= bytes@.len(),
            whole == parse_items(bytes@.skip(pos as int), count as nat),
            match parse_items(bytes@.skip(at as int), (count - k) as nat) {
                Some((rest, c)) => whole == Some((headers_view(items@) + rest, (at - pos) + c)),
                None => whole is None,
            },
        decreases count - k,
    {
        let ghost b = bytes@.skip(at as int);
        let ghost before = headers_view(items@);
        match read_pair(bytes, at) {
            None => {
                return None;
            },
            Some((h, next)) => {
                proof {
                    let c = next - at;
                    assert(b.skip(c) =~= bytes@.skip(next as int));
                    match parse_items(b.skip(c), (count - k - 1) as nat) {
                        Some((rest, c2)) => {
                            assert(before + (seq![(h.0@, h.1@)] + rest) =~= before.push(
                                (h.0@, h.1@),
                            ) + rest);
                        },
                        None => {},
                    }
                }
                items.push(h);
                proof {
                    assert(headers_view(items@) =~= before.push((h.0@, h.1@)));
                }
                at = next;
                k += 1;
            },
        }
    }
    proof {
        assert(headers_view(items@) + Seq::<(Seq<char>, Seq<char>)>::empty() =~= headers_view(
            items@,
        ));
    }
    Some((items, at))
}

/// Whether a length can be written.
pub fn fits(len: usize) -> (ok: bool)
    ensures
        ok == (len < 0x1_0000_0000),
{
    len <= 0xFFFF_FFFF
}

impl ProxyRequest {
    /// The binary form of the envelope. An envelope that holds a text, a
    /// body or a list of headers of 2^32 bytes or entries, or more, has none
    /// and is refused.
    pub fn serialize(&self) -> (r: Result<Vec<u8>, ProxyError>)
        ensures
            packable(self@) ==> (r matches Ok(bytes) && bytes@ == packed(self@)),
            !packable(self@) ==> r matches Err(ProxyError::FormatError),
    {
        let body_fits = match &self.body {
            Some(v) => fits(v.len()),
            None => true,
        };
        if !fits(self.url.as_str().as_bytes().len()) || !fits(
            self.method.as_str().as_bytes().len(),
        ) || !fits(self.headers.len()) || !body_fits {
            return Err(ProxyError::FormatError);
        }
        let ghost hs = headers_view(self.headers@);
        let mut out: Vec<u8> = Vec::new();
        out.push(0x94);
        write_str(self.url.as_str(), &mut out);
        write_str(self.method.as_str(), &mut out);
        write_len(Family::Array, self.headers.len() as u32, &mut out);
        let ghost front = out@;
        let mut i: usize = 0;
        proof {
            assert(out@ =~= front + pack_items(hs.subrange(0, 0)));
        }
        while i < self.headers.len()
            invariant
                i <= self.headers.len(),
                hs == headers_view(self.headers@),
                out@ == front + pack_items(hs.subrange(0, i as int)),
                forall|j: int|
                    0 <= j < i ==> str_packable((#[trigger] hs[j]).0) && str_packable(hs[j].1),
            decreases self.headers.len() - i,
        {
            let name = self.headers[i].0.as_str();
            let value = self.headers[i].1.as_str();
            proof {
                assert(hs[i as int] == (name@, value@));
            }
            if !fits(name.as_bytes().len()) || !fits(value.as_bytes().len()) {
                proof {
                    assert(!(str_packable(hs[i as int].0) && str_packable(hs[i as int].1)));
                }
                return Err(ProxyError::FormatError);
            }
            write_pair(name, value, &mut out);
            proof {
                lemma_pack_items_push(hs.subrange(0, i as int), hs[i as int]);
                assert(hs.subrange(0, i + 1) =~= hs.subrange(0, i as int).push(hs[i as int]));
            }
            i += 1;
        }
        proof {
            assert(hs.subrange(0, i as int) =~= hs);
        }
        write_body(&self.body, &mut out);
        proof {
            assert(out@ =~= packed(self@));
        }
        Ok(out)
    }

    /// Reads an envelope from its binary form. Bytes that are the binary
    /// form of no envelope are refused: cut short, followed by more, holding
    /// text that is no UTF-8, or spelled otherwise than an envelope is.
    pub fn deserialize(bytes: &[u8]) -> (r: Result<ProxyRequest, ProxyError>)
        ensures
            r matches Ok(request) ==> packable(request@) && packed(request@) == bytes@,
            r matches Err(e) ==> e == ProxyError::FormatError && forall|e: Envelope|
                packable(e) ==> #[trigger] packed(e) != bytes@,
            r is Ok <==> parse_envelope(bytes@) is Some,
    {
        let parsed = read_envelope(bytes);
        proof {
            if parse_envelope(bytes@) is Some {
                lemma_packed_of_parse(bytes@);
            } else {
                assert forall|e: Envelope| packable(e) implies #[trigger] packed(e) != bytes@ by {
                    if packed(e) == bytes@ {
                        lemma_parse_of_packed(e);
                    }
                }
            }
        }
        match parsed {
            Some(request) => Ok(request),
            None => Err(ProxyError::FormatError),
        }
    }
}

/// Reads the envelope that the bytes are the binary form of.
pub fn read_envelope(bytes: &[u8]) -> (r: Option<ProxyRequest>)
    ensures
        r is Some <==> parse_envelope(bytes@) is Some,
        r matches Some(request) ==> parse_envelope(bytes@) == Some(request@),
{
    if bytes.len() == 0 || bytes[0] != 0x94 {
        return None;
    }
    match read_str(bytes, 1) {
        None => None,
        Some((url, at_method)) => match read_str(bytes, at_method) {
            None => None,
            Some((method, at_count)) => match read_len(Family::Array, bytes, at_count) {
                None => None,
                Some((n, at_items)) => match read_items(bytes, at_items, n) {
                    None => None,
                    Some((headers, at_body)) => match read_body(bytes, at_body) {
                        None => None,
                        Some((body, end)) => {
                            if end == bytes.len() {
                                Some(ProxyRequest { url, method, headers, body })
                            } else {
                                None
                            }
                        },
                    },
                },
            },
        },
    }
}

} // verus!

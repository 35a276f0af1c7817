//! The frame codec: one AEAD ciphertext per frame, prefixed by its nonce and
//! its length.
//!
//! A frame on the wire is `nonce[12] || length[4, little-endian] ||
//! ciphertext[length]`, and the ciphertext carries the 16-byte tag at its
//! end. Frames follow one another without a separator.

use crate::errors::ProxyError;
use aes_gcm::aead::{Aead, AeadCore, KeyInit, OsRng};
use aes_gcm::{Aes256Gcm, Nonce};
use vstd::prelude::*;
use vstd::slice::slice_subrange;

verus! {

/// Bytes of nonce at the start of a frame.
pub const NONCE_SIZE: usize = 12;

/// Bytes of nonce and length before the ciphertext.
pub const HEADER_SIZE: usize = 16;

/// Bytes that the cipher adds to a plaintext.
pub const TAG_SIZE: usize = 16;

/// Bytes of a key.
pub const KEY_SIZE: usize = 32;

/// The longest plaintext whose ciphertext length still fits the length field.
pub const MAX_PLAINTEXT: usize = 0xFFFF_FFEF;

/// What AES-256-GCM makes of a plaintext under a key and a nonce, with no
/// associated data: the ciphertext followed by the tag.
pub uninterp spec fn aes256gcm_seal(key: Seq<u8>, nonce: Seq<u8>, plaintext: Seq<u8>) -> Seq<u8>;

/// What AES-256-GCM recovers from a ciphertext with its tag under a key and a
/// nonce, with no associated data: the plaintext, or nothing where the tag
/// does not match.
pub uninterp spec fn aes256gcm_open(key: Seq<u8>, nonce: Seq<u8>, ciphertext: Seq<u8>) -> Option<
    Seq<u8>,
>;

/// The number that four bytes spell, lowest byte first.
pub open spec fn le32_value(b: Seq<u8>) -> int
    recommends
        b.len() == 4,
{
    b[0] as int + 256 * (b[1] as int) + 65536 * (b[2] as int) + 16777216 * (b[3] as int)
}

/// The four bytes that spell a number below 2^32, lowest byte first.
pub open spec fn le32_bytes(n: int) -> Seq<u8>
    recommends
        0 <= n < 0x1_0000_0000,
{
    seq![
        (n % 256) as u8,
        ((n / 256) % 256) as u8,
        ((n / 65536) % 256) as u8,
        ((n / 16777216) % 256) as u8,
    ]
}

/// A frame as it stands on the wire.
pub open spec fn wire_frame(nonce: Seq<u8>, ciphertext: Seq<u8>) -> Seq<u8> {
    nonce + le32_bytes(ciphertext.len() as int) + ciphertext
}

/// The ciphertext length that the header of a buffer announces.
pub open spec fn announced_length(buf: Seq<u8>) -> int
    recommends
        buf.len() >= 16,
{
    le32_value(buf.subrange(12, 16))
}

/// The bytes that the first frame of a buffer takes, header included.
pub open spec fn frame_span(buf: Seq<u8>) -> int
    recommends
        buf.len() >= 16,
{
    16 + announced_length(buf)
}

/// Whether a buffer holds its first frame to the last byte.
pub open spec fn has_whole_frame(buf: Seq<u8>) -> bool {
    buf.len() >= 16 && buf.len() >= frame_span(buf)
}

/// The nonce of the first frame of a buffer.
pub open spec fn frame_nonce(buf: Seq<u8>) -> Seq<u8>
    recommends
        buf.len() >= 16,
{
    buf.subrange(0, 12)
}

/// The ciphertext of the first frame of a buffer.
pub open spec fn frame_ciphertext(buf: Seq<u8>) -> Seq<u8>
    recommends
        has_whole_frame(buf),
{
    buf.subrange(16, frame_span(buf))
}

/// What the first frame of a buffer decrypts to under a key.
pub open spec fn frame_plaintext(key: Seq<u8>, buf: Seq<u8>) -> Option<Seq<u8>>
    recommends
        has_whole_frame(buf),
{
    aes256gcm_open(key, frame_nonce(buf), frame_ciphertext(buf))
}

/// What one-shot decoding makes of a buffer: the plaintext of its first
/// frame, a format error where the frame is not whole, a decryption failure
/// where the tag does not match.
pub open spec fn decode_once_spec(key: Seq<u8>, buf: Seq<u8>) -> Result<Seq<u8>, ProxyError> {
    if !has_whole_frame(buf) {
        Err(ProxyError::FormatError)
    } else {
        match frame_plaintext(key, buf) {
            Some(p) => Ok(p),
            None => Err(ProxyError::DecryptionFailure),
        }
    }
}

/// The cipher turns `plaintext` into `ciphertext` under this key and nonce,
/// and turns it back.
pub open spec fn seals_to(
    key: Seq<u8>,
    nonce: Seq<u8>,
    plaintext: Seq<u8>,
    ciphertext: Seq<u8>,
) -> bool {
    &&& nonce.len() == 12
    &&& ciphertext == aes256gcm_seal(key, nonce, plaintext)
    &&& ciphertext.len() == plaintext.len() + 16
    &&& aes256gcm_open(key, nonce, ciphertext) == Some(plaintext)
}

/// `bytes` is a frame that carries `plaintext` under `key`, whatever nonce
/// was drawn for it.
pub open spec fn is_frame_of(key: Seq<u8>, plaintext: Seq<u8>, bytes: Seq<u8>) -> bool {
    exists|nonce: Seq<u8>, ciphertext: Seq<u8>|
        #[trigger] seals_to(key, nonce, plaintext, ciphertext) && bytes == wire_frame(
            nonce,
            ciphertext,
        )
}

/// Encrypts with `Aes256Gcm::encrypt` of the `aes-gcm` crate, under a cipher
/// made by `Aes256Gcm::new_from_slice`. The call fails only on a key of the
/// wrong length or on a plaintext above 2^36 bytes; the result is the
/// ciphertext with the 16-byte tag behind it, and it is the value that
/// decryption under the same key and nonce turns back into the plaintext.
#[verifier::external_body]
pub(crate) fn aead_seal(key: &[u8], nonce: &[u8], plaintext: &[u8]) -> (r: Option<Vec<u8>>)
    requires
        nonce@.len() == 12,
    ensures
        key@.len() == 32 && plaintext@.len() <= 0x10_0000_0000 ==> r.is_some(),
        r matches Some(c) ==> c@ == aes256gcm_seal(key@, nonce@, plaintext@) && c@.len()
            == plaintext@.len() + 16 && aes256gcm_open(key@, nonce@, c@) == Some(plaintext@),
{
    let cipher = Aes256Gcm::new_from_slice(key).ok()?;
    cipher.encrypt(Nonce::from_slice(nonce), plaintext).ok()
}

/// Decrypts with `Aes256Gcm::decrypt` of the `aes-gcm` crate, under a cipher
/// made by `Aes256Gcm::new_from_slice`. The result is the plaintext, 16 bytes
/// shorter than the ciphertext, or nothing where the tag does not match, the
/// input is shorter than a tag, or the key has the wrong length.
#[verifier::external_body]
pub(crate) fn aead_open(key: &[u8], nonce: &[u8], ciphertext: &[u8]) -> (r: Option<Vec<u8>>)
    requires
        nonce@.len() == 12,
        key@.len() == 32,
    ensures
        r is Some <==> aes256gcm_open(key@, nonce@, ciphertext@) is Some,
        r matches Some(p) ==> aes256gcm_open(key@, nonce@, ciphertext@) == Some(p@) && p@.len()
            + 16 == ciphertext@.len(),
{
    let cipher = Aes256Gcm::new_from_slice(key).ok()?;
    cipher.decrypt(Nonce::from_slice(nonce), ciphertext).ok()
}

/// Draws a nonce with `Aes256Gcm::generate_nonce` of the `aes-gcm` crate from
/// the operating system's random source. Nothing is claimed of its value, and
/// the call does not return where the system has no random bytes to give.
#[verifier::external_body]
pub(crate) fn fresh_nonce() -> (r: [u8; 12]) {
    Aes256Gcm::generate_nonce(&mut OsRng).into()
}

/// Writes a number below 2^32 as four bytes, lowest first, behind `dst`.
pub(crate) fn push_le32(dst: &mut Vec<u8>, n: u32)
    ensures
        final(dst)@ == old(dst)@ + le32_bytes(n as int),
{
    let b0: u8 = (n % 256) as u8;
    let b1: u8 = ((n / 256) % 256) as u8;
    let b2: u8 = ((n / 65536) % 256) as u8;
    let b3: u8 = ((n / 16777216) % 256) as u8;
    dst.push(b0);
    dst.push(b1);
    dst.push(b2);
    dst.push(b3);
    assert(dst@ =~= old(dst)@ + le32_bytes(n as int));
}

/// Reads the length field of a buffer that holds a whole header.
pub(crate) fn read_announced_length(buf: &[u8]) -> (n: u64)
    requires
        buf@.len() >= 16,
    ensures
        n == announced_length(buf@),
        n < 0x1_0000_0000,
{
    let b0: u64 = buf[12] as u64;
    let b1: u64 = buf[13] as u64;
    let b2: u64 = buf[14] as u64;
    let b3: u64 = buf[15] as u64;
    b0 + 256 * b1 + 65536 * b2 + 16777216 * b3
}

/// Reading back the four bytes of a number gives the number.
pub proof fn lemma_le32_round_trip(n: int)
    requires
        0 <= n < 0x1_0000_0000,
    ensures
        le32_bytes(n).len() == 4,
        le32_value(le32_bytes(n)) == n,
{
    let b = le32_bytes(n);
    assert(b[0] as int == n % 256);
    assert(b[1] as int == (n / 256) % 256);
    assert(b[2] as int == (n / 65536) % 256);
    assert(b[3] as int == (n / 16777216) % 256);
}

/// A frame on the wire announces its own ciphertext, and spans itself.
pub proof fn lemma_wire_frame_parts(nonce: Seq<u8>, ciphertext: Seq<u8>)
    requires
        nonce.len() == 12,
        ciphertext.len() < 0x1_0000_0000,
    ensures
        wire_frame(nonce, ciphertext).len() == 16 + ciphertext.len(),
        announced_length(wire_frame(nonce, ciphertext)) == ciphertext.len(),
        has_whole_frame(wire_frame(nonce, ciphertext)),
        frame_span(wire_frame(nonce, ciphertext)) == 16 + ciphertext.len(),
        frame_nonce(wire_frame(nonce, ciphertext)) == nonce,
        frame_ciphertext(wire_frame(nonce, ciphertext)) == ciphertext,
{
    let f = wire_frame(nonce, ciphertext);
    lemma_le32_round_trip(ciphertext.len() as int);
    assert(f.subrange(12, 16) =~= le32_bytes(ciphertext.len() as int));
    assert(f.subrange(0, 12) =~= nonce);
    assert(f.subrange(16, 16 + ciphertext.len() as int) =~= ciphertext);
}

/// Round trip: a frame that carries a plaintext under a key decodes, under
/// that key, to that plaintext.
pub proof fn lemma_decode_inverts_encode(key: Seq<u8>, plaintext: Seq<u8>, frame: Seq<u8>)
    requires
        is_frame_of(key, plaintext, frame),
        plaintext.len() <= MAX_PLAINTEXT,
    ensures
        has_whole_frame(frame),
        frame_span(frame) == frame.len(),
        frame_plaintext(key, frame) == Some(plaintext),
        decode_once_spec(key, frame) == Ok::<Seq<u8>, ProxyError>(plaintext),
{
    let (nonce, ciphertext) = choose|nonce: Seq<u8>, ciphertext: Seq<u8>|
        #[trigger] seals_to(key, nonce, plaintext, ciphertext) && frame == wire_frame(
            nonce,
            ciphertext,
        );
    lemma_wire_frame_parts(nonce, ciphertext);
}

/// Streaming reassembly: no proper prefix of a frame holds a whole frame, so
/// a decoder fed the frame byte by byte asks for more until the last byte is
/// there, and then sees the frame that it would have seen at once.
pub proof fn lemma_prefix_needs_more(nonce: Seq<u8>, ciphertext: Seq<u8>, cut: int)
    requires
        nonce.len() == 12,
        ciphertext.len() < 0x1_0000_0000,
        0 <= cut < 16 + ciphertext.len(),
    ensures
        !has_whole_frame(wire_frame(nonce, ciphertext).subrange(0, cut)),
        has_whole_frame(wire_frame(nonce, ciphertext)),
        frame_span(wire_frame(nonce, ciphertext)) == wire_frame(nonce, ciphertext).len(),
{
    let f = wire_frame(nonce, ciphertext);
    lemma_wire_frame_parts(nonce, ciphertext);
    if cut >= 16 {
        assert(f.subrange(0, cut).subrange(12, 16) =~= f.subrange(12, 16));
    }
}

/// A frame begins with its nonce, so frames under different nonces differ
/// in their first twelve bytes, whatever they carry.
pub proof fn lemma_frames_differ_by_nonce(
    nonce_a: Seq<u8>,
    ciphertext_a: Seq<u8>,
    nonce_b: Seq<u8>,
    ciphertext_b: Seq<u8>,
)
    requires
        nonce_a.len() == 12,
        nonce_b.len() == 12,
        nonce_a != nonce_b,
    ensures
        wire_frame(nonce_a, ciphertext_a).subrange(0, 12) == nonce_a,
        wire_frame(nonce_b, ciphertext_b).subrange(0, 12) == nonce_b,
        wire_frame(nonce_a, ciphertext_a) != wire_frame(nonce_b, ciphertext_b),
{
    assert(wire_frame(nonce_a, ciphertext_a).subrange(0, 12) =~= nonce_a);
    assert(wire_frame(nonce_b, ciphertext_b).subrange(0, 12) =~= nonce_b);
}

/// Tamper detection, as far as the framing alone shows it: a frame whose
/// length field was changed to announce more than follows is cut short, and
/// decodes to a format error, not to a plaintext.
pub proof fn lemma_longer_length_is_refused(key: Seq<u8>, frame: Seq<u8>, bent: Seq<u8>)
    requires
        frame.len() >= 16,
        frame_span(frame) == frame.len(),
        bent.len() == frame.len(),
        announced_length(bent) > announced_length(frame),
    ensures
        !has_whole_frame(bent),
        decode_once_spec(key, bent) == Err::<Seq<u8>, ProxyError>(ProxyError::FormatError),
{
}

/// Decoding gives nothing of its own: where it gives a plaintext, that is
/// what the cipher opened the frame's ciphertext to under the frame's nonce,
/// and where the cipher opens nothing, decoding fails.
pub proof fn lemma_decode_gives_what_the_cipher_opens(key: Seq<u8>, buf: Seq<u8>)
    ensures
        decode_once_spec(key, buf) matches Ok(p) ==> has_whole_frame(buf) && aes256gcm_open(
            key,
            frame_nonce(buf),
            frame_ciphertext(buf),
        ) == Some(p),
        has_whole_frame(buf) && aes256gcm_open(key, frame_nonce(buf), frame_ciphertext(buf))
            is None ==> decode_once_spec(key, buf) == Err::<Seq<u8>, ProxyError>(
            ProxyError::DecryptionFailure,
        ),
{
}

/// Bytes behind a whole first frame change nothing of how it decodes.
pub proof fn lemma_first_frame_ignores_rest(buf: Seq<u8>, more: Seq<u8>)
    requires
        has_whole_frame(buf),
    ensures
        has_whole_frame(buf + more),
        frame_span(buf + more) == frame_span(buf),
        frame_nonce(buf + more) == frame_nonce(buf),
        frame_ciphertext(buf + more) == frame_ciphertext(buf),
{
    let all = buf + more;
    assert(all.subrange(12, 16) =~= buf.subrange(12, 16));
    assert(all.subrange(0, 12) =~= buf.subrange(0, 12));
    assert(all.subrange(16, frame_span(buf)) =~= buf.subrange(16, frame_span(buf)));
}

/// The codec of one key: it frames plaintexts and opens frames.
pub struct EncryptionCodec {
    /// The key that every frame is sealed and opened with.
    pub key: [u8; 32],
}

impl EncryptionCodec {
    /// A codec for a derived key.
    pub fn new(key: [u8; 32]) -> (codec: Self)
        ensures
            codec.key == key,
    {
        EncryptionCodec { key }
    }

    /// One step of streaming decode over an accumulator of received bytes.
    ///
    /// While the first frame is not whole the step asks for more and takes
    /// nothing. Once it is whole, the step returns its plaintext and the
    /// number of bytes to drop from the front of the accumulator, or fails
    /// for good where the tag does not match.
    pub fn decode_step(&self, buffer: &[u8]) -> (r: Result<(Option<Vec<u8>>, usize), ProxyError>)
        ensures
            !has_whole_frame(buffer@) ==> r matches Ok((None, 0)),
            has_whole_frame(buffer@) ==> match frame_plaintext(self.key@, buffer@) {
                Some(p) => r matches Ok((Some(v), n)) && v@ == p && n == frame_span(buffer@),
                None => r == Err::<(Option<Vec<u8>>, usize), ProxyError>(
                    ProxyError::DecryptionFailure,
                ),
            },
            r matches Ok((Some(v), n)) ==> v@.len() + 16 == announced_length(buffer@),
    {
        if buffer.len() < HEADER_SIZE {
            return Ok((None, 0));
        }
        let announced: u64 = read_announced_length(buffer);
        let span: u64 = 16 + announced;
        if (buffer.len() as u64) < span {
            return Ok((None, 0));
        }
        let end: usize = span as usize;
        let nonce = slice_subrange(buffer, 0, NONCE_SIZE);
        let ciphertext = slice_subrange(buffer, HEADER_SIZE, end);
        match aead_open(self.key.as_slice(), nonce, ciphertext) {
            Some(plaintext) => Ok((Some(plaintext), end)),
            None => Err(ProxyError::DecryptionFailure),
        }
    }

    /// Decodes the first frame of `src` and removes it from `src`.
    ///
    /// Where the frame is not whole, or does not open, `src` is left as it
    /// was.
    pub fn decode(&self, src: &mut Vec<u8>) -> (r: Result<Option<Vec<u8>>, ProxyError>)
        ensures
            !has_whole_frame(old(src)@) ==> (r matches Ok(None) && final(src)@ == old(src)@),
            has_whole_frame(old(src)@) ==> match frame_plaintext(self.key@, old(src)@) {
                Some(p) => r matches Ok(Some(v)) && v@ == p && final(src)@ == old(src)@.subrange(
                    frame_span(old(src)@),
                    old(src)@.len() as int,
                ),
                None => r == Err::<Option<Vec<u8>>, ProxyError>(ProxyError::DecryptionFailure)
                    && final(src)@ == old(src)@,
            },
            r matches Ok(Some(v)) ==> v@.len() + 16 == announced_length(old(src)@),
    {
        let step = self.decode_step(src.as_slice());
        match step {
            Ok((Some(plaintext), taken)) => {
                let rest = src.split_off(taken);
                *src = rest;
                Ok(Some(plaintext))
            },
            Ok((None, _)) => Ok(None),
            Err(e) => Err(e),
        }
    }

    /// Seals `item` into one frame under the nonce that is given and writes
    /// the frame behind `dst`: the nonce, the length of the cipher's output,
    /// and that output.
    ///
    /// A plaintext whose ciphertext would not fit the length field is refused
    /// and `dst` is left as it was. The caller answers for the nonce: under
    /// one key no nonce may be given twice.
    pub fn encode_with_nonce(&self, nonce: &[u8; 12], item: &[u8], dst: &mut Vec<u8>) -> (r: Result<
        (),
        ProxyError,
    >)
        ensures
            item@.len() > MAX_PLAINTEXT ==> r == Err::<(), ProxyError>(ProxyError::FormatError)
                && final(dst)@ == old(dst)@,
            item@.len() <= MAX_PLAINTEXT ==> r is Ok && final(dst)@ == old(dst)@ + wire_frame(
                nonce@,
                aes256gcm_seal(self.key@, nonce@, item@),
            ) && seals_to(self.key@, nonce@, item@, aes256gcm_seal(self.key@, nonce@, item@)),
    {
        if item.len() > MAX_PLAINTEXT {
            return Err(ProxyError::FormatError);
        }
        match aead_seal(self.key.as_slice(), nonce.as_slice(), item) {
            Some(ciphertext) => {
                let n: u32 = ciphertext.len() as u32;
                dst.extend_from_slice(nonce.as_slice());
                push_le32(dst, n);
                dst.extend_from_slice(ciphertext.as_slice());
                proof {
                    assert(dst@ =~= old(dst)@ + wire_frame(nonce@, ciphertext@));
                }
                Ok(())
            },
            None => {
                proof {
                    assert(false);
                }
                Err(ProxyError::FormatError)
            },
        }
    }

    /// Seals `item` into one frame under a freshly drawn nonce and writes the
    /// frame behind `dst`.
    ///
    /// A plaintext whose ciphertext would not fit the length field is refused
    /// and `dst` is left as it was.
    pub fn encode(&self, item: &[u8], dst: &mut Vec<u8>) -> (r: Result<(), ProxyError>)
        ensures
            item@.len() > MAX_PLAINTEXT ==> r == Err::<(), ProxyError>(ProxyError::FormatError)
                && final(dst)@ == old(dst)@,
            item@.len() <= MAX_PLAINTEXT ==> r is Ok && exists|frame: Seq<u8>|
                #[trigger] is_frame_of(self.key@, item@, frame) && final(dst)@ == old(dst)@
                    + frame,
    {
        let nonce = fresh_nonce();
        let r = self.encode_with_nonce(&nonce, item, dst);
        proof {
            if item@.len() <= MAX_PLAINTEXT {
                let ciphertext = aes256gcm_seal(self.key@, nonce@, item@);
                assert(is_frame_of(self.key@, item@, wire_frame(nonce@, ciphertext)));
            }
        }
        r
    }

    /// Decodes a buffer that holds one whole frame: its plaintext, a format
    /// error where the frame is cut short, a decryption failure where the tag
    /// does not match. Bytes behind the frame are not looked at.
    pub fn decode_once(&self, ciphertext: &[u8]) -> (r: Result<Vec<u8>, ProxyError>)
        ensures
            match decode_once_spec(self.key@, ciphertext@) {
                Ok(p) => r matches Ok(v) && v@ == p,
                Err(e) => r == Err::<Vec<u8>, ProxyError>(e),
            },
            r matches Ok(v) ==> v@.len() + 16 == announced_length(ciphertext@),
    {
        match self.decode_step(ciphertext) {
            Ok((Some(plaintext), _)) => Ok(plaintext),
            Ok((None, _)) => Err(ProxyError::FormatError),
            Err(e) => Err(e),
        }
    }

    /// Seals a plaintext into one frame under the nonce that is given and
    /// returns the frame: the nonce, the length of the cipher's output, and
    /// that output. The caller answers for the nonce: under one key no nonce
    /// may be given twice.
    pub fn encode_once_with_nonce(&self, nonce: &[u8; 12], plaintext: &[u8]) -> (r: Result<
        Vec<u8>,
        ProxyError,
    >)
        ensures
            plaintext@.len() > MAX_PLAINTEXT ==> r == Err::<Vec<u8>, ProxyError>(
                ProxyError::FormatError,
            ),
            plaintext@.len() <= MAX_PLAINTEXT ==> (r matches Ok(frame) && frame@ == wire_frame(
                nonce@,
                aes256gcm_seal(self.key@, nonce@, plaintext@),
            ) && seals_to(
                self.key@,
                nonce@,
                plaintext@,
                aes256gcm_seal(self.key@, nonce@, plaintext@),
            ) && decode_once_spec(self.key@, frame@) == Ok::<Seq<u8>, ProxyError>(plaintext@)),
    {
        let mut dst: Vec<u8> = Vec::new();
        match self.encode_with_nonce(nonce, plaintext, &mut dst) {
            Ok(()) => {
                proof {
                    let ciphertext = aes256gcm_seal(self.key@, nonce@, plaintext@);
                    assert(dst@ =~= wire_frame(nonce@, ciphertext));
                    assert(is_frame_of(self.key@, plaintext@, dst@));
                    lemma_decode_inverts_encode(self.key@, plaintext@, dst@);
                }
                Ok(dst)
            },
            Err(e) => Err(e),
        }
    }

    /// Seals a plaintext into one frame under a freshly drawn nonce and
    /// returns the frame.
    pub fn encode_once(&self, plaintext: &[u8]) -> (r: Result<Vec<u8>, ProxyError>)
        ensures
            plaintext@.len() > MAX_PLAINTEXT ==> r == Err::<Vec<u8>, ProxyError>(
                ProxyError::FormatError,
            ),
            plaintext@.len() <= MAX_PLAINTEXT ==> (r matches Ok(frame) && is_frame_of(
                self.key@,
                plaintext@,
                frame@,
            ) && decode_once_spec(self.key@, frame@) == Ok::<Seq<u8>, ProxyError>(plaintext@)),
    {
        let nonce = fresh_nonce();
        let r = self.encode_once_with_nonce(&nonce, plaintext);
        proof {
            if plaintext@.len() <= MAX_PLAINTEXT {
                let ciphertext = aes256gcm_seal(self.key@, nonce@, plaintext@);
                assert(is_frame_of(self.key@, plaintext@, wire_frame(nonce@, ciphertext)));
            }
        }
        r
    }
}

} // verus!

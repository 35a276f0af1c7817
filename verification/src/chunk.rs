//! A frame taken apart: the nonce and the ciphertext as two values.

use crate::errors::ProxyError;
use crate::frame::{
    aead_open, aead_seal, aes256gcm_open, aes256gcm_seal, decode_once_spec, frame_span, fresh_nonce,
    has_whole_frame, is_frame_of, le32_bytes, le32_value, lemma_decode_inverts_encode,
    lemma_le32_round_trip, push_le32, read_announced_length, seals_to, wire_frame, MAX_PLAINTEXT,
};
use vstd::prelude::*;
use vstd::slice::{slice_subrange, slice_to_vec};

verus! {

/// One encrypted chunk: the nonce it was sealed under and the ciphertext with
/// its tag.
pub struct EncryptedChunk {
    /// The nonce of this chunk.
    pub nonce: [u8; 12],
    /// The ciphertext, tag included.
    pub ciphertext: Vec<u8>,
}

impl EncryptedChunk {
    /// Whether the ciphertext is short enough for the length field of a frame.
    pub open spec fn fits(&self) -> bool {
        self.ciphertext@.len() < 0x1_0000_0000
    }

    /// The chunk as a frame on the wire.
    pub open spec fn wire(&self) -> Seq<u8> {
        wire_frame(self.nonce@, self.ciphertext@)
    }

    /// The frame of this chunk: nonce, length, ciphertext.
    pub fn to_bytes(&self) -> (bytes: Vec<u8>)
        requires
            self.fits(),
        ensures
            bytes@ == self.wire(),
    {
        let mut bytes: Vec<u8> = Vec::new();
        bytes.extend_from_slice(self.nonce.as_slice());
        push_le32(&mut bytes, self.ciphertext.len() as u32);
        bytes.extend_from_slice(self.ciphertext.as_slice());
        assert(bytes@ =~= self.wire());
        bytes
    }

    /// Takes apart a buffer that holds exactly one frame. A buffer that is
    /// shorter than a header, or whose length field does not match what
    /// follows the header, is refused.
    pub fn from_bytes(bytes: &[u8]) -> (r: Result<Self, ProxyError>)
        ensures
            r is Ok <==> has_whole_frame(bytes@) && frame_span(bytes@) == bytes@.len(),
            r matches Ok(chunk) ==> chunk.fits() && chunk.wire() == bytes@,
            r matches Err(e) ==> e == ProxyError::FormatError,
    {
        if bytes.len() < 16 {
            return Err(ProxyError::FormatError);
        }
        let announced: u64 = read_announced_length(bytes);
        if (bytes.len() as u64) != 16 + announced {
            return Err(ProxyError::FormatError);
        }
        let nonce: [u8; 12] = [
            bytes[0],
            bytes[1],
            bytes[2],
            bytes[3],
            bytes[4],
            bytes[5],
            bytes[6],
            bytes[7],
            bytes[8],
            bytes[9],
            bytes[10],
            bytes[11],
        ];
        let ciphertext = slice_to_vec(slice_subrange(bytes, 16, bytes.len()));
        let chunk = EncryptedChunk { nonce, ciphertext };
        proof {
            lemma_le32_round_trip(announced as int);
            assert(bytes@.subrange(12, 16) =~= le32_bytes(announced as int)) by {
                lemma_le32_bytes_of_value(bytes@.subrange(12, 16));
            }
            assert(chunk.wire() =~= bytes@);
        }
        Ok(chunk)
    }

    /// Opens the chunk under a key: the plaintext, or a decryption failure
    /// where the tag does not match.
    pub fn decrypt(&self, key: &[u8; 32]) -> (r: Result<Vec<u8>, ProxyError>)
        ensures
            match aes256gcm_open(key@, self.nonce@, self.ciphertext@) {
                Some(p) => r matches Ok(v) && v@ == p,
                None => r == Err::<Vec<u8>, ProxyError>(ProxyError::DecryptionFailure),
            },
            r matches Ok(v) ==> v@.len() + 16 == self.ciphertext@.len(),
    {
        match aead_open(key.as_slice(), self.nonce.as_slice(), self.ciphertext.as_slice()) {
            Some(plaintext) => Ok(plaintext),
            None => Err(ProxyError::DecryptionFailure),
        }
    }

    /// Seals a plaintext under a key and the nonce that is given: the chunk
    /// holds that nonce and the cipher's output for it. A plaintext too long
    /// for one frame is refused. The caller answers for the nonce: under one
    /// key no nonce may be given twice.
    pub fn encrypt_with_nonce(key: &[u8; 32], nonce: [u8; 12], plaintext: &[u8]) -> (r: Result<
        Self,
        ProxyError,
    >)
        ensures
            plaintext@.len() > MAX_PLAINTEXT ==> r matches Err(ProxyError::FormatError),
            plaintext@.len() <= MAX_PLAINTEXT ==> (r matches Ok(chunk) && chunk.nonce == nonce
                && chunk.ciphertext@ == aes256gcm_seal(key@, nonce@, plaintext@) && chunk.fits()
                && seals_to(key@, nonce@, plaintext@, chunk.ciphertext@)),
    {
        if plaintext.len() > MAX_PLAINTEXT {
            return Err(ProxyError::FormatError);
        }
        match aead_seal(key.as_slice(), nonce.as_slice(), plaintext) {
            Some(ciphertext) => Ok(EncryptedChunk { nonce, ciphertext }),
            None => {
                proof {
                    assert(false);
                }
                Err(ProxyError::FormatError)
            },
        }
    }

    /// Seals a plaintext under a key and a freshly drawn nonce. A plaintext
    /// too long for one frame is refused.
    pub fn encrypt(key: &[u8; 32], plaintext: &[u8]) -> (r: Result<Self, ProxyError>)
        ensures
            plaintext@.len() > MAX_PLAINTEXT ==> r matches Err(ProxyError::FormatError),
            plaintext@.len() <= MAX_PLAINTEXT ==> (r matches Ok(chunk) && chunk.fits() && seals_to(
                key@,
                chunk.nonce@,
                plaintext@,
                chunk.ciphertext@,
            )),
    {
        EncryptedChunk::encrypt_with_nonce(key, fresh_nonce(), plaintext)
    }
}

/// Four bytes are the spelling of the number that they spell.
pub proof fn lemma_le32_bytes_of_value(b: Seq<u8>)
    requires
        b.len() == 4,
    ensures
        0 <= le32_value(b) < 0x1_0000_0000,
        le32_bytes(le32_value(b)) == b,
{
    let n = le32_value(b);
    let c = le32_bytes(n);
    assert(c[0] == b[0]);
    assert(c[1] == b[1]);
    assert(c[2] == b[2]);
    assert(c[3] == b[3]);
    assert(c =~= b);
}

/// A chunk that was sealed from a plaintext opens to it, and its frame is a
/// frame of that plaintext.
pub proof fn lemma_chunk_round_trip(key: Seq<u8>, plaintext: Seq<u8>, chunk: EncryptedChunk)
    requires
        seals_to(key, chunk.nonce@, plaintext, chunk.ciphertext@),
        plaintext.len() <= MAX_PLAINTEXT,
    ensures
        aes256gcm_open(key, chunk.nonce@, chunk.ciphertext@) == Some(plaintext),
        is_frame_of(key, plaintext, chunk.wire()),
        decode_once_spec(key, chunk.wire()) == Ok::<Seq<u8>, ProxyError>(plaintext),
{
    lemma_decode_inverts_encode(key, plaintext, chunk.wire());
}

} // verus!

use std::collections::HashSet;

use aes_gcm::aead::{Aead, KeyInit};
use aes_gcm::{Aes256Gcm, Nonce};
use swenc_proxy::chunk::EncryptedChunk;
use swenc_proxy::errors::ProxyError;
use swenc_proxy::frame::{
    EncryptionCodec, HEADER_SIZE, KEY_SIZE, MAX_PLAINTEXT, NONCE_SIZE, TAG_SIZE,
};

fn sample_key() -> [u8; 32] {
    let mut key = [0u8; KEY_SIZE];
    for (i, b) in key.iter_mut().enumerate() {
        *b = (i * 7 + 3) as u8;
    }
    key
}

#[test]
fn encode_then_decode_gives_plaintext() {
    let codec = EncryptionCodec::new(sample_key());
    for plaintext in [&b""[..], &b"a"[..], &b"hello, world"[..], &[0u8; 5000][..]] {
        let frame = codec.encode_once(plaintext).unwrap();
        assert_eq!(codec.decode_once(&frame), Ok(plaintext.to_vec()));
    }
}

#[test]
fn frame_layout_is_nonce_length_ciphertext() {
    let codec = EncryptionCodec::new(sample_key());
    let frame = codec.encode_once(b"hello").unwrap();
    assert_eq!(frame.len(), NONCE_SIZE + 4 + 5 + TAG_SIZE);
    assert_eq!(frame.len(), HEADER_SIZE + 5 + TAG_SIZE);
    assert_eq!(&frame[12..16], &[21u8, 0, 0, 0]);
}

#[test]
fn length_field_is_little_endian() {
    let codec = EncryptionCodec::new(sample_key());
    let frame = codec.encode_once(&[7u8; 300]).unwrap();
    // 300 + 16 = 316 = 0x013c
    assert_eq!(&frame[12..16], &[0x3c, 0x01, 0, 0]);
    assert_eq!(frame.len(), 16 + 316);
}

#[test]
fn nonces_do_not_repeat() {
    let codec = EncryptionCodec::new(sample_key());
    let mut seen: HashSet<[u8; 12]> = HashSet::new();
    for _ in 0..100_000 {
        let frame = codec.encode_once(b"").unwrap();
        let mut nonce = [0u8; 12];
        nonce.copy_from_slice(&frame[..12]);
        assert!(seen.insert(nonce));
    }
    assert_eq!(seen.len(), 100_000);
}

#[test]
fn flipping_any_ciphertext_bit_fails_decoding() {
    let codec = EncryptionCodec::new(sample_key());
    let frame = codec.encode_once(b"attack at dawn").unwrap();
    for byte in 16..frame.len() {
        for bit in 0..8 {
            let mut bent = frame.clone();
            bent[byte] ^= 1 << bit;
            assert_eq!(codec.decode_once(&bent), Err(ProxyError::DecryptionFailure));
        }
    }
}

#[test]
fn flipping_any_nonce_bit_fails_decoding() {
    let codec = EncryptionCodec::new(sample_key());
    let frame = codec.encode_once(b"attack at dawn").unwrap();
    for byte in 0..12 {
        for bit in 0..8 {
            let mut bent = frame.clone();
            bent[byte] ^= 1 << bit;
            assert_eq!(codec.decode_once(&bent), Err(ProxyError::DecryptionFailure));
        }
    }
}

#[test]
fn flipping_any_length_bit_fails_decoding() {
    let codec = EncryptionCodec::new(sample_key());
    let frame = codec.encode_once(b"attack at dawn").unwrap();
    for byte in 12..16 {
        for bit in 0..8 {
            let mut bent = frame.clone();
            bent[byte] ^= 1 << bit;
            let got = codec.decode_once(&bent);
            assert!(got.is_err());
            // a longer length leaves the frame cut short; a shorter one
            // leaves a ciphertext whose tag cannot match
            let announced = u32::from_le_bytes([bent[12], bent[13], bent[14], bent[15]]) as usize;
            if announced > frame.len() - 16 {
                assert_eq!(got, Err(ProxyError::FormatError));
            } else {
                assert_eq!(got, Err(ProxyError::DecryptionFailure));
            }
        }
    }
}

#[test]
fn wrong_key_fails_decoding() {
    let codec = EncryptionCodec::new(sample_key());
    let other = EncryptionCodec::new([9u8; 32]);
    let frame = codec.encode_once(b"secret").unwrap();
    assert_eq!(other.decode_once(&frame), Err(ProxyError::DecryptionFailure));
}

#[test]
fn decode_step_asks_for_more_until_the_frame_is_whole() {
    let codec = EncryptionCodec::new(sample_key());
    let plaintext = b"streamed one byte at a time".to_vec();
    let frame = codec.encode_once(&plaintext).unwrap();
    let mut buffer: Vec<u8> = Vec::new();
    for (i, b) in frame.iter().enumerate() {
        buffer.push(*b);
        let step = codec.decode_step(&buffer).unwrap();
        if i + 1 < frame.len() {
            assert_eq!(step, (None, 0));
        } else {
            assert_eq!(step, (Some(plaintext.clone()), frame.len()));
        }
    }
}

#[test]
fn decode_step_at_every_split_point() {
    let codec = EncryptionCodec::new(sample_key());
    let plaintext = b"split anywhere".to_vec();
    let frame = codec.encode_once(&plaintext).unwrap();
    for cut in 0..frame.len() {
        assert_eq!(codec.decode_step(&frame[..cut]), Ok((None, 0)));
        let mut buffer = frame[..cut].to_vec();
        buffer.extend_from_slice(&frame[cut..]);
        assert_eq!(codec.decode_step(&buffer), Ok((Some(plaintext.clone()), frame.len())));
    }
}

#[test]
fn decode_step_with_short_buffers() {
    let codec = EncryptionCodec::new(sample_key());
    assert_eq!(codec.decode_step(&[]), Ok((None, 0)));
    assert_eq!(codec.decode_step(&[0u8; 15]), Ok((None, 0)));
    // a header that announces 0 bytes of ciphertext is whole, and cannot open
    assert_eq!(codec.decode_step(&[0u8; 16]), Err(ProxyError::DecryptionFailure));
}

#[test]
fn decode_consumes_frames_one_after_the_other() {
    let codec = EncryptionCodec::new(sample_key());
    let mut stream: Vec<u8> = Vec::new();
    codec.encode(b"first", &mut stream).unwrap();
    codec.encode(b"second", &mut stream).unwrap();
    stream.extend_from_slice(&[1, 2, 3]);
    assert_eq!(codec.decode(&mut stream), Ok(Some(b"first".to_vec())));
    assert_eq!(codec.decode(&mut stream), Ok(Some(b"second".to_vec())));
    assert_eq!(codec.decode(&mut stream), Ok(None));
    assert_eq!(stream, vec![1, 2, 3]);
}

#[test]
fn decode_leaves_a_failing_buffer_alone() {
    let codec = EncryptionCodec::new(sample_key());
    let mut frame = codec.encode_once(b"payload").unwrap();
    let last = frame.len() - 1;
    frame[last] ^= 0x80;
    let before = frame.clone();
    assert_eq!(codec.decode(&mut frame), Err(ProxyError::DecryptionFailure));
    assert_eq!(frame, before);
}

#[test]
fn encode_appends_to_what_is_there() {
    let codec = EncryptionCodec::new(sample_key());
    let mut dst = vec![0xAA, 0xBB];
    codec.encode(b"x", &mut dst).unwrap();
    assert_eq!(&dst[..2], &[0xAA, 0xBB]);
    assert_eq!(dst.len(), 2 + 16 + 1 + 16);
    assert_eq!(codec.decode_once(&dst[2..]), Ok(b"x".to_vec()));
}

#[test]
fn decode_once_of_a_cut_frame_is_a_format_error() {
    let codec = EncryptionCodec::new(sample_key());
    let frame = codec.encode_once(b"payload").unwrap();
    assert_eq!(codec.decode_once(&frame[..frame.len() - 1]), Err(ProxyError::FormatError));
    assert_eq!(codec.decode_once(&frame[..10]), Err(ProxyError::FormatError));
    assert_eq!(codec.decode_once(&[]), Err(ProxyError::FormatError));
}

#[test]
fn decode_once_ignores_what_follows_the_frame() {
    let codec = EncryptionCodec::new(sample_key());
    let mut frame = codec.encode_once(b"payload").unwrap();
    frame.extend_from_slice(b"trailing");
    assert_eq!(codec.decode_once(&frame), Ok(b"payload".to_vec()));
}

#[test]
fn chunk_round_trip() {
    let key = sample_key();
    let chunk = EncryptedChunk::encrypt(&key, b"chunk").ok().unwrap();
    assert_eq!(chunk.ciphertext.len(), 5 + 16);
    assert_eq!(chunk.decrypt(&key), Ok(b"chunk".to_vec()));
    assert_eq!(chunk.decrypt(&[0u8; 32]), Err(ProxyError::DecryptionFailure));
}

#[test]
fn chunk_bytes_are_a_frame() {
    let key = sample_key();
    let codec = EncryptionCodec::new(key);
    let chunk = EncryptedChunk::encrypt(&key, b"chunk").ok().unwrap();
    let bytes = chunk.to_bytes();
    assert_eq!(&bytes[..12], &chunk.nonce[..]);
    assert_eq!(&bytes[12..16], &[21, 0, 0, 0]);
    assert_eq!(&bytes[16..], &chunk.ciphertext[..]);
    assert_eq!(codec.decode_once(&bytes), Ok(b"chunk".to_vec()));
    let back = EncryptedChunk::from_bytes(&bytes).ok().unwrap();
    assert_eq!(back.nonce, chunk.nonce);
    assert_eq!(back.ciphertext, chunk.ciphertext);
}

#[test]
fn chunk_from_bytes_refuses_what_is_no_single_frame() {
    let key = sample_key();
    let bytes = EncryptedChunk::encrypt(&key, b"chunk").ok().unwrap().to_bytes();
    assert!(matches!(EncryptedChunk::from_bytes(&bytes[..15]), Err(ProxyError::FormatError)));
    assert!(matches!(
        EncryptedChunk::from_bytes(&bytes[..bytes.len() - 1]),
        Err(ProxyError::FormatError)
    ));
    let mut longer = bytes.clone();
    longer.push(0);
    assert!(matches!(EncryptedChunk::from_bytes(&longer), Err(ProxyError::FormatError)));
}

#[test]
fn codec_reads_what_a_known_cipher_wrote() {
    // AES-256-GCM test vector: zero key, zero nonce, empty plaintext
    let codec = EncryptionCodec::new([0u8; 32]);
    let tag: [u8; 16] = [
        0x53, 0x0f, 0x8a, 0xfb, 0xc7, 0x45, 0x36, 0xb9, 0xa9, 0x63, 0xb4, 0xf1, 0xc4, 0xcb, 0x73,
        0x8b,
    ];
    let mut frame = vec![0u8; 12];
    frame.extend_from_slice(&[16, 0, 0, 0]);
    frame.extend_from_slice(&tag);
    assert_eq!(codec.decode_once(&frame), Ok(Vec::new()));
}

#[test]
fn error_statuses() {
    assert_eq!(ProxyError::AuthenticationFailure.status(), 403);
    assert_eq!(ProxyError::DecryptionFailure.status(), 400);
    assert_eq!(ProxyError::FormatError.status(), 400);
    assert_eq!(ProxyError::UpstreamError.status(), 502);
    assert!(ProxyError::FormatError.is_client_error());
    assert!(ProxyError::AuthenticationFailure.is_client_error());
    assert!(!ProxyError::UpstreamError.is_client_error());
}

#[test]
fn codec_opens_a_frame_sealed_by_the_cipher_itself() {
    let key = sample_key();
    let nonce = [5u8; 12];
    let cipher = Aes256Gcm::new_from_slice(&key).unwrap();
    let sealed = cipher.encrypt(Nonce::from_slice(&nonce), &b"sealed elsewhere"[..]).unwrap();
    let mut frame = nonce.to_vec();
    frame.extend_from_slice(&(sealed.len() as u32).to_le_bytes());
    frame.extend_from_slice(&sealed);
    let codec = EncryptionCodec::new(key);
    assert_eq!(codec.decode_once(&frame), Ok(b"sealed elsewhere".to_vec()));
    let chunk = EncryptedChunk::from_bytes(&frame).ok().unwrap();
    assert_eq!(chunk.nonce, nonce);
    assert_eq!(chunk.decrypt(&key), Ok(b"sealed elsewhere".to_vec()));
}

#[test]
fn cipher_opens_a_frame_sealed_by_the_codec() {
    let key = sample_key();
    let frame = EncryptionCodec::new(key).encode_once(b"sealed here").unwrap();
    let cipher = Aes256Gcm::new_from_slice(&key).unwrap();
    let opened = cipher.decrypt(Nonce::from_slice(&frame[..12]), &frame[16..]).unwrap();
    assert_eq!(opened, b"sealed here".to_vec());
    let announced = u32::from_le_bytes([frame[12], frame[13], frame[14], frame[15]]) as usize;
    assert_eq!(announced, frame.len() - 16);
}

#[test]
fn ciphertext_is_not_the_plaintext() {
    let codec = EncryptionCodec::new(sample_key());
    let plaintext = b"sixteen byte msg";
    let frame = codec.encode_once(plaintext).unwrap();
    assert_ne!(&frame[16..32], &plaintext[..]);
    let again = codec.encode_once(plaintext).unwrap();
    assert_ne!(frame, again);
}

#[test]
fn sizes_of_the_wire_format() {
    assert_eq!(NONCE_SIZE, 12);
    assert_eq!(HEADER_SIZE, 16);
    assert_eq!(TAG_SIZE, 16);
    assert_eq!(KEY_SIZE, 32);
    // the longest ciphertext that the length field can announce, less the tag
    assert_eq!(MAX_PLAINTEXT as u64, u32::MAX as u64 - TAG_SIZE as u64);
}

#[test]
fn encode_with_nonce_writes_that_nonce_first() {
    let codec = EncryptionCodec::new(sample_key());
    let first = [1u8; 12];
    let second = [2u8; 12];
    let mut a = Vec::new();
    let mut b = Vec::new();
    assert_eq!(codec.encode_with_nonce(&first, b"same plaintext", &mut a), Ok(()));
    assert_eq!(codec.encode_with_nonce(&second, b"same plaintext", &mut b), Ok(()));
    assert_eq!(&a[..12], &first[..]);
    assert_eq!(&b[..12], &second[..]);
    assert_ne!(&a[..12], &b[..12]);
    assert_ne!(&a[16..], &b[16..]);
    assert_eq!(codec.decode_once(&a), Ok(b"same plaintext".to_vec()));
    assert_eq!(codec.decode_once(&b), Ok(b"same plaintext".to_vec()));
}

#[test]
fn encode_with_nonce_is_nonce_length_and_cipher_output() {
    let key = sample_key();
    let nonce = [0xabu8; 12];
    let plaintext = b"what the cipher makes of it";
    let cipher = Aes256Gcm::new_from_slice(&key).unwrap();
    let sealed = cipher.encrypt(Nonce::from_slice(&nonce), &plaintext[..]).unwrap();
    assert_eq!(sealed.len(), plaintext.len() + TAG_SIZE);

    let mut expected = vec![0xEE, 0xFF];
    expected.extend_from_slice(&nonce);
    expected.extend_from_slice(&((plaintext.len() + 16) as u32).to_le_bytes());
    expected.extend_from_slice(&sealed);

    let mut dst = vec![0xEE, 0xFF];
    assert_eq!(EncryptionCodec::new(key).encode_with_nonce(&nonce, plaintext, &mut dst), Ok(()));
    assert_eq!(dst, expected);
}

#[test]
fn encode_with_nonce_gives_the_same_frame_for_the_same_nonce() {
    let codec = EncryptionCodec::new(sample_key());
    let mut a = Vec::new();
    let mut b = Vec::new();
    codec.encode_with_nonce(&[3u8; 12], b"twice", &mut a).unwrap();
    codec.encode_with_nonce(&[3u8; 12], b"twice", &mut b).unwrap();
    assert_eq!(a, b);
}

#[test]
fn encode_draws_its_nonce_anew_each_time() {
    let codec = EncryptionCodec::new(sample_key());
    let mut stream = Vec::new();
    codec.encode(b"one", &mut stream).unwrap();
    codec.encode(b"one", &mut stream).unwrap();
    let frame = 16 + 3 + 16;
    assert_eq!(stream.len(), 2 * frame);
    assert_ne!(&stream[..12], &stream[frame..frame + 12]);
    assert_ne!(&stream[..12], &[0u8; 12][..]);
}

#[test]
fn chunk_sealed_under_a_given_nonce_holds_it() {
    let key = sample_key();
    let nonce = [7u8; 12];
    let cipher = Aes256Gcm::new_from_slice(&key).unwrap();
    let sealed = cipher.encrypt(Nonce::from_slice(&nonce), &b"chunk"[..]).unwrap();
    let chunk = EncryptedChunk::encrypt_with_nonce(&key, nonce, b"chunk").ok().unwrap();
    assert_eq!(chunk.nonce, nonce);
    assert_eq!(chunk.ciphertext, sealed);
    assert_eq!(chunk.decrypt(&key), Ok(b"chunk".to_vec()));
    let other = EncryptedChunk::encrypt_with_nonce(&key, [8u8; 12], b"chunk").ok().unwrap();
    assert_eq!(other.nonce, [8u8; 12]);
    assert_ne!(other.ciphertext, chunk.ciphertext);
}

#[test]
fn a_whole_frame_with_no_ciphertext_fails_to_decode() {
    let codec = EncryptionCodec::new([0u8; 32]);
    let mut src = vec![0u8; 16];
    assert_eq!(codec.decode(&mut src), Err(ProxyError::DecryptionFailure));
    assert_eq!(src, vec![0u8; 16]);
    assert_eq!(codec.decode_once(&[0u8; 16]), Err(ProxyError::DecryptionFailure));
    // fifteen bytes of ciphertext are still less than a tag
    let mut short = vec![0u8; 12];
    short.extend_from_slice(&[15, 0, 0, 0]);
    short.extend_from_slice(&[0u8; 15]);
    assert_eq!(codec.decode_once(&short), Err(ProxyError::DecryptionFailure));
    let chunk = EncryptedChunk { nonce: [0u8; 12], ciphertext: vec![] };
    assert_eq!(chunk.decrypt(&[0u8; 32]), Err(ProxyError::DecryptionFailure));
}

#[test]
fn plaintext_is_sixteen_bytes_shorter_than_its_ciphertext() {
    let codec = EncryptionCodec::new(sample_key());
    for len in [0usize, 1, 16, 17, 1000] {
        let frame = codec.encode_once(&vec![9u8; len]).unwrap();
        let announced = u32::from_le_bytes([frame[12], frame[13], frame[14], frame[15]]) as usize;
        let (plaintext, taken) = codec.decode_step(&frame).unwrap();
        assert_eq!(plaintext.unwrap().len() + 16, announced);
        assert_eq!(taken, 16 + announced);
        assert_eq!(codec.decode_once(&frame).unwrap().len() + 16, announced);
    }
}

#[test]
fn encode_once_with_nonce_is_the_frame_of_that_nonce() {
    let key = sample_key();
    let nonce = [0x11u8; 12];
    let cipher = Aes256Gcm::new_from_slice(&key).unwrap();
    let sealed = cipher.encrypt(Nonce::from_slice(&nonce), &b"once"[..]).unwrap();
    let mut expected = nonce.to_vec();
    expected.extend_from_slice(&[20, 0, 0, 0]);
    expected.extend_from_slice(&sealed);
    let codec = EncryptionCodec::new(key);
    assert_eq!(codec.encode_once_with_nonce(&nonce, b"once"), Ok(expected.clone()));
    assert_eq!(codec.decode_once(&expected), Ok(b"once".to_vec()));
    let other = codec.encode_once_with_nonce(&[0x12u8; 12], b"once").unwrap();
    assert_eq!(&other[..12], &[0x12u8; 12][..]);
    assert_ne!(other, expected);
}

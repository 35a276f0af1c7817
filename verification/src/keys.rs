//! Keys from passwords, their public fingerprints, and the keystore.
//!
//! A key is derived from a password by a memory-hard function under a salt
//! that is the same everywhere, so that a client and a server that know the
//! same password hold the same key. The fingerprint of a key is a hash of it
//! that can be shown in a URL in place of the password.

use crate::text::{chars_of, index_of, slice_chars, string_of, trim, trimmed};
use argon2::Argon2;
use vstd::hash_map::StringHashMap;
use vstd::prelude::*;
use vstd::utf8::encode_utf8;

verus! {

/// The salt of every derivation: the bytes of `swenc-proxy-salt`.
pub const SALT: [u8; 16] = [
    0x73, 0x77, 0x65, 0x6e, 0x63, 0x2d, 0x70, 0x72, 0x6f, 0x78, 0x79, 0x2d, 0x73, 0x61, 0x6c, 0x74,
];

/// The longest password, in bytes, that can be derived from.
pub const MAX_PASSWORD: usize = 0xFFFF_FFFF;

/// The 32 bytes that Argon2, as `Argon2::default()` of the `argon2` crate
/// sets it up, derives from a password and a salt.
pub uninterp spec fn argon2_default_hash(password: Seq<u8>, salt: Seq<u8>) -> Seq<u8>;

/// The SHA-256 digest of some bytes, written as 64 lower-case hex digits, as
/// `digest` of the `sha256` crate returns it.
pub uninterp spec fn sha256_hex(data: Seq<u8>) -> Seq<char>;

/// Whether a password is short enough to be derived from.
pub open spec fn derivable(password: Seq<char>) -> bool {
    encode_utf8(password).len() <= MAX_PASSWORD
}

/// Whether every line holds a password that can be derived from.
pub open spec fn all_derivable(lines: Seq<Seq<char>>) -> bool {
    forall|i: int| 0 <= i < lines.len() ==> derivable(trimmed(#[trigger] lines[i]))
}

/// The key that a password gives.
pub open spec fn derived_key(password: Seq<char>) -> Seq<u8> {
    argon2_default_hash(encode_utf8(password), SALT@)
}

/// The fingerprint that a password gives: that of its key.
pub open spec fn password_fingerprint(password: Seq<char>) -> Seq<char> {
    sha256_hex(derived_key(password))
}

/// Fills 32 bytes with `Argon2::hash_password_into` of the `argon2` crate,
/// under `Argon2::default()`. The call fails only on a password above 2^32 - 1
/// bytes or on a salt that is shorter than 8 bytes or longer than 2^32 - 1.
#[verifier::external_body]
fn argon2_hash(password: &[u8], salt: &[u8]) -> (r: Option<[u8; 32]>)
    ensures
        password@.len() <= 0xFFFF_FFFF && 8 <= salt@.len() <= 0xFFFF_FFFF ==> r is Some,
        r matches Some(k) ==> k@ == argon2_default_hash(password@, salt@),
{
    let mut key = [0u8; 32];
    Argon2::default().hash_password_into(password, salt, &mut key).ok()?;
    Some(key)
}

/// Hashes with `digest` of the `sha256` crate: the SHA-256 digest of the
/// bytes in hex, which is 64 characters long.
#[verifier::external_body]
fn sha256_digest(data: &[u8]) -> (r: String)
    ensures
        r@ == sha256_hex(data@),
        r@.len() == 64,
{
    sha256::digest(data)
}

/// Derives the key of a password. The same password gives the same key, on
/// every machine and at every start.
pub fn derive_key(password: &str) -> (key: [u8; 32])
    requires
        derivable(password@),
    ensures
        key@ == derived_key(password@),
{
    match argon2_hash(password.as_bytes(), SALT.as_slice()) {
        Some(key) => key,
        None => {
            proof {
                assert(false);
            }
            [0u8; 32]
        },
    }
}

/// Derives the key of a password of any length: nothing for a password that
/// is too long to be derived from.
pub fn try_derive_key(password: &str) -> (key: Option<[u8; 32]>)
    ensures
        derivable(password@) ==> (key matches Some(k) && k@ == derived_key(password@)),
        !derivable(password@) ==> key is None,
{
    if password.as_bytes().len() > MAX_PASSWORD {
        None
    } else {
        Some(derive_key(password))
    }
}

/// The fingerprint of a key: a digest that stands for the key where the key
/// itself must not be shown.
pub fn fingerprint(key: &[u8; 32]) -> (print: String)
    ensures
        print@ == sha256_hex(key@),
        print@.len() == 64,
{
    sha256_digest(key.as_slice())
}

/// The keys of a list of password lines, by fingerprint. A line counts
/// without the white space at its ends, and a line that is empty then does
/// not count at all. Where two lines give one fingerprint, the later line's
/// key stands.
pub open spec fn keystore_of(lines: Seq<Seq<char>>) -> Map<Seq<char>, Seq<u8>>
    decreases lines.len(),
{
    if lines.len() == 0 {
        Map::empty()
    } else {
        let before = keystore_of(lines.drop_last());
        let password = trimmed(lines.last());
        if password.len() == 0 {
            before
        } else {
            before.insert(password_fingerprint(password), derived_key(password))
        }
    }
}

/// The lines of a text: what stands between its line feeds.
pub open spec fn lines_of(text: Seq<char>) -> Seq<Seq<char>>
    decreases text.len(),
{
    let k = index_of(text, '\n');
    if 0 <= k < text.len() {
        seq![text.subrange(0, k)] + lines_of(text.subrange(k + 1, text.len() as int))
    } else {
        seq![text]
    }
}

/// The texts of a list of strings.
pub open spec fn texts(lines: Seq<String>) -> Seq<Seq<char>> {
    lines.map_values(|l: String| l@)
}

/// The keys by their fingerprints. It is built once and only read after.
pub struct Keystore {
    entries: StringHashMap<[u8; 32]>,
}

impl View for Keystore {
    type V = Map<Seq<char>, Seq<u8>>;

    closed spec fn view(&self) -> Map<Seq<char>, Seq<u8>> {
        self.entries@.map_values(|k: [u8; 32]| k@)
    }
}

impl Keystore {
    /// Builds the keystore of a list of password lines.
    pub fn build(lines: &Vec<String>) -> (store: Keystore)
        requires
            all_derivable(texts(lines@)),
        ensures
            store@ == keystore_of(texts(lines@)),
    {
        match Keystore::try_build(lines) {
            Some(store) => store,
            None => {
                proof {
                    assert(false);
                }
                Keystore { entries: StringHashMap::new() }
            },
        }
    }

    /// Builds the keystore of a list of password lines of any length:
    /// nothing where a line holds a password that is too long to be derived
    /// from.
    pub fn try_build(lines: &Vec<String>) -> (r: Option<Keystore>)
        ensures
            all_derivable(texts(lines@)) ==> (r matches Some(store) && store@ == keystore_of(
                texts(lines@),
            )),
            !all_derivable(texts(lines@)) ==> r is None,
    {
        let mut entries: StringHashMap<[u8; 32]> = StringHashMap::new();
        let ghost all = texts(lines@);
        let ghost bytes_of = |k: [u8; 32]| k@;
        let mut i: usize = 0;
        proof {
            assert(entries@.map_values(bytes_of) =~= keystore_of(all.subrange(0, 0)));
        }
        while i < lines.len()
            invariant
                i <= lines.len(),
                all == texts(lines@),
                bytes_of == (|k: [u8; 32]| k@),
                entries@.map_values(bytes_of) == keystore_of(all.subrange(0, i as int)),
                forall|j: int| 0 <= j < i ==> derivable(trimmed(#[trigger] all[j])),
            decreases lines.len() - i,
        {
            let ghost before = entries@;
            proof {
                assert(all.subrange(0, i + 1).drop_last() =~= all.subrange(0, i as int));
                assert(all.subrange(0, i + 1).last() == lines@[i as int]@);
                assert(all[i as int] == lines@[i as int]@);
            }
            let line = chars_of(lines[i].as_str());
            let password = trim(line.as_slice());
            if password.len() > 0 {
                let password = string_of(password.as_slice());
                match try_derive_key(password.as_str()) {
                    Some(key) => {
                        let print = fingerprint(&key);
                        entries.insert(print, key);
                        proof {
                            assert(entries@.map_values(bytes_of) =~= before.map_values(
                                bytes_of,
                            ).insert(password_fingerprint(password@), derived_key(password@)));
                        }
                    },
                    None => {
                        proof {
                            assert(!derivable(trimmed(all[i as int])));
                        }
                        return None;
                    },
                }
            } else {
                proof {
                    assert(encode_utf8(Seq::<char>::empty()) =~= Seq::<u8>::empty());
                    assert(trimmed(all[i as int]) =~= Seq::<char>::empty());
                }
            }
            i += 1;
        }
        proof {
            assert(all.subrange(0, i as int) =~= all);
        }
        Some(Keystore { entries })
    }

    /// The key that belongs to a fingerprint, where the keystore holds one.
    pub fn lookup(&self, fingerprint: &str) -> (key: Option<[u8; 32]>)
        ensures
            match key {
                Some(k) => self@.contains_key(fingerprint@) && k@ == self@[fingerprint@],
                None => !self@.contains_key(fingerprint@),
            },
    {
        match self.entries.get(fingerprint) {
            Some(k) => Some(*k),
            None => None,
        }
    }

    /// Whether a fingerprint is that of an authorized key.
    pub fn contains(&self, fingerprint: &str) -> (known: bool)
        ensures
            known == self@.contains_key(fingerprint@),
    {
        self.entries.contains_key(fingerprint)
    }

    /// The number of keys.
    pub fn len(&self) -> (n: usize)
        ensures
            n == self@.dom().len(),
    {
        proof {
            assert(self@.dom() =~= self.entries@.dom());
        }
        self.entries.len()
    }
}

/// The lines of a text, as strings.
pub fn split_lines(text: &str) -> (lines: Vec<String>)
    ensures
        texts(lines@) == lines_of(text@),
{
    let chars = chars_of(text);
    let mut lines: Vec<String> = Vec::new();
    let mut start: usize = 0;
    let mut i: usize = 0;
    proof {
        assert(chars@.subrange(0, chars@.len() as int) =~= chars@);
        assert(texts(lines@) =~= Seq::<Seq<char>>::empty());
    }
    while i < chars.len()
        invariant
            start <= i <= chars.len(),
            chars@ == text@,
            lines_of(text@) == texts(lines@) + lines_of(
                chars@.subrange(start as int, chars@.len() as int),
            ),
            forall|j: int| start <= j < i ==> chars@[j] != '\n',
            index_of(chars@.subrange(start as int, chars@.len() as int), '\n') == (i - start)
                + index_of(chars@.subrange(i as int, chars@.len() as int), '\n'),
        decreases chars.len() - i,
    {
        let ghost rest = chars@.subrange(start as int, chars@.len() as int);
        let ghost tail = chars@.subrange(i as int, chars@.len() as int);
        if chars[i] == '\n' {
            let ghost before = texts(lines@);
            let line = string_of(slice_chars(chars.as_slice(), start, i).as_slice());
            lines.push(line);
            proof {
                assert(tail[0] == '\n');
                assert(index_of(rest, '\n') == i - start);
                assert(rest.subrange(0, i - start) =~= chars@.subrange(start as int, i as int));
                assert(rest.subrange(i - start + 1, rest.len() as int) =~= chars@.subrange(
                    i + 1,
                    chars@.len() as int,
                ));
                assert(texts(lines@) =~= before + seq![rest.subrange(0, i - start)]);
            }
            start = i + 1;
        } else {
            proof {
                assert(tail.drop_first() =~= chars@.subrange(i + 1, chars@.len() as int));
            }
        }
        i += 1;
    }
    let ghost before = texts(lines@);
    let ghost rest = chars@.subrange(start as int, chars@.len() as int);
    let line = string_of(slice_chars(chars.as_slice(), start, chars.len()).as_slice());
    lines.push(line);
    proof {
        assert(index_of(rest, '\n') == rest.len());
        assert(lines_of(rest) =~= seq![rest]);
        assert(texts(lines@) =~= before + seq![rest]);
    }
    lines
}

/// Every password line that is not blank is in the keystore: its fingerprint
/// is known there.
pub proof fn lemma_keystore_holds_passwords(lines: Seq<Seq<char>>, i: int)
    requires
        0 <= i < lines.len(),
        trimmed(lines[i]).len() > 0,
    ensures
        keystore_of(lines).contains_key(password_fingerprint(trimmed(lines[i]))),
    decreases lines.len(),
{
    if i < lines.len() - 1 {
        lemma_keystore_holds_passwords(lines.drop_last(), i);
    }
}

/// The keystore holds nothing but the passwords' keys: each fingerprint in it
/// is that of a line, and its key is that line's key.
pub proof fn lemma_keystore_holds_only_passwords(lines: Seq<Seq<char>>, print: Seq<char>)
    requires
        keystore_of(lines).contains_key(print),
    ensures
        exists|i: int|
            0 <= i < lines.len() && trimmed(#[trigger] lines[i]).len() > 0 && print
                == password_fingerprint(trimmed(lines[i])) && keystore_of(lines)[print]
                == derived_key(trimmed(lines[i])),
    decreases lines.len(),
{
    if lines.len() > 0 {
        let last = trimmed(lines.last());
        if last.len() > 0 && print == password_fingerprint(last) {
            assert(trimmed(lines[lines.len() - 1]).len() > 0);
        } else {
            let front = lines.drop_last();
            lemma_keystore_holds_only_passwords(front, print);
            let i = choose|i: int|
                0 <= i < front.len() && trimmed(#[trigger] front[i]).len() > 0 && print
                    == password_fingerprint(trimmed(front[i])) && keystore_of(front)[print]
                    == derived_key(trimmed(front[i]));
            assert(front[i] == lines[i]);
        }
    }
}

/// Blank lines count for nothing: a list of lines that are all blank gives
/// an empty keystore.
pub proof fn lemma_blank_lines_give_no_keys(lines: Seq<Seq<char>>)
    requires
        forall|i: int| 0 <= i < lines.len() ==> trimmed(#[trigger] lines[i]).len() == 0,
    ensures
        keystore_of(lines) == Map::<Seq<char>, Seq<u8>>::empty(),
    decreases lines.len(),
{
    if lines.len() > 0 {
        let front = lines.drop_last();
        assert forall|i: int| 0 <= i < front.len() implies trimmed(#[trigger] front[i]).len()
            == 0 by {
            assert(front[i] == lines[i]);
        }
        lemma_blank_lines_give_no_keys(front);
        assert(trimmed(lines[lines.len() - 1]).len() == 0);
    }
}

} // verus!

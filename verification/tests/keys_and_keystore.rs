use swenc_proxy::handle::check_key;
use swenc_proxy::keys::{
    derive_key, fingerprint, split_lines, try_derive_key, Keystore, MAX_PASSWORD, SALT,
};

fn lines(items: &[&str]) -> Vec<String> {
    items.iter().map(|s| s.to_string()).collect()
}

#[test]
fn salt_is_the_application_constant() {
    assert_eq!(&SALT[..], b"swenc-proxy-salt");
}

#[test]
fn derive_key_is_deterministic() {
    let a = derive_key("alice-pw");
    let b = derive_key("alice-pw");
    assert_eq!(a, b);
    assert_ne!(a, [0u8; 32]);
}

#[test]
fn derive_key_matches_argon2_defaults() {
    let mut expected = [0u8; 32];
    argon2::Argon2::default()
        .hash_password_into(b"alice-pw", b"swenc-proxy-salt", &mut expected)
        .unwrap();
    assert_eq!(derive_key("alice-pw"), expected);
}

#[test]
fn derive_key_of_non_ascii_password_uses_utf8() {
    let mut expected = [0u8; 32];
    argon2::Argon2::default()
        .hash_password_into("pässwörd".as_bytes(), b"swenc-proxy-salt", &mut expected)
        .unwrap();
    assert_eq!(derive_key("pässwörd"), expected);
}

#[test]
fn fingerprint_is_sha256_in_hex() {
    // SHA-256 of 32 zero bytes
    assert_eq!(
        fingerprint(&[0u8; 32]),
        "66687aadf862bd776c8fc18b8e9f8e20089714856ee233b3902a591d0d5f2925"
    );
}

#[test]
fn fingerprint_is_deterministic_and_tells_passwords_apart() {
    let passwords = ["alice-pw", "bob-pw", "alice-pw ", "Alice-pw", "unknown"];
    let prints: Vec<String> = passwords.iter().map(|p| fingerprint(&derive_key(p))).collect();
    for (i, p) in passwords.iter().enumerate() {
        assert_eq!(fingerprint(&derive_key(p)), prints[i]);
        assert_eq!(prints[i].len(), 64);
        assert!(prints[i].chars().all(|c| c.is_ascii_hexdigit() && !c.is_ascii_uppercase()));
        for j in 0..i {
            assert_ne!(prints[i], prints[j]);
        }
    }
}

#[test]
fn fingerprint_is_not_the_key() {
    let key = derive_key("alice-pw");
    let print = fingerprint(&key);
    let hex_key: String = key.iter().map(|b| format!("{:02x}", b)).collect();
    assert_ne!(print, hex_key);
}

#[test]
fn keystore_skips_blank_lines() {
    let store = Keystore::build(&lines(&["alice-pw", "", "  ", "bob-pw"]));
    assert_eq!(store.len(), 2);
    assert!(store.contains(&fingerprint(&derive_key("alice-pw"))));
    assert!(store.contains(&fingerprint(&derive_key("bob-pw"))));
    assert!(!store.contains(&fingerprint(&derive_key("unknown"))));
}

#[test]
fn keystore_lookup_gives_the_key() {
    let store = Keystore::build(&lines(&["alice-pw", "bob-pw"]));
    let alice = derive_key("alice-pw");
    assert_eq!(store.lookup(&fingerprint(&alice)), Some(alice));
    assert_eq!(store.lookup(&fingerprint(&derive_key("carol-pw"))), None);
    assert_eq!(store.lookup(""), None);
}

#[test]
fn keystore_trims_lines() {
    let store = Keystore::build(&lines(&["  alice-pw\t", "\u{a0}bob-pw\r"]));
    assert_eq!(store.len(), 2);
    assert!(store.contains(&fingerprint(&derive_key("alice-pw"))));
    assert!(store.contains(&fingerprint(&derive_key("bob-pw"))));
}

#[test]
fn keystore_keeps_one_entry_for_a_repeated_password() {
    let store = Keystore::build(&lines(&["alice-pw", "alice-pw", " alice-pw "]));
    assert_eq!(store.len(), 1);
}

#[test]
fn keystore_of_nothing_is_empty() {
    assert_eq!(Keystore::build(&lines(&[])).len(), 0);
    assert_eq!(Keystore::build(&lines(&["", " ", "\t\n"])).len(), 0);
}

#[test]
fn split_lines_cuts_at_line_feeds() {
    assert_eq!(split_lines("alice-pw\n\n  \nbob-pw"), lines(&["alice-pw", "", "  ", "bob-pw"]));
    assert_eq!(split_lines(""), lines(&[""]));
    assert_eq!(split_lines("a\n"), lines(&["a", ""]));
    assert_eq!(split_lines("\n"), lines(&["", ""]));
    assert_eq!(split_lines("a\r\nb"), lines(&["a\r", "b"]));
    assert_eq!(split_lines("no line feed"), lines(&["no line feed"]));
}

#[test]
fn split_lines_agrees_with_std() {
    for text in ["", "\n", "a\nb\nc", "\n\na\n\n", "x\ny\n", "ü\nö"] {
        let expected: Vec<String> = text.split('\n').map(|s| s.to_string()).collect();
        assert_eq!(split_lines(text), expected);
    }
}

#[test]
fn keystore_from_a_file_text() {
    let store = Keystore::build(&split_lines("alice-pw\n\n  \nbob-pw\n"));
    assert_eq!(store.len(), 2);
}

#[test]
fn check_key_answers_with_a_status() {
    let store = Keystore::build(&lines(&["alice-pw"]));
    assert_eq!(check_key(&store, &fingerprint(&derive_key("alice-pw"))), 200);
    assert_eq!(check_key(&store, &fingerprint(&derive_key("unknown"))), 403);
    assert_eq!(check_key(&store, "alice-pw"), 403);
}

#[test]
fn try_derive_key_gives_the_same_key() {
    assert_eq!(try_derive_key("alice-pw"), Some(derive_key("alice-pw")));
    assert_eq!(try_derive_key(""), Some(derive_key("")));
    assert_eq!(MAX_PASSWORD as u64, u32::MAX as u64);
}

#[test]
fn try_build_gives_the_same_keystore() {
    let store = Keystore::try_build(&lines(&["alice-pw", "", "  ", "bob-pw"])).unwrap();
    assert_eq!(store.len(), 2);
    assert_eq!(
        store.lookup(&fingerprint(&derive_key("bob-pw"))),
        Some(derive_key("bob-pw"))
    );
    assert!(!store.contains(&fingerprint(&derive_key("unknown"))));
}

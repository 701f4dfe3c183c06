use ssh_kim_core::cipher::{decrypt_data, encrypt_bytes, encrypt_data};
use ssh_kim_core::KeyStoreError;
use ssh_kim_core::kdf::{derive_key_from_password, derive_machine_key, get_password_encryption_key};
use ssh_kim_core::records::add_record;
use ssh_kim_core::records::SshKey;
use ssh_kim_core::store::{open_collection, seal_collection};

fn key_of(pw: &str) -> Vec<u8> {
    derive_key_from_password(pw)
}

#[test]
fn derived_keys_are_256_bits_and_distinct() {
    let a = derive_key_from_password("alpha");
    let b = derive_key_from_password("beta");
    assert_eq!(a.len(), 32);
    assert_eq!(b.len(), 32);
    assert_ne!(a, b);
    assert_eq!(a, get_password_encryption_key("alpha"), "derivation is deterministic");
    let m = derive_machine_key("alpha");
    assert_ne!(m, a, "machine and password domains are separated");
}

#[test]
fn text_round_trip() {
    let key = key_of("secret");
    let plain = "hello keystore, with some text that spans blocks";
    let ct = encrypt_data(plain, &key);
    assert_ne!(ct, plain);
    let back = decrypt_data(&ct, &key).expect("own key decrypts");
    assert_eq!(back, plain);
}

#[test]
fn text_round_trip_unicode() {
    let key = key_of("secret");
    let plain = "schlüssel \u{1F511} ключ\nsecond line\ttab";
    let ct = encrypt_data(plain, &key);
    let back = decrypt_data(&ct, &key).expect("own key decrypts");
    assert_eq!(back, plain);
}

#[test]
fn block_aligned_plaintext_gains_a_full_padding_block() {
    let key = key_of("secret");
    let plain = "0123456789abcdef";
    assert_eq!(plain.len(), 16);
    let ct = encrypt_data(plain, &key);
    // 16 bytes of initialization value + 16 content bytes + 16 padding
    // bytes = 48 raw bytes, which base64 renders as exactly 64 text
    // characters. Without the full extra padding block this would be 44.
    assert_eq!(ct.len(), 64);
    let back = decrypt_data(&ct, &key).expect("padding strips cleanly");
    assert_eq!(back, plain);
}

#[test]
fn empty_plaintext_round_trips() {
    let key = key_of("secret");
    let ct = encrypt_data("", &key);
    let back = decrypt_data(&ct, &key).expect("empty text decrypts");
    assert_eq!(back, "");
}

#[test]
fn two_encryptions_differ_but_both_decrypt() {
    let key = key_of("secret");
    let plain = "same plaintext";
    let c1 = encrypt_data(plain, &key);
    let c2 = encrypt_data(plain, &key);
    assert_ne!(c1, c2, "a fresh initialization value is drawn per call");
    assert_eq!(decrypt_data(&c1, &key).unwrap(), plain);
    assert_eq!(decrypt_data(&c2, &key).unwrap(), plain);
}

#[test]
fn malformed_ciphertext_is_rejected() {
    let key = key_of("secret");
    assert!(decrypt_data("not base64 at all!!!", &key).is_err());
    // Valid base64, but shorter than one block.
    assert!(decrypt_data("aGVsbG8=", &key).is_err());
}

fn sample_collection() -> Vec<SshKey> {
    let keys: Vec<SshKey> = Vec::new();
    let (keys, _) = add_record(
        &keys,
        "id-1".to_string(),
        1_111,
        "first".to_string(),
        None,
        "ssh-ed25519 AAAAC3 one",
    )
    .unwrap();
    let (keys, _) = add_record(
        &keys,
        "id-2".to_string(),
        -5,
        "zweiter schlüssel".to_string(),
        Some("tag with\nnewline and ümlauts".to_string()),
        "ssh-rsa AAAA two\nwith second line",
    )
    .unwrap();
    keys
}

fn assert_same_records(a: &[SshKey], b: &[SshKey]) {
    assert_eq!(a.len(), b.len());
    for (x, y) in a.iter().zip(b.iter()) {
        assert_eq!(x.id, y.id);
        assert_eq!(x.name, y.name);
        assert_eq!(x.tag, y.tag);
        assert_eq!(x.key, y.key);
        assert_eq!(x.key_type, y.key_type);
        assert_eq!(x.created, y.created);
        assert_eq!(x.last_modified, y.last_modified);
    }
}

#[test]
fn collection_round_trip() {
    let key = key_of("store key");
    let keys = sample_collection();
    let ct = seal_collection(&keys, &key).expect("seal");
    let back = open_collection(&ct, &key).expect("open");
    assert_same_records(&keys, &back);
}

#[test]
fn empty_collection_round_trips() {
    let key = key_of("store key");
    let keys: Vec<SshKey> = Vec::new();
    let ct = seal_collection(&keys, &key).expect("seal");
    let back = open_collection(&ct, &key).expect("open");
    assert_eq!(back.len(), 0);
}

#[test]
fn wrong_key_fails_to_open() {
    let keys = sample_collection();
    let ct = seal_collection(&keys, &key_of("right")).expect("seal");
    assert!(open_collection(&ct, &key_of("wrong")).is_err());
}

#[test]
fn many_garbage_keys_fail_to_open() {
    let keys = sample_collection();
    let ct = seal_collection(&keys, &key_of("right")).expect("seal");
    for i in 0..50 {
        let guess = format!("guess-{}", i);
        assert!(
            open_collection(&ct, &key_of(&guess)).is_err(),
            "a wrong key must not open the store"
        );
    }
}

#[test]
fn tampered_ciphertext_does_not_open_as_the_original() {
    let key = key_of("right");
    let keys = sample_collection();
    let ct = seal_collection(&keys, &key).expect("seal");
    let mut tampered: String = ct.clone();
    tampered.truncate(ct.len() - 8);
    match open_collection(&tampered, &key) {
        Err(_) => {},
        Ok(recovered) => {
            assert_ne!(recovered.len(), keys.len());
        },
    }
}

#[test]
fn non_text_plaintext_is_an_encoding_error() {
    let key = key_of("secret");
    // 0xFF is never valid UTF-8, so the decrypted bytes cannot become text.
    let ct = encrypt_bytes(&[0xFF, 0xFE, 0x00, 0x01], &key);
    assert_eq!(decrypt_data(&ct, &key).unwrap_err(), KeyStoreError::Encoding);
}

#[test]
fn well_encrypted_garbage_is_not_a_collection() {
    let key = key_of("secret");
    let ct = encrypt_bytes(b"this is text, but no record collection", &key);
    assert_eq!(open_collection(&ct, &key).unwrap_err(), KeyStoreError::Encoding);
}

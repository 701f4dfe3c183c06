use ssh_kim_core::records::{add_record, add_ssh_key, detect_key_type, is_public_key_content, merge_collections, remove_ssh_key, update_record, update_ssh_key, SshKey, SshKeyUpdate};
use ssh_kim_core::KeyStoreError;

fn rec(id: &str, name: &str, key: &str) -> SshKey {
    let (_, r) = add_record(&Vec::new(), id.to_string(), 1_000, name.to_string(), None, key)
        .expect("fresh add");
    r
}

fn coll(recs: &[SshKey]) -> Vec<SshKey> {
    recs.to_vec()
}

#[test]
fn detect_key_type_rsa() {
    assert_eq!(detect_key_type("ssh-rsa AAAAB3Nza host"), "rsa");
}

#[test]
fn detect_key_type_dsa() {
    assert_eq!(detect_key_type("ssh-dss AAAAB3Nza host"), "dsa");
}

#[test]
fn detect_key_type_ecdsa() {
    assert_eq!(detect_key_type("ecdsa-sha2-nistp256 AAAA host"), "ecdsa");
}

#[test]
fn detect_key_type_ed25519() {
    assert_eq!(detect_key_type("ssh-ed25519 AAAAC3Nz host"), "ed25519");
}

#[test]
fn detect_key_type_unknown() {
    assert_eq!(detect_key_type("certainly not a key"), "unknown");
}

#[test]
fn add_trims_and_classifies() {
    let keys: Vec<SshKey> = Vec::new();
    let (keys, r) = add_record(
        &keys,
        "id-1".to_string(),
        42,
        "work".to_string(),
        Some("tag".to_string()),
        "  ssh-ed25519 AAAAC3Nz user@host  ",
    )
    .expect("add succeeds");
    assert_eq!(r.key, "ssh-ed25519 AAAAC3Nz user@host");
    assert_eq!(r.key_type, "ed25519");
    assert_eq!(r.created, 42);
    assert_eq!(r.last_modified, 42);
    assert_eq!(keys.len(), 1);
    assert_eq!(keys[0].id, "id-1");
}

#[test]
fn duplicate_name_add_is_rejected_case_insensitively() {
    let keys = coll(&[rec("id-1", "Work Laptop", "ssh-rsa AAA one")]);
    let err = add_record(
        &keys,
        "id-2".to_string(),
        50,
        "  work laptop ".to_string(),
        None,
        "ssh-rsa BBB two",
    )
    .unwrap_err();
    assert_eq!(err, KeyStoreError::DuplicateName);
}

#[test]
fn duplicate_content_add_is_rejected_by_trimmed_match() {
    let keys = coll(&[rec("id-1", "one", "ssh-rsa AAA shared")]);
    let err = add_record(
        &keys,
        "id-2".to_string(),
        50,
        "completely different name".to_string(),
        None,
        "   ssh-rsa AAA shared   ",
    )
    .unwrap_err();
    assert_eq!(err, KeyStoreError::DuplicateContent);
}

#[test]
fn content_duplicate_takes_precedence_over_name_duplicate() {
    let keys = coll(&[rec("id-1", "same", "ssh-rsa AAA shared")]);
    let err = add_record(
        &keys,
        "id-2".to_string(),
        50,
        "same".to_string(),
        None,
        "ssh-rsa AAA shared",
    )
    .unwrap_err();
    assert_eq!(err, KeyStoreError::DuplicateContent);
}

#[test]
fn add_ssh_key_draws_fresh_ids() {
    let keys: Vec<SshKey> = Vec::new();
    let (keys, a) = add_ssh_key(&keys, "a".to_string(), None, "ssh-rsa AAA a").unwrap();
    let (_, b) = add_ssh_key(&keys, "b".to_string(), None, "ssh-rsa BBB b").unwrap();
    assert_ne!(a.id, b.id);
    assert_eq!(a.created, a.last_modified);
    assert!(a.created > 1_600_000_000_000, "clock is after 2020");
}

#[test]
fn update_tag_only_keeps_name_and_key_and_advances_modified() {
    let keys = coll(&[rec("id-1", "A", "ssh-ed25519 AAAAC3 zzz")]);
    let up = SshKeyUpdate { name: None, tag: Some("prod".to_string()), key: None };
    let (keys2, r) = update_record(&keys, &"id-1".to_string(), &up, 2_000).expect("update");
    assert_eq!(r.name, "A");
    assert_eq!(r.key, "ssh-ed25519 AAAAC3 zzz");
    assert_eq!(r.key_type, "ed25519");
    assert_eq!(r.tag, Some("prod".to_string()));
    assert_eq!(r.created, 1_000);
    assert_eq!(r.last_modified, 2_000);
    assert!(r.last_modified > r.created);
    assert_eq!(keys2.len(), 1);
}

#[test]
fn update_key_content_redetects_type() {
    let keys = coll(&[rec("id-1", "A", "ssh-rsa AAA old")]);
    let up = SshKeyUpdate { name: None, tag: None, key: Some(" ssh-ed25519 NEW ".to_string()) };
    let (_, r) = update_record(&keys, &"id-1".to_string(), &up, 3_000).expect("update");
    assert_eq!(r.key, "ssh-ed25519 NEW");
    assert_eq!(r.key_type, "ed25519");
}

#[test]
fn update_missing_id_is_not_found() {
    let keys = coll(&[rec("id-1", "A", "ssh-rsa AAA x")]);
    let up = SshKeyUpdate { name: None, tag: Some("t".to_string()), key: None };
    let err = update_record(&keys, &"missing".to_string(), &up, 10).unwrap_err();
    assert_eq!(err, KeyStoreError::NotFound);
}

#[test]
fn update_to_colliding_name_is_rejected() {
    let keys = coll(&[
        rec("id-1", "alpha", "ssh-rsa AAA one"),
        rec("id-2", "beta", "ssh-rsa BBB two"),
    ]);
    let up = SshKeyUpdate { name: Some("ALPHA".to_string()), tag: None, key: None };
    let err = update_record(&keys, &"id-2".to_string(), &up, 10).unwrap_err();
    assert_eq!(err, KeyStoreError::DuplicateName);
}

#[test]
fn update_to_colliding_content_is_rejected() {
    let keys = coll(&[
        rec("id-1", "alpha", "ssh-rsa AAA one"),
        rec("id-2", "beta", "ssh-rsa BBB two"),
    ]);
    let up = SshKeyUpdate { name: None, tag: None, key: Some("ssh-rsa AAA one".to_string()) };
    let err = update_record(&keys, &"id-2".to_string(), &up, 10).unwrap_err();
    assert_eq!(err, KeyStoreError::DuplicateContent);
}

#[test]
fn update_keeping_own_name_is_allowed() {
    let keys = coll(&[rec("id-1", "alpha", "ssh-rsa AAA one")]);
    let up = SshKeyUpdate { name: Some("Alpha".to_string()), tag: None, key: None };
    let (_, r) = update_record(&keys, &"id-1".to_string(), &up, 10).expect("rename self");
    assert_eq!(r.name, "Alpha");
}

#[test]
fn remove_then_remove_again() {
    let keys = coll(&[rec("id-1", "A", "ssh-rsa AAA x"), rec("id-2", "B", "ssh-rsa BBB y")]);
    let keys2 = remove_ssh_key(&keys, &"id-1".to_string()).expect("remove");
    assert_eq!(keys2.len(), 1);
    assert!(keys2.iter().all(|k| k.id != "id-1"));
    let err = remove_ssh_key(&keys2, &"id-1".to_string()).unwrap_err();
    assert_eq!(err, KeyStoreError::NotFound);
}

#[test]
fn merge_counts_and_order() {
    let a = coll(&[
        rec("id-1", "a1", "ssh-rsa AAA 1"),
        rec("id-2", "a2", "ssh-rsa BBB 2"),
        rec("id-3", "a3", "ssh-rsa CCC 3"),
    ]);
    let b = coll(&[
        rec("id-2", "b2", "ssh-rsa DDD 4"),
        rec("id-4", "b4", "ssh-rsa EEE 5"),
        rec("id-5", "b5", "ssh-rsa FFF 6"),
    ]);
    let (merged, imported, duplicates) = merge_collections(&a, &b);
    assert_eq!(merged.len(), a.len() + b.len() - 1);
    assert_eq!(imported, 2);
    assert_eq!(duplicates, 1);
    let ids: Vec<&str> = merged.iter().map(|k| k.id.as_str()).collect();
    assert_eq!(ids, vec!["id-1", "id-2", "id-3", "id-4", "id-5"]);
    assert_eq!(merged[1].name, "a2", "the current side's record wins on a shared id");
}

#[test]
fn merge_with_empty_sides() {
    let a = coll(&[rec("id-1", "a", "ssh-rsa AAA 1")]);
    let (m1, i1, d1) = merge_collections(&a, &Vec::new());
    assert_eq!((m1.len(), i1, d1), (1, 0, 0));
    let (m2, i2, d2) = merge_collections(&Vec::new(), &a);
    assert_eq!((m2.len(), i2, d2), (1, 1, 0));
}

#[test]
fn error_messages_name_the_failure() {
    assert_eq!(KeyStoreError::NotFound.message(), "Key not found");
    assert_eq!(KeyStoreError::DuplicateName.message(), "A key with this name already exists");
    assert_eq!(
        KeyStoreError::DuplicateContent.message(),
        "A key with this content already exists"
    );
    assert!(KeyStoreError::Decrypt.message().contains("decrypt"));
    assert!(KeyStoreError::Encoding.message().contains("decode"));
}

#[test]
fn lifecycle_scenario_add_update_remove() {
    // Add a key whose content names ed25519: the type is detected.
    let keys: Vec<SshKey> = Vec::new();
    let (keys, added) = add_record(
        &keys,
        "id-a".to_string(),
        1_000,
        "A".to_string(),
        None,
        "ssh-ed25519 AAAAC3NzaC1lZDI1 user@host",
    )
    .expect("add");
    assert_eq!(added.key_type, "ed25519");
    // Update only the tag: name and key unchanged, last_modified
    // advances, created does not.
    let up = SshKeyUpdate { name: None, tag: Some("laptop".to_string()), key: None };
    let (keys, updated) = update_record(&keys, &"id-a".to_string(), &up, 2_500).expect("update");
    assert_eq!(updated.name, added.name);
    assert_eq!(updated.key, added.key);
    assert_eq!(updated.created, added.created);
    assert!(updated.last_modified > updated.created);
    // Remove it: the listing no longer contains it; removing again
    // reports NotFound.
    let keys = remove_ssh_key(&keys, &"id-a".to_string()).expect("remove");
    assert!(keys.iter().all(|k| k.id != "id-a"));
    assert_eq!(
        remove_ssh_key(&keys, &"id-a".to_string()).unwrap_err(),
        KeyStoreError::NotFound
    );
}

#[test]
fn public_key_content_check() {
    assert!(is_public_key_content("ssh-ed25519 AAAAC3 user@host"));
    assert!(!is_public_key_content("ssh-ed25519 AAAA\nsecond line"));
    assert!(!is_public_key_content("no key material here"));
    assert!(!is_public_key_content(""));
}

#[test]
fn update_ssh_key_succeeds_on_a_valid_update() {
    let keys = coll(&[rec("id-1", "A", "ssh-ed25519 AAAAC3 zzz")]);
    let up = SshKeyUpdate { name: None, tag: Some("clock".to_string()), key: None };
    let (keys2, r) = update_ssh_key(&keys, &"id-1".to_string(), &up).expect("valid update");
    assert_eq!(r.name, "A");
    assert_eq!(r.tag, Some("clock".to_string()));
    assert_eq!(r.created, 1_000);
    assert!(r.last_modified > 1_600_000_000_000, "stamped with the clock");
    assert_eq!(keys2.len(), 1);
}

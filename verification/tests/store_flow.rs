use ssh_kim_core::kdf::derive_machine_key;
use ssh_kim_core::records::{add_record, SshKey};
use ssh_kim_core::store::{export_keys_with_password, seal_collection, Store};
use ssh_kim_core::KeyStoreError;

fn new_store() -> Store {
    Store::new(derive_machine_key("test-machine"))
}

fn two_records() -> Vec<SshKey> {
    let keys: Vec<SshKey> = Vec::new();
    let (keys, _) = add_record(
        &keys,
        "id-1".to_string(),
        10,
        "one".to_string(),
        None,
        "ssh-ed25519 AAA one",
    )
    .unwrap();
    let (keys, _) = add_record(
        &keys,
        "id-2".to_string(),
        20,
        "two".to_string(),
        Some("t".to_string()),
        "ssh-rsa BBB two",
    )
    .unwrap();
    keys
}

fn assert_same_records(a: &[SshKey], b: &[SshKey]) {
    assert_eq!(a.len(), b.len());
    for (x, y) in a.iter().zip(b.iter()) {
        assert_eq!(x.id, y.id);
        assert_eq!(x.name, y.name);
        assert_eq!(x.tag, y.tag);
        assert_eq!(x.key, y.key);
        assert_eq!(x.key_type, y.key_type);
        assert_eq!(x.created, y.created);
        assert_eq!(x.last_modified, y.last_modified);
    }
}

#[test]
fn encryption_mode_follows_the_password_key() {
    let mut store = new_store();
    assert_eq!(store.get_encryption_mode(), "machine");
    store.set_password_key("hunter2");
    assert_eq!(store.get_encryption_mode(), "password");
    store.clear_password_key();
    assert_eq!(store.get_encryption_mode(), "machine");
}

#[test]
fn active_key_prefers_the_password_key() {
    let mut store = new_store();
    assert_eq!(store.active_key(), store.get_encryption_key());
    store.set_password_key("hunter2");
    assert_ne!(store.active_key(), store.get_encryption_key());
}

#[test]
fn keys_file_path_default_and_custom() {
    let mut store = new_store();
    assert_eq!(store.get_keys_file_path("/home/me"), "/home/me/.ssh-kim/keys.enc");
    store.set_custom_keys_file_path("/tmp/other.enc".to_string());
    assert_eq!(store.get_keys_file_path("/home/me"), "/tmp/other.enc");
    store.reset_to_default_path();
    assert_eq!(store.get_keys_file_path("/home/me"), "/home/me/.ssh-kim/keys.enc");
}

#[test]
fn get_with_no_cache_and_no_file_is_empty() {
    let mut store = new_store();
    let keys = store.get(None).expect("empty store");
    assert_eq!(keys.len(), 0);
}

#[test]
fn commit_then_get_returns_the_committed_collection() {
    let mut store = new_store();
    let keys = two_records();
    let ciphertext = store.prepare_save(&keys).expect("seal");
    // Simulate the write-through order: the file write succeeded, so the
    // collection is committed; afterwards get() serves the cache and
    // never looks at the file text again.
    store.commit(keys.clone());
    let got = store.get(Some("garbage that would never decrypt")).expect("cache hit");
    assert_same_records(&keys, &got);
    // The ciphertext that was "written" still opens to the same records.
    let mut fresh = new_store();
    let reloaded = fresh.get(Some(&ciphertext)).expect("reload from file");
    assert_same_records(&keys, &reloaded);
}

#[test]
fn invalidate_makes_get_reflect_the_file_again() {
    let mut store = new_store();
    let first = two_records();
    store.commit(first.clone());
    // The file changes externally: someone else wrote a store with one
    // extra record.
    let (external, _) = add_record(
        &first,
        "id-3".to_string(),
        30,
        "three".to_string(),
        None,
        "ssh-rsa CCC three",
    )
    .unwrap();
    let external_text = seal_collection(&external, &store.get_encryption_key()).expect("seal");
    // Before invalidation the cache still answers.
    let cached = store.get(Some(&external_text)).expect("cache hit");
    assert_eq!(cached.len(), 2);
    store.clear_cache();
    let reloaded = store.get(Some(&external_text)).expect("reload");
    assert_eq!(reloaded.len(), 3);
}

#[test]
fn failed_load_leaves_the_cache_empty() {
    let mut store = new_store();
    let err = store.get(Some("*** not a store file ***")).unwrap_err();
    assert!(err == KeyStoreError::Decrypt || err == KeyStoreError::Encoding);
    // Nothing was cached by the failure: an empty follow-up get works.
    let keys = store.get(None).expect("still empty");
    assert_eq!(keys.len(), 0);
}

#[test]
fn load_keys_from_file_switches_location_and_cache() {
    let mut store = new_store();
    let keys = two_records();
    let text = seal_collection(&keys, &store.get_encryption_key()).expect("seal");
    let loaded = store
        .load_keys_from_file("/tmp/loaded.enc".to_string(), &text)
        .expect("load");
    assert_same_records(&keys, &loaded);
    assert_eq!(store.get_keys_file_path("/home/me"), "/tmp/loaded.enc");
    let got = store.get(Some("ignored, cache is warm")).expect("cache");
    assert_same_records(&keys, &got);
}

#[test]
fn merge_retries_under_the_machine_key() {
    let mut store = new_store();
    // A file sealed under the machine key, while a password key is active.
    let external = two_records();
    let text = seal_collection(&external, &store.get_encryption_key()).expect("seal");
    store.set_password_key("something else");
    let current: Vec<SshKey> = Vec::new();
    let (merged, imported, duplicates) = store
        .merge_keys_from_text(&current, &text)
        .expect("machine-key retry succeeds");
    assert_eq!(imported, 2);
    assert_eq!(duplicates, 0);
    assert_same_records(&external, &merged);
}

#[test]
fn merge_of_undecryptable_text_is_a_decrypt_error() {
    let store = new_store();
    let current = two_records();
    let err = store.merge_keys_from_text(&current, "AAAA not a store").unwrap_err();
    assert_eq!(err, KeyStoreError::Decrypt);
}

#[test]
fn export_then_import_with_wrong_password_fails() {
    let keys = two_records();
    let exported = export_keys_with_password(&keys, "correct horse").expect("export");
    let store = new_store();
    let current: Vec<SshKey> = Vec::new();
    let err = store
        .import_keys_with_password(&current, &exported, "battery staple")
        .unwrap_err();
    assert!(err == KeyStoreError::Decrypt || err == KeyStoreError::Encoding);
}

#[test]
fn export_then_import_with_right_password_restores_exactly() {
    let keys = two_records();
    let exported = export_keys_with_password(&keys, "correct horse").expect("export");
    let store = new_store();
    let current: Vec<SshKey> = Vec::new();
    let (result, to_write) = store
        .import_keys_with_password(&current, &exported, "correct horse")
        .expect("import");
    assert_eq!(result.imported_count, 2);
    assert_eq!(result.duplicate_count, 0);
    assert_eq!(result.total_in_store, 2);
    assert_same_records(&keys, &result.keys);
    let ciphertext = to_write.expect("new records mean a write is due");
    // The write-through ciphertext opens to the merged store.
    let mut fresh = new_store();
    let reloaded = fresh.get(Some(&ciphertext)).expect("reload");
    assert_same_records(&keys, &reloaded);
}

#[test]
fn import_of_all_duplicates_writes_nothing() {
    let keys = two_records();
    let exported = export_keys_with_password(&keys, "pw").expect("export");
    let store = new_store();
    let (result, to_write) = store
        .import_keys_with_password(&keys, &exported, "pw")
        .expect("import");
    assert_eq!(result.imported_count, 0);
    assert_eq!(result.duplicate_count, 2);
    assert_eq!(result.total_in_store, 2);
    assert!(to_write.is_none(), "nothing new, nothing to persist");
    assert_same_records(&keys, &result.keys);
}

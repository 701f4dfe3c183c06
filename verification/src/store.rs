//! The keystore: encryption context, store location, and the cached
//! collection, with the sealed-file operations built on them.
//!
//! All shared state lives in an explicit [`Store`] value. Persistence is
//! split two-phase so that the write-through discipline is visible in
//! the contracts: [`Store::prepare_save`] produces the ciphertext to
//! write, and only after the write succeeded does the caller
//! [`Store::commit`] the collection into the cache. A failed write
//! therefore never touches the cache.

use vstd::prelude::*;
use crate::KeyStoreError;
use crate::cipher::{
    encrypt_bytes, decrypt_bytes, sealed_bytes, base64_of, dec_blocks, unpad16, copy_bytes,
};
use crate::codec::{serialize_collection, parse_collection, spec_serialize, key_views, wf_views};
use crate::records::{SshKey, clone_keys, merge_collections, merge_spec};
use crate::kdf::{derive_key_from_password, spec_password_key};

verus! {

/// The ciphertext `ct` is a possible sealing of a collection whose
/// record values are `views`, under `key`.
pub open spec fn sealed_with(key: Seq<u8>, views: Seq<crate::records::SshKeyView>, ct: Seq<char>) -> bool {
    exists|iv: Seq<u8>| sealed_bytes(key, iv, spec_serialize(views), ct)
}

/// The ciphertext `ct` decrypts under `key` to the canonical
/// serialization of `ks`.
pub open spec fn opened_ok(key: Seq<u8>, ct: Seq<char>, ks: Seq<SshKey>) -> bool {
    exists|d: Seq<u8>|
        base64_of(d) == ct && d.len() >= 16 && (d.len() - 16) % 16 == 0 && unpad16(
            dec_blocks(key, d.skip(16)),
        ) == spec_serialize(key_views(ks))
}

/// Serialize and encrypt a collection under a 256-bit key.
///
/// Fails only when the serialized form leaves no room for padding in a
/// `usize`, which no real collection reaches.
pub fn seal_collection(keys: &Vec<SshKey>, key: &Vec<u8>) -> (r: Result<String, KeyStoreError>)
    requires
        key@.len() == 32,
    ensures
        r matches Ok(ct) ==> sealed_with(key@, key_views(keys@), ct@),
        r is Err ==> r == Err::<String, KeyStoreError>(KeyStoreError::Encoding),
        spec_serialize(key_views(keys@)).len() + 16 <= usize::MAX ==> r is Ok,
{
    let bytes = serialize_collection(keys);
    if bytes.len() <= usize::MAX - 16 {
        let ct = encrypt_bytes(bytes.as_slice(), key);
        proof {
            let iv = choose|iv: Seq<u8>| sealed_bytes(key@, iv, bytes@, ct@);
            assert(sealed_bytes(key@, iv, spec_serialize(key_views(keys@)), ct@));
        }
        Ok(ct)
    } else {
        Err(KeyStoreError::Encoding)
    }
}

/// Decrypt and parse a collection.
///
/// The second clause is the persistence round-trip law: a ciphertext
/// sealed for record values `c` under this key opens to records whose
/// values are exactly `c`, field for field.
pub fn open_collection(ct: &str, key: &Vec<u8>) -> (r: Result<Vec<SshKey>, KeyStoreError>)
    requires
        key@.len() == 32,
    ensures
        r matches Ok(ks) ==> opened_ok(key@, ct@, ks@),
        forall|c: Seq<crate::records::SshKeyView>|
            wf_views(c) && #[trigger] sealed_with(key@, c, ct@) ==> (r matches Ok(ks)
                && key_views(ks@) == c),
        r is Err ==> (r == Err::<Vec<SshKey>, KeyStoreError>(KeyStoreError::Decrypt) || r
            == Err::<Vec<SshKey>, KeyStoreError>(KeyStoreError::Encoding)),
{
    match decrypt_bytes(ct, key) {
        Err(e) => {
            proof {
                assert forall|c: Seq<crate::records::SshKeyView>|
                    wf_views(c) && #[trigger] sealed_with(key@, c, ct@) implies false by {
                    let iv = choose|iv: Seq<u8>| sealed_bytes(key@, iv, spec_serialize(c), ct@);
                    assert(sealed_bytes(key@, iv, spec_serialize(c), ct@));
                }
            }
            Err(e)
        },
        Ok(bytes) => {
            let ghost bv = bytes@;
            match parse_collection(&bytes) {
                None => {
                    proof {
                        assert forall|c: Seq<crate::records::SshKeyView>|
                            wf_views(c) && #[trigger] sealed_with(key@, c, ct@) implies false by {
                            let iv = choose|iv: Seq<u8>|
                                sealed_bytes(key@, iv, spec_serialize(c), ct@);
                            assert(sealed_bytes(key@, iv, spec_serialize(c), ct@));
                            assert(bv == spec_serialize(c));
                        }
                    }
                    Err(KeyStoreError::Encoding)
                },
                Some(ks) => {
                    proof {
                        assert forall|c: Seq<crate::records::SshKeyView>|
                            wf_views(c) && #[trigger] sealed_with(key@, c, ct@) implies key_views(
                            ks@,
                        ) == c by {
                            let iv = choose|iv: Seq<u8>|
                                sealed_bytes(key@, iv, spec_serialize(c), ct@);
                            assert(sealed_bytes(key@, iv, spec_serialize(c), ct@));
                            assert(bv == spec_serialize(c));
                        }
                    }
                    Ok(ks)
                },
            }
        },
    }
}

/// The whole mutable state of the keystore: the machine-bound key, the
/// optional password-bound key that overrides it, the lazily loaded
/// cache, and the optional custom file location.
pub struct Store {
    pub machine_key: Vec<u8>,
    pub password_key: Option<Vec<u8>>,
    pub cache: Option<Vec<SshKey>>,
    pub custom_path: Option<String>,
}

impl Store {
    /// Both keys, when present, are 256 bits.
    pub open spec fn wf(&self) -> bool {
        &&& self.machine_key@.len() == 32
        &&& (self.password_key matches Some(k) ==> k@.len() == 32)
    }

    /// The key that encrypt and decrypt use: the password-bound key
    /// when one is set, else the machine-bound key.
    pub open spec fn spec_active_key(&self) -> Seq<u8> {
        match self.password_key {
            Some(k) => k@,
            None => self.machine_key@,
        }
    }

    /// A fresh store bound to the given machine key: no password, no
    /// cache, default location.
    pub fn new(machine_key: Vec<u8>) -> (s: Store)
        requires
            machine_key@.len() == 32,
        ensures
            s.wf(),
            s.machine_key@ == machine_key@,
            s.password_key is None,
            s.cache is None,
            s.custom_path is None,
    {
        Store { machine_key, password_key: None, cache: None, custom_path: None }
    }

    /// The machine-bound encryption key, used for local files.
    pub fn get_encryption_key(&self) -> (k: Vec<u8>)
        requires
            self.wf(),
        ensures
            k@ == self.machine_key@,
            k@.len() == 32,
    {
        copy_bytes(&self.machine_key)
    }

    /// The currently active encryption key.
    pub fn active_key(&self) -> (k: Vec<u8>)
        requires
            self.wf(),
        ensures
            k@ == self.spec_active_key(),
            k@.len() == 32,
    {
        match &self.password_key {
            Some(k) => copy_bytes(k),
            None => self.get_encryption_key(),
        }
    }

    /// Set the password-bound key; it overrides the machine key until
    /// cleared. Nothing else changes.
    pub fn set_password_key(&mut self, password: &str)
        requires
            old(self).wf(),
        ensures
            final(self).wf(),
            final(self).password_key matches Some(k) && k@ == spec_password_key(password@),
            final(self).machine_key == old(self).machine_key,
            final(self).cache == old(self).cache,
            final(self).custom_path == old(self).custom_path,
    {
        let k = derive_key_from_password(password);
        self.password_key = Some(k);
    }

    /// Clear the password-bound key, falling back to the machine key.
    /// Nothing else changes.
    pub fn clear_password_key(&mut self)
        requires
            old(self).wf(),
        ensures
            final(self).wf(),
            final(self).password_key is None,
            final(self).machine_key == old(self).machine_key,
            final(self).cache == old(self).cache,
            final(self).custom_path == old(self).custom_path,
    {
        self.password_key = None;
    }

    /// Which derivation mode the active key comes from.
    pub fn get_encryption_mode(&self) -> (r: String)
        ensures
            self.password_key is Some ==> r@ == "password"@,
            self.password_key is None ==> r@ == "machine"@,
    {
        match &self.password_key {
            Some(_) => String::from_str("password"),
            None => String::from_str("machine"),
        }
    }

    /// Drop the cached collection; the next load reads the file again.
    pub fn clear_cache(&mut self)
        requires
            old(self).wf(),
        ensures
            final(self).wf(),
            final(self).cache is None,
            final(self).machine_key == old(self).machine_key,
            final(self).password_key == old(self).password_key,
            final(self).custom_path == old(self).custom_path,
            final(self).spec_active_key() == old(self).spec_active_key(),
    {
        self.cache = None;
    }

    /// Switch to a custom file location. The cache is invalidated as
    /// part of the same operation.
    pub fn set_custom_keys_file_path(&mut self, path: String)
        requires
            old(self).wf(),
        ensures
            final(self).wf(),
            final(self).custom_path matches Some(p) && p@ == path@,
            final(self).cache is None,
            final(self).machine_key == old(self).machine_key,
            final(self).password_key == old(self).password_key,
            final(self).spec_active_key() == old(self).spec_active_key(),
    {
        self.custom_path = Some(path);
        self.cache = None;
    }

    /// Return to the default file location. The cache is invalidated as
    /// part of the same operation.
    pub fn reset_to_default_path(&mut self)
        requires
            old(self).wf(),
        ensures
            final(self).wf(),
            final(self).custom_path is None,
            final(self).cache is None,
            final(self).machine_key == old(self).machine_key,
            final(self).password_key == old(self).password_key,
            final(self).spec_active_key() == old(self).spec_active_key(),
    {
        self.custom_path = None;
        self.cache = None;
    }

    /// The active keys file path: the custom one if set, else the
    /// default under the given home directory.
    pub fn get_keys_file_path(&self, home_dir: &str) -> (r: String)
        ensures
            self.custom_path matches Some(p) ==> r@ == p@,
            self.custom_path is None ==> r@ == home_dir@ + "/.ssh-kim/keys.enc"@,
    {
        match &self.custom_path {
            Some(p) => p.clone(),
            None => {
                let mut s = String::from_str(home_dir);
                s.append("/.ssh-kim/keys.enc");
                s
            },
        }
    }

    /// The cached collection, or the one decrypted from `file_text`.
    ///
    /// A present cache is returned as it is, without touching the file.
    /// With no cache and no file the collection is empty. With no cache
    /// and a file, the file is opened under the active key and the
    /// result becomes the cache; on failure nothing changes. The last
    /// clause is the reload law: after an invalidation, a file sealed
    /// for record values `c` is returned and cached as exactly `c`,
    /// even if the file changed since the last load.
    pub fn get(&mut self, file_text: Option<&str>) -> (r: Result<Vec<SshKey>, KeyStoreError>)
        requires
            old(self).wf(),
        ensures
            final(self).wf(),
            final(self).machine_key == old(self).machine_key,
            final(self).password_key == old(self).password_key,
            final(self).custom_path == old(self).custom_path,
            final(self).spec_active_key() == old(self).spec_active_key(),
            r is Err ==> (r == Err::<Vec<SshKey>, KeyStoreError>(KeyStoreError::Decrypt) || r
                == Err::<Vec<SshKey>, KeyStoreError>(KeyStoreError::Encoding)),
            old(self).cache matches Some(c) ==> *final(self) == *old(self) && (r matches Ok(ks)
                && ks@ == c@),
            old(self).cache is None && file_text is None ==> (r matches Ok(ks) && ks@.len() == 0
                && (final(self).cache matches Some(cc) && cc@.len() == 0)),
            old(self).cache is None ==> (file_text matches Some(t) ==> ({
                &&& (r matches Ok(ks) ==> opened_ok(old(self).spec_active_key(), t@, ks@) && (
                final(self).cache matches Some(cc) && cc@ == ks@))
                &&& (r is Err ==> *final(self) == *old(self))
            })),
            forall|c: Seq<crate::records::SshKeyView>, txt: Seq<char>|
                old(self).cache is None && file_text is Some && file_text->0@ == txt && wf_views(c)
                    && #[trigger] sealed_with(old(self).spec_active_key(), c, txt)
                    ==> (r matches Ok(ks) && key_views(ks@) == c),
    {
        match &self.cache {
            Some(c) => {
                let ks = clone_keys(c);
                Ok(ks)
            },
            None => {
                match file_text {
                    None => {
                        self.cache = Some(Vec::new());
                        Ok(Vec::new())
                    },
                    Some(t) => {
                        let key = self.active_key();
                        match open_collection(t, &key) {
                            Ok(ks) => {
                                let copy = clone_keys(&ks);
                                self.cache = Some(copy);
                                Ok(ks)
                            },
                            Err(e) => Err(e),
                        }
                    },
                }
            },
        }
    }

    /// Serialize and encrypt a collection under the active key: the
    /// text to write at the active location.
    pub fn prepare_save(&self, keys: &Vec<SshKey>) -> (r: Result<String, KeyStoreError>)
        requires
            self.wf(),
        ensures
            r matches Ok(ct) ==> sealed_with(self.spec_active_key(), key_views(keys@), ct@),
            r is Err ==> r == Err::<String, KeyStoreError>(KeyStoreError::Encoding),
            spec_serialize(key_views(keys@)).len() + 16 <= usize::MAX ==> r is Ok,
    {
        let key = self.active_key();
        seal_collection(keys, &key)
    }

    /// Replace the cache with a collection whose encrypted form was
    /// just written. Call only after the write succeeded: persistence
    /// first, then the cache.
    pub fn commit(&mut self, keys: Vec<SshKey>)
        requires
            old(self).wf(),
        ensures
            final(self).wf(),
            final(self).cache matches Some(c) && c@ == keys@,
            final(self).machine_key == old(self).machine_key,
            final(self).password_key == old(self).password_key,
            final(self).custom_path == old(self).custom_path,
            final(self).spec_active_key() == old(self).spec_active_key(),
    {
        self.cache = Some(keys);
    }

    /// Open an arbitrary file's text under the active key; on success
    /// that file becomes the active location and its records the cache.
    /// On failure nothing changes.
    pub fn load_keys_from_file(&mut self, path: String, file_text: &str) -> (r: Result<
        Vec<SshKey>,
        KeyStoreError,
    >)
        requires
            old(self).wf(),
        ensures
            final(self).wf(),
            final(self).machine_key == old(self).machine_key,
            final(self).password_key == old(self).password_key,
            r matches Ok(ks) ==> opened_ok(old(self).spec_active_key(), file_text@, ks@) && (
            final(self).cache matches Some(cc) && cc@ == ks@) && (
            final(self).custom_path matches Some(p) && p@ == path@),
            forall|c: Seq<crate::records::SshKeyView>|
                wf_views(c) && #[trigger] sealed_with(old(self).spec_active_key(), c, file_text@)
                    ==> (r matches Ok(ks) && key_views(ks@) == c),
            r is Err ==> *final(self) == *old(self) && (r == Err::<Vec<SshKey>, KeyStoreError>(
                KeyStoreError::Decrypt,
            ) || r == Err::<Vec<SshKey>, KeyStoreError>(KeyStoreError::Encoding)),
    {
        let key = self.active_key();
        match open_collection(file_text, &key) {
            Ok(ks) => {
                let copy = clone_keys(&ks);
                self.custom_path = Some(path);
                self.cache = Some(copy);
                Ok(ks)
            },
            Err(e) => Err(e),
        }
    }

    /// Decrypt an external file's text and merge its records into
    /// `current`, deduplicating by record id.
    ///
    /// Decryption is tried under the active key first and retried once
    /// under the machine-bound key, so a machine-sealed file imports
    /// even while a password key is active. The merged collection, the
    /// number of records imported and the number discarded as
    /// duplicates are returned; persisting and committing the result is
    /// the caller's write-through step.
    pub fn merge_keys_from_text(&self, current: &Vec<SshKey>, file_text: &str) -> (r: Result<
        (Vec<SshKey>, usize, usize),
        KeyStoreError,
    >)
        requires
            self.wf(),
        ensures
            r matches Ok(q) ==> exists|inc: Seq<SshKey>|
                {
                    &&& (opened_ok(self.spec_active_key(), file_text@, inc) || opened_ok(
                        self.machine_key@,
                        file_text@,
                        inc,
                    ))
                    &&& q.0@ == merge_spec(current@, inc)
                    &&& q.1 + q.2 == inc.len()
                    &&& current@.len() + q.1 == q.0@.len()
                    &&& q.0@.take(current@.len() as int) == current@
                },
            forall|c: Seq<crate::records::SshKeyView>|
                wf_views(c) && #[trigger] sealed_with(self.spec_active_key(), c, file_text@)
                    ==> r is Ok,
            forall|c: Seq<crate::records::SshKeyView>|
                wf_views(c) && #[trigger] sealed_with(self.machine_key@, c, file_text@)
                    ==> r is Ok,
            forall|c: Seq<crate::records::SshKeyView>|
                wf_views(c) && #[trigger] sealed_with(self.spec_active_key(), c, file_text@)
                    ==> (r matches Ok(q) ==> exists|inc: Seq<SshKey>|
                    key_views(inc) == c && q.0@ == merge_spec(current@, inc)),
            forall|c: Seq<crate::records::SshKeyView>|
                wf_views(c) && #[trigger] sealed_with(self.machine_key@, c, file_text@)
                    ==> (r matches Ok(q) ==> exists|inc: Seq<SshKey>|
                    (key_views(inc) == c || opened_ok(
                        self.spec_active_key(),
                        file_text@,
                        inc,
                    )) && q.0@ == merge_spec(current@, inc)),
            r is Err ==> r == Err::<(Vec<SshKey>, usize, usize), KeyStoreError>(
                KeyStoreError::Decrypt,
            ),
    {
        let key = self.active_key();
        let ghost mut via_active = true;
        let source = match open_collection(file_text, &key) {
            Ok(ks) => ks,
            Err(_) => {
                proof {
                    via_active = false;
                }
                let machine = self.get_encryption_key();
                match open_collection(file_text, &machine) {
                    Ok(ks) => ks,
                    Err(_) => {
                        return Err(KeyStoreError::Decrypt);
                    },
                }
            },
        };
        let ghost source_view = source@;
        proof {
            assert(via_active ==> opened_ok(self.spec_active_key(), file_text@, source_view));
        }
        let (merged, imported, duplicates) = merge_collections(current, &source);
        let res: Result<(Vec<SshKey>, usize, usize), KeyStoreError> = Ok(
            (merged, imported, duplicates),
        );
        proof {
            let q = res->Ok_0;
            assert forall|c: Seq<crate::records::SshKeyView>|
                wf_views(c) && #[trigger] sealed_with(self.spec_active_key(), c, file_text@)
                    implies exists|inc: Seq<SshKey>|
                    key_views(inc) == c && q.0@ == merge_spec(current@, inc) by {
                assert(key_views(source_view) == c && q.0@ == merge_spec(current@, source_view));
            }
            assert forall|c: Seq<crate::records::SshKeyView>|
                wf_views(c) && #[trigger] sealed_with(self.machine_key@, c, file_text@)
                    implies exists|inc: Seq<SshKey>|
                    (key_views(inc) == c || opened_ok(
                        self.spec_active_key(),
                        file_text@,
                        inc,
                    )) && q.0@ == merge_spec(current@, inc) by {
                if via_active {
                    assert(opened_ok(self.spec_active_key(), file_text@, source_view) && q.0@
                        == merge_spec(current@, source_view));
                } else {
                    assert(key_views(source_view) == c && q.0@ == merge_spec(
                        current@,
                        source_view,
                    ));
                }
            }
        }
        res
    }

    /// Decrypt an export under a password-derived key and merge it into
    /// `current`.
    ///
    /// When nothing new was imported the store's contents are returned
    /// unchanged and there is nothing to write (`None`); otherwise the
    /// merged collection comes with its ciphertext under the active
    /// key, to be written and then committed. Success is owed: a file
    /// sealed under this password's key imports whenever the merged
    /// serialization fits the machine, and what it decrypts to is
    /// pinned record value for record value.
    pub fn import_keys_with_password(
        &self,
        current: &Vec<SshKey>,
        file_text: &str,
        password: &str,
    ) -> (r: Result<(crate::records::ImportResult, Option<String>), KeyStoreError>)
        requires
            self.wf(),
        ensures
            r matches Ok(q) ==> exists|inc: Seq<SshKey>|
                {
                    &&& opened_ok(spec_password_key(password@), file_text@, inc)
                    &&& q.0.keys@ == merge_spec(current@, inc)
                    &&& q.0.imported_count + q.0.duplicate_count == inc.len()
                    &&& current@.len() + q.0.imported_count == q.0.keys@.len()
                    &&& q.0.total_in_store == q.0.keys@.len()
                    &&& (q.0.imported_count == 0 <==> q.1 is None)
                    &&& (q.1 matches Some(ct) ==> sealed_with(
                        self.spec_active_key(),
                        key_views(q.0.keys@),
                        ct@,
                    ))
                },
            forall|c: Seq<crate::records::SshKeyView>|
                wf_views(c) && #[trigger] sealed_with(spec_password_key(password@), c, file_text@)
                    ==> (r is Ok || r == Err::<
                    (crate::records::ImportResult, Option<String>),
                    KeyStoreError,
                >(KeyStoreError::Encoding)),
            forall|c: Seq<crate::records::SshKeyView>|
                wf_views(c) && #[trigger] sealed_with(spec_password_key(password@), c, file_text@)
                    ==> (r matches Ok(q) ==> exists|inc: Seq<SshKey>|
                    key_views(inc) == c && q.0.keys@ == merge_spec(current@, inc)),
            forall|c: Seq<crate::records::SshKeyView>|
                wf_views(c) && #[trigger] sealed_with(spec_password_key(password@), c, file_text@)
                    ==> exists|inc: Seq<SshKey>|
                    key_views(inc) == c && (spec_serialize(
                        key_views(merge_spec(current@, inc)),
                    ).len() + 16 <= usize::MAX ==> r is Ok),
            r is Err ==> (r == Err::<(crate::records::ImportResult, Option<String>), KeyStoreError>(
                KeyStoreError::Decrypt,
            ) || r == Err::<(crate::records::ImportResult, Option<String>), KeyStoreError>(
                KeyStoreError::Encoding,
            )),
    {
        let pw_key = derive_key_from_password(password);
        let source = match open_collection(file_text, &pw_key) {
            Ok(ks) => ks,
            Err(e) => {
                return Err(e);
            },
        };
        let ghost source_view = source@;
        let (merged, imported, duplicates) = merge_collections(current, &source);
        if imported == 0 {
            let kept = clone_keys(current);
            let total = kept.len();
            proof {
                assert(merged@ =~= current@);
            }
            let res: Result<(crate::records::ImportResult, Option<String>), KeyStoreError> = Ok(
                (
                    crate::records::ImportResult {
                        keys: kept,
                        imported_count: 0,
                        duplicate_count: duplicates,
                        total_in_store: total,
                    },
                    None,
                ),
            );
            proof {
                let q = res->Ok_0;
                assert forall|c: Seq<crate::records::SshKeyView>|
                    wf_views(c) && #[trigger] sealed_with(
                        spec_password_key(password@),
                        c,
                        file_text@,
                    ) implies exists|inc: Seq<SshKey>|
                    key_views(inc) == c && q.0.keys@ == merge_spec(current@, inc) by {
                    assert(key_views(source_view) == c && q.0.keys@ == merge_spec(
                        current@,
                        source_view,
                    ));
                }
                assert forall|c: Seq<crate::records::SshKeyView>|
                    wf_views(c) && #[trigger] sealed_with(
                        spec_password_key(password@),
                        c,
                        file_text@,
                    ) implies exists|inc: Seq<SshKey>|
                    key_views(inc) == c && (spec_serialize(
                        key_views(merge_spec(current@, inc)),
                    ).len() + 16 <= usize::MAX ==> res is Ok) by {
                    assert(key_views(source_view) == c);
                }
            }
            return res;
        }
        let ghost merged_view = merged@;
        let ct = match self.prepare_save(&merged) {
            Ok(ct) => ct,
            Err(e) => {
                proof {
                    assert forall|c: Seq<crate::records::SshKeyView>|
                        wf_views(c) && #[trigger] sealed_with(
                            spec_password_key(password@),
                            c,
                            file_text@,
                        ) implies exists|inc: Seq<SshKey>|
                        key_views(inc) == c && (spec_serialize(
                            key_views(merge_spec(current@, inc)),
                        ).len() + 16 <= usize::MAX ==> false) by {
                        assert(key_views(source_view) == c);
                        assert(merge_spec(current@, source_view) == merged_view);
                    }
                }
                return Err(e);
            },
        };
        let total = merged.len();
        let res: Result<(crate::records::ImportResult, Option<String>), KeyStoreError> = Ok(
            (
                crate::records::ImportResult {
                    keys: merged,
                    imported_count: imported,
                    duplicate_count: duplicates,
                    total_in_store: total,
                },
                Some(ct),
            ),
        );
        proof {
            let q = res->Ok_0;
            assert forall|c: Seq<crate::records::SshKeyView>|
                wf_views(c) && #[trigger] sealed_with(
                    spec_password_key(password@),
                    c,
                    file_text@,
                ) implies exists|inc: Seq<SshKey>|
                key_views(inc) == c && q.0.keys@ == merge_spec(current@, inc) by {
                assert(key_views(source_view) == c && q.0.keys@ == merge_spec(
                    current@,
                    source_view,
                ));
            }
            assert forall|c: Seq<crate::records::SshKeyView>|
                wf_views(c) && #[trigger] sealed_with(
                    spec_password_key(password@),
                    c,
                    file_text@,
                ) implies exists|inc: Seq<SshKey>|
                key_views(inc) == c && (spec_serialize(
                    key_views(merge_spec(current@, inc)),
                ).len() + 16 <= usize::MAX ==> res is Ok) by {
                assert(key_views(source_view) == c);
            }
        }
        res
    }
}

/// Serialize and encrypt a collection under a password-derived key, for
/// a portable export.
pub fn export_keys_with_password(keys: &Vec<SshKey>, password: &str) -> (r: Result<
    String,
    KeyStoreError,
>)
    ensures
        r matches Ok(ct) ==> sealed_with(spec_password_key(password@), key_views(keys@), ct@),
        r is Err ==> r == Err::<String, KeyStoreError>(KeyStoreError::Encoding),
        spec_serialize(key_views(keys@)).len() + 16 <= usize::MAX ==> r is Ok,
{
    let key = derive_key_from_password(password);
    seal_collection(keys, &key)
}

} // verus!

//! Key derivation.
//!
//! Both modes hash their input together with a fixed domain separator
//! into a 256-bit key: the machine-bound mode hashes a stable machine
//! identifier, the password-bound mode a user-supplied password. Both
//! are pure: the same input always yields the same key.

use vstd::prelude::*;
use sha2::Digest;

verus! {

use vstd::utf8::encode_utf8;

/// The 32-byte digest that `sha2::Sha256` computes of `data`.
pub uninterp spec fn sha256_of(data: Seq<u8>) -> Seq<u8>;

/// Relies on `sha2::Sha256` (`Digest`): a deterministic 32-byte digest
/// of the bytes fed to it, here the two parts in order.
#[verifier::external_body]
fn sha256_pair(a: &[u8], b: &[u8]) -> (r: Vec<u8>)
    ensures
        r@ == sha256_of(a@ + b@),
        r@.len() == 32,
{
    let mut hasher = sha2::Sha256::new();
    hasher.update(a);
    hasher.update(b);
    hasher.finalize().to_vec()
}

/// The domain separator mixed into machine-bound keys.
pub open spec fn machine_salt() -> Seq<u8> {
    encode_utf8("ssh-kim-machine-key"@)
}

/// The domain separator mixed into password-bound keys; distinct from
/// the machine one, so the two key families never collide.
pub open spec fn password_salt() -> Seq<u8> {
    encode_utf8("ssh-kim-password-salt"@)
}

/// The machine-bound key derived from a machine identifier.
pub open spec fn spec_machine_key(machine_id: Seq<char>) -> Seq<u8> {
    sha256_of(encode_utf8(machine_id) + machine_salt())
}

/// The password-bound key derived from a password.
pub open spec fn spec_password_key(password: Seq<char>) -> Seq<u8> {
    sha256_of(encode_utf8(password) + password_salt())
}

/// Derive the machine-bound 256-bit key from a stable machine
/// identifier. Deterministic: the same identifier gives the same key.
pub fn derive_machine_key(machine_id: &str) -> (k: Vec<u8>)
    ensures
        k@ == spec_machine_key(machine_id@),
        k@.len() == 32,
{
    sha256_pair(machine_id.as_bytes(), "ssh-kim-machine-key".as_bytes())
}

/// Derive a 256-bit key from a password. Deterministic: the same
/// password gives the same key.
pub fn derive_key_from_password(password: &str) -> (k: Vec<u8>)
    ensures
        k@ == spec_password_key(password@),
        k@.len() == 32,
{
    sha256_pair(password.as_bytes(), "ssh-kim-password-salt".as_bytes())
}

/// The password-based encryption key used for export and import.
pub fn get_password_encryption_key(password: &str) -> (k: Vec<u8>)
    ensures
        k@ == spec_password_key(password@),
        k@.len() == 32,
{
    derive_key_from_password(password)
}

} // verus!

//! An encrypted keystore for SSH key records.
//!
//! The store keeps an ordered collection of key records, persists it as a
//! single encrypted text file, and reconciles collections imported from
//! other stores. Encryption keys are derived either from a stable machine
//! identifier or from a user-supplied password.

use vstd::prelude::*;

pub mod cipher;
pub mod codec;
pub mod kdf;
pub mod records;
pub mod store;

verus! {

/// The error taxonomy of the keystore. Every fallible operation reports
/// one of these; none of them terminates the process.
#[derive(Debug, Clone, Copy, PartialEq, Eq, Structural)]
pub enum KeyStoreError {
    /// An operation targeted a record id that is not in the collection.
    NotFound,
    /// Adding or renaming would collide with an existing name
    /// (compared case-insensitively).
    DuplicateName,
    /// Adding or replacing key content would collide with an existing
    /// record's content (compared by trimmed exact match).
    DuplicateContent,
    /// The ciphertext could not be decrypted: bad base64, truncated data,
    /// or a block layout that no encryption could have produced.
    Decrypt,
    /// Decrypted bytes were not valid text, or the text was not a valid
    /// record serialization.
    Encoding,
}

impl KeyStoreError {
    /// A human-readable description of the error.
    pub fn message(&self) -> (r: String)
        ensures
            r@.len() > 0,
            self is NotFound ==> r@ == "Key not found"@,
            self is DuplicateName ==> r@ == "A key with this name already exists"@,
            self is DuplicateContent ==> r@ == "A key with this content already exists"@,
            self is Decrypt ==> r@ == "Failed to decrypt: wrong key or corrupted data"@,
            self is Encoding ==> r@ == "Failed to decode: malformed data"@,
    {
        let s = match self {
            KeyStoreError::NotFound => "Key not found",
            KeyStoreError::DuplicateName => "A key with this name already exists",
            KeyStoreError::DuplicateContent => "A key with this content already exists",
            KeyStoreError::Decrypt => "Failed to decrypt: wrong key or corrupted data",
            KeyStoreError::Encoding => "Failed to decode: malformed data",
        };
        proof {
            reveal_strlit("Key not found");
            reveal_strlit("A key with this name already exists");
            reveal_strlit("A key with this content already exists");
            reveal_strlit("Failed to decrypt: wrong key or corrupted data");
            reveal_strlit("Failed to decode: malformed data");
        }
        String::from_str(s)
    }
}

} // verus!

//! Block-cipher encryption and decryption with padding.
//!
//! Plaintext bytes are padded to a whole number of 16-byte blocks, each
//! block is enciphered independently under a 256-bit key, a fresh random
//! 16-byte initialization value is prepended unencrypted, and the result
//! is base64 text. Decryption reverses each step; the initialization
//! value is skipped, since blocks are never chained with it.

use vstd::prelude::*;
use aes::cipher::{BlockDecrypt, BlockEncrypt, KeyInit};
use aes::cipher::generic_array::GenericArray;
use base64::Engine;
use rand::Rng;
use crate::KeyStoreError;

verus! {

use vstd::utf8::{encode_utf8, decode_utf8, valid_utf8};

/// The block value that `aes::Aes256` encryption produces from `block`
/// under `key`.
pub uninterp spec fn aes256_enc(key: Seq<u8>, block: Seq<u8>) -> Seq<u8>;

/// The block value that `aes::Aes256` decryption produces from `block`
/// under `key`.
pub uninterp spec fn aes256_dec(key: Seq<u8>, block: Seq<u8>) -> Seq<u8>;

/// The base64 text that encodes `bytes`.
pub uninterp spec fn base64_of(bytes: Seq<u8>) -> Seq<char>;

/// Relies on `aes::Aes256` (`cipher::BlockEncrypt::encrypt_block`): a
/// deterministic permutation of 16-byte blocks keyed by a 32-byte key,
/// inverted by `cipher::BlockDecrypt::decrypt_block`.
#[verifier::external_body]
fn aes256_encrypt_block(key: &[u8], block: &[u8]) -> (r: Vec<u8>)
    requires
        key@.len() == 32,
        block@.len() == 16,
    ensures
        r@ == aes256_enc(key@, block@),
        aes256_dec(key@, r@) == block@,
        r@.len() == 16,
{
    let cipher = aes::Aes256::new_from_slice(key).unwrap();
    let mut b = GenericArray::clone_from_slice(block);
    cipher.encrypt_block(&mut b);
    b.to_vec()
}

/// Relies on `aes::Aes256` (`cipher::BlockDecrypt::decrypt_block`): the
/// inverse permutation of `cipher::BlockEncrypt::encrypt_block`.
#[verifier::external_body]
fn aes256_decrypt_block(key: &[u8], block: &[u8]) -> (r: Vec<u8>)
    requires
        key@.len() == 32,
        block@.len() == 16,
    ensures
        r@ == aes256_dec(key@, block@),
        aes256_enc(key@, r@) == block@,
        r@.len() == 16,
{
    let cipher = aes::Aes256::new_from_slice(key).unwrap();
    let mut b = GenericArray::clone_from_slice(block);
    cipher.decrypt_block(&mut b);
    b.to_vec()
}

/// Relies on `base64::engine::general_purpose::STANDARD.encode`: the
/// canonical padded base64 text of the input bytes.
#[verifier::external_body]
fn base64_encode(data: &[u8]) -> (r: String)
    ensures
        r@ == base64_of(data@),
{
    base64::engine::general_purpose::STANDARD.encode(data)
}

/// Relies on `base64::engine::general_purpose::STANDARD.decode`: it
/// succeeds exactly on canonical padded base64 text (the engine is
/// configured to reject non-canonical padding and trailing bits) and
/// returns the unique bytes whose encoding is the input.
#[verifier::external_body]
fn base64_decode(data: &str) -> (r: Option<Vec<u8>>)
    ensures
        r matches Some(d) ==> base64_of(d@) == data@ && (forall|x: Seq<u8>|
            base64_of(x) == data@ ==> x == d@),
        (exists|x: Seq<u8>| base64_of(x) == data@) ==> r is Some,
{
    base64::engine::general_purpose::STANDARD.decode(data).ok()
}

/// Relies on `rand::thread_rng` (`Rng::gen`): 16 bytes of which nothing
/// is assumed beyond their count.
#[verifier::external_body]
fn random_iv() -> (r: Vec<u8>)
    ensures
        r@.len() == 16,
{
    let iv: [u8; 16] = rand::thread_rng().gen();
    iv.to_vec()
}

/// Relies on `String::from_utf8`: it succeeds exactly on valid UTF-8 and
/// returns the text whose encoding is the input bytes.
#[verifier::external_body]
pub(crate) fn bytes_to_string(data: Vec<u8>) -> (r: Option<String>)
    ensures
        r matches Some(s) ==> encode_utf8(s@) == data@,
        valid_utf8(data@) ==> r is Some,
{
    String::from_utf8(data).ok()
}

/// How many padding bytes a plaintext of `n` bytes gains: always in
/// `1..=16`, and a full extra block when `n` is already block-aligned.
pub open spec fn pad_len(n: nat) -> nat {
    (16 - n % 16) as nat
}

/// PKCS#7-style padding: append `pad_len` copies of the pad count.
pub open spec fn pad16(data: Seq<u8>) -> Seq<u8> {
    data + Seq::new(pad_len(data.len()), |i: int| pad_len(data.len()) as u8)
}

/// Strip trailing padding, using the last byte as the pad count. A count
/// outside `1..=16` (or longer than the data) leaves the data unchanged:
/// a conservative no-op, never an error.
pub open spec fn unpad16(data: Seq<u8>) -> Seq<u8> {
    if data.len() > 0 && 1 <= data.last() <= 16 && data.last() <= data.len() {
        data.take(data.len() - data.last())
    } else {
        data
    }
}

/// Stripping padding recovers exactly what padding was applied to.
pub proof fn lemma_unpad_of_pad(data: Seq<u8>)
    ensures
        unpad16(pad16(data)) == data,
        pad16(data).len() == data.len() + pad_len(data.len()),
        pad16(data).len() % 16 == 0,
        1 <= pad_len(data.len()) <= 16,
{
    let p = pad_len(data.len());
    let padded = pad16(data);
    assert(padded.last() == p as u8);
    assert(unpad16(padded) =~= data);
}

/// Each 16-byte block of `data` enciphered independently under `key`.
pub open spec fn enc_blocks(key: Seq<u8>, data: Seq<u8>) -> Seq<u8>
    decreases data.len(),
{
    if data.len() < 16 {
        Seq::empty()
    } else {
        aes256_enc(key, data.take(16)) + enc_blocks(key, data.skip(16))
    }
}

/// Each 16-byte block of `data` deciphered independently under `key`.
pub open spec fn dec_blocks(key: Seq<u8>, data: Seq<u8>) -> Seq<u8>
    decreases data.len(),
{
    if data.len() < 16 {
        Seq::empty()
    } else {
        aes256_dec(key, data.take(16)) + dec_blocks(key, data.skip(16))
    }
}

proof fn lemma_enc_blocks_snoc(key: Seq<u8>, data: Seq<u8>, block: Seq<u8>)
    requires
        data.len() % 16 == 0,
        block.len() == 16,
    ensures
        enc_blocks(key, data + block) == enc_blocks(key, data) + aes256_enc(key, block),
    decreases data.len(),
{
    if data.len() == 0 {
        assert(data + block =~= block);
        assert(block.take(16) =~= block);
        assert(block.skip(16) =~= Seq::<u8>::empty());
        assert(enc_blocks(key, block.skip(16)) == Seq::<u8>::empty());
        assert(enc_blocks(key, block) == aes256_enc(key, block) + Seq::<u8>::empty());
        assert(aes256_enc(key, block) + Seq::<u8>::empty() =~= aes256_enc(key, block));
        assert(enc_blocks(key, data) + aes256_enc(key, block) =~= aes256_enc(key, block));
    } else {
        let whole = data + block;
        assert(whole.take(16) =~= data.take(16));
        assert(whole.skip(16) =~= data.skip(16) + block);
        lemma_enc_blocks_snoc(key, data.skip(16), block);
    }
}

proof fn lemma_dec_blocks_snoc(key: Seq<u8>, data: Seq<u8>, block: Seq<u8>)
    requires
        data.len() % 16 == 0,
        block.len() == 16,
    ensures
        dec_blocks(key, data + block) == dec_blocks(key, data) + aes256_dec(key, block),
    decreases data.len(),
{
    if data.len() == 0 {
        assert(data + block =~= block);
        assert(block.take(16) =~= block);
        assert(block.skip(16) =~= Seq::<u8>::empty());
        assert(dec_blocks(key, block.skip(16)) == Seq::<u8>::empty());
        assert(dec_blocks(key, block) == aes256_dec(key, block) + Seq::<u8>::empty());
        assert(aes256_dec(key, block) + Seq::<u8>::empty() =~= aes256_dec(key, block));
        assert(dec_blocks(key, data) + aes256_dec(key, block) =~= aes256_dec(key, block));
    } else {
        let whole = data + block;
        assert(whole.take(16) =~= data.take(16));
        assert(whole.skip(16) =~= data.skip(16) + block);
        lemma_dec_blocks_snoc(key, data.skip(16), block);
    }
}

/// Append PKCS#7-style padding to a copy of `data`.
fn pad_block(data: &[u8]) -> (r: Vec<u8>)
    requires
        data@.len() + 16 <= usize::MAX,
    ensures
        r@ == pad16(data@),
{
    let n = data.len();
    let p: u8 = (16 - (n % 16)) as u8;
    let mut r: Vec<u8> = Vec::new();
    r.extend_from_slice(data);
    assert(r@ =~= data@);
    let mut i: usize = 0;
    while i < p as usize
        invariant
            i <= p as usize,
            p == pad_len(data@.len()) as u8,
            r@ =~= data@ + Seq::new(i as nat, |j: int| p),
        decreases p as usize - i,
    {
        r.push(p);
        assert(r@ =~= data@ + Seq::new((i + 1) as nat, |j: int| p));
        i = i + 1;
    }
    assert(r@ =~= pad16(data@));
    r
}

/// Strip trailing padding in place, following `unpad16`.
fn unpad_block(data: Vec<u8>) -> (r: Vec<u8>)
    ensures
        r@ == unpad16(data@),
{
    let n = data.len();
    if n > 0 {
        let p = data[n - 1];
        if 1 <= p && p <= 16 && (p as usize) <= n {
            let mut r = data;
            r.truncate(n - p as usize);
            return r;
        }
    }
    data
}

/// Copy a byte vector.
pub(crate) fn copy_bytes(data: &Vec<u8>) -> (r: Vec<u8>)
    ensures
        r@ == data@,
{
    let mut r: Vec<u8> = Vec::new();
    let mut i: usize = 0;
    while i < data.len()
        invariant
            i <= data@.len(),
            r@ =~= data@.take(i as int),
        decreases data@.len() - i,
    {
        r.push(data[i]);
        assert(r@ =~= data@.take((i + 1) as int));
        i = i + 1;
    }
    proof {
        assert(data@.take(data@.len() as int) =~= data@);
    }
    r
}

/// Copy `data[from..to]` into a fresh vector.
pub(crate) fn subvec(data: &Vec<u8>, from: usize, to: usize) -> (r: Vec<u8>)
    requires
        from <= to <= data@.len(),
    ensures
        r@ == data@.subrange(from as int, to as int),
{
    let mut r: Vec<u8> = Vec::new();
    let mut i: usize = from;
    while i < to
        invariant
            from <= i <= to <= data@.len(),
            r@ =~= data@.subrange(from as int, i as int),
        decreases to - i,
    {
        r.push(data[i]);
        assert(r@ =~= data@.subrange(from as int, (i + 1) as int));
        i = i + 1;
    }
    r
}

/// Encipher `padded` block by block under `key`. The second clause
/// records that deciphering the output recovers the input, which is what
/// decryption later relies on.
fn encrypt_blocks(key: &Vec<u8>, padded: &Vec<u8>) -> (r: Vec<u8>)
    requires
        key@.len() == 32,
        padded@.len() % 16 == 0,
    ensures
        r@ == enc_blocks(key@, padded@),
        dec_blocks(key@, r@) == padded@,
        r@.len() == padded@.len(),
{
    let n = padded.len();
    let mut r: Vec<u8> = Vec::new();
    let mut i: usize = 0;
    while i < n
        invariant
            i <= n,
            n == padded@.len(),
            n % 16 == 0,
            i % 16 == 0,
            key@.len() == 32,
            r@ == enc_blocks(key@, padded@.take(i as int)),
            dec_blocks(key@, r@) == padded@.take(i as int),
            r@.len() == i,
        decreases n - i,
    {
        let chunk = subvec(padded, i, i + 16);
        let mut enc = aes256_encrypt_block(key.as_slice(), chunk.as_slice());
        proof {
            lemma_enc_blocks_snoc(key@, padded@.take(i as int), chunk@);
            lemma_dec_blocks_snoc(key@, r@, enc@);
            assert(padded@.take(i as int) + chunk@ =~= padded@.take(i + 16));
        }
        r.append(&mut enc);
        i = i + 16;
    }
    proof {
        assert(padded@.take(n as int) =~= padded@);
    }
    r
}

/// Decipher `data` block by block under `key`.
fn decrypt_blocks(key: &Vec<u8>, data: &Vec<u8>) -> (r: Vec<u8>)
    requires
        key@.len() == 32,
        data@.len() % 16 == 0,
    ensures
        r@ == dec_blocks(key@, data@),
        r@.len() == data@.len(),
{
    let n = data.len();
    let mut r: Vec<u8> = Vec::new();
    let mut i: usize = 0;
    while i < n
        invariant
            i <= n,
            n == data@.len(),
            n % 16 == 0,
            i % 16 == 0,
            key@.len() == 32,
            r@ == dec_blocks(key@, data@.take(i as int)),
            r@.len() == i,
        decreases n - i,
    {
        let chunk = subvec(data, i, i + 16);
        let mut dec = aes256_decrypt_block(key.as_slice(), chunk.as_slice());
        proof {
            lemma_dec_blocks_snoc(key@, data@.take(i as int), chunk@);
            assert(data@.take(i as int) + chunk@ =~= data@.take(i + 16));
        }
        r.append(&mut dec);
        i = i + 16;
    }
    proof {
        assert(data@.take(n as int) =~= data@);
    }
    r
}

/// What the ciphertext of `plain` under `key` with initialization value
/// `iv` looks like, together with the recorded fact that deciphering the
/// blocks gives the padded plaintext back.
pub open spec fn sealed_bytes(key: Seq<u8>, iv: Seq<u8>, plain: Seq<u8>, ct: Seq<char>) -> bool {
    &&& iv.len() == 16
    &&& ct == base64_of(iv + enc_blocks(key, pad16(plain)))
    &&& enc_blocks(key, pad16(plain)).len() == pad16(plain).len()
    &&& dec_blocks(key, enc_blocks(key, pad16(plain))) == pad16(plain)
}

/// Encrypt `data` under the 256-bit `key`: pad, encipher each block,
/// prepend a fresh random initialization value, and encode as base64.
pub fn encrypt_bytes(data: &[u8], key: &Vec<u8>) -> (r: String)
    requires
        key@.len() == 32,
        data@.len() + 16 <= usize::MAX,
    ensures
        exists|iv: Seq<u8>| sealed_bytes(key@, iv, data@, r@),
{
    let padded = pad_block(data);
    proof {
        lemma_unpad_of_pad(data@);
    }
    let mut out = random_iv();
    let ghost iv = out@;
    let mut enc = encrypt_blocks(key, &padded);
    out.append(&mut enc);
    proof {
        assert(out@ =~= iv + enc_blocks(key@, pad16(data@)));
    }
    let r = base64_encode(out.as_slice());
    proof {
        assert(sealed_bytes(key@, iv, data@, r@));
    }
    r
}

/// Decrypt base64 `ct` under `key`: decode, check the layout, decipher
/// the blocks after the 16-byte initialization value, strip padding.
///
/// The final clause is the round-trip law: any ciphertext that
/// `encrypt_bytes` produced for `plain` under this key decrypts to
/// `plain` exactly.
pub fn decrypt_bytes(ct: &str, key: &Vec<u8>) -> (r: Result<Vec<u8>, KeyStoreError>)
    requires
        key@.len() == 32,
    ensures
        r matches Ok(p) ==> exists|d: Seq<u8>|
            base64_of(d) == ct@ && d.len() >= 16 && (d.len() - 16) % 16 == 0
                && p@ == unpad16(dec_blocks(key@, d.skip(16))),
        forall|d: Seq<u8>|
            base64_of(d) == ct@ && d.len() >= 16 && (d.len() - 16) % 16 == 0
                ==> (r matches Ok(p) && p@ == unpad16(dec_blocks(key@, d.skip(16)))),
        forall|d: Seq<u8>|
            base64_of(d) == ct@ && !(d.len() >= 16 && (d.len() - 16) % 16 == 0)
                ==> r == Err::<Vec<u8>, KeyStoreError>(KeyStoreError::Decrypt),
        r is Err ==> r == Err::<Vec<u8>, KeyStoreError>(KeyStoreError::Decrypt),
        forall|plain: Seq<u8>, iv: Seq<u8>|
            sealed_bytes(key@, iv, plain, ct@) ==> (r matches Ok(p) && p@ == plain),
    {
    match base64_decode(ct) {
        None => {
            proof {
                assert forall|plain: Seq<u8>, iv: Seq<u8>|
                    !sealed_bytes(key@, iv, plain, ct@) by {
                    if sealed_bytes(key@, iv, plain, ct@) {
                        assert(base64_of(iv + enc_blocks(key@, pad16(plain))) == ct@);
                    }
                }
            }
            Err(KeyStoreError::Decrypt)
        },
        Some(d) => {
            let n = d.len();
            if n < 16 || (n - 16) % 16 != 0 {
                proof {
                    assert forall|plain: Seq<u8>, iv: Seq<u8>|
                        !sealed_bytes(key@, iv, plain, ct@) by {
                        if sealed_bytes(key@, iv, plain, ct@) {
                            lemma_unpad_of_pad(plain);
                            let sealed = iv + enc_blocks(key@, pad16(plain));
                            assert(base64_of(sealed) == ct@);
                            assert(sealed == d@);
                        }
                    }
                }
                return Err(KeyStoreError::Decrypt);
            }
            let body = subvec(&d, 16, n);
            proof {
                assert(body@ =~= d@.skip(16));
            }
            let dec = decrypt_blocks(key, &body);
            let out = unpad_block(dec);
            proof {
                assert forall|plain: Seq<u8>, iv: Seq<u8>|
                    sealed_bytes(key@, iv, plain, ct@) implies out@ == plain by {
                    let sealed = iv + enc_blocks(key@, pad16(plain));
                    lemma_unpad_of_pad(plain);
                    assert(sealed == d@);
                    assert(sealed.skip(16) =~= enc_blocks(key@, pad16(plain)));
                }
            }
            Ok(out)
        },
    }
}

/// Encrypt the UTF-8 bytes of `data` under `key`.
pub fn encrypt_data(data: &str, key: &Vec<u8>) -> (r: String)
    requires
        key@.len() == 32,
        encode_utf8(data@).len() + 16 <= usize::MAX,
    ensures
        exists|iv: Seq<u8>| sealed_bytes(key@, iv, encode_utf8(data@), r@),
{
    encrypt_bytes(data.as_bytes(), key)
}

/// Decrypt base64 `ct` under `key` and convert the plaintext to text.
///
/// The final clause is the round-trip law: any ciphertext that
/// `encrypt_data` produced for the text `plain` under this key decrypts
/// to `plain` exactly.
pub fn decrypt_data(ct: &str, key: &Vec<u8>) -> (r: Result<String, KeyStoreError>)
    requires
        key@.len() == 32,
    ensures
        r matches Ok(s) ==> exists|d: Seq<u8>|
            base64_of(d) == ct@ && d.len() >= 16 && (d.len() - 16) % 16 == 0
                && encode_utf8(s@) == unpad16(dec_blocks(key@, d.skip(16))),
        forall|d: Seq<u8>|
            base64_of(d) == ct@ && d.len() >= 16 && (d.len() - 16) % 16 == 0
                && valid_utf8(unpad16(dec_blocks(key@, d.skip(16))))
                ==> (r matches Ok(s) && s@ == decode_utf8(unpad16(dec_blocks(key@, d.skip(16))))),
        forall|d: Seq<u8>|
            base64_of(d) == ct@ && d.len() >= 16 && (d.len() - 16) % 16 == 0
                && !valid_utf8(unpad16(dec_blocks(key@, d.skip(16))))
                ==> r == Err::<String, KeyStoreError>(KeyStoreError::Encoding),
        forall|d: Seq<u8>|
            base64_of(d) == ct@ && !(d.len() >= 16 && (d.len() - 16) % 16 == 0)
                ==> r == Err::<String, KeyStoreError>(KeyStoreError::Decrypt),
        r is Err ==> (r == Err::<String, KeyStoreError>(KeyStoreError::Decrypt)
            || r == Err::<String, KeyStoreError>(KeyStoreError::Encoding)),
        forall|plain: Seq<char>, iv: Seq<u8>|
            sealed_bytes(key@, iv, encode_utf8(plain), ct@) ==> (r matches Ok(s) && s@ == plain),
{
    broadcast use vstd::utf8::encode_utf8_valid_utf8;
    broadcast use vstd::utf8::encode_utf8_decode_utf8;

    match decrypt_bytes(ct, key) {
        Err(e) => Err(e),
        Ok(p) => {
            let ghost pv = p@;
            match bytes_to_string(p) {
                None => Err(KeyStoreError::Encoding),
                Some(s) => {
                    proof {
                        assert forall|plain: Seq<char>, iv: Seq<u8>|
                            sealed_bytes(key@, iv, encode_utf8(plain), ct@) implies s@ == plain by {
                            assert(pv == encode_utf8(plain));
                            assert(decode_utf8(encode_utf8(plain)) == plain);
                            assert(decode_utf8(encode_utf8(s@)) == s@);
                        }
                    }
                    Ok(s)
                },
            }
        },
    }
}

} // verus!

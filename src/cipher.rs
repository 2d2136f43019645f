//! The cipher adapter: AES-128 in CBC mode with PKCS#7 padding, keyed by the
//! MD5 digest of an arbitrary byte string (the digest serves as key and IV).

use aes::cipher::block_padding::Pkcs7;
use aes::cipher::{BlockDecryptMut, BlockEncryptMut, KeyIvInit};
use vstd::prelude::*;

verus! {

/// The MD5 digest of `data`.
pub uninterp spec fn md5_of(data: Seq<u8>) -> Seq<u8>;

/// AES-128-CBC encryption of `data`, PKCS#7-padded, under `key` and `iv`.
pub uninterp spec fn cbc_encrypt_of(key: Seq<u8>, iv: Seq<u8>, data: Seq<u8>) -> Seq<u8>;

/// AES-128-CBC decryption of `data` under `key` and `iv`, then PKCS#7 unpadding;
/// `None` where the input is not whole blocks or the padding is malformed.
pub uninterp spec fn cbc_decrypt_of(key: Seq<u8>, iv: Seq<u8>, data: Seq<u8>) -> Option<Seq<u8>>;

/// Relies on `md5::compute`: the 16-byte digest depends on the input alone.
#[verifier::external_body]
fn md5_digest(data: &[u8]) -> (r: [u8; 16])
    ensures
        r@ == md5_of(data@),
{
    md5::compute(data).0
}

/// Relies on `cbc::Encryptor::<aes::Aes128Enc>` and `encrypt_padded_vec_mut::<Pkcs7>`:
/// deterministic for a given key and IV, and undone by the matching decryption.
#[verifier::external_body]
fn cbc_encrypt(key: &[u8; 16], iv: &[u8; 16], data: &[u8]) -> (r: Vec<u8>)
    ensures
        r@ == cbc_encrypt_of(key@, iv@, data@),
        cbc_decrypt_of(key@, iv@, r@) == Some(data@),
{
    cbc::Encryptor::<aes::Aes128Enc>::new(&(*key).into(), &(*iv).into())
        .encrypt_padded_vec_mut::<Pkcs7>(data)
}

/// Relies on `cbc::Decryptor::<aes::Aes128Dec>` and `decrypt_padded_vec_mut::<Pkcs7>`:
/// an `UnpadError` (malformed padding or partial block) becomes `None`.
#[verifier::external_body]
fn cbc_decrypt(key: &[u8; 16], iv: &[u8; 16], data: &[u8]) -> (r: Option<Vec<u8>>)
    ensures
        match r {
            Some(v) => cbc_decrypt_of(key@, iv@, data@) == Some(v@),
            None => cbc_decrypt_of(key@, iv@, data@) is None,
        },
{
    cbc::Decryptor::<aes::Aes128Dec>::new(&(*key).into(), &(*iv).into())
        .decrypt_padded_vec_mut::<Pkcs7>(data)
        .ok()
}

/// The ciphertext of `data` under the key derived from `code`: the MD5 digest of
/// `code` is used both as the AES key and as the CBC initialisation vector.
pub open spec fn seal(code: Seq<u8>, data: Seq<u8>) -> Seq<u8> {
    cbc_encrypt_of(md5_of(code), md5_of(code), data)
}

/// What decrypting `data` under the key derived from `code` yields; `None`
/// signals a padding failure, i.e. the wrong key.
pub open spec fn unseal(code: Seq<u8>, data: Seq<u8>) -> Option<Seq<u8>> {
    cbc_decrypt_of(md5_of(code), md5_of(code), data)
}

/// AES-128, CBC mode, PKCS#7 padding; key and IV are both `md5(code)`.
pub struct ImageLockCore;

impl ImageLockCore {
    /// Encrypts `source` under the key derived from `password`.
    pub fn encrypt(source: &[u8], password: &[u8]) -> (r: Vec<u8>)
        ensures
            r@ == seal(password@, source@),
            unseal(password@, r@) == Some(source@),
    {
        let code = md5_digest(password);
        cbc_encrypt(&code, &code, source)
    }

    /// Decrypts `source` under the key derived from `password`; `None` when the
    /// padding is invalid after decryption.
    pub fn decrypt(source: &[u8], password: &[u8]) -> (r: Option<Vec<u8>>)
        ensures
            match r {
                Some(v) => unseal(password@, source@) == Some(v@),
                None => unseal(password@, source@) is None,
            },
    {
        let code = md5_digest(password);
        cbc_decrypt(&code, &code, source)
    }
}

} // verus!

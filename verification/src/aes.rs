//! Key-unwrap plus payload decryption. The input carries, at fixed
//! offsets, a key-encryption key, a wrap IV, wrapped key material, a
//! payload IV and a ciphertext; the wrapped material unwraps to the content
//! key, which then decrypts the payload in CBC mode.

use vstd::prelude::*;
use vstd::slice::slice_subrange;
use crate::Error;

verus! {

/// What AES key unwrap yields for a key-encryption key, a wrap IV and
/// wrapped key material: the unwrapped key, or nothing when the wrap's
/// embedded integrity check fails. A function of its arguments alone.
pub uninterp spec fn aes_unwrap(kek: Seq<u8>, iv: Seq<u8>, wrapped: Seq<u8>) -> Option<Seq<u8>>;

/// What AES-256-CBC decryption with standard padding yields for a key, an
/// IV and a ciphertext: the plaintext, or nothing when the cipher rejects
/// the input (bad padding). A function of its arguments alone.
pub uninterp spec fn aes_cbc_plain(key: Seq<u8>, iv: Seq<u8>, data: Seq<u8>) -> Option<Seq<u8>>;

/// Relies on openssl's aes::unwrap_key, with aes::AesKey::new_decrypt
/// preparing the key schedule from the raw key-encryption key: 40 wrapped
/// bytes unwrap to the 32-byte key they were wrapped from, and the call
/// fails exactly when the wrap's integrity check fails.
#[verifier::external_body]
fn unwrap_key_call(kek: &[u8], iv: &[u8], wrapped: &[u8]) -> (r: Option<Vec<u8>>)
    requires
        kek@.len() == 32,
        iv@.len() == 8,
        wrapped@.len() == 40,
    ensures
        r is Some <==> aes_unwrap(kek@, iv@, wrapped@) is Some,
        r matches Some(k) ==> aes_unwrap(kek@, iv@, wrapped@) == Some(k@) && k@.len() == 32,
{
    let key = match openssl::aes::AesKey::new_decrypt(kek) {
        Ok(k) => k,
        Err(_) => return None,
    };
    let mut ivb = [0u8; 8];
    ivb.copy_from_slice(iv);
    let mut out = [0u8; 32];
    match openssl::aes::unwrap_key(&key, Some(ivb), &mut out, wrapped) {
        Ok(_) => Some(out.to_vec()),
        Err(_) => None,
    }
}

/// Relies on openssl's symm::decrypt with Cipher::aes_256_cbc: AES-256-CBC
/// decryption with standard padding removal, failing exactly when the
/// cipher rejects the input.
#[verifier::external_body]
fn cbc_decrypt_call(key: &[u8], iv: &[u8], data: &[u8]) -> (r: Option<Vec<u8>>)
    requires
        key@.len() == 32,
        iv@.len() == 16,
    ensures
        r is Some <==> aes_cbc_plain(key@, iv@, data@) is Some,
        r matches Some(p) ==> aes_cbc_plain(key@, iv@, data@) == Some(p@),
{
    openssl::symm::decrypt(openssl::symm::Cipher::aes_256_cbc(), key, Some(iv), data).ok()
}

/// The fixed input layout and what the transform yields for it: bytes 0-31
/// are the key-encryption key, 32-39 the wrap IV, 40-79 the wrapped key,
/// 80-95 the payload IV, and the rest the ciphertext.
pub open spec fn aes_cbc_spec(input: Seq<u8>) -> Result<Seq<u8>, Error> {
    if input.len() < 96 {
        Err(Error::TruncatedInput)
    } else {
        match aes_unwrap(input.subrange(0, 32), input.subrange(32, 40), input.subrange(40, 80)) {
            None => Err(Error::CryptoUnwrapFailed),
            Some(key) => match aes_cbc_plain(key, input.subrange(80, 96), input.skip(96)) {
                None => Err(Error::CryptoDecryptFailed),
                Some(p) => Ok(p),
            },
        }
    }
}

/// Splits the fixed layout, unwraps the content key, and decrypts the
/// payload with it; each cryptographic failure is fatal and named.
pub fn aes_cbc(input: Vec<u8>) -> (r: Result<Vec<u8>, Error>)
    ensures
        ({
            let sr = aes_cbc_spec(input@);
            match r {
                Ok(v) => sr == Ok::<Seq<u8>, Error>(v@),
                Err(e) => sr == Err::<Seq<u8>, Error>(e),
            }
        }),
{
    if input.len() < 96 {
        return Err(Error::TruncatedInput);
    }
    let kek = slice_subrange(input.as_slice(), 0, 32);
    let iv = slice_subrange(input.as_slice(), 32, 40);
    let wrapped = slice_subrange(input.as_slice(), 40, 80);
    let payload_iv = slice_subrange(input.as_slice(), 80, 96);
    let payload = slice_subrange(input.as_slice(), 96, input.len());
    proof {
        assert(payload@ =~= input@.skip(96));
    }
    let key = match unwrap_key_call(kek, iv, wrapped) {
        Some(k) => k,
        None => {
            return Err(Error::CryptoUnwrapFailed);
        },
    };
    match cbc_decrypt_call(key.as_slice(), payload_iv, payload) {
        Some(p) => Ok(p),
        None => Err(Error::CryptoDecryptFailed),
    }
}

} // verus!

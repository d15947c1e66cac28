//! The two ciphers of the archive, taken from the `openssl` and `aes`
//! crates.
//!
//! No function of this module is proved. Each hands plain bytes to the
//! outside crate and plain bytes back, and its contract gives the result a
//! name; the rest of the library is verified against these names.

use vstd::prelude::*;
use aes::cipher::generic_array::GenericArray;
use aes::cipher::{BlockDecrypt, KeyInit};
use aes::Aes128;
use openssl::bn::BigNum;
use openssl::error::ErrorStack;
use openssl::rsa::{Padding, Rsa};

verus! {

/// The error list of the `openssl` crate, carried through unread.
#[verifier::external_type_specification]
#[verifier::external_body]
pub struct ExErrorStack(ErrorStack);

/// An RSA public key: modulus and public exponent, each as the big-endian
/// bytes of the number.
#[derive(Debug, Clone, PartialEq, Eq)]
pub struct PublicKey {
    pub modulus: Vec<u8>,
    pub exponent: Vec<u8>,
}

/// The key that `openssl` reads from a PEM-encoded PKCS#1 `RSAPublicKey`:
/// its modulus and its public exponent as big-endian bytes, or `None` where
/// `openssl` does not accept the text.
pub uninterp spec fn pem_public_key(pem: Seq<u8>) -> Option<(Seq<u8>, Seq<u8>)>;

/// What `openssl` makes of one block under the public key with the given
/// big-endian modulus and exponent, with no padding scheme, or `None` where
/// it reports an error.
pub uninterp spec fn rsa_public_decrypt(
    modulus: Seq<u8>,
    exponent: Seq<u8>,
    block: Seq<u8>,
) -> Option<Seq<u8>>;

/// What the `aes` crate's AES-128 makes of one 16-byte block when it
/// decrypts it under a 16-byte key.
pub uninterp spec fn aes128_decrypt_block(key: Seq<u8>, block: Seq<u8>) -> Seq<u8>;

/// The header field with which a PEM text announces that what follows is
/// encrypted under a passphrase: `Proc-Type:`.
pub const PASSPHRASE_FIELD: [u8; 10] = [0x50, 0x72, 0x6f, 0x63, 0x2d, 0x54, 0x79, 0x70, 0x65, 0x3a];

/// Whether `pem` holds the field [`PASSPHRASE_FIELD`] at offset `at`.
pub open spec fn passphrase_field_at(pem: Seq<u8>, at: int) -> bool {
    0 <= at && at + 10 <= pem.len() && pem.subrange(at, at + 10) == PASSPHRASE_FIELD@
}

/// Whether `pem` holds the field [`PASSPHRASE_FIELD`] anywhere. A public
/// key has no use for a passphrase; a text that announces one is not read.
pub open spec fn asks_for_passphrase(pem: Seq<u8>) -> bool {
    exists|at: int| passphrase_field_at(pem, at)
}

/// Calls `Rsa::public_key_from_pem_pkcs1` and copies the modulus and the
/// exponent out of the key with `BigNumRef::to_vec`.
///
/// Claims that whether the text is accepted, and the key that comes out,
/// depend on the text alone. For a text that announces a passphrase
/// `openssl` would ask the terminal, and on a text longer than `i32::MAX`
/// bytes it panics: the precondition rules both out.
#[verifier::external_body]
pub(crate) fn parse_public_key(pem: &[u8]) -> (res: Result<PublicKey, ErrorStack>)
    requires
        pem@.len() <= i32::MAX,
        !asks_for_passphrase(pem@),
    ensures
        match res {
            Ok(key) => pem_public_key(pem@) == Some((key.modulus@, key.exponent@)),
            Err(_) => pem_public_key(pem@) is None,
        },
{
    let rsa = Rsa::public_key_from_pem_pkcs1(pem)?;
    Ok(PublicKey { modulus: rsa.n().to_vec(), exponent: rsa.e().to_vec() })
}

/// Rebuilds the key with `BigNum::from_slice` and
/// `Rsa::from_public_components`, then calls `Rsa::public_decrypt` with
/// `Padding::NONE` on a buffer of `Rsa::size` bytes and returns as many
/// bytes of it as the call says it has written.
///
/// Claims that whether `openssl` reports an error, and the bytes that it
/// writes, depend on the key and the block alone. Nothing is claimed of the
/// length of the result. `openssl` panics on a number or a block longer
/// than `i32::MAX` bytes, which the precondition rules out, as it does a
/// key without modulus.
#[verifier::external_body]
pub(crate) fn public_decrypt_raw(key: &PublicKey, block: &[u8]) -> (res: Result<
    Vec<u8>,
    ErrorStack,
>)
    requires
        0 < key.modulus@.len() <= i32::MAX,
        key.exponent@.len() <= i32::MAX,
        block@.len() <= i32::MAX,
    ensures
        match res {
            Ok(plain) => rsa_public_decrypt(key.modulus@, key.exponent@, block@) == Some(plain@),
            Err(_) => rsa_public_decrypt(key.modulus@, key.exponent@, block@) is None,
        },
{
    let modulus = BigNum::from_slice(&key.modulus)?;
    let exponent = BigNum::from_slice(&key.exponent)?;
    let rsa = Rsa::from_public_components(modulus, exponent)?;
    let mut plain = vec![0u8; rsa.size() as usize];
    let written = rsa.public_decrypt(block, &mut plain, Padding::NONE)?;
    plain.truncate(written);
    Ok(plain)
}

/// Calls `Aes128::new` on the key and `BlockDecrypt::decrypt_block` on a
/// copy of the block.
///
/// Claims that the result depends on the key and the block alone.
#[verifier::external_body]
pub(crate) fn aes128_decrypt(key: &[u8; 16], block: &[u8; 16]) -> (plain: [u8; 16])
    ensures
        plain@ == aes128_decrypt_block(key@, block@),
{
    let cipher = Aes128::new(GenericArray::from_slice(key));
    let mut plain = *block;
    cipher.decrypt_block(GenericArray::from_mut_slice(&mut plain));
    plain
}

} // verus!

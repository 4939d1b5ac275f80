//! Key derivation (Argon2id), authenticated encryption (AES-256-GCM), randomness.
use aes_gcm::aead::{Aead, KeyInit, Payload};
use aes_gcm::{Aes256Gcm, Nonce};
use argon2::Argon2;
use rand::RngCore;
use vstd::prelude::*;
use vstd::utf8::encode_utf8;
use zeroize::Zeroize;

verus! {

/// Length of the salt that the passphrase is stretched with.
pub const SALT_LEN: usize = 16;

/// Length of a key: the key-encryption key and the data-encryption key.
pub const KEY_LEN: usize = 32;

/// Length of an AES-GCM nonce.
pub const NONCE_LEN: usize = 12;

/// Length of the authentication tag that sealing appends.
pub const TAG_LEN: usize = 16;

/// The largest plaintext or associated data that AES-GCM accepts (2^36 bytes).
pub const MAX_SEALED_LEN: u64 = 0x10_0000_0000;

/// The `len`-byte output that Argon2id with the crate's default parameters
/// (`Argon2::default()`) derives from the passphrase's UTF-8 bytes and the salt.
pub uninterp spec fn argon2id_output(passphrase: Seq<char>, salt: Seq<u8>, len: nat) -> Seq<u8>;

/// The key-encryption key for a passphrase and salt: `KEY_LEN` bytes of Argon2id.
pub open spec fn argon2id_key(passphrase: Seq<char>, salt: Seq<u8>) -> Seq<u8> {
    argon2id_output(passphrase, salt, KEY_LEN as nat)
}

/// The ciphertext (with its tag appended) that AES-256-GCM produces for `plaintext`
/// under `key`, `nonce` and associated data `aad`.
pub uninterp spec fn aes256gcm_seal(key: Seq<u8>, nonce: Seq<u8>, plaintext: Seq<u8>, aad: Seq<u8>) -> Seq<u8>;

/// The plaintext that AES-256-GCM recovers from `ciphertext` under `key`, `nonce` and
/// `aad`; `None` when the tag does not authenticate.
pub uninterp spec fn aes256gcm_open(key: Seq<u8>, nonce: Seq<u8>, ciphertext: Seq<u8>, aad: Seq<u8>) -> Option<Seq<u8>>;

/// What `open` gives: nothing for a key or nonce of the wrong length, else what
/// AES-256-GCM recovers.
pub open spec fn open_spec(key: Seq<u8>, nonce: Seq<u8>, ciphertext: Seq<u8>, aad: Seq<u8>) -> Option<Seq<u8>> {
    if key.len() == KEY_LEN && nonce.len() == NONCE_LEN {
        aes256gcm_open(key, nonce, ciphertext, aad)
    } else {
        None
    }
}

/// `len` bytes from the operating system's generator (`rand::rngs::OsRng` through
/// `RngCore::try_fill_bytes`), or `None` where the generator reports an error.
///
/// Trusted: bytes that come back number `len`. The bytes themselves are chance, and
/// when the generator fails is left unsaid.
#[verifier::external_body]
pub fn random(len: usize) -> (bytes: Option<Vec<u8>>)
    ensures
        bytes matches Some(b) ==> b@.len() == len,
{
    let mut bytes = vec![0u8; len];
    match rand::rngs::OsRng.try_fill_bytes(&mut bytes) {
        Ok(()) => Some(bytes),
        Err(_) => None,
    }
}

/// Argon2id with the crate's default parameters, into a buffer of `len` bytes
/// (`Argon2::default().hash_password_into`).
///
/// Trusted: the output is `argon2id_output(passphrase, salt, len)` and has `len` bytes.
/// The crate refuses a password over `u32::MAX` bytes, a salt shorter than 8 or longer
/// than `u32::MAX` bytes, and an output shorter than 4 or longer than `u32::MAX` bytes,
/// which `requires` leaves out.
#[verifier::external_body]
fn argon2id(passphrase: &str, salt: &[u8], len: usize) -> (out: Vec<u8>)
    requires
        encode_utf8(passphrase@).len() <= 0xFFFF_FFFF,
        8 <= salt@.len() <= 0xFFFF_FFFF,
        4 <= len <= 0xFFFF_FFFF,
    ensures
        out@ == argon2id_output(passphrase@, salt@, len as nat),
        out@.len() == len,
{
    let mut out = vec![0u8; len];
    Argon2::default().hash_password_into(passphrase.as_bytes(), salt, &mut out).expect("argon2 inputs within limits");
    out
}

/// Stretches the passphrase into a `KEY_LEN`-byte key with Argon2id and the salt.
pub fn derive_key(passphrase: &str, salt: &[u8]) -> (key: Vec<u8>)
    requires
        encode_utf8(passphrase@).len() <= 0xFFFF_FFFF,
        8 <= salt@.len() <= 0xFFFF_FFFF,
    ensures
        key@ == argon2id_key(passphrase@, salt@),
        key@.len() == KEY_LEN,
{
    argon2id(passphrase, salt, KEY_LEN)
}

/// AES-256-GCM encryption (`Aes256Gcm::encrypt` with a `Payload` of message and
/// associated data).
///
/// Trusted: the ciphertext is `aes256gcm_seal(..)` of the arguments, is the plaintext
/// plus a `TAG_LEN`-byte tag, and decrypts under the same key, nonce and associated data
/// to the plaintext. The crate refuses inputs longer than 2^36 bytes, left out by `requires`.
#[verifier::external_body]
fn encrypt(key: &[u8], nonce: &[u8], plaintext: &[u8], aad: &[u8]) -> (ciphertext: Vec<u8>)
    requires
        key@.len() == KEY_LEN,
        nonce@.len() == NONCE_LEN,
        plaintext@.len() <= MAX_SEALED_LEN,
        aad@.len() <= MAX_SEALED_LEN,
    ensures
        ciphertext@ == aes256gcm_seal(key@, nonce@, plaintext@, aad@),
        ciphertext@.len() == plaintext@.len() + TAG_LEN,
        aes256gcm_open(key@, nonce@, ciphertext@, aad@) == Some(plaintext@),
{
    let cipher = Aes256Gcm::new_from_slice(key).expect("key length is KEY_LEN");
    cipher.encrypt(Nonce::from_slice(nonce), Payload { msg: plaintext, aad }).expect("input within limits")
}

/// AES-256-GCM decryption (`Aes256Gcm::decrypt`); `None` when the tag does not verify.
///
/// Trusted: the result is `aes256gcm_open(..)` of the arguments.
#[verifier::external_body]
fn decrypt(key: &[u8], nonce: &[u8], ciphertext: &[u8], aad: &[u8]) -> (plaintext: Option<Vec<u8>>)
    requires
        key@.len() == KEY_LEN,
        nonce@.len() == NONCE_LEN,
    ensures
        match plaintext {
            Some(p) => aes256gcm_open(key@, nonce@, ciphertext@, aad@) == Some(p@),
            None => aes256gcm_open(key@, nonce@, ciphertext@, aad@) is None,
        },
{
    let cipher = Aes256Gcm::new_from_slice(key).expect("key length is KEY_LEN");
    cipher.decrypt(Nonce::from_slice(nonce), Payload { msg: ciphertext, aad }).ok()
}

/// Overwrites a buffer that held key material with zeros and empties it
/// (`zeroize::Zeroize::zeroize` on `Vec<u8>`).
///
/// Trusted: the buffer is empty afterwards.
#[verifier::external_body]
pub(crate) fn wipe(bytes: &mut Vec<u8>)
    ensures
        final(bytes)@.len() == 0,
{
    bytes.zeroize();
}

/// Seals `plaintext` under `key` with a fresh random nonce, binding it to `aad`.
/// Returns the nonce and the ciphertext, whose opening with the same key and `aad`
/// gives the plaintext back; `None` where no random nonce could be drawn.
pub fn seal(key: &[u8], plaintext: &[u8], aad: &[u8]) -> (sealed: Option<(Vec<u8>, Vec<u8>)>)
    requires
        key@.len() == KEY_LEN,
        plaintext@.len() <= MAX_SEALED_LEN,
        aad@.len() <= MAX_SEALED_LEN,
    ensures
        sealed matches Some((nonce, ct)) ==> {
            &&& nonce@.len() == NONCE_LEN
            &&& ct@ == aes256gcm_seal(key@, nonce@, plaintext@, aad@)
            &&& ct@.len() == plaintext@.len() + TAG_LEN
            &&& open_spec(key@, nonce@, ct@, aad@) == Some(plaintext@)
        },
{
    let nonce = match random(NONCE_LEN) {
        Some(n) => n,
        None => return None,
    };
    let ciphertext = encrypt(key, nonce.as_slice(), plaintext, aad);
    Some((nonce, ciphertext))
}

/// Opens what `seal` produced: the plaintext, or `None` when the key or nonce has the
/// wrong length or the ciphertext does not authenticate under `key` and `aad`.
pub fn open(key: &[u8], nonce: &[u8], ciphertext: &[u8], aad: &[u8]) -> (plaintext: Option<Vec<u8>>)
    ensures
        match plaintext {
            Some(p) => open_spec(key@, nonce@, ciphertext@, aad@) == Some(p@),
            None => open_spec(key@, nonce@, ciphertext@, aad@) is None,
        },
{
    if key.len() != KEY_LEN || nonce.len() != NONCE_LEN {
        return None;
    }
    decrypt(key, nonce, ciphertext, aad)
}

} // verus!

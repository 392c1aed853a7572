//! Key derivation and authenticated encryption.
//!
//! A symmetric key is derived from the master password and the per-vault
//! salt with Argon2id; the vault payload is sealed and opened with
//! XChaCha20-Poly1305 under a fresh random 24-byte nonce per encryption.
//! Wrong key, tampering and corruption all fail the same way.

use vstd::prelude::*;
use vstd::utf8::encode_utf8;
use crate::VaultError;
use chacha20poly1305::aead::Aead;
use chacha20poly1305::aead::KeyInit;
use chacha20poly1305::Key;
use chacha20poly1305::XChaCha20Poly1305;
use chacha20poly1305::XNonce;

verus! {

/// The 32-byte key that Argon2id derives from a master password and a salt.
pub uninterp spec fn derived_key(password: Seq<char>, salt: Seq<u8>) -> Seq<u8>;

/// The XChaCha20-Poly1305 ciphertext (tag included) of a plaintext under a
/// key and nonce.
pub uninterp spec fn sealed(key: Seq<u8>, nonce: Seq<u8>, plaintext: Seq<u8>) -> Seq<u8>;

/// What XChaCha20-Poly1305 decryption returns for a ciphertext under a key
/// and nonce: the plaintext when the tag verifies, nothing otherwise.
pub uninterp spec fn opened(key: Seq<u8>, nonce: Seq<u8>, ciphertext: Seq<u8>) -> Option<Seq<u8>>;

/// The password's UTF-8 form fits the key-derivation primitive's input cap.
pub open spec fn password_ok(password: Seq<char>) -> bool {
    encode_utf8(password).len() <= 0xFFFF_FFFF
}

/// A plaintext short enough for the sealing primitive (fewer than 2^32 - 1
/// blocks of 64 bytes).
pub open spec fn plaintext_ok(plaintext: Seq<u8>) -> bool {
    plaintext.len() / 64 < 0xFFFF_FFFF
}

/// Derives the vault's 32-byte symmetric key from the master password and
/// the vault's 16-byte salt. Equal inputs always yield equal keys.
///
/// Relies on `argon2::Argon2::hash_password_into` with the crate's default
/// parameters — Argon2id, version 0x13, 19456 KiB of memory, 2 passes,
/// parallelism 1 — which are part of the vault format and must not change
/// without a migration path. The output is a function of password and salt
/// alone. With a 16-byte salt and a password within the primitive's
/// 2^32 - 1 byte cap the call cannot reject its input; it aborts only on
/// allocation failure of the work area, which this tool treats as fatal.
#[verifier::external_body]
pub fn derive_key(master: &str, salt: &[u8]) -> (r: [u8; 32])
    requires
        salt@.len() == 16,
        password_ok(master@),
    ensures
        r@ == derived_key(master@, salt@),
{
    let mut key = [0u8; 32];
    argon2::Argon2::default()
        .hash_password_into(master.as_bytes(), salt, &mut key)
        .expect("key derivation failed");
    key
}

/// A fresh 24-byte nonce from the thread-local CSPRNG.
///
/// Relies on `rand::random`: nothing is assumed of the bytes beyond their
/// count; two calls may and should differ.
#[verifier::external_body]
fn random_nonce() -> (r: [u8; 24]) {
    rand::random::<[u8; 24]>()
}

/// Seals a plaintext under a key and nonce.
///
/// Relies on `aead::Aead::encrypt` for `XChaCha20Poly1305`: the ciphertext
/// is a function of key, nonce and plaintext alone, is exactly 16 bytes (the
/// Poly1305 tag) longer than the plaintext, and decrypting it under the same
/// key and nonce returns exactly the plaintext. The call rejects only
/// plaintexts of 2^32 - 1 or more 64-byte blocks, which the caller rules out.
#[verifier::external_body]
fn xchacha_seal(key: &[u8; 32], nonce: &[u8; 24], plaintext: &[u8]) -> (r: Vec<u8>)
    requires
        plaintext_ok(plaintext@),
    ensures
        r@ == sealed(key@, nonce@, plaintext@),
        r@.len() == plaintext@.len() + 16,
        opened(key@, nonce@, r@) == Some(plaintext@),
{
    let cipher = XChaCha20Poly1305::new(&Key::from(*key));
    cipher
        .encrypt(&XNonce::from(*nonce), plaintext)
        .expect("encryption failed")
}

/// Opens a ciphertext under a key and nonce, or nothing if the tag fails.
///
/// Relies on `aead::Aead::decrypt` for `XChaCha20Poly1305`: it verifies the
/// Poly1305 tag and returns the plaintext exactly when the ciphertext is
/// authentic under this key and nonce; the outcome is a function of key,
/// nonce and ciphertext alone, and a rejected ciphertext exposes no partial
/// plaintext.
#[verifier::external_body]
fn xchacha_open(key: &[u8; 32], nonce: &[u8; 24], ciphertext: &[u8]) -> (r: Option<Vec<u8>>)
    ensures
        match r {
            Some(p) => opened(key@, nonce@, ciphertext@) == Some(p@),
            None => opened(key@, nonce@, ciphertext@) is None,
        },
{
    let cipher = XChaCha20Poly1305::new(&Key::from(*key));
    cipher.decrypt(&XNonce::from(*nonce), ciphertext).ok()
}

/// Encrypts a plaintext under a fresh random nonce, returning the ciphertext
/// and the nonce that must accompany it.
pub fn encrypt(key: &[u8; 32], plaintext: &[u8]) -> (r: (Vec<u8>, [u8; 24]))
    requires
        plaintext_ok(plaintext@),
    ensures
        r.0@ == sealed(key@, r.1@, plaintext@),
        r.0@.len() == plaintext@.len() + 16,
        opened(key@, r.1@, r.0@) == Some(plaintext@),
{
    let nonce = random_nonce();
    let ciphertext = xchacha_seal(key, &nonce, plaintext);
    (ciphertext, nonce)
}

/// Decrypts a ciphertext, failing closed on a wrong key or any tampering.
/// The error never says which of the two happened.
pub fn decrypt(key: &[u8; 32], ciphertext: &[u8], nonce: &[u8; 24]) -> (r: Result<
    Vec<u8>,
    VaultError,
>)
    ensures
        match r {
            Ok(p) => opened(key@, nonce@, ciphertext@) == Some(p@),
            Err(e) => e == VaultError::AuthenticationFailure && opened(
                key@,
                nonce@,
                ciphertext@,
            ) is None,
        },
{
    match xchacha_open(key, nonce, ciphertext) {
        Some(p) => Ok(p),
        None => Err(VaultError::AuthenticationFailure),
    }
}

/// Round trip: opening a sealed plaintext with the sealing key and nonce
/// gives back the plaintext unchanged, for every key and plaintext.
pub fn seal_open_round_trip(key: &[u8; 32], plaintext: &[u8]) -> (r: Vec<u8>)
    requires
        plaintext_ok(plaintext@),
    ensures
        r@ == plaintext@,
{
    let (ciphertext, nonce) = encrypt(key, plaintext);
    match decrypt(key, &ciphertext, &nonce) {
        Ok(p) => p,
        Err(_) => vstd::pervasive::unreached(),
    }
}

/// Determinism of derivation: two calls on identical inputs yield an
/// identical 32-byte key.
pub fn derive_key_deterministic(master: &str, salt: &[u8]) -> (r: ([u8; 32], [u8; 32]))
    requires
        salt@.len() == 16,
        password_ok(master@),
    ensures
        r.0@ == r.1@,
{
    (derive_key(master, salt), derive_key(master, salt))
}

} // verus!

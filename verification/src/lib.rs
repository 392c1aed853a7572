//! Core of a local, offline credential container: named vaults of
//! username/password records, each persisted as one authenticated-encryption
//! unit unlockable only by a master password.
//!
//! The library covers the encryption-at-rest engine — key derivation,
//! sealing/opening, the on-disk container framing, the vault payload codec,
//! and the in-memory entry operations. File handling, prompting and argument
//! parsing belong to the calling layer.

use vstd::prelude::*;

pub mod codec;
pub mod crypto;
pub mod model;
pub mod repo;
pub mod store;

verus! {

/// Failures surfaced by the vault engine and its calling layer.
///
/// Wrong password, tampering and corruption of the encrypted container all
/// collapse into `AuthenticationFailure`: distinguishing them at the API
/// boundary would hand an attacker an oracle for probing passwords.
/// `FormatError` arises only past decryption, when an authenticated payload
/// fails to decode — version skew rather than a wrong password.
#[derive(Clone, Copy, Debug, PartialEq, Eq, Structural)]
pub enum VaultError {
    /// A vault's salt or container artifact is missing.
    VaultNotFound,
    /// A vault of this name already exists.
    VaultAlreadyExists,
    /// Wrong password, or a tampered or corrupted container.
    AuthenticationFailure,
    /// An authenticated payload failed to decode.
    FormatError,
    /// No entry matched the given selector.
    EntryNotFound,
    /// A name-based selection matched more than one entry.
    AmbiguousEntryName,
    /// A filesystem operation failed.
    IoFailure,
}

impl VaultError {
    /// A short description for the calling layer to present.
    pub fn describe(&self) -> &'static str {
        match self {
            VaultError::VaultNotFound => "vault not found",
            VaultError::VaultAlreadyExists => "vault already exists",
            VaultError::AuthenticationFailure => "authentication failure",
            VaultError::FormatError => "vault payload is malformed",
            VaultError::EntryNotFound => "entry not found",
            VaultError::AmbiguousEntryName => "entry name is ambiguous",
            VaultError::IoFailure => "filesystem operation failed",
        }
    }
}

} // verus!

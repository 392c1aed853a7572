//! Sealing and opening whole vaults: the encrypt/decrypt round trip that the
//! on-disk container goes through.
//!
//! The calling layer owns the files; this module turns a vault record plus
//! master password and salt into container bytes and back. Opening fails
//! closed: a wrong password and a tampered or truncated container are
//! deliberately indistinguishable.

use vstd::prelude::*;
use crate::codec::{
    decode_vault, encode_vault, frame, lemma_encode_vault_injective, max_id, spec_encode_vault,
    unframe, vault_encodable,
};
use crate::crypto::{decrypt, derive_key, derived_key, encrypt, opened, password_ok, plaintext_ok};
use crate::model::{ids_below_watermark, EntryModel, VaultModel, VaultV1};
use crate::VaultError;
use vstd::string::StringExecFns;

verus! {

/// A fresh empty vault whose timestamps are both the creation time and
/// whose first entry will receive id 1.
pub fn new_vault(now: i64) -> (v: VaultV1)
    ensures
        v@.created_at == now,
        v@.last_modified == now,
        v@.entries == Seq::<EntryModel>::empty(),
        v@.next_id == 1,
        ids_below_watermark(v@),
{
    let v = VaultV1 { created_at: now, last_modified: now, entries: Vec::new(), next_id: 1 };
    proof {
        assert(v@.entries =~= Seq::<EntryModel>::empty());
    }
    v
}

/// A fresh random 16-byte salt from the thread-local CSPRNG.
///
/// Relies on `rand::random`: nothing is assumed of the bytes beyond their
/// count; the salt is generated once per vault and never regenerated.
#[verifier::external_body]
fn random_salt() -> (r: [u8; 16]) {
    rand::random::<[u8; 16]>()
}

/// Copies a 24-byte slice into the fixed nonce array.
///
/// Relies on `<&[u8] as TryInto<[u8; 24]>>::try_into`, which succeeds exactly
/// on slices of length 24 and copies the bytes unchanged.
#[verifier::external_body]
fn nonce_array(bytes: &[u8]) -> (r: [u8; 24])
    requires
        bytes@.len() == 24,
    ensures
        r@ == bytes@,
{
    bytes.try_into().expect("nonce length")
}

/// Derives the key, encodes the vault, seals the payload under a fresh
/// random nonce and frames nonce plus ciphertext into the container bytes.
pub fn seal_vault(master: &str, salt: &[u8], vault: &VaultV1) -> (container: Vec<u8>)
    requires
        salt@.len() == 16,
        password_ok(master@),
        plaintext_ok(spec_encode_vault(vault@)),
    ensures
        container@.len() == 24 + spec_encode_vault(vault@).len() + 16,
        opened(derived_key(master@, salt@), container@.subrange(0, 24), container@.skip(24))
            == Some(spec_encode_vault(vault@)),
        vault_encodable(vault@),
{
    let key = derive_key(master, salt);
    let payload = encode_vault(vault);
    let (ciphertext, nonce) = encrypt(&key, payload.as_slice());
    let container = frame(&nonce, ciphertext.as_slice());
    proof {
        assert(container@.subrange(0, 24) =~= nonce@);
        assert(container@.skip(24) =~= ciphertext@);
    }
    container
}

/// Derives the key, splits the container into nonce and ciphertext, opens
/// the sealed payload and decodes the vault.
///
/// A container too short to hold a nonce, a wrong password and a tampered
/// ciphertext all surface as the same `AuthenticationFailure`; a payload
/// that authenticates but does not decode is the distinct `FormatError`.
pub fn open_vault(master: &str, salt: &[u8], container: &[u8]) -> (r: Result<VaultV1, VaultError>)
    requires
        salt@.len() == 16,
        password_ok(master@),
    ensures
        ({
            let key = derived_key(master@, salt@);
            match r {
                Ok(v) => container@.len() >= 24 && opened(
                    key,
                    container@.subrange(0, 24),
                    container@.skip(24),
                ) == Some(spec_encode_vault(v@)) && vault_encodable(v@) && v@.next_id == max_id(
                    v@.entries,
                ) as u64 + 1 && ids_below_watermark(v@),
                Err(e) => {
                    if container@.len() < 24 {
                        e == VaultError::AuthenticationFailure
                    } else {
                        match opened(key, container@.subrange(0, 24), container@.skip(24)) {
                            Option::None => e == VaultError::AuthenticationFailure,
                            Option::Some(p) => e == VaultError::FormatError && (forall|
                                v: VaultModel,
                            |
                                vault_encodable(v) ==> p != #[trigger] spec_encode_vault(v)),
                        }
                    }
                },
            }
        }),
{
    let key = derive_key(master, salt);
    match unframe(container) {
        None => Err(VaultError::AuthenticationFailure),
        Some(parts) => {
            let (nonce_bytes, ciphertext) = parts;
            let nonce = nonce_array(nonce_bytes.as_slice());
            match decrypt(&key, ciphertext.as_slice(), &nonce) {
                Err(e) => Err(e),
                Ok(payload) => match decode_vault(payload.as_slice()) {
                    Ok(v) => Ok(v),
                    Err(e) => Err(e),
                },
            }
        },
    }
}

/// The persistent artifacts of a new vault: a fresh random salt, and a
/// container sealing an empty vault created at the given time under the
/// master password and that salt.
pub fn create_vault_artifacts(master: &str, now: i64) -> (r: ([u8; 16], Vec<u8>))
    requires
        password_ok(master@),
    ensures
        ({
            let ev = (VaultModel {
                created_at: now,
                last_modified: now,
                entries: Seq::empty(),
                next_id: 1,
            });
            r.1@.len() >= 24 && opened(
                derived_key(master@, r.0@),
                r.1@.subrange(0, 24),
                r.1@.skip(24),
            ) == Some(spec_encode_vault(ev))
        }),
{
    let salt = random_salt();
    let vault = new_vault(now);
    proof {
        lemma_empty_vault_payload_small(vault@);
    }
    let container = seal_vault(master, salt.as_slice(), &vault);
    (salt, container)
}

proof fn lemma_empty_vault_payload_small(v: VaultModel)
    requires
        v.entries == Seq::<EntryModel>::empty(),
    ensures
        plaintext_ok(spec_encode_vault(v)),
{
    assert(crate::codec::enc_int(v.created_at).len() <= 9);
    assert(crate::codec::enc_int(v.last_modified).len() <= 9);
    assert(crate::codec::enc_head(4, v.entries.len() as u64).len() == 1);
    assert(crate::codec::enc_entries(v.entries).len() == 0);
    assert(spec_encode_vault(v).len() <= 53);
}

/// End to end: sealing a vault and opening the resulting container with the
/// same password and salt gives back everything the container persists —
/// both timestamps and the whole entry list — unchanged, for every
/// password, salt and vault. The id watermark is in-memory state that the
/// format does not carry: opening restarts it one above the highest stored
/// id.
pub fn seal_open_vault_round_trip(master: &str, salt: &[u8], vault: &VaultV1) -> (r: VaultV1)
    requires
        salt@.len() == 16,
        password_ok(master@),
        plaintext_ok(spec_encode_vault(vault@)),
    ensures
        r@.created_at == vault@.created_at,
        r@.last_modified == vault@.last_modified,
        r@.entries == vault@.entries,
        r@.next_id == max_id(vault@.entries) as u64 + 1,
{
    let container = seal_vault(master, salt, vault);
    match open_vault(master, salt, container.as_slice()) {
        Ok(v) => {
            proof {
                lemma_encode_vault_injective(v@, vault@);
            }
            v
        },
        Err(_) => vstd::pervasive::unreached(),
    }
}

/// The per-vault artifact names of the on-disk layout: the container is
/// `vault_<name>.cbor`, the salt `salt_<name>.bin`. The calling layer only
/// resolves the directory they live in.
pub fn vault_artifact_names(name: &str) -> (r: (String, String))
    ensures
        r.0@ == "vault_"@ + name@ + ".cbor"@,
        r.1@ == "salt_"@ + name@ + ".bin"@,
{
    let mut container = String::from_str("vault_");
    container.append(name);
    container.append(".cbor");
    let mut salt = String::from_str("salt_");
    salt.append(name);
    salt.append(".bin");
    (container, salt)
}

/// The fixed artifact names of the single default vault.
pub fn default_artifact_names() -> (r: (String, String))
    ensures
        r.0@ == "vault.cbor"@,
        r.1@ == "salt.bin"@,
{
    (String::from_str("vault.cbor"), String::from_str("salt.bin"))
}

} // verus!

use rustpass::model::VaultV1;
use rustpass::repo::add_entry;
use rustpass::store::{
    create_vault_artifacts, new_vault, open_vault, seal_open_vault_round_trip, seal_vault,
};
use rustpass::VaultError;

#[test]
fn create_then_open_yields_empty_vault() {
    let (salt, container) = create_vault_artifacts("p1", 1700000000);
    let vault = open_vault("p1", &salt, &container).expect("the fresh container must open");
    assert_eq!(vault.created_at, 1700000000);
    assert_eq!(vault.last_modified, 1700000000);
    assert!(vault.entries.is_empty());
}

#[test]
fn add_save_reload_keeps_entry_and_timestamps() {
    let created: i64 = 1700000000;
    let (salt, container) = create_vault_artifacts("p1", created);
    let mut vault = open_vault("p1", &salt, &container).expect("open after create");

    add_entry(
        &mut vault,
        "mail".to_string(),
        "a@b.com".to_string(),
        "s3cr3t".to_string(),
        None,
    );
    vault.last_modified = created + 60;
    let container = seal_vault("p1", &salt, &vault);

    let reloaded = open_vault("p1", &salt, &container).expect("reload with the same password");
    assert_eq!(reloaded.entries.len(), 1);
    assert_eq!(reloaded.next_id, 2, "loading restarts the watermark above the highest id");
    assert_eq!(reloaded.entries[0].name, "mail");
    assert_eq!(reloaded.entries[0].username, "a@b.com");
    assert_eq!(reloaded.entries[0].password, "s3cr3t");
    assert!(reloaded.last_modified >= reloaded.created_at);
}

#[test]
fn wrong_password_is_rejected_without_exposing_entries() {
    let (salt, container) = create_vault_artifacts("p1", 1700000000);
    let result = open_vault("p2", &salt, &container);
    assert_eq!(result.unwrap_err(), VaultError::AuthenticationFailure);
}

#[test]
fn wrong_salt_is_rejected_the_same_way() {
    let (_salt, container) = create_vault_artifacts("p1", 1700000000);
    let other_salt = [0u8; 16];
    let result = open_vault("p1", &other_salt, &container);
    assert_eq!(result.unwrap_err(), VaultError::AuthenticationFailure);
}

#[test]
fn truncated_container_fails_as_authentication_failure() {
    let (salt, container) = create_vault_artifacts("p1", 1700000000);
    assert_eq!(
        open_vault("p1", &salt, &container[..10]).unwrap_err(),
        VaultError::AuthenticationFailure
    );
    assert_eq!(
        open_vault("p1", &salt, &[]).unwrap_err(),
        VaultError::AuthenticationFailure
    );
}

#[test]
fn tampered_container_fails_as_authentication_failure() {
    let (salt, container) = create_vault_artifacts("p1", 1700000000);
    for byte in [0usize, 5, 23, 24, 30, 40] {
        if byte < container.len() {
            let mut corrupted = container.clone();
            corrupted[byte] ^= 0x01;
            assert_eq!(
                open_vault("p1", &salt, &corrupted).unwrap_err(),
                VaultError::AuthenticationFailure,
                "a flipped bit in byte {} must fail closed",
                byte
            );
        }
    }
}

#[test]
fn seal_open_vault_round_trip_law_runs() {
    let salt = b"0123456789abcdef";
    let mut vault = new_vault(42);
    add_entry(
        &mut vault,
        "one".to_string(),
        "u".to_string(),
        "p".to_string(),
        Some("n".to_string()),
    );
    let reloaded = seal_open_vault_round_trip("master", salt, &vault);
    assert_eq!(reloaded.created_at, 42);
    assert_eq!(reloaded.entries.len(), 1);
    assert_eq!(reloaded.entries[0].notes.as_deref(), Some("n"));
}

#[test]
fn each_save_uses_a_fresh_nonce() {
    let salt = b"0123456789abcdef";
    let vault = VaultV1 { created_at: 1, last_modified: 1, entries: Vec::new(), next_id: 1 };
    let c1 = seal_vault("pw", salt, &vault);
    let c2 = seal_vault("pw", salt, &vault);
    assert_ne!(&c1[..24], &c2[..24], "nonces must differ between saves");
}

#[test]
fn each_vault_gets_a_fresh_salt() {
    let (salt1, _) = create_vault_artifacts("pw", 1);
    let (salt2, _) = create_vault_artifacts("pw", 1);
    assert_ne!(salt1, salt2, "two vaults must not share a salt");
}

#[test]
fn error_descriptions_are_stable() {
    assert_eq!(VaultError::VaultNotFound.describe(), "vault not found");
    assert_eq!(VaultError::VaultAlreadyExists.describe(), "vault already exists");
    assert_eq!(VaultError::AuthenticationFailure.describe(), "authentication failure");
    assert_eq!(VaultError::FormatError.describe(), "vault payload is malformed");
    assert_eq!(VaultError::EntryNotFound.describe(), "entry not found");
    assert_eq!(VaultError::AmbiguousEntryName.describe(), "entry name is ambiguous");
    assert_eq!(VaultError::IoFailure.describe(), "filesystem operation failed");
}

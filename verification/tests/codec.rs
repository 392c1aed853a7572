use rustpass::codec::{decode_vault, encode_vault, frame, unframe};
use rustpass::model::{Entry, VaultV1};
use rustpass::VaultError;

fn sample_entry(id: u32, name: &str, username: &str, password: &str, notes: Option<&str>) -> Entry {
    Entry {
        id,
        name: name.to_string(),
        username: username.to_string(),
        password: password.to_string(),
        notes: notes.map(|s| s.to_string()),
    }
}

#[test]
fn empty_vault_encodes_to_known_bytes() {
    let vault = VaultV1 { created_at: 0, last_modified: 0, entries: Vec::new(), next_id: 1 };
    let payload = encode_vault(&vault);
    let expected: Vec<u8> = vec![
        0xA3, // map of three pairs
        0x6A, 0x63, 0x72, 0x65, 0x61, 0x74, 0x65, 0x64, 0x5F, 0x61, 0x74, // "created_at"
        0x00, // 0
        0x6D, 0x6C, 0x61, 0x73, 0x74, 0x5F, 0x6D, 0x6F, 0x64, 0x69, 0x66, 0x69, 0x65,
        0x64, // "last_modified"
        0x00, // 0
        0x67, 0x65, 0x6E, 0x74, 0x72, 0x69, 0x65, 0x73, // "entries"
        0x80, // empty array
    ];
    assert_eq!(payload, expected);
}

#[test]
fn integer_encodings_use_shortest_forms() {
    let vault = VaultV1 { created_at: 1000, last_modified: -1, entries: Vec::new(), next_id: 1 };
    let payload = encode_vault(&vault);
    // "created_at" is followed by 0x19 0x03 0xE8 (two-byte 1000),
    // "last_modified" by 0x20 (negative integer -1).
    assert_eq!(&payload[12..15], &[0x19, 0x03, 0xE8]);
    assert_eq!(payload[29], 0x20);
}

#[test]
fn encode_decode_roundtrip_empty() {
    let vault = VaultV1 {
        created_at: 1700000000,
        last_modified: 1700000001,
        entries: Vec::new(),
        next_id: 1,
    };
    let payload = encode_vault(&vault);
    let decoded = decode_vault(&payload).expect("decoding an encoded vault succeeds");
    assert_eq!(decoded.created_at, 1700000000);
    assert_eq!(decoded.last_modified, 1700000001);
    assert!(decoded.entries.is_empty());
    assert_eq!(decoded.next_id, 1, "an empty vault restarts its watermark at 1");
}

#[test]
fn encode_decode_roundtrip_entries() {
    let entries = vec![
        sample_entry(1, "caf\u{e9} corner", "ren\u{e9}", "p\u{e2}te", Some("caf\u{e9}")),
        sample_entry(2, "", "", "", None),
        sample_entry(u32::MAX, "big", "user", "pw", Some("")),
    ];
    let vault = VaultV1 { created_at: i64::MIN, last_modified: i64::MAX, entries, next_id: 7 };
    let payload = encode_vault(&vault);
    let decoded = decode_vault(&payload).expect("decoding an encoded vault succeeds");
    assert_eq!(
        decoded.next_id,
        u32::MAX as u64 + 1,
        "the watermark restarts one above the highest stored id"
    );
    assert_eq!(decoded.created_at, i64::MIN);
    assert_eq!(decoded.last_modified, i64::MAX);
    assert_eq!(decoded.entries.len(), 3);
    assert_eq!(decoded.entries[0].id, 1);
    assert_eq!(decoded.entries[0].name, "caf\u{e9} corner");
    assert_eq!(decoded.entries[0].username, "ren\u{e9}");
    assert_eq!(decoded.entries[0].password, "p\u{e2}te");
    assert_eq!(decoded.entries[0].notes.as_deref(), Some("caf\u{e9}"));
    assert_eq!(decoded.entries[1].id, 2);
    assert_eq!(decoded.entries[1].notes, None);
    assert_eq!(decoded.entries[2].id, u32::MAX);
    assert_eq!(decoded.entries[2].notes.as_deref(), Some(""));
}

#[test]
fn decode_rejects_truncated_payloads() {
    let vault = VaultV1 {
        created_at: 5,
        last_modified: 6,
        entries: vec![sample_entry(1, "a", "b", "c", None)],
        next_id: 2,
    };
    let payload = encode_vault(&vault);
    for cut in 0..payload.len() {
        let truncated = &payload[..cut];
        assert_eq!(
            decode_vault(truncated).unwrap_err(),
            VaultError::FormatError,
            "a payload cut to {} bytes must be rejected",
            cut
        );
    }
}

#[test]
fn decode_rejects_trailing_garbage_and_noise() {
    let vault = VaultV1 { created_at: 1, last_modified: 2, entries: Vec::new(), next_id: 1 };
    let mut payload = encode_vault(&vault);
    payload.push(0x00);
    assert_eq!(decode_vault(&payload).unwrap_err(), VaultError::FormatError);

    assert_eq!(decode_vault(&[]).unwrap_err(), VaultError::FormatError);
    assert_eq!(decode_vault(&[0xFF, 0xFF]).unwrap_err(), VaultError::FormatError);
    assert_eq!(decode_vault(b"not a vault at all").unwrap_err(), VaultError::FormatError);
}

#[test]
fn frame_unframe_roundtrip() {
    let nonce = [7u8; 24];
    let ciphertext = vec![1u8, 2, 3, 4, 5];
    let container = frame(&nonce, &ciphertext);
    assert_eq!(container.len(), 24 + 5);
    let (n, c) = unframe(&container).expect("a well-formed container splits");
    assert_eq!(n, nonce.to_vec());
    assert_eq!(c, ciphertext);
}

#[test]
fn unframe_rejects_short_containers() {
    assert!(unframe(&[]).is_none());
    assert!(unframe(&[0u8; 23]).is_none());
    assert!(unframe(&[0u8; 24]).is_some());
}

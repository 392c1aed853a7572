use rustpass::crypto;

#[test]
fn encrypt_decrypt_roundtrip() {
    let master = "test-master-password";
    let salt = b"0123456789abcdef";
    let key = crypto::derive_key(master, salt);
    let plaintext = b"super secret data";
    let (ciphertext, nonce) = crypto::encrypt(&key, plaintext);
    let decrypted = crypto::decrypt(&key, &ciphertext, &nonce).expect("Decryption should succeed");
    assert_eq!(decrypted, plaintext);
}

#[test]
fn decrypt_with_wrong_password_fails() {
    let master = "test-master-password";
    let salt = b"0123456789abcdef";
    let key = crypto::derive_key(master, salt);
    let plaintext = b"super secret data";
    let (ciphertext, nonce) = crypto::encrypt(&key, plaintext);

    let wrong_key = crypto::derive_key("wrong-password", salt);
    let result = crypto::decrypt(&wrong_key, &ciphertext, &nonce);
    assert!(result.is_err(), "Decryption with wrong password should fail");
}

#[test]
fn derivation_is_deterministic_and_input_sensitive() {
    let salt = b"0123456789abcdef";
    let (k1, k2) = crypto::derive_key_deterministic("some password", salt);
    assert_eq!(k1, k2);

    let other_pw = crypto::derive_key("some other password", salt);
    assert_ne!(k1, other_pw);

    let other_salt = crypto::derive_key("some password", b"fedcba9876543210");
    assert_ne!(k1, other_salt);
}

#[test]
fn ciphertext_differs_from_plaintext_and_carries_tag() {
    let key = [7u8; 32];
    let plaintext = b"0123456789";
    let (ciphertext, _nonce) = crypto::encrypt(&key, plaintext);
    assert_eq!(ciphertext.len(), plaintext.len() + 16);
    assert_ne!(&ciphertext[..plaintext.len()], &plaintext[..]);
}

#[test]
fn fresh_nonce_per_encryption() {
    let key = [1u8; 32];
    let (_c1, n1) = crypto::encrypt(&key, b"same message");
    let (_c2, n2) = crypto::encrypt(&key, b"same message");
    assert_ne!(n1, n2, "two encryptions must not share a nonce");
}

#[test]
fn tampering_any_single_bit_fails_decryption() {
    let key = [42u8; 32];
    let plaintext = b"attack at dawn";
    let (ciphertext, nonce) = crypto::encrypt(&key, plaintext);
    for byte in 0..ciphertext.len() {
        for bit in 0..8 {
            let mut corrupted = ciphertext.clone();
            corrupted[byte] ^= 1u8 << bit;
            let result = crypto::decrypt(&key, &corrupted, &nonce);
            assert!(
                result.is_err(),
                "flipping bit {} of byte {} must fail authentication",
                bit,
                byte
            );
        }
    }
}

#[test]
fn seal_open_round_trip_law_runs() {
    let key = [9u8; 32];
    let plaintext: Vec<u8> = (0u8..=255).collect();
    let recovered = crypto::seal_open_round_trip(&key, &plaintext);
    assert_eq!(recovered, plaintext);

    let empty: Vec<u8> = Vec::new();
    let recovered_empty = crypto::seal_open_round_trip(&key, &empty);
    assert!(recovered_empty.is_empty());
}

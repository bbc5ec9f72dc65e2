use haruhi_crypt::cipher::{HaruhiCipher, NONCE_SIZE};
use haruhi_crypt::envelope::{decrypt_data, encrypt_data};
use haruhi_crypt::superperm::{extract_all_permutations, generate_superpermutation};

#[test]
fn test_superpermutation_n4() {
    let superperm = generate_superpermutation(4);
    println!("Superpermutation n=4 length: {}", superperm.len());
    assert!(superperm.len() >= 33, "Minimal length for n=4 is 33");
}

#[test]
fn test_superpermutation_n8() {
    let superperm = generate_superpermutation(8);
    println!("Superpermutation n=8 length: {}", superperm.len());

    let perms = extract_all_permutations(&superperm);
    println!("Extracted {} permutations", perms.len());
    assert_eq!(perms.len(), 40320);
}

#[test]
fn test_encrypt_decrypt() {
    let key = "test_key_123";
    let data = b"Hello, HaruhiCrypt! This is a test message.";

    let encrypted = encrypt_data(key, data, Some("txt"));
    let (decrypted, ext) = decrypt_data(key, &encrypted).unwrap();

    assert_eq!(data.to_vec(), decrypted, "Decrypted data doesn't match original");
    assert_eq!(ext, "txt");
}

#[test]
fn test_different_keys() {
    let data = b"Test message";
    let key1 = "key1";
    let key2 = "key2";

    let encrypted1 = encrypt_data(key1, data, None);
    let encrypted2 = encrypt_data(key2, data, None);

    assert_ne!(encrypted1, encrypted2);
}

#[test]
fn test_different_nonces() {
    let data = b"Test message";
    let key = "same_key";

    let encrypted1 = encrypt_data(key, data, None);
    let encrypted2 = encrypt_data(key, data, None);

    assert_ne!(encrypted1, encrypted2, "Different nonces should produce different ciphertext");
}

#[test]
fn test_block_cipher_inverse() {
    let key = "0123-4567-89ab-cdef";
    let nonce = [0u8; NONCE_SIZE];
    let cipher = HaruhiCipher::new(key, nonce);

    for block_index in 0..100 {
        let block: [u8; 8] = rand::random();
        let encrypted = cipher.encrypt_block(&block, block_index);
        let decrypted = cipher.decrypt_block(&encrypted, block_index);
        assert_eq!(block, decrypted, "Block {} failed", block_index);
    }
}

#[test]
fn test_corrupted_mac() {
    let key = "test_key";
    let data = b"Important data";

    let mut encrypted = encrypt_data(key, data, Some("txt"));
    let last_idx = encrypted.len() - 5;
    encrypted[last_idx] ^= 0xFF;

    let result = decrypt_data(key, &encrypted);
    assert!(result.is_err(), "Should reject corrupted data");
}

#[test]
fn test_wrong_key() {
    let data = b"Secret message";
    let encrypted = encrypt_data("correct_key", data, None);

    let result = decrypt_data("wrong_key", &encrypted);
    assert!(result.is_err(), "Should reject wrong key");
}

use std::collections::HashSet;

use hmac::Mac;
use sha2::{Digest, Sha256};

use haruhi_crypt::cipher::HaruhiCipher;
use haruhi_crypt::display::{
    action_enabled, anim_state_after, decrypted_file_name, encrypted_file_name, format_key, format_number,
    generate_random_key, push_log, settle_anim_state, AnimState, ProgressKind, LOG_CAPACITY,
};
use haruhi_crypt::envelope::{decrypt_data, decrypt_data_checked, encrypt_with_iv};
use haruhi_crypt::format::EncryptedFile;
use haruhi_crypt::superperm::{extract_all_permutations, find_overlap, generate_superpermutation};

fn seed_for(key: &str) -> [u8; 32] {
    Sha256::digest(key.as_bytes()).into()
}

fn tag_for(seed: &[u8; 32], file: &EncryptedFile) -> [u8; 32] {
    let mut mac = hmac::Hmac::<Sha256>::new_from_slice(seed).unwrap();
    mac.update(&[file.ext_len]);
    mac.update(&file.ext);
    mac.update(&file.iv);
    mac.update(&file.ciphertext);
    mac.finalize().into_bytes().into()
}

/// Decrypts the first block of a file, changes its plaintext, encrypts it
/// again and writes a new tag.
fn reseal_block(key: &str, out: &[u8], change: impl Fn(&mut [u8; 8])) -> Vec<u8> {
    let mut file = EncryptedFile::from_bytes(out).unwrap();
    let cipher = HaruhiCipher::new(key, file.iv);
    let block: [u8; 8] = file.ciphertext[0..8].try_into().unwrap();
    let mut plain = cipher.decrypt_block(&block, 0);
    change(&mut plain);
    file.ciphertext[0..8].copy_from_slice(&cipher.encrypt_block(&plain, 0));
    file.mac = tag_for(&seed_for(key), &file);
    file.to_bytes()
}

fn all_permutations(n: u8) -> Vec<Vec<u8>> {
    if n == 0 {
        return vec![vec![]];
    }
    let mut out = Vec::new();
    for p in all_permutations(n - 1) {
        for i in 0..=p.len() {
            let mut q = p.clone();
            q.insert(i, n - 1);
            out.push(q);
        }
    }
    out
}

fn occurs(needle: &[u8], hay: &[u8]) -> bool {
    hay.windows(needle.len()).any(|w| w == needle)
}

fn count_occurrences(needle: &[u8], hay: &[u8]) -> usize {
    hay.windows(needle.len()).filter(|w| *w == needle).count()
}

fn is_permutation_window(w: &[u8]) -> bool {
    let mut sorted = w.to_vec();
    sorted.sort();
    sorted == (1..=w.len() as u8).collect::<Vec<u8>>()
}

#[test]
fn overlap_is_the_longest_end_that_starts_the_next() {
    assert_eq!(find_overlap(&[1, 2, 3], &[2, 3, 4]), 2);
    assert_eq!(find_overlap(&[1, 2, 1], &[1, 2]), 1);
    assert_eq!(find_overlap(&[1, 2], &[3]), 0);
    assert_eq!(find_overlap(&[], &[1]), 0);
    assert_eq!(find_overlap(&[1, 2, 3], &[1, 2, 3]), 3);
}

#[test]
fn small_superpermutations_are_exact() {
    assert_eq!(generate_superpermutation(1), vec![1]);
    assert_eq!(generate_superpermutation(2), vec![2, 1, 2]);
    assert_eq!(generate_superpermutation(0), Vec::<u8>::new());
    assert_eq!(
        generate_superpermutation(3),
        vec![3, 2, 1, 2, 3, 1, 2, 1, 3, 1, 2, 1, 3, 2, 1, 2, 3]
    );
    assert_eq!(generate_superpermutation(4).len(), 91);
}

#[test]
fn eight_symbol_superpermutation_length() {
    assert_eq!(generate_superpermutation(8).len(), 317_521);
}

#[test]
fn superpermutation_length_follows_the_formula() {
    let factorial = |n: usize| (1..=n).product::<usize>();
    for n in [1usize, 3, 4, 5, 6, 7] {
        let expected = n * factorial(n) - factorial(n - 1) + 1;
        assert_eq!(generate_superpermutation(n).len(), expected, "n = {}", n);
    }
}

#[test]
fn superpermutation_holds_every_permutation() {
    for n in 1..=6u8 {
        let s = generate_superpermutation(n as usize);
        for p in all_permutations(n) {
            let shifted: Vec<u8> = p.iter().map(|x| x + 1).collect();
            assert!(occurs(&shifted, &s), "n = {}: {:?} missing", n, shifted);
        }
    }
}

#[test]
fn merged_permutations_can_occur_more_than_once() {
    let s = generate_superpermutation(3);
    assert_eq!(count_occurrences(&[3, 1, 2], &s), 2);
    let windows = generate_superpermutation(8).windows(8).filter(|w| is_permutation_window(w)).count();
    assert_eq!(windows, 273_600);
}

#[test]
fn eight_symbol_table_rows_are_distinct_permutations() {
    let table = extract_all_permutations(&generate_superpermutation(8));
    let mut seen = HashSet::new();
    for row in &table {
        let mut sorted = row.to_vec();
        sorted.sort();
        assert_eq!(sorted, vec![0, 1, 2, 3, 4, 5, 6, 7]);
        assert!(seen.insert(*row));
    }
    assert_eq!(seen.len(), 40320);
}

#[test]
fn table_keeps_first_occurrences_in_order() {
    let s = [1, 2, 3, 4, 5, 6, 7, 8, 1, 9, 8, 7, 6, 5, 4, 3, 2, 1, 1, 2, 3, 4, 5, 6, 7, 8];
    let table = extract_all_permutations(&s);
    assert_eq!(
        table,
        vec![
            [0, 1, 2, 3, 4, 5, 6, 7],
            [1, 2, 3, 4, 5, 6, 7, 0],
            [7, 6, 5, 4, 3, 2, 1, 0],
        ]
    );
    assert!(extract_all_permutations(&[1, 2, 3]).is_empty());
}

#[test]
fn blocks_are_rearranged_by_the_selected_permutation() {
    let key = "permute";
    let cipher = HaruhiCipher::new(key, [7u8; 16]);
    let seed = seed_for(key);
    let table = extract_all_permutations(&generate_superpermutation(8));
    assert_eq!(table.len(), 40320);
    for index in [0usize, 1, 41] {
        let mut hasher = Sha256::new();
        hasher.update(seed);
        hasher.update((index as u64).to_le_bytes());
        let hash = hasher.finalize();
        let offset = (u64::from_le_bytes(hash[0..8].try_into().unwrap()) as usize) % 40320;
        let perm = table[offset];
        let block = [10, 11, 12, 13, 14, 15, 16, 17];
        let enc = cipher.encrypt_block(&block, index);
        for i in 0..8 {
            assert_eq!(enc[perm[i] as usize], block[i]);
        }
        let dec = cipher.decrypt_block(&enc, index);
        for i in 0..8 {
            assert_eq!(dec[i], enc[perm[i] as usize]);
        }
        assert_eq!(dec, block);
        assert_eq!(cipher.encrypt_block(&[0u8; 8], index), [0u8; 8]);
    }
    let other = HaruhiCipher::new(key, [1u8; 16]);
    assert_eq!(other.encrypt_block(&[1, 2, 3, 4, 5, 6, 7, 8], 5), cipher.encrypt_block(&[1, 2, 3, 4, 5, 6, 7, 8], 5));
}

#[test]
fn sealed_file_layout_and_tag() {
    let key = "layout";
    let iv = [3u8; 16];
    let out = encrypt_with_iv(key, b"12345678", Some("png"), iv);
    assert_eq!(out.len(), 1 + 3 + 16 + 16 + 32);
    assert_eq!(out[0], 3);
    assert_eq!(&out[1..4], b"png");
    assert_eq!(&out[4..20], &iv);
    let mut sorted = out[20..28].to_vec();
    sorted.sort();
    assert_eq!(sorted, b"12345678".to_vec());
    let file = EncryptedFile::from_bytes(&out).unwrap();
    assert_eq!(file.iv, iv);
    assert_eq!(file.mac, tag_for(&seed_for(key), &file));
    assert_eq!(file.to_bytes(), out);
    assert_eq!(encrypt_with_iv(key, b"12345678", Some("png"), iv), out);
}

#[test]
fn fresh_files_get_random_ivs() {
    let a = haruhi_crypt::envelope::encrypt_data("k", b"same", None);
    let b = haruhi_crypt::envelope::encrypt_data("k", b"same", None);
    assert_ne!(&a[4..20], &b[4..20]);
    assert_eq!(decrypt_data("k", &a).unwrap().0, b"same".to_vec());
}

#[test]
fn open_recovers_data_and_extension() {
    let key = "roundtrip";
    for len in [0usize, 1, 7, 8, 9, 100] {
        let data: Vec<u8> = (0..len).map(|i| (i * 37 % 256) as u8).collect();
        let out = encrypt_with_iv(key, &data, None, [9u8; 16]);
        let (plain, ext) = decrypt_data(key, &out).unwrap();
        assert_eq!(plain, data);
        assert_eq!(ext, "bin");
        let padded = (len / 8 + 1) * 8;
        assert_eq!(out.len(), 1 + 3 + 16 + padded + 32);
    }
    let out = encrypt_with_iv(key, b"x", Some("テキスト"), [1u8; 16]);
    assert_eq!(decrypt_data(key, &out).unwrap(), (b"x".to_vec(), "テキスト".to_string()));
}

#[test]
fn file_fields_roundtrip() {
    let file = EncryptedFile {
        iv: [2u8; 16],
        ext_len: 2,
        ext: vec![b'g', b'z'],
        ciphertext: vec![5u8; 24],
        mac: [6u8; 32],
    };
    let bytes = file.to_bytes();
    let back = EncryptedFile::from_bytes(&bytes).unwrap();
    assert_eq!(back.iv, file.iv);
    assert_eq!(back.ext_len, file.ext_len);
    assert_eq!(back.ext, file.ext);
    assert_eq!(back.ciphertext, file.ciphertext);
    assert_eq!(back.mac, file.mac);
}

#[test]
fn parse_errors() {
    assert_eq!(EncryptedFile::from_bytes(&[0u8; 48]).unwrap_err(), "Data too short");
    let mut short = vec![0u8; 49];
    short[0] = 40;
    assert_eq!(EncryptedFile::from_bytes(&short).unwrap_err(), "Data too short for IV");
    assert_eq!(decrypt_data("k", &[0u8; 10]).unwrap_err(), "Data too short");
    assert_eq!(decrypt_data("k", &short).unwrap_err(), "Data too short for IV");
}

#[test]
fn open_errors() {
    let key = "errors";
    let seed = seed_for(key);
    let out = encrypt_with_iv(key, b"abc", Some("txt"), [4u8; 16]);

    let mut tampered = out.clone();
    tampered[2] ^= 1;
    assert_eq!(
        decrypt_data(key, &tampered).unwrap_err(),
        "Authentication failed: invalid key or corrupted data"
    );
    assert!(decrypt_data("other", &out).is_err());

    // Last plaintext byte turned from 5 to 0.
    let bad = reseal_block(key, &out, |p| p[7] = 0);
    assert_eq!(decrypt_data(key, &bad).unwrap_err(), "Invalid padding");

    // Last plaintext byte turned from 5 to 9.
    let bad = reseal_block(key, &out, |p| p[7] = 9);
    assert_eq!(decrypt_data(key, &bad).unwrap_err(), "Invalid padding");

    // One padding byte turned from 5 to 4.
    let bad = reseal_block(key, &out, |p| p[6] = 4);
    assert_eq!(decrypt_data(key, &bad).unwrap_err(), "Invalid padding bytes");

    // An extension that is not UTF-8 comes back as `bin`.
    let mut file = EncryptedFile::from_bytes(&out).unwrap();
    file.ext = vec![0xff, 0xfe, 0xfd];
    file.mac = tag_for(&seed, &file);
    assert_eq!(decrypt_data(key, &file.to_bytes()).unwrap(), (b"abc".to_vec(), "bin".to_string()));
}

#[test]
fn checked_open_flags_an_authentic_file_without_blocks() {
    let key = "empty";
    let seed = seed_for(key);
    let mut file = EncryptedFile {
        iv: [0u8; 16],
        ext_len: 3,
        ext: b"bin".to_vec(),
        ciphertext: vec![1, 2, 3],
        mac: [0u8; 32],
    };
    file.mac = tag_for(&seed, &file);
    assert!(decrypt_data_checked(key, &file.to_bytes()).is_none());
    file.mac[0] ^= 1;
    assert_eq!(
        decrypt_data_checked(key, &file.to_bytes()).unwrap().unwrap_err(),
        "Authentication failed: invalid key or corrupted data"
    );
    let out = encrypt_with_iv(key, b"data", None, [2u8; 16]);
    assert_eq!(decrypt_data_checked(key, &out).unwrap().unwrap(), (b"data".to_vec(), "bin".to_string()));
}

#[test]
fn numbers_are_grouped_by_thousands() {
    assert_eq!(format_number(0), "0");
    assert_eq!(format_number(999), "999");
    assert_eq!(format_number(1000), "1,000");
    assert_eq!(format_number(1234567), "1,234,567");
    assert_eq!(format_number(100000), "100,000");
}

#[test]
fn keys_are_dashed_hex() {
    let bytes = [0x01, 0x23, 0x45, 0x67, 0x89, 0xab, 0xcd, 0xef, 0x00, 0x10, 0xff, 0x0f, 0xa0, 0x0a, 0x99, 0x42];
    assert_eq!(format_key(&bytes), "01234567-89abcdef-0010ff0f-a00a9942");
    let key = generate_random_key();
    assert_eq!(key.len(), 35);
    for (i, c) in key.chars().enumerate() {
        if i == 8 || i == 17 || i == 26 {
            assert_eq!(c, '-');
        } else {
            assert!(c.is_ascii_hexdigit() && !c.is_ascii_uppercase());
        }
    }
}

#[test]
fn log_keeps_the_latest_lines() {
    let mut log = Vec::new();
    push_log(&mut log, "09:15:23", "File selected");
    assert_eq!(log, vec!["[09:15:23] File selected".to_string()]);
    for i in 0..LOG_CAPACITY {
        push_log(&mut log, "t", &format!("{}", i));
    }
    assert_eq!(log.len(), LOG_CAPACITY);
    assert_eq!(log[0], "[t] 0");
    assert_eq!(log[LOG_CAPACITY - 1], format!("[t] {}", LOG_CAPACITY - 1));
}

#[test]
fn output_file_names() {
    assert_eq!(encrypted_file_name("report"), "report.haruhi");
    assert_eq!(decrypted_file_name("/tmp/report.haruhi", Some("report"), "pdf"), "report.pdf");
    assert_eq!(decrypted_file_name("/tmp/report.bin", Some("report"), "pdf"), "output.pdf");
    assert_eq!(decrypted_file_name(".haruhi", None, "txt"), "output.txt");
}

#[test]
fn actions_need_key_file_folder_and_idle() {
    assert!(action_enabled("k", "f", true, false));
    assert!(!action_enabled("", "f", true, false));
    assert!(!action_enabled("k", "", true, false));
    assert!(!action_enabled("k", "f", false, false));
    assert!(!action_enabled("k", "f", true, true));
}

#[test]
fn reports_move_the_animation() {
    let states = [AnimState::Idle, AnimState::Processing, AnimState::Done];
    for state in states {
        assert_eq!(anim_state_after(state, ProgressKind::Done), AnimState::Done);
        assert_eq!(anim_state_after(state, ProgressKind::Error), AnimState::Idle);
        for kind in [ProgressKind::Log, ProgressKind::Percent, ProgressKind::Bytes] {
            assert_eq!(anim_state_after(state, kind), state);
        }
    }
}

#[test]
fn a_full_bar_finishes_only_a_running_action() {
    assert_eq!(settle_anim_state(AnimState::Processing, true), AnimState::Done);
    assert_eq!(settle_anim_state(AnimState::Processing, false), AnimState::Processing);
    assert_eq!(settle_anim_state(AnimState::Idle, true), AnimState::Idle);
    assert_eq!(settle_anim_state(AnimState::Done, false), AnimState::Done);
}

#[test]
fn encrypting_a_decrypted_block_gives_it_back() {
    let cipher = HaruhiCipher::new("inverse", [3u8; 16]);
    for index in [0usize, 7, 1000] {
        let block = [9u8, 8, 7, 6, 5, 4, 3, 2];
        let dec = cipher.decrypt_block(&block, index);
        assert_eq!(cipher.encrypt_block(&dec, index), block);
        let mut sorted = dec.to_vec();
        sorted.sort();
        assert_eq!(sorted, vec![2, 3, 4, 5, 6, 7, 8, 9]);
    }
}

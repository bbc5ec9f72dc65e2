//! Sealing data into the encrypted file format and opening it again:
//! padding, block encryption with a fresh random IV, and an HMAC-SHA256 tag
//! over everything before it.

use crate::cipher::{
    block_permutation, derived_seed, gather, lemma_gather_inverts_scatter, scatter, valid_table,
    HaruhiCipher, BLOCK_SIZE,
};
use crate::format::IV_SIZE;
use crate::superperm_laws::lemma_eight_symbol_table;
use crate::format::{
    lemma_layout_then_parse, fields_overrun_tag, file_layout, min_file_len, parse_fields, parses, EncryptedFile, FileFields,
};
use crate::primitives::{hmac_sha256, hmac_sha256_tag, random_iv, string_from_utf8};
use crate::superperm::{permutation_table, superpermutation};
use vstd::prelude::*;

verus! {

/// The permutation table every cipher draws on.
pub open spec fn eight_symbol_table() -> Seq<Seq<u8>> {
    permutation_table(superpermutation(8))
}

/// Block `b` of `text`: its bytes `8b..8b+8`.
pub open spec fn block_of(text: Seq<u8>, b: int) -> Seq<u8> {
    text.subrange(8 * b, 8 * b + 8)
}

/// `text`, cut down to whole blocks, each rearranged by its block's
/// permutation: the byte at place `i` of block `b` goes to place `perm[i]`.
pub open spec fn encrypted_text(seed: Seq<u8>, text: Seq<u8>) -> Seq<u8> {
    Seq::new(
        ((text.len() / 8) * 8) as nat,
        |j: int|
            scatter(
                block_permutation(eight_symbol_table(), seed, (j / 8) as u64),
                block_of(text, j / 8),
                8,
            )[j % 8],
    )
}

/// `text`, cut down to whole blocks, each read back through its block's
/// permutation: place `i` of block `b` gets the byte at place `perm[i]`.
pub open spec fn decrypted_text(seed: Seq<u8>, text: Seq<u8>) -> Seq<u8> {
    Seq::new(
        ((text.len() / 8) * 8) as nat,
        |j: int|
            gather(
                block_permutation(eight_symbol_table(), seed, (j / 8) as u64),
                block_of(text, j / 8),
            )[j % 8],
    )
}

/// How many padding bytes a plaintext of `n` bytes gets: enough to reach a
/// whole number of blocks, and a full block when it already is one.
pub open spec fn padding_len(n: nat) -> nat {
    if n % 8 == 0 {
        8
    } else {
        (8 - n % 8) as nat
    }
}

/// The plaintext followed by its padding, each padding byte holding the
/// number of padding bytes.
pub open spec fn padded(data: Seq<u8>) -> Seq<u8> {
    data + Seq::new(padding_len(data.len()), |_i: int| padding_len(data.len()) as u8)
}

/// The extension stored with the data: the one given, or `bin`.
pub open spec fn chosen_ext(ext: Option<&str>) -> Seq<char> {
    match ext {
        Some(e) => e@,
        None => "bin"@,
    }
}

/// The length byte stored for an extension: its length, capped at 255.
pub open spec fn ext_len_byte(ext: Seq<u8>) -> u8 {
    (if ext.len() < 255 {
        ext.len()
    } else {
        255
    }) as u8
}

/// The bytes the tag covers: every field before it.
pub open spec fn tagged_bytes(f: FileFields) -> Seq<u8> {
    seq![f.0] + f.1 + f.2 + f.3
}

/// The fields of the file that sealing writes for `key`, `data`, the
/// extension's bytes and the IV.
pub open spec fn sealed_fields(key: Seq<char>, data: Seq<u8>, ext: Seq<u8>, iv: Seq<u8>) -> FileFields {
    let seed = derived_seed(key);
    let ct = encrypted_text(seed, padded(data));
    let unsigned = (ext_len_byte(ext), ext, iv, ct, Seq::<u8>::empty());
    (ext_len_byte(ext), ext, iv, ct, hmac_sha256_tag(seed, tagged_bytes(unsigned))@)
}

/// The bytes that sealing writes.
pub open spec fn sealed(key: Seq<char>, data: Seq<u8>, ext: Seq<u8>, iv: Seq<u8>) -> Seq<u8> {
    file_layout(sealed_fields(key, data, ext, iv))
}

/// Encrypts `data` for `key` under a fresh random IV and writes the file
/// format, with `original_ext` (or `bin`) as the stored extension. The
/// length byte holds at most 255: an extension of more than 255 bytes is
/// still written in full after it, so a reader of the file takes only its
/// first 255 bytes as the extension and reads the IV and ciphertext from
/// the wrong places.
pub fn encrypt_data(key: &str, data: &[u8], original_ext: Option<&str>) -> (out: Vec<u8>)
    requires
        data@.len() + 8 <= usize::MAX,
    ensures
        exists|iv: Seq<u8>|
            iv.len() == IV_SIZE && out@ == sealed(
                key@,
                data@,
                vstd::utf8::encode_utf8(chosen_ext(original_ext)),
                iv,
            ),
{
    let iv = random_iv();
    encrypt_with_iv(key, data, original_ext, iv)
}

/// Encrypts `data` for `key` with the given IV and writes the file format,
/// with `original_ext` (or `bin`) as the stored extension (an extension of
/// more than 255 bytes is written in full under a length byte of 255, as
/// `encrypt_data` says).
pub fn encrypt_with_iv(key: &str, data: &[u8], original_ext: Option<&str>, iv: [u8; 16]) -> (out: Vec<u8>)
    requires
        data@.len() + 8 <= usize::MAX,
    ensures
        out@ == sealed(key@, data@, vstd::utf8::encode_utf8(chosen_ext(original_ext)), iv@),
{
    let cipher = HaruhiCipher::new(key, iv);

    let ext_str: &str = match original_ext {
        Some(e) => e,
        None => "bin",
    };
    let ext_bytes = ext_str.as_bytes();
    let ext_len: u8 = if ext_bytes.len() < 255 {
        ext_bytes.len() as u8
    } else {
        255
    };

    let padding_needed: usize = if data.len() % BLOCK_SIZE == 0 {
        BLOCK_SIZE
    } else {
        BLOCK_SIZE - (data.len() % BLOCK_SIZE)
    };

    let mut padded_data: Vec<u8> = Vec::new();
    crate::cipher::append_all(&mut padded_data, data);
    let mut p: usize = 0;
    while p < padding_needed
        invariant
            p <= padding_needed,
            padding_needed == padding_len(data@.len()),
            padded_data@ == data@ + Seq::new(p as nat, |_i: int| padding_needed as u8),
        decreases padding_needed - p,
    {
        padded_data.push(padding_needed as u8);
        p += 1;
        assert(padded_data@ =~= data@ + Seq::new(p as nat, |_i: int| padding_needed as u8));
    }
    assert(padded_data@ == padded(data@));

    let ciphertext = encrypt_blocks(&cipher, padded_data.as_slice());

    let mut ext_vec: Vec<u8> = Vec::new();
    crate::cipher::append_all(&mut ext_vec, ext_bytes);
    let mut file = EncryptedFile { iv, ext_len, ext: ext_vec, ciphertext, mac: [0u8; 32] };
    let tagged = tagged_input(&file);
    let mac = hmac_sha256(cipher.seed().as_slice(), tagged.as_slice());
    file.mac = mac;
    proof {
        let ext_spec = vstd::utf8::encode_utf8(chosen_ext(original_ext));
        assert(ext_bytes@ == ext_spec);
        let f = sealed_fields(key@, data@, ext_spec, iv@);
        assert(tagged@ =~= tagged_bytes((ext_len, ext_spec, iv@, file.ciphertext@, Seq::<u8>::empty())));
        assert(file.fields() == f);
    }
    file.to_bytes()
}

/// Encrypts `text`, whole block by whole block, under `cipher`.
fn encrypt_blocks(cipher: &HaruhiCipher, text: &[u8]) -> (out: Vec<u8>)
    requires
        cipher.table() == eight_symbol_table(),
    ensures
        out@ == encrypted_text(cipher.seed_bytes(), text@),
{
    let len = text.len();
    let count = len / BLOCK_SIZE;
    let mut out: Vec<u8> = Vec::new();
    let mut b: usize = 0;
    while b < count
        invariant
            len == text@.len(),
            count == text@.len() / 8,
            b <= count,
            cipher.table() == eight_symbol_table(),
            out@ == encrypted_text(cipher.seed_bytes(), text@).subrange(0, (b * 8) as int),
        decreases count - b,
    {
        assert(b * 8 + 8 <= text@.len()) by (nonlinear_arith)
            requires
                b < count,
                count == text@.len() / 8,
        ;
        let block = copy_block(text, b * BLOCK_SIZE);
        assert(block@ =~= block_of(text@, b as int));
        let enc = cipher.encrypt_block(&block, b);
        crate::cipher::append_all(&mut out, enc.as_slice());
        proof {
            let full = encrypted_text(cipher.seed_bytes(), text@);
            assert forall|j: int| b * 8 <= j < b * 8 + 8 implies #[trigger] full[j] == enc@[j - b * 8] by {
                assert(j / 8 == b as int);
                assert(j % 8 == j - b * 8);
            }
            assert(out@ =~= full.subrange(0, ((b + 1) * 8) as int));
        }
        b += 1;
    }
    assert(encrypted_text(cipher.seed_bytes(), text@).subrange(0, (count * 8) as int)
        =~= encrypted_text(cipher.seed_bytes(), text@));
    out
}

/// The eight bytes of `text` from `start`.
fn copy_block(text: &[u8], start: usize) -> (block: [u8; 8])
    requires
        start + 8 <= text@.len(),
    ensures
        forall|t: int| 0 <= t < 8 ==> #[trigger] block@[t] == text@[start + t],
{
    let mut block = [0u8; 8];
    let len = text.len();
    let mut i: usize = 0;
    while i < 8
        invariant
            i <= 8,
            len == text@.len(),
            start + 8 <= len,
            forall|t: int| 0 <= t < i ==> #[trigger] block@[t] == text@[start + t],
        decreases 8 - i,
    {
        block[i] = text[start + i];
        i += 1;
    }
    block
}


/// The extension text stored in a file: its bytes read as UTF-8, or `bin`
/// when they are not valid UTF-8.
pub open spec fn ext_text(ext: Seq<u8>) -> Seq<char> {
    if vstd::utf8::valid_utf8(ext) {
        vstd::utf8::decode_utf8(ext)
    } else {
        "bin"@
    }
}

/// The tag stored in a file is the one the key gives for its other fields.
pub open spec fn tag_matches(key: Seq<char>, data: Seq<u8>) -> bool {
    let f = parse_fields(data);
    hmac_sha256_tag(derived_seed(key), tagged_bytes(f))@ == f.4
}

/// The padded plaintext that opening a file recovers: its ciphertext, cut
/// down to whole blocks, each read back through its block's permutation.
pub open spec fn recovered(key: Seq<char>, data: Seq<u8>) -> Seq<u8> {
    decrypted_text(derived_seed(key), parse_fields(data).3)
}

/// Inputs on which opening reads the last byte of an empty plaintext: the
/// file parses and its tag checks out, but it holds no whole block.
pub open spec fn authentic_without_block(key: Seq<char>, data: Seq<u8>) -> bool {
    &&& parses(data)
    &&& tag_matches(key, data)
    &&& parse_fields(data).3.len() < 8
}

/// What opening `data` with `key` gives: the plaintext with its padding
/// removed and the stored extension, or the first check that fails.
pub open spec fn opened(key: Seq<char>, data: Seq<u8>) -> Result<(Seq<u8>, Seq<char>), Seq<char>> {
    if data.len() < min_file_len() {
        Err("Data too short"@)
    } else if !parses(data) {
        Err("Data too short for IV"@)
    } else if !tag_matches(key, data) {
        Err("Authentication failed: invalid key or corrupted data"@)
    } else {
        let plain = recovered(key, data);
        let pad = plain.last() as int;
        if pad == 0 || pad > 8 {
            Err("Invalid padding"@)
        } else if plain.len() < pad {
            Err("Invalid padding length"@)
        } else if exists|i: int| plain.len() - pad <= i < plain.len() && plain[i] != pad {
            Err("Invalid padding bytes"@)
        } else {
            Ok((plain.subrange(0, plain.len() - pad), ext_text(parse_fields(data).1)))
        }
    }
}

/// What a call of `decrypt_data` returns, as byte strings and characters.
pub open spec fn decrypt_outcome(res: Result<(Vec<u8>, String), String>) -> Result<(Seq<u8>, Seq<char>), Seq<char>> {
    match res {
        Ok((p, e)) => Ok((p@, e@)),
        Err(e) => Err(e@),
    }
}

/// Whether two byte strings are equal.
fn bytes_equal(a: &[u8], b: &[u8]) -> (eq: bool)
    ensures
        eq == (a@ == b@),
{
    if a.len() != b.len() {
        return false;
    }
    let mut i: usize = 0;
    while i < a.len()
        invariant
            a@.len() == b@.len(),
            i <= a@.len(),
            forall|t: int| 0 <= t < i ==> a@[t] == b@[t],
        decreases a@.len() - i,
    {
        if a[i] != b[i] {
            return false;
        }
        i += 1;
    }
    assert(a@ =~= b@);
    true
}

/// The bytes the tag of `file` covers.
fn tagged_input(file: &EncryptedFile) -> (out: Vec<u8>)
    ensures
        out@ == tagged_bytes(file.fields()),
{
    let mut out: Vec<u8> = Vec::new();
    out.push(file.ext_len);
    crate::cipher::append_all(&mut out, file.ext.as_slice());
    crate::cipher::append_all(&mut out, file.iv.as_slice());
    crate::cipher::append_all(&mut out, file.ciphertext.as_slice());
    assert(out@ =~= tagged_bytes(file.fields()));
    out
}

/// Decrypts `text`, whole block by whole block, under `cipher`.
fn decrypt_blocks(cipher: &HaruhiCipher, text: &[u8]) -> (out: Vec<u8>)
    requires
        cipher.table() == eight_symbol_table(),
    ensures
        out@ == decrypted_text(cipher.seed_bytes(), text@),
{
    let len = text.len();
    let count = len / BLOCK_SIZE;
    let mut out: Vec<u8> = Vec::new();
    let mut b: usize = 0;
    while b < count
        invariant
            len == text@.len(),
            count == text@.len() / 8,
            b <= count,
            cipher.table() == eight_symbol_table(),
            out@ == decrypted_text(cipher.seed_bytes(), text@).subrange(0, (b * 8) as int),
        decreases count - b,
    {
        assert(b * 8 + 8 <= text@.len()) by (nonlinear_arith)
            requires
                b < count,
                count == text@.len() / 8,
        ;
        let block = copy_block(text, b * BLOCK_SIZE);
        assert(block@ =~= block_of(text@, b as int));
        let dec = cipher.decrypt_block(&block, b);
        crate::cipher::append_all(&mut out, dec.as_slice());
        proof {
            let full = decrypted_text(cipher.seed_bytes(), text@);
            assert forall|j: int| b * 8 <= j < b * 8 + 8 implies #[trigger] full[j] == dec@[j - b * 8] by {
                assert(j / 8 == b as int);
                assert(j % 8 == j - b * 8);
            }
            assert(out@ =~= full.subrange(0, ((b + 1) * 8) as int));
        }
        b += 1;
    }
    assert(decrypted_text(cipher.seed_bytes(), text@).subrange(0, (count * 8) as int)
        =~= decrypted_text(cipher.seed_bytes(), text@));
    out
}

/// An error message as a `String`.
fn message(text: &str) -> (s: String)
    ensures
        s@ == text@,
{
    let s = text.to_string();
    proof {
        vstd::string::to_string_from_display_ensures_for_str(text, s);
    }
    s
}

/// The cipher for `file` under `key`, and whether the file's tag is the one
/// the key gives for its other fields.
fn cipher_and_tag_check(key: &str, file: &EncryptedFile) -> (r: (HaruhiCipher, bool))
    ensures
        r.0.table() == eight_symbol_table(),
        r.0.seed_bytes() == derived_seed(key@),
        r.1 == (hmac_sha256_tag(derived_seed(key@), tagged_bytes(file.fields()))@ == file.fields().4),
{
    let cipher = HaruhiCipher::new(key, file.iv);
    let mac_data = tagged_input(file);
    let computed_mac = hmac_sha256(cipher.seed().as_slice(), mac_data.as_slice());
    let tag_ok = bytes_equal(computed_mac.as_slice(), file.mac.as_slice());
    (cipher, tag_ok)
}

/// Decrypts the whole blocks of a parsed file whose tag checks out and
/// removes the padding, returning the plaintext and the stored extension.
fn open_authentic(key: &str, data: &[u8], file: EncryptedFile, cipher: &HaruhiCipher) -> (res: Result<(Vec<u8>, String), String>)
    requires
        parses(data@),
        file.fields() == parse_fields(data@),
        cipher.table() == eight_symbol_table(),
        cipher.seed_bytes() == derived_seed(key@),
        tag_matches(key@, data@),
        file.ciphertext@.len() >= 8,
    ensures
        decrypt_outcome(res) == opened(key@, data@),
{
    let mut result = decrypt_blocks(cipher, file.ciphertext.as_slice());
    assert(result@ == recovered(key@, data@));
    assert(result@.len() >= 8) by (nonlinear_arith)
        requires
            result@.len() == (file.ciphertext@.len() / 8) * 8,
            file.ciphertext@.len() >= 8,
    ;
    let pad = result[result.len() - 1] as usize;
    if pad == 0 || pad > BLOCK_SIZE {
        return Err(message("Invalid padding"));
    }
    if result.len() < pad {
        return Err(message("Invalid padding length"));
    }
    let start = result.len() - pad;
    let mut i = start;
    let mut is_valid_padding = true;
    while i < result.len()
        invariant
            start <= i <= result@.len(),
            start == result@.len() - pad,
            1 <= pad <= 8,
            is_valid_padding == (forall|t: int| start <= t < i ==> result@[t] == pad),
        decreases result@.len() - i,
    {
        if result[i] != pad as u8 {
            is_valid_padding = false;
        }
        i += 1;
    }
    if !is_valid_padding {
        return Err(message("Invalid padding bytes"));
    }
    result.truncate(result.len() - pad);
    let ext = match string_from_utf8(file.ext) {
        Some(s) => s,
        None => message("bin"),
    };
    Ok((result, ext))
}

/// Opens a file written by `encrypt_data`: parses it, checks its tag with
/// the key, decrypts its whole blocks and removes the padding. Returns the
/// plaintext and the stored extension (`bin` when it is not UTF-8).
pub fn decrypt_data(key: &str, data: &[u8]) -> (res: Result<(Vec<u8>, String), String>)
    requires
        !fields_overrun_tag(data@),
        !authentic_without_block(key@, data@),
    ensures
        decrypt_outcome(res) == opened(key@, data@),
{
    let file = match EncryptedFile::from_bytes(data) {
        Ok(f) => f,
        Err(e) => {
            return Err(e);
        },
    };
    let (cipher, tag_ok) = cipher_and_tag_check(key, &file);
    if !tag_ok {
        return Err(message("Authentication failed: invalid key or corrupted data"));
    }
    open_authentic(key, data, file, &cipher)
}

/// Opens a file as `decrypt_data` does, but first tells apart the one input
/// on which `decrypt_data` cannot run, a file whose tag checks out yet
/// which holds no whole block: there it returns `None`. The file is parsed,
/// and its tag checked, once.
pub fn decrypt_data_checked(key: &str, data: &[u8]) -> (res: Option<Result<(Vec<u8>, String), String>>)
    requires
        !fields_overrun_tag(data@),
    ensures
        res is None <==> authentic_without_block(key@, data@),
        res matches Some(r) ==> decrypt_outcome(r) == opened(key@, data@),
{
    let file = match EncryptedFile::from_bytes(data) {
        Ok(f) => f,
        Err(e) => {
            return Some(Err(e));
        },
    };
    let (cipher, tag_ok) = cipher_and_tag_check(key, &file);
    if !tag_ok {
        return Some(Err(message("Authentication failed: invalid key or corrupted data")));
    }
    if file.ciphertext.len() < BLOCK_SIZE {
        return None;
    }
    Some(open_authentic(key, data, file, &cipher))
}


/// Reading back each block of a text of whole blocks through the
/// permutation that rearranged it gives the text.
proof fn lemma_decrypted_encrypted(seed: Seq<u8>, text: Seq<u8>)
    requires
        text.len() % 8 == 0,
    ensures
        decrypted_text(seed, encrypted_text(seed, text)) == text,
{
    let table = eight_symbol_table();
    lemma_eight_symbol_table();
    assert(valid_table(table));
    let enc = encrypted_text(seed, text);
    assert((text.len() / 8) * 8 == text.len()) by (nonlinear_arith)
        requires
            text.len() % 8 == 0,
    ;
    let dec = decrypted_text(seed, enc);
    assert forall|j: int| 0 <= j < text.len() implies #[trigger] dec[j] == text[j] by {
        let b = j / 8;
        let perm = block_permutation(table, seed, b as u64);
        let off = crate::cipher::table_offset(crate::cipher::block_hash(seed, b as u64), table.len());
        assert(0 <= off < table.len());
        assert(crate::superperm::is_permutation(perm, 8));
        let k = perm[j % 8] as int;
        assert(0 <= k < 8);
        assert(8 * b + 8 <= text.len()) by (nonlinear_arith)
            requires
                b == j / 8,
                0 <= j < text.len(),
                text.len() % 8 == 0,
        ;
        assert((8 * b + k) / 8 == b && (8 * b + k) % 8 == k) by (nonlinear_arith)
            requires
                0 <= k < 8,
        ;
        let blk = block_of(text, b);
        assert(block_of(enc, b) =~= scatter(perm, blk, 8)) by {
            crate::cipher::lemma_scatter_places_each_byte(perm, blk, 8, 0);
            assert forall|t: int| 0 <= t < 8 implies #[trigger] block_of(enc, b)[t] == scatter(
                perm,
                blk,
                8,
            )[t] by {
                assert((8 * b + t) / 8 == b && (8 * b + t) % 8 == t) by (nonlinear_arith)
                    requires
                        0 <= t < 8,
                ;
            }
        }
        lemma_gather_inverts_scatter(perm, blk);
        assert(j % 8 == j - 8 * b);
        assert(blk[j % 8] == text[j]);
    }
    assert(dec =~= text);
}

/// The padded plaintext is a whole number of blocks, ending in 1 to 8
/// bytes that each hold how many of them there are.
proof fn lemma_padding_shape(data: Seq<u8>)
    ensures
        padded(data).len() % 8 == 0,
        padded(data).len() >= 8,
        1 <= padding_len(data.len()) <= 8,
        padded(data).last() as int == padding_len(data.len()),
{
    let n = data.len();
    assert((n + padding_len(n)) % 8 == 0) by (nonlinear_arith)
        requires
            padding_len(n) == if n % 8 == 0 { 8 } else { 8 - n % 8 },
    ;
}

/// Opening what sealing wrote, with the same key, gives back the data and
/// the extension, whatever the IV, for any extension of at most 255 bytes;
/// and opening it never reaches an input on which it cannot run.
pub proof fn lemma_open_sealed(key: Seq<char>, data: Seq<u8>, ext: Seq<char>, iv: Seq<u8>)
    requires
        iv.len() == IV_SIZE,
        vstd::utf8::encode_utf8(ext).len() <= 255,
    ensures
        !fields_overrun_tag(sealed(key, data, vstd::utf8::encode_utf8(ext), iv)),
        !authentic_without_block(key, sealed(key, data, vstd::utf8::encode_utf8(ext), iv)),
        opened(key, sealed(key, data, vstd::utf8::encode_utf8(ext), iv)) == Ok::<(Seq<u8>, Seq<char>), Seq<char>>((data, ext)),
{
    let e = vstd::utf8::encode_utf8(ext);
    let f = sealed_fields(key, data, e, iv);
    let d = sealed(key, data, e, iv);
    let seed = derived_seed(key);
    lemma_layout_then_parse(f);
    assert(parse_fields(d) == f);
    let unsigned = (ext_len_byte(e), e, iv, f.3, Seq::<u8>::empty());
    assert(tagged_bytes(f) == tagged_bytes(unsigned));
    assert(tag_matches(key, d));
    lemma_padding_shape(data);
    lemma_decrypted_encrypted(seed, padded(data));
    let plain = recovered(key, d);
    assert(plain == padded(data));
    assert((padded(data).len() / 8) * 8 == padded(data).len()) by (nonlinear_arith)
        requires
            padded(data).len() % 8 == 0,
    ;
    assert(f.3.len() == padded(data).len());
    let pad = plain.last() as int;
    assert(pad == padding_len(data.len()));
    assert(!(exists|i: int| plain.len() - pad <= i < plain.len() && plain[i] != pad)) by {
        assert forall|i: int| plain.len() - pad <= i < plain.len() implies plain[i] == pad by {
            assert(plain[i] == padded(data)[i]);
        }
    }
    assert(plain.subrange(0, plain.len() - pad) =~= data);
    vstd::utf8::encode_utf8_valid_utf8(ext);
    vstd::utf8::encode_utf8_decode_utf8(ext);
    assert(ext_text(parse_fields(d).1) == ext);
}

/// Bytes `8b..8b+8` of a whole-block text, as a block: placing `j` of the
/// block is place `8b + j` of the text.
proof fn lemma_block_index(b: int, j: int)
    requires
        0 <= j < 8,
    ensures
        (8 * b + j) / 8 == b,
        (8 * b + j) % 8 == j,
{
    assert((8 * b + j) / 8 == b && (8 * b + j) % 8 == j) by (nonlinear_arith)
        requires
            0 <= j < 8,
    ;
}

/// The ciphertext that sealing writes is the padded data, block by block,
/// each block `b` rearranged as `encrypt_block` rearranges it at index `b`
/// under a cipher for the key: block `b` of the ciphertext is the
/// permutation of block `b` scattering block `b` of the padded data.
pub proof fn lemma_sealed_blocks_are_encrypted_blocks(
    key: Seq<char>,
    data: Seq<u8>,
    ext: Seq<u8>,
    iv: Seq<u8>,
    cipher: HaruhiCipher,
    b: int,
)
    requires
        cipher.table() == eight_symbol_table(),
        cipher.seed_bytes() == derived_seed(key),
        0 <= b < padded(data).len() / 8,
    ensures
        sealed_fields(key, data, ext, iv).3.len() == padded(data).len(),
        block_of(sealed_fields(key, data, ext, iv).3, b) == scatter(
            cipher.permutation_for(b as u64),
            block_of(padded(data), b),
            8,
        ),
{
    lemma_padding_shape(data);
    let text = padded(data);
    let ct = sealed_fields(key, data, ext, iv).3;
    assert(ct == encrypted_text(derived_seed(key), text));
    assert((text.len() / 8) * 8 == text.len()) by (nonlinear_arith)
        requires
            text.len() % 8 == 0,
    ;
    assert(8 * b + 8 <= text.len()) by (nonlinear_arith)
        requires
            0 <= b < text.len() / 8,
            (text.len() / 8) * 8 == text.len(),
    ;
    assert forall|j: int| 0 <= j < 8 implies #[trigger] block_of(ct, b)[j] == scatter(
        cipher.permutation_for(b as u64),
        block_of(text, b),
        8,
    )[j] by {
        lemma_block_index(b, j);
    }
    let off = crate::cipher::table_offset(
        crate::cipher::block_hash(derived_seed(key), b as u64),
        eight_symbol_table().len(),
    );
    lemma_eight_symbol_table();
    assert(0 <= off < eight_symbol_table().len());
    assert(crate::superperm::is_permutation(cipher.permutation_for(b as u64), 8));
    crate::cipher::lemma_scatter_places_each_byte(cipher.permutation_for(b as u64), block_of(text, b), 8, 0);
    assert(block_of(ct, b) =~= scatter(cipher.permutation_for(b as u64), block_of(text, b), 8));
}

/// Opening a file reads each whole block `b` of its ciphertext back as
/// `decrypt_block` reads it at index `b` under a cipher for the key: block
/// `b` of the recovered text gathers block `b` of the ciphertext through the
/// permutation of block `b`.
pub proof fn lemma_opened_blocks_are_decrypted_blocks(
    key: Seq<char>,
    data: Seq<u8>,
    cipher: HaruhiCipher,
    b: int,
)
    requires
        cipher.table() == eight_symbol_table(),
        cipher.seed_bytes() == derived_seed(key),
        0 <= b < parse_fields(data).3.len() / 8,
    ensures
        recovered(key, data).len() == (parse_fields(data).3.len() / 8) * 8,
        block_of(recovered(key, data), b) == gather(
            cipher.permutation_for(b as u64),
            block_of(parse_fields(data).3, b),
        ),
{
    let ct = parse_fields(data).3;
    let rec = recovered(key, data);
    assert(8 * b + 8 <= (ct.len() / 8) * 8) by (nonlinear_arith)
        requires
            0 <= b < ct.len() / 8,
    ;
    assert forall|j: int| 0 <= j < 8 implies #[trigger] block_of(rec, b)[j] == gather(
        cipher.permutation_for(b as u64),
        block_of(ct, b),
    )[j] by {
        lemma_block_index(b, j);
    }
    assert(block_of(rec, b) =~= gather(cipher.permutation_for(b as u64), block_of(ct, b)));
}

} // verus!

//! The block cipher: each eight-byte block is rearranged by a permutation
//! that a SHA-256 hash of the key-derived seed and the block's index selects
//! from the table read out of the superpermutation of eight symbols.

use crate::primitives::{sha256, sha256_digest};
use crate::superperm::{
    extract_all_permutations, generate_superpermutation, is_permutation, permutation_table, rows,
    superpermutation,
};
use crate::superperm_laws::{
    lemma_eight_symbol_table, lemma_eight_symbol_table_size, lemma_permutation_covers,
};
use vstd::bytes::{
    lemma_auto_spec_u64_to_from_le_bytes, spec_u64_from_le_bytes, spec_u64_to_le_bytes,
    u64_from_le_bytes, u64_to_le_bytes,
};
use vstd::prelude::*;
use vstd::slice::slice_subrange;

verus! {

/// Size of a cipher block in bytes.
pub const BLOCK_SIZE: usize = 8;

/// Size of the nonce in bytes.
pub const NONCE_SIZE: usize = 16;

/// Size of the key-derived seed in bytes.
pub const KEY_SIZE: usize = 32;

/// The seed derived from a key: the SHA-256 hash of its UTF-8 bytes.
pub open spec fn derived_seed(key: Seq<char>) -> Seq<u8> {
    sha256_digest(vstd::utf8::encode_utf8(key))@
}

/// The hash that selects the permutation of block `index`: SHA-256 of the
/// seed followed by the index in eight little-endian bytes.
pub open spec fn block_hash(seed: Seq<u8>, index: u64) -> Seq<u8> {
    sha256_digest(seed + spec_u64_to_le_bytes(index))@
}

/// The table row a block hash selects: its first eight bytes read as a
/// little-endian number, taken modulo the number of rows.
pub open spec fn table_offset(hash: Seq<u8>, count: nat) -> int {
    ((spec_u64_from_le_bytes(hash.subrange(0, 8)) as usize) as int) % (count as int)
}

/// The permutation that rearranges block `index` under a table and a seed.
pub open spec fn block_permutation(table: Seq<Seq<u8>>, seed: Seq<u8>, index: u64) -> Seq<u8> {
    table[table_offset(block_hash(seed, index), table.len())]
}

/// Eight zero bytes with the first `k` bytes of `vals` written, in turn, to
/// the places that `perm` gives them.
pub open spec fn scatter(perm: Seq<u8>, vals: Seq<u8>, k: int) -> Seq<u8>
    decreases k,
{
    if k <= 0 {
        Seq::new(8, |_i: int| 0u8)
    } else {
        scatter(perm, vals, k - 1).update(perm[k - 1] as int, vals[k - 1])
    }
}

/// The eight bytes read from `vals` at the places that `perm` gives.
pub open spec fn gather(perm: Seq<u8>, vals: Seq<u8>) -> Seq<u8> {
    Seq::new(8, |i: int| vals[perm[i] as int])
}

/// A table a cipher can draw on: not empty, each row a permutation of
/// `0..8`.
pub open spec fn valid_table(table: Seq<Seq<u8>>) -> bool {
    &&& table.len() > 0
    &&& forall|r: int| 0 <= r < table.len() ==> is_permutation(#[trigger] table[r], 8)
}

/// The cipher state: the permutation table, the seed derived from the key,
/// and the nonce.
pub struct HaruhiCipher {
    permutations: Vec<[u8; 8]>,
    seed: [u8; 32],
    nonce: [u8; 16],
}

impl HaruhiCipher {
    /// The table is not empty and each row is a permutation of `0..8`.
    #[verifier::type_invariant]
    spec fn well_formed(self) -> bool {
        &&& self.permutations@.len() > 0
        &&& forall|r: int|
            0 <= r < self.permutations@.len() ==> is_permutation(
                #[trigger] self.permutations@[r]@,
                8,
            )
    }

    /// The permutation table.
    pub closed spec fn table(&self) -> Seq<Seq<u8>> {
        rows(self.permutations@)
    }

    /// The seed derived from the key.
    pub closed spec fn seed_bytes(&self) -> Seq<u8> {
        self.seed@
    }

    /// The nonce.
    pub closed spec fn nonce_bytes(&self) -> Seq<u8> {
        self.nonce@
    }

    /// The permutation of block `index` under this cipher.
    pub open spec fn permutation_for(&self, index: u64) -> Seq<u8> {
        block_permutation(self.table(), self.seed_bytes(), index)
    }

    /// A cipher for `key` and `nonce`: the seed is the SHA-256 hash of the
    /// key, and the table is read out of the superpermutation of eight
    /// symbols; it holds all 40320 permutations of `0..8`.
    pub fn new(key: &str, nonce: [u8; 16]) -> (cipher: Self)
        ensures
            cipher.table() == permutation_table(superpermutation(8)),
            cipher.table().len() == 40320,
            valid_table(cipher.table()),
            cipher.seed_bytes() == derived_seed(key@),
            cipher.seed_bytes() == sha256_digest(vstd::utf8::encode_utf8(key@))@,
            cipher.nonce_bytes() == nonce@,
    {
        let seed = sha256(key.as_bytes());
        let superperm = generate_superpermutation(8);
        let permutations = extract_all_permutations(superperm.as_slice());
        proof {
            lemma_eight_symbol_table();
            lemma_eight_symbol_table_size();
            assert forall|r: int| 0 <= r < permutations@.len() implies is_permutation(
                #[trigger] permutations@[r]@,
                8,
            ) by {
                assert(rows(permutations@)[r] == permutations@[r]@);
            }
        }
        HaruhiCipher { permutations, seed, nonce }
    }

    /// The seed derived from the key, which also keys the file's tag.
    pub(crate) fn seed(&self) -> (seed: &[u8; 32])
        ensures
            seed@ == self.seed_bytes(),
    {
        &self.seed
    }

    /// The permutation of block `block_index`: the table row at the first
    /// eight bytes of SHA-256(seed, index), read little-endian, modulo the
    /// number of rows.
    fn get_block_permutation(&self, block_index: u64) -> (perm: [u8; 8])
        ensures
            perm@ == self.permutation_for(block_index),
            is_permutation(perm@, 8),
    {
        proof {
            use_type_invariant(self);
        }
        let mut msg: Vec<u8> = Vec::new();
        append_all(&mut msg, self.seed.as_slice());
        let index_bytes = u64_to_le_bytes(block_index);
        append_all(&mut msg, index_bytes.as_slice());
        let hash = sha256(msg.as_slice());
        let hash_u64 = u64_from_le_bytes(slice_subrange(hash.as_slice(), 0, 8));
        let offset = (hash_u64 as usize) % self.permutations.len();
        let perm = self.permutations[offset];
        assert(perm@ == self.table()[offset as int]);
        perm
    }

    /// Encrypts block `block_index`: each byte goes to the place that the
    /// block's permutation gives it, `result[perm[i]] = block[i]`.
    pub fn encrypt_block(&self, block: &[u8; 8], block_index: usize) -> (out: [u8; 8])
        ensures
            out@ == scatter(self.permutation_for(block_index as u64), block@, 8),
            forall|i: int|
                0 <= i < 8 ==> out@[self.permutation_for(block_index as u64)[i] as int] == block@[i],
    {
        let perm = self.get_block_permutation(block_index as u64);
        let mut result = [0u8; 8];
        let mut i: usize = 0;
        assert(result@ =~= scatter(perm@, block@, 0));
        while i < 8
            invariant
                i <= 8,
                is_permutation(perm@, 8),
                result@ == scatter(perm@, block@, i as int),
            decreases 8 - i,
        {
            result[perm[i] as usize] = block[i];
            i += 1;
        }
        proof {
            assert forall|i: int| 0 <= i < 8 implies result@[perm@[i] as int] == block@[i] by {
                lemma_scatter_places_each_byte(perm@, block@, 8, i);
            }
        }
        result
    }

    /// Decrypts block `block_index`: each byte is read from the place that
    /// the block's permutation gives, `result[i] = block[perm[i]]`.
    pub fn decrypt_block(&self, block: &[u8; 8], block_index: usize) -> (out: [u8; 8])
        ensures
            out@ == gather(self.permutation_for(block_index as u64), block@),
    {
        let perm = self.get_block_permutation(block_index as u64);
        let mut result = [0u8; 8];
        let mut i: usize = 0;
        while i < 8
            invariant
                i <= 8,
                is_permutation(perm@, 8),
                forall|t: int| 0 <= t < i ==> result@[t] == block@[perm@[t] as int],
            decreases 8 - i,
        {
            result[i] = block[perm[i] as usize];
            i += 1;
        }
        assert(result@ =~= gather(perm@, block@));
        result
    }
}

/// Appends all of `src` to `dst`.
pub(crate) fn append_all(dst: &mut Vec<u8>, src: &[u8])
    ensures
        final(dst)@ == old(dst)@ + src@,
{
    let mut i: usize = 0;
    while i < src.len()
        invariant
            i <= src@.len(),
            dst@ == old(dst)@ + src@.subrange(0, i as int),
        decreases src@.len() - i,
    {
        dst.push(src[i]);
        assert(src@.subrange(0, i + 1) =~= src@.subrange(0, i as int).push(src@[i as int]));
        i += 1;
    }
    assert(src@.subrange(0, src@.len() as int) =~= src@);
}

/// Scattering places the `i`-th byte at the place the permutation gives
/// it: when `perm` is a permutation, no later byte overwrites an earlier
/// one.
pub proof fn lemma_scatter_places_each_byte(perm: Seq<u8>, vals: Seq<u8>, k: int, i: int)
    requires
        is_permutation(perm, 8),
        0 <= i < k <= 8,
    ensures
        scatter(perm, vals, k)[perm[i] as int] == vals[i],
        scatter(perm, vals, k).len() == 8,
    decreases k,
{
    lemma_scatter_len(perm, vals, k);
    lemma_scatter_len(perm, vals, k - 1);
    if i < k - 1 {
        lemma_scatter_places_each_byte(perm, vals, k - 1, i);
        assert(perm[i] != perm[k - 1]);
    }
}

proof fn lemma_scatter_len(perm: Seq<u8>, vals: Seq<u8>, k: int)
    requires
        is_permutation(perm, 8),
        k <= 8,
    ensures
        scatter(perm, vals, k).len() == 8,
    decreases k,
{
    if k > 0 {
        lemma_scatter_len(perm, vals, k - 1);
    }
}

/// Reading back through a permutation what was scattered through it gives
/// the original eight bytes.
pub proof fn lemma_gather_inverts_scatter(perm: Seq<u8>, vals: Seq<u8>)
    requires
        is_permutation(perm, 8),
        vals.len() == 8,
    ensures
        gather(perm, scatter(perm, vals, 8)) == vals,
{
    assert forall|i: int| 0 <= i < 8 implies #[trigger] gather(perm, scatter(perm, vals, 8))[i] == vals[i] by {
        lemma_scatter_places_each_byte(perm, vals, 8, i);
    }
    assert(gather(perm, scatter(perm, vals, 8)) =~= vals);
}

/// Decrypting a block that was encrypted under the same cipher and index
/// gives the block back.
pub proof fn lemma_decrypt_block_inverts_encrypt_block(cipher: HaruhiCipher, block: Seq<u8>, index: u64)
    requires
        valid_table(cipher.table()),
        block.len() == 8,
    ensures
        gather(cipher.permutation_for(index), scatter(cipher.permutation_for(index), block, 8)) == block,
{
    let off = table_offset(block_hash(cipher.seed_bytes(), index), cipher.table().len());
    assert(0 <= off < cipher.table().len());
    assert(is_permutation(cipher.table()[off], 8));
    lemma_gather_inverts_scatter(cipher.permutation_for(index), block);
}

/// Scattering through a permutation what was read back through it gives
/// the original eight bytes.
pub proof fn lemma_scatter_inverts_gather(perm: Seq<u8>, vals: Seq<u8>)
    requires
        is_permutation(perm, 8),
        vals.len() == 8,
    ensures
        scatter(perm, gather(perm, vals), 8) == vals,
{
    let out = scatter(perm, gather(perm, vals), 8);
    lemma_scatter_len(perm, gather(perm, vals), 8);
    assert forall|q: int| 0 <= q < 8 implies #[trigger] out[q] == vals[q] by {
        lemma_permutation_covers(perm, 8, q);
        let i = choose|i: int| 0 <= i < perm.len() && perm[i] == q as u8;
        lemma_scatter_places_each_byte(perm, gather(perm, vals), 8, i);
    }
    assert(out =~= vals);
}

/// Encrypting a block that was decrypted under the same cipher and index
/// gives the block back.
pub proof fn lemma_encrypt_block_inverts_decrypt_block(cipher: HaruhiCipher, block: Seq<u8>, index: u64)
    requires
        valid_table(cipher.table()),
        block.len() == 8,
    ensures
        scatter(cipher.permutation_for(index), gather(cipher.permutation_for(index), block), 8) == block,
{
    let off = table_offset(block_hash(cipher.seed_bytes(), index), cipher.table().len());
    assert(0 <= off < cipher.table().len());
    assert(is_permutation(cipher.table()[off], 8));
    lemma_scatter_inverts_gather(cipher.permutation_for(index), block);
}

/// The seed is the SHA-256 digest of the key's whole UTF-8 encoding: two
/// keys get the same seed exactly when their complete encodings have the
/// same digest.
pub proof fn lemma_seed_is_digest_of_whole_key(key: Seq<char>, other: Seq<char>)
    ensures
        derived_seed(key) == sha256_digest(vstd::utf8::encode_utf8(key))@,
        (derived_seed(key) == derived_seed(other)) <==> (sha256_digest(vstd::utf8::encode_utf8(key))@
            == sha256_digest(vstd::utf8::encode_utf8(other))@),
{
}

/// Block `index` is rearranged by the table row that the first eight bytes,
/// read little-endian, of SHA-256 over the seed followed by the eight
/// little-endian bytes of `index` select, modulo the number of rows; and the
/// eight bytes hashed after the seed read back as `index` itself, so no two
/// indices are hashed alike.
pub proof fn lemma_block_permutation_is_selected_by_index_hash(cipher: HaruhiCipher, index: u64, other: u64)
    requires
        cipher.table().len() > 0,
    ensures
        ({
            let msg = cipher.seed_bytes() + spec_u64_to_le_bytes(index);
            let digest = sha256_digest(msg)@;
            let row = ((spec_u64_from_le_bytes(digest.subrange(0, 8)) as usize) as int) % (
            cipher.table().len() as int);
            &&& 0 <= row < cipher.table().len()
            &&& cipher.permutation_for(index) == cipher.table()[row]
            &&& msg.len() == cipher.seed_bytes().len() + 8
            &&& spec_u64_from_le_bytes(
                msg.subrange(cipher.seed_bytes().len() as int, msg.len() as int),
            ) == index
        }),
        index != other ==> cipher.seed_bytes() + spec_u64_to_le_bytes(index) != cipher.seed_bytes()
            + spec_u64_to_le_bytes(other),
{
    lemma_auto_spec_u64_to_from_le_bytes();
    let seed = cipher.seed_bytes();
    let msg = seed + spec_u64_to_le_bytes(index);
    assert(msg.subrange(seed.len() as int, msg.len() as int) =~= spec_u64_to_le_bytes(index));
    if index != other {
        let msg2 = seed + spec_u64_to_le_bytes(other);
        assert(msg2.subrange(seed.len() as int, msg2.len() as int) =~= spec_u64_to_le_bytes(other));
        if msg == msg2 {
            assert(spec_u64_to_le_bytes(index) == spec_u64_to_le_bytes(other));
        }
    }
}

} // verus!

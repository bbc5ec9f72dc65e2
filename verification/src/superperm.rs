//! Permutations of `0..n`, a superpermutation merged from them by longest
//! overlaps, and the table of distinct permutations of eight symbols read
//! back out of a superpermutation's windows.

use std::collections::HashSet;
use vstd::prelude::*;

verus! {

/// The byte strings held in a vector of vectors.
pub open spec fn lists(v: Seq<Vec<u8>>) -> Seq<Seq<u8>> {
    v.map_values(|x: Vec<u8>| x@)
}

/// `p` lists each of the symbols `0..n` exactly once.
pub open spec fn is_permutation(p: Seq<u8>, n: nat) -> bool {
    &&& p.len() == n
    &&& forall|i: int| 0 <= i < p.len() ==> p[i] < n
    &&& forall|i: int, j: int| 0 <= i < j < p.len() ==> p[i] != p[j]
}

/// The permutations the insertion generator lists, in its order, when it
/// grows `cur` to length `n`: the next symbol, `cur.len()`, goes in at each
/// position `0..=cur.len()` in turn, and each of those is grown in full
/// before the next position is tried.
pub open spec fn perms_from(n: u8, cur: Seq<u8>) -> Seq<Seq<u8>>
    decreases n - cur.len(), cur.len() + 2,
{
    if cur.len() >= n {
        seq![cur]
    } else {
        insertions(n, cur, cur.len() + 1)
    }
}

/// What the generator lists for the first `k` insertion positions of the
/// next symbol into `cur`.
pub open spec fn insertions(n: u8, cur: Seq<u8>, k: nat) -> Seq<Seq<u8>>
    decreases n - cur.len(), k,
{
    if k == 0 || cur.len() >= n || k > cur.len() + 1 {
        seq![]
    } else {
        insertions(n, cur, (k - 1) as nat) + perms_from(n, cur.insert(k - 1, cur.len() as u8))
    }
}

/// Appends to `results` every permutation of `0..n` that grows from
/// `current`, in the generator's order.
pub fn generate_permutations_recursive(n: u8, current: &mut Vec<u8>, results: &mut Vec<Vec<u8>>)
    requires
        old(current)@.len() <= n,
    ensures
        final(current)@ == old(current)@,
        lists(final(results)@) == lists(old(results)@) + perms_from(n, old(current)@),
    decreases n - old(current)@.len(),
{
    if current.len() == n as usize {
        let copy = current.clone();
        assert(copy@ =~= current@);
        results.push(copy);
        assert(lists(results@) =~= lists(old(results)@) + perms_from(n, current@));
        return;
    }
    let len = current.len();
    let mut i: usize = 0;
    assert(lists(results@) =~= lists(old(results)@) + insertions(n, current@, 0));
    while i <= len
        invariant
            len == current@.len(),
            len < n,
            i <= len + 1,
            current@ == old(current)@,
            lists(results@) == lists(old(results)@) + insertions(n, current@, i as nat),
        decreases len + 1 - i,
    {
        let mut next = current.clone();
        assert(next@ =~= current@);
        next.insert(i, len as u8);
        generate_permutations_recursive(n, &mut next, results);
        assert(lists(results@) =~= lists(old(results)@) + insertions(n, current@, (i + 1) as nat));
        i += 1;
    }
}

/// Inserting the next symbol anywhere into a permutation gives a
/// permutation of one more symbol.
pub proof fn lemma_insert_keeps_permutation(p: Seq<u8>, i: int)
    requires
        is_permutation(p, p.len()),
        0 <= i <= p.len(),
        p.len() < 256,
    ensures
        is_permutation(p.insert(i, p.len() as u8), p.len() + 1),
{
    let q = p.insert(i, p.len() as u8);
    assert forall|a: int, b: int| 0 <= a < b < q.len() implies q[a] != q[b] by {
        if a < i && b < i {
        } else if a < i && b == i {
        } else if a < i {
            assert(q[b] == p[b - 1]);
        } else if a == i {
            assert(q[b] == p[b - 1]);
        } else {
            assert(q[a] == p[a - 1] && q[b] == p[b - 1]);
        }
    }
}

/// Every entry the generator lists is a permutation of `0..n`, and it lists
/// at least one.
pub proof fn lemma_perms_from_sound(n: u8, cur: Seq<u8>)
    requires
        is_permutation(cur, cur.len()),
        cur.len() <= n,
    ensures
        perms_from(n, cur).len() > 0,
        forall|j: int|
            0 <= j < perms_from(n, cur).len() ==> is_permutation(
                #[trigger] perms_from(n, cur)[j],
                n as nat,
            ),
    decreases n - cur.len(), cur.len() + 2,
{
    if cur.len() < n {
        lemma_insertions_sound(n, cur, cur.len() + 1);
    }
}

proof fn lemma_insertions_sound(n: u8, cur: Seq<u8>, k: nat)
    requires
        is_permutation(cur, cur.len()),
        cur.len() < n,
        k <= cur.len() + 1,
    ensures
        k > 0 ==> insertions(n, cur, k).len() > 0,
        forall|j: int|
            0 <= j < insertions(n, cur, k).len() ==> is_permutation(
                #[trigger] insertions(n, cur, k)[j],
                n as nat,
            ),
    decreases n - cur.len(), k,
{
    if k > 0 {
        let next = cur.insert(k - 1, cur.len() as u8);
        lemma_insertions_sound(n, cur, (k - 1) as nat);
        lemma_insert_keeps_permutation(cur, k - 1);
        lemma_perms_from_sound(n, next);
        let left = insertions(n, cur, (k - 1) as nat);
        let right = perms_from(n, next);
        assert forall|j: int| 0 <= j < insertions(n, cur, k).len() implies is_permutation(
            #[trigger] insertions(n, cur, k)[j],
            n as nat,
        ) by {
            if j < left.len() {
                assert(insertions(n, cur, k)[j] == left[j]);
            } else {
                assert(insertions(n, cur, k)[j] == right[j - left.len()]);
            }
        }
    }
}


/// `a` ends with the first `k` symbols of `b`.
pub open spec fn ends_with_prefix(a: Seq<u8>, b: Seq<u8>, k: int) -> bool {
    &&& 0 <= k <= a.len()
    &&& k <= b.len()
    &&& a.subrange(a.len() - k, a.len() as int) == b.subrange(0, k)
}

/// The largest `j` in `1..=k` for which `a` ends with the first `j` symbols
/// of `b`, or 0 when there is none.
pub open spec fn overlap_upto(a: Seq<u8>, b: Seq<u8>, k: int) -> int
    decreases k,
{
    if k <= 0 {
        0
    } else if ends_with_prefix(a, b, k) {
        k
    } else {
        overlap_upto(a, b, k - 1)
    }
}

/// The longest overlap of the end of `a` with the start of `b`.
pub open spec fn overlap(a: Seq<u8>, b: Seq<u8>) -> int {
    overlap_upto(a, b, if a.len() < b.len() { a.len() as int } else { b.len() as int })
}

/// The overlap is the largest length at which the end of `a` meets the
/// start of `b`, within the shorter of the two, or 0 when none meets.
pub proof fn lemma_overlap_is_longest(a: Seq<u8>, b: Seq<u8>, k: int)
    requires
        0 <= k <= a.len(),
        k <= b.len(),
    ensures
        0 <= overlap_upto(a, b, k) <= k,
        overlap_upto(a, b, k) > 0 ==> ends_with_prefix(a, b, overlap_upto(a, b, k)),
        forall|j: int| overlap_upto(a, b, k) < j <= k ==> !ends_with_prefix(a, b, j),
    decreases k,
{
    if k > 0 && !ends_with_prefix(a, b, k) {
        lemma_overlap_is_longest(a, b, k - 1);
    }
}

/// Whether `a` ends with the first `k` bytes of `b`.
fn suffix_matches_prefix(a: &[u8], b: &[u8], k: usize) -> (r: bool)
    requires
        k <= a@.len(),
        k <= b@.len(),
    ensures
        r == ends_with_prefix(a@, b@, k as int),
{
    let start = a.len() - k;
    let mut i: usize = 0;
    while i < k
        invariant
            start == a@.len() - k,
            a@.len() <= usize::MAX,
            k <= a@.len(),
            k <= b@.len(),
            i <= k,
            forall|j: int| 0 <= j < i ==> a@[start + j] == b@[j],
        decreases k - i,
    {
        if a[start + i] != b[i] {
            assert(a@.subrange(start as int, a@.len() as int)[i as int] != b@.subrange(0, k as int)[i as int]);
            return false;
        }
        i += 1;
    }
    assert(a@.subrange(start as int, a@.len() as int) =~= b@.subrange(0, k as int));
    true
}

/// The length of the longest end of `superperm` that `next_perm` starts
/// with, trying lengths from the shorter slice's length down to 1.
pub fn find_overlap(superperm: &[u8], next_perm: &[u8]) -> (r: usize)
    ensures
        r == overlap(superperm@, next_perm@),
        r <= superperm@.len(),
        r <= next_perm@.len(),
        r > 0 ==> ends_with_prefix(superperm@, next_perm@, r as int),
        forall|j: int|
            r < j <= superperm@.len() && j <= next_perm@.len() ==> !ends_with_prefix(
                superperm@,
                next_perm@,
                j,
            ),
{
    let max_overlap = if superperm.len() < next_perm.len() {
        superperm.len()
    } else {
        next_perm.len()
    };
    proof {
        lemma_overlap_is_longest(superperm@, next_perm@, max_overlap as int);
    }
    let mut len: usize = max_overlap;
    while len >= 1
        invariant
            len <= max_overlap,
            max_overlap == if superperm@.len() < next_perm@.len() {
                superperm@.len()
            } else {
                next_perm@.len()
            },
            overlap_upto(superperm@, next_perm@, max_overlap as int) == overlap_upto(
                superperm@,
                next_perm@,
                len as int,
            ),
        decreases len,
    {
        if suffix_matches_prefix(superperm, next_perm, len) {
            proof {
                lemma_overlap_is_longest(superperm@, next_perm@, max_overlap as int);
            }
            return len;
        }
        len -= 1;
    }
    0
}

/// A permutation written over the symbols `1..=n` in place of `0..n`.
pub open spec fn shifted(p: Seq<u8>) -> Seq<u8> {
    p.map_values(|x: u8| (x + 1) as u8)
}

/// What the merge appends for `p` after `acc`: the rest of `p` past the
/// longest overlap of the end of `acc` with the start of `p`.
pub open spec fn joint(acc: Seq<u8>, p: Seq<u8>) -> Seq<u8> {
    p.skip(overlap(acc, p))
}

/// The string that the merge builds from the first `k` entries of `ps`.
pub open spec fn merge_prefix(ps: Seq<Seq<u8>>, k: int) -> Seq<u8>
    decreases k,
{
    if k <= 0 {
        seq![]
    } else {
        let acc = merge_prefix(ps, k - 1);
        acc + joint(acc, ps[k - 1])
    }
}

/// The generator's permutations of `0..n`, each over the symbols `1..=n`.
pub open spec fn shifted_perms(n: u8) -> Seq<Seq<u8>> {
    perms_from(n, seq![]).map_values(|p: Seq<u8>| shifted(p))
}

/// The superpermutation built for `n` symbols: `[1]` for one symbol, and
/// otherwise the merge of all the generator's permutations, in its order,
/// over the symbols `1..=n`, each overlapping the string built so far as far
/// as it can.
pub open spec fn superpermutation(n: usize) -> Seq<u8> {
    if n == 1 {
        seq![1u8]
    } else {
        merge_prefix(shifted_perms(n as u8), shifted_perms(n as u8).len() as int)
    }
}

/// Appends `src[from..]` to `dst`.
fn append_from(dst: &mut Vec<u8>, src: &[u8], from: usize)
    requires
        from <= src@.len(),
    ensures
        final(dst)@ == old(dst)@ + src@.skip(from as int),
{
    let mut i = from;
    while i < src.len()
        invariant
            from <= i <= src@.len(),
            dst@ == old(dst)@ + src@.subrange(from as int, i as int),
        decreases src@.len() - i,
    {
        dst.push(src[i]);
        assert(src@.subrange(from as int, i + 1) =~= src@.subrange(from as int, i as int).push(src@[i as int]));
        i += 1;
    }
    assert(src@.subrange(from as int, src@.len() as int) =~= src@.skip(from as int));
}

/// Builds a superpermutation of `n` symbols, written `1..=n`: the
/// generator's permutations are appended in turn, each overlapping the
/// string built so far by the longest end of it that the permutation starts
/// with.
pub fn generate_superpermutation(n: usize) -> (superperm: Vec<u8>)
    ensures
        superperm@ == superpermutation(n),
{
    if n == 1 {
        let one = vec![1u8];
        assert(one@ =~= seq![1u8]);
        return one;
    }
    let width: u8 = n as u8;
    let mut superperm: Vec<u8> = Vec::new();
    let mut permutations: Vec<Vec<u8>> = Vec::new();
    let mut start: Vec<u8> = Vec::new();
    generate_permutations_recursive(width, &mut start, &mut permutations);
    let ghost ps = shifted_perms(width);
    proof {
        assert(lists(permutations@) =~= perms_from(width, seq![]));
        assert(is_permutation(Seq::<u8>::empty(), 0));
        lemma_perms_from_sound(width, seq![]);
    }
    let mut i: usize = 0;
    while i < permutations.len()
        invariant
            i <= permutations@.len(),
            width == n as u8,
            lists(permutations@) == perms_from(width, seq![]),
            ps == shifted_perms(width),
            forall|j: int|
                0 <= j < perms_from(width, seq![]).len() ==> is_permutation(
                    #[trigger] perms_from(width, seq![])[j],
                    width as nat,
                ),
            superperm@ == merge_prefix(ps, i as int),
        decreases permutations@.len() - i,
    {
        let perm = &permutations[i];
        assert(perm@ == perms_from(width, seq![])[i as int]);
        let mut perm_bytes: Vec<u8> = Vec::new();
        let mut j: usize = 0;
        while j < perm.len()
            invariant
                j <= perm@.len(),
                is_permutation(perm@, width as nat),
                perm_bytes@ == shifted(perm@).subrange(0, j as int),
            decreases perm@.len() - j,
        {
            perm_bytes.push(perm[j] + 1);
            assert(perm_bytes@ =~= shifted(perm@).subrange(0, j + 1));
            j += 1;
        }
        assert(perm_bytes@ =~= shifted(perm@));
        assert(perm_bytes@ == ps[i as int]);
        let suffix = find_overlap(&superperm, &perm_bytes);
        append_from(&mut superperm, &perm_bytes, suffix);
        assert(superperm@ =~= merge_prefix(ps, i + 1));
        i += 1;
    }
    superperm
}

/// A window of eight symbols, each in `1..=8`, no two alike.
pub open spec fn is_valid_window(w: Seq<u8>) -> bool {
    &&& w.len() == 8
    &&& forall|i: int| 0 <= i < 8 ==> 1 <= #[trigger] w[i] <= 8
    &&& forall|i: int, j: int| 0 <= i < j < 8 ==> w[i] != w[j]
}

/// A window over `1..=8` written back over `0..8`.
pub open spec fn unshifted(w: Seq<u8>) -> Seq<u8> {
    w.map_values(|x: u8| (x - 1) as u8)
}

/// The eight symbols of `s` that start at position `t`.
pub open spec fn window_at(s: Seq<u8>, t: int) -> Seq<u8> {
    s.subrange(t, t + 8)
}

/// The table read from the first `m` windows of `s`: each valid window,
/// written over `0..8`, is added the first time it is met.
pub open spec fn table_upto(s: Seq<u8>, m: int) -> Seq<Seq<u8>>
    decreases m,
{
    if m <= 0 {
        seq![]
    } else {
        let prev = table_upto(s, m - 1);
        let w = window_at(s, m - 1);
        if is_valid_window(w) && !prev.contains(unshifted(w)) {
            prev.push(unshifted(w))
        } else {
            prev
        }
    }
}

/// The number of eight-symbol windows that end within the first `i`
/// symbols of a string.
pub open spec fn windows_in(i: int) -> int {
    if i < 8 {
        0
    } else {
        i - 7
    }
}

/// The distinct permutations of eight symbols that occur as windows of
/// `s`, written over `0..8`, in the order in which each first occurs.
pub open spec fn permutation_table(s: Seq<u8>) -> Seq<Seq<u8>> {
    table_upto(s, windows_in(s.len() as int))
}

/// The rows of a table of eight-byte arrays.
pub open spec fn rows(v: Seq<[u8; 8]>) -> Seq<Seq<u8>> {
    v.map_values(|a: [u8; 8]| a@)
}

/// The decimal number whose digits are the first `k` symbols of `w`.
pub open spec fn digits_key(w: Seq<u8>, k: int) -> int
    decreases k,
{
    if k <= 0 {
        0
    } else {
        digits_key(w, k - 1) * 10 + w[k - 1]
    }
}

/// `10` to the power `k`.
pub open spec fn key_limit(k: int) -> int
    decreases k,
{
    if k <= 0 {
        1
    } else {
        10 * key_limit(k - 1)
    }
}

proof fn lemma_digits_key_bound(w: Seq<u8>, k: int)
    requires
        0 <= k <= w.len(),
        forall|i: int| 0 <= i < k ==> #[trigger] w[i] <= 9,
    ensures
        0 <= digits_key(w, k) < key_limit(k),
    decreases k,
{
    if k > 0 {
        lemma_digits_key_bound(w, k - 1);
    }
}

/// Two strings of digits `0..=9` with the same decimal value over their
/// first `k` places agree on those places.
proof fn lemma_digits_key_injective(a: Seq<u8>, b: Seq<u8>, k: int)
    requires
        0 <= k <= a.len(),
        k <= b.len(),
        forall|i: int| 0 <= i < k ==> #[trigger] a[i] <= 9,
        forall|i: int| 0 <= i < k ==> #[trigger] b[i] <= 9,
        digits_key(a, k) == digits_key(b, k),
    ensures
        a.subrange(0, k) == b.subrange(0, k),
    decreases k,
{
    if k > 0 {
        assert(a[k - 1] == b[k - 1]);
        lemma_digits_key_injective(a, b, k - 1);
        assert(a.subrange(0, k) =~= a.subrange(0, k - 1).push(a[k - 1]));
        assert(b.subrange(0, k) =~= b.subrange(0, k - 1).push(b[k - 1]));
    }
}

/// The decimal key of a table row: its symbols over `1..=8` read as digits.
pub open spec fn row_key(p: Seq<u8>) -> int {
    digits_key(shifted(p), 8)
}

/// Every row the table holds is a permutation of `0..8`, and no row is
/// there twice.
pub proof fn lemma_table_rows(s: Seq<u8>, m: int)
    requires
        m <= windows_in(s.len() as int),
    ensures
        forall|r: int|
            0 <= r < table_upto(s, m).len() ==> is_permutation(#[trigger] table_upto(s, m)[r], 8),
        forall|r: int, q: int|
            0 <= r < q < table_upto(s, m).len() ==> table_upto(s, m)[r] != table_upto(s, m)[q],
    decreases m,
{
    if m > 0 {
        lemma_table_rows(s, m - 1);
        let prev = table_upto(s, m - 1);
        let w = window_at(s, m - 1);
        if is_valid_window(w) && !prev.contains(unshifted(w)) {
            let u = unshifted(w);
            assert forall|i: int, j: int| 0 <= i < j < u.len() implies u[i] != u[j] by {
                assert(w[i] != w[j]);
            }
            assert(is_permutation(u, 8));
            assert forall|r: int, q: int|
                0 <= r < q < table_upto(s, m).len() implies table_upto(s, m)[r] != table_upto(
                s,
                m,
            )[q] by {
                if q == prev.len() {
                    assert(prev[r] == table_upto(s, m)[r]);
                    if prev[r] == u {
                        assert(prev.contains(u));
                    }
                }
            }
        }
    }
}

/// The table keeps every row it has, as more windows are read.
pub proof fn lemma_table_grows(s: Seq<u8>, m: int, m2: int)
    requires
        m <= m2,
    ensures
        table_upto(s, m).len() <= table_upto(s, m2).len(),
        forall|r: int|
            0 <= r < table_upto(s, m).len() ==> table_upto(s, m2)[r] == #[trigger] table_upto(
                s,
                m,
            )[r],
    decreases m2 - m,
{
    if m < m2 {
        lemma_table_grows(s, m, m2 - 1);
    }
}

/// Whether the eight symbols of `w` are each in `1..=8`, no two alike.
fn window_is_valid(w: &Vec<u8>) -> (valid: bool)
    requires
        w@.len() == 8,
    ensures
        valid == is_valid_window(w@),
{
    let mut check = [false; 8];
    let mut i: usize = 0;
    while i < 8
        invariant
            w@.len() == 8,
            i <= 8,
            forall|t: int| 0 <= t < i ==> 1 <= #[trigger] w@[t] <= 8,
            forall|t: int, u: int| 0 <= t < u < i ==> w@[t] != w@[u],
            forall|v: int|
                0 <= v < 8 ==> (check@[v] <==> exists|t: int| 0 <= t < i && #[trigger] w@[t] == v + 1),
        decreases 8 - i,
    {
        let v = w[i];
        if v < 1 || v > 8 {
            return false;
        }
        if check[(v - 1) as usize] {
            proof {
                let t = choose|t: int| 0 <= t < i && #[trigger] w@[t] == v - 1 + 1;
                assert(w@[t] == w@[i as int]);
            }
            return false;
        }
        check[(v - 1) as usize] = true;
        i += 1;
    }
    true
}

/// The decimal value of the eight digits of `w`.
fn window_key(w: &[u8]) -> (key: u64)
    requires
        w@.len() == 8,
        forall|i: int| 0 <= i < 8 ==> #[trigger] w@[i] <= 9,
    ensures
        key == digits_key(w@, 8),
{
    let mut acc: u64 = 0;
    let mut i: usize = 0;
    proof {
        lemma_digits_key_bound(w@, 8);
        assert(key_limit(8) == 100_000_000) by {
            reveal_with_fuel(key_limit, 9);
        }
    }
    while i < 8
        invariant
            w@.len() == 8,
            i <= 8,
            forall|t: int| 0 <= t < 8 ==> #[trigger] w@[t] <= 9,
            acc == digits_key(w@, i as int),
            acc < key_limit(i as int),
            key_limit(8) == 100_000_000,
        decreases 8 - i,
    {
        proof {
            lemma_digits_key_bound(w@, i + 1);
            lemma_key_limit_monotone(i + 1, 8);
        }
        acc = acc * 10 + w[i] as u64;
        i += 1;
    }
    acc
}

/// Powers of ten grow with the exponent and are at least 1.
proof fn lemma_key_limit_monotone(a: int, b: int)
    requires
        0 <= a <= b,
    ensures
        1 <= key_limit(a) <= key_limit(b),
    decreases b,
{
    if a < b {
        lemma_key_limit_monotone(a, b - 1);
    } else if a > 0 {
        lemma_key_limit_monotone(a - 1, a - 1);
    }
}

/// A table row and a valid window have the same decimal key exactly when
/// the row is the window written over `0..8`.
proof fn lemma_row_key_matches(p: Seq<u8>, w: Seq<u8>)
    requires
        is_permutation(p, 8),
        is_valid_window(w),
    ensures
        (row_key(p) == digits_key(w, 8)) <==> (p == unshifted(w)),
{
    let sp = shifted(p);
    if row_key(p) == digits_key(w, 8) {
        assert forall|i: int| 0 <= i < 8 implies #[trigger] sp[i] <= 9 by {
            assert(p[i] < 8);
        }
        lemma_digits_key_injective(sp, w, 8);
        assert(sp.subrange(0, 8) == sp);
        assert(w.subrange(0, 8) == w);
        assert forall|i: int| 0 <= i < 8 implies p[i] == unshifted(w)[i] by {
            assert(sp[i] == w[i]);
            assert(p[i] < 8);
        }
        assert(p =~= unshifted(w));
    }
    if p == unshifted(w) {
        assert forall|i: int| 0 <= i < 8 implies sp[i] == w[i] by {
            assert(1 <= w[i] <= 8);
        }
        assert(sp =~= w);
    }
}

/// Whether no two of the eight symbols of `arr`, all below 8, are alike.
fn row_is_permutation(arr: &[u8; 8]) -> (valid: bool)
    requires
        forall|i: int| 0 <= i < 8 ==> #[trigger] arr@[i] < 8,
    ensures
        valid == (forall|i: int, j: int| 0 <= i < j < 8 ==> arr@[i] != arr@[j]),
{
    let mut check = [false; 8];
    let mut i: usize = 0;
    while i < 8
        invariant
            i <= 8,
            forall|t: int| 0 <= t < 8 ==> #[trigger] arr@[t] < 8,
            forall|t: int, u: int| 0 <= t < u < i ==> arr@[t] != arr@[u],
            forall|v: int|
                0 <= v < 8 ==> (check@[v] <==> exists|t: int| 0 <= t < i && #[trigger] arr@[t] == v),
        decreases 8 - i,
    {
        let v = arr[i];
        if check[v as usize] {
            proof {
                let t = choose|t: int| 0 <= t < i && #[trigger] arr@[t] == v;
                assert(arr@[t] == arr@[i as int]);
            }
            return false;
        }
        check[v as usize] = true;
        i += 1;
    }
    true
}

/// Reads the permutation table out of `superperm`: every window of eight
/// symbols that holds each of `1..=8` once is written over `0..8` and added
/// the first time it occurs. The table is then padded, while it is short of
/// `8!` rows, with rows whose symbols are the octal digits of the table's
/// length; the first such row (its top two digits both 0) is never a
/// permutation, so the padding stops at once and adds nothing.
pub fn extract_all_permutations(superperm: &[u8]) -> (permutations: Vec<[u8; 8]>)
    ensures
        rows(permutations@) == permutation_table(superperm@),
{
    broadcast use vstd::std_specs::hash::group_hash_axioms;

    let mut permutations: Vec<[u8; 8]> = Vec::new();
    let mut seen: HashSet<u64> = HashSet::new();
    let mut current: Vec<u8> = Vec::with_capacity(8);
    let ghost s = superperm@;
    assert(rows(permutations@) =~= table_upto(s, 0));
    let mut j: usize = 0;
    while j < superperm.len()
        invariant
            s == superperm@,
            j <= s.len(),
            current@ == s.subrange(if j < 7 { 0 } else { j - 7 }, j as int),
            rows(permutations@) == table_upto(s, windows_in(j as int)),
            forall|k: u64|
                seen@.contains(k) ==> exists|r: int|
                    0 <= r < permutations@.len() && row_key(#[trigger] permutations@[r]@) == k,
            forall|r: int|
                0 <= r < permutations@.len() ==> seen@.contains(
                    row_key(#[trigger] permutations@[r]@) as u64,
                ),
            forall|r: int|
                0 <= r < permutations@.len() ==> 0 <= row_key(#[trigger] permutations@[r]@)
                    < 100_000_000,
        decreases s.len() - j,
    {
        let byte = superperm[j];
        current.push(byte);
        let ghost table = rows(permutations@);
        if current.len() == 8 {
            let ghost w = current@;
            assert(w == window_at(s, j - 7));
            assert(windows_in(j as int) == j - 7);
            assert(windows_in(j + 1) == (j - 7) + 1);
            proof {
                lemma_table_rows(s, j - 7);
            }
            let is_valid = window_is_valid(&current);
            if is_valid {
                let key = window_key(current.as_slice());
                proof {
                    assert forall|r: int| 0 <= r < table.len() implies (row_key(table[r])
                        == digits_key(w, 8)) == (table[r] == unshifted(w)) by {
                        assert(is_permutation(table[r], 8));
                        lemma_row_key_matches(table[r], w);
                    }
                }
                if !seen.contains(&key) {
                    proof {
                        assert forall|r: int| 0 <= r < table.len() implies table[r] != unshifted(
                            w,
                        ) by {
                            assert(table[r] == permutations@[r]@);
                            assert(seen@.contains(row_key(table[r]) as u64));
                        }
                        assert(!table.contains(unshifted(w)));
                    }
                    let ghost old_seen = seen@;
                    let ghost old_perms = permutations@;
                    seen.insert(key);
                    let mut arr = [0u8; 8];
                    let mut t: usize = 0;
                    while t < 8
                        invariant
                            t <= 8,
                            w == current@,
                            is_valid_window(w),
                            forall|u: int| 0 <= u < t ==> arr@[u] == unshifted(w)[u],
                        decreases 8 - t,
                    {
                        arr[t] = current[t] - 1;
                        t += 1;
                    }
                    assert(arr@ =~= unshifted(w));
                    permutations.push(arr);
                    proof {
                        assert(rows(permutations@) =~= table.push(unshifted(w)));
                        lemma_row_key_matches(unshifted(w), w);
                        lemma_digits_key_bound(w, 8);
                        assert(key_limit(8) == 100_000_000) by {
                            reveal_with_fuel(key_limit, 9);
                        }
                        assert forall|k: u64| seen@.contains(k) implies exists|r: int|
                            0 <= r < permutations@.len() && row_key(#[trigger] permutations@[r]@)
                                == k by {
                            if k == key {
                                assert(permutations@[permutations@.len() - 1]@ == unshifted(w));
                            } else {
                                assert(old_seen.contains(k));
                                let r = choose|r: int|
                                    0 <= r < old_perms.len() && row_key(#[trigger] old_perms[r]@)
                                        == k;
                                assert(permutations@[r] == old_perms[r]);
                            }
                        }
                    }
                } else {
                    proof {
                        let r = choose|r: int|
                            0 <= r < permutations@.len() && row_key(#[trigger] permutations@[r]@)
                                == key;
                        assert(table[r] == permutations@[r]@);
                        assert(table.contains(unshifted(w)));
                    }
                }
            }
            current.remove(0);
            assert(current@ =~= s.subrange(j + 1 - 7, j + 1));
        } else {
            assert(current@ =~= s.subrange(0, j + 1));
        }
        j += 1;
    }
    while permutations.len() < 40320
        invariant
            s == superperm@,
            rows(permutations@) == permutation_table(s),
        decreases 40320 - permutations@.len(),
    {
        let mut arr: [u8; 8] = [0; 8];
        let idx = permutations.len();
        let mut i: usize = 0;
        while i < 8
            invariant
                i <= 8,
                idx < 40320,
                forall|t: int| 0 <= t < i ==> arr@[t] == ((idx >> (3 * t) as usize) % 8) as u8,
            decreases 8 - i,
        {
            arr[i] = ((idx >> (i * 3)) % 8) as u8;
            i += 1;
        }
        proof {
            assert((idx >> 18usize) % 8 == 0) by (bit_vector)
                requires
                    idx < 40320usize,
            ;
            assert((idx >> 21usize) % 8 == 0) by (bit_vector)
                requires
                    idx < 40320usize,
            ;
            assert(arr@[6] == arr@[7]);
            assert forall|t: int| 0 <= t < 8 implies #[trigger] arr@[t] < 8 by {
                assert(((idx >> (3 * t) as usize) % 8) < 8);
            }
        }
        let is_valid = row_is_permutation(&arr);
        if is_valid {
            // Unreachable: the top two octal digits of a length below 8! are 0.
            assert(false);
            let key = window_key(arr.as_slice());
            if !seen.contains(&key) {
                seen.insert(key);
                permutations.push(arr);
            }
        } else {
            break;
        }
    }
    permutations
}

} // verus!

//! What the superpermutation promises: every permutation of its symbols
//! occurs in it as a run of consecutive symbols (its length is in
//! `superperm_length`).

use crate::superperm::{
    insertions, is_permutation, is_valid_window, joint,
    lemma_insert_keeps_permutation, lemma_overlap_is_longest, lemma_perms_from_sound,
    lemma_table_grows, lemma_table_rows, merge_prefix, overlap, permutation_table, perms_from,
    shifted, shifted_perms, superpermutation, table_upto, unshifted, window_at, windows_in,
};
use vstd::prelude::*;

verus! {

/// `p` occurs in `s` as a run of consecutive symbols.
pub open spec fn occurs_in(p: Seq<u8>, s: Seq<u8>) -> bool {
    exists|t: int| 0 <= t && t + p.len() <= s.len() && #[trigger] s.subrange(t, t + p.len()) == p
}

/// The symbols of `q` below `k`, in the order in which they occur in `q`.
pub open spec fn restrict(q: Seq<u8>, k: int) -> Seq<u8>
    decreases q.len(),
{
    if q.len() == 0 {
        seq![]
    } else {
        let r = restrict(q.drop_last(), k);
        if q.last() < k {
            r.push(q.last())
        } else {
            r
        }
    }
}

/// A permutation of `0..n` holds each symbol below `n`.
pub proof fn lemma_permutation_covers(p: Seq<u8>, n: nat, v: int)
    requires
        is_permutation(p, n),
        0 <= v < n,
    ensures
        p.contains(v as u8),
{
    let q = p.map_values(|x: u8| x as int);
    assert(q.no_duplicates()) by {
        assert forall|i: int, j: int| 0 <= i < q.len() && 0 <= j < q.len() && i != j implies q[i]
            != q[j] by {
            if i < j {
                assert(p[i] != p[j]);
            } else {
                assert(p[j] != p[i]);
            }
        }
    }
    q.unique_seq_to_set();
    vstd::seq_lib::seq_to_set_is_finite(q);
    vstd::set_lib::lemma_int_range(0, n as int);
    assert(q.to_set().subset_of(vstd::set_lib::set_int_range(0, n as int))) by {
        assert forall|x: int| q.to_set().contains(x) implies vstd::set_lib::set_int_range(
            0,
            n as int,
        ).contains(x) by {
            let i = choose|i: int| 0 <= i < q.len() && q[i] == x;
            assert(p[i] < n);
        }
    }
    vstd::set_lib::lemma_subset_equality(q.to_set(), vstd::set_lib::set_int_range(0, n as int));
    assert(vstd::set_lib::set_int_range(0, n as int).contains(v));
    assert(q.to_set().contains(v));
    let i = choose|i: int| 0 <= i < q.len() && q[i] == v;
    assert(p[i] == v as u8);
}

proof fn lemma_restrict_basics(q: Seq<u8>, k: int)
    ensures
        forall|j: int| 0 <= j < restrict(q, k).len() ==> #[trigger] restrict(q, k)[j] < k,
        forall|x: u8| #[trigger] restrict(q, k).contains(x) <==> (q.contains(x) && x < k),
        q.no_duplicates() ==> restrict(q, k).no_duplicates(),
        restrict(q, k).len() <= q.len(),
    decreases q.len(),
{
    if q.len() > 0 {
        let d = q.drop_last();
        lemma_restrict_basics(d, k);
        let r = restrict(d, k);
        assert forall|x: u8| #[trigger] q.contains(x) <==> (d.contains(x) || x == q.last()) by {
            if q.contains(x) {
                let i = choose|i: int| 0 <= i < q.len() && q[i] == x;
                if i < d.len() {
                    assert(d[i] == x);
                }
            }
            if d.contains(x) {
                let i = choose|i: int| 0 <= i < d.len() && d[i] == x;
                assert(q[i] == x);
            }
            if x == q.last() {
                assert(q[q.len() - 1] == x);
            }
        }
        if q.last() < k {
            assert forall|x: u8| #[trigger] r.push(q.last()).contains(x) <==> (r.contains(x)
                || x == q.last()) by {
                vstd::seq_lib::lemma_seq_contains_after_push(r, q.last(), x);
            }
            if q.no_duplicates() {
                assert(d.no_duplicates()) by {
                    assert forall|i: int, j: int|
                        0 <= i < d.len() && 0 <= j < d.len() && i != j implies d[i] != d[j] by {
                        assert(q[i] != q[j]);
                    }
                }
                assert(!d.contains(q.last())) by {
                    if d.contains(q.last()) {
                        let i = choose|i: int| 0 <= i < d.len() && d[i] == q.last();
                        assert(q[i] == q[q.len() - 1]);
                    }
                }
                let rp = r.push(q.last());
                assert forall|i: int, j: int|
                    0 <= i < rp.len() && 0 <= j < rp.len() && i != j implies rp[i] != rp[j] by {
                    if i == r.len() {
                        assert(r.contains(rp[j]));
                    } else if j == r.len() {
                        assert(r.contains(rp[i]));
                    }
                }
            }
        } else {
            if q.no_duplicates() {
                assert(d.no_duplicates()) by {
                    assert forall|i: int, j: int|
                        0 <= i < d.len() && 0 <= j < d.len() && i != j implies d[i] != d[j] by {
                        assert(q[i] != q[j]);
                    }
                }
            }
        }
    }
}

/// Keeping the symbols below `k` keeps every symbol of a string whose
/// symbols are all below `k`.
proof fn lemma_restrict_all_below(q: Seq<u8>, k: int)
    requires
        forall|j: int| 0 <= j < q.len() ==> #[trigger] q[j] < k,
    ensures
        restrict(q, k) == q,
    decreases q.len(),
{
    if q.len() > 0 {
        lemma_restrict_all_below(q.drop_last(), k);
        assert(q.drop_last().push(q.last()) =~= q);
    }
}

/// Keeping the symbols below `a`, then those below `b <= a`, keeps those
/// below `b`.
proof fn lemma_restrict_twice(q: Seq<u8>, a: int, b: int)
    requires
        b <= a,
    ensures
        restrict(restrict(q, a), b) == restrict(q, b),
    decreases q.len(),
{
    if q.len() > 0 {
        lemma_restrict_twice(q.drop_last(), a, b);
        if q.last() < a {
            let r = restrict(q.drop_last(), a);
            assert(r.push(q.last()).drop_last() =~= r);
        }
    }
}

/// Dropping the one symbol that is not below `k` from a string is keeping
/// those below `k`.
proof fn lemma_restrict_drops_one(r: Seq<u8>, k: int, i: int)
    requires
        0 <= i < r.len(),
        r[i] >= k,
        forall|j: int| 0 <= j < r.len() && j != i ==> #[trigger] r[j] < k,
    ensures
        restrict(r, k) == r.remove(i),
    decreases r.len(),
{
    let d = r.drop_last();
    if i == r.len() - 1 {
        lemma_restrict_all_below(d, k);
        assert(d =~= r.remove(i));
    } else {
        lemma_restrict_drops_one(d, k, i);
        assert(d.remove(i).push(r.last()) =~= r.remove(i));
    }
}

/// For `i < k`, what the generator lists for the first `k` insertion
/// positions holds all it lists when the next symbol goes in at `i`.
proof fn lemma_insertions_include(n: u8, cur: Seq<u8>, k: nat, i: int, q: Seq<u8>)
    requires
        cur.len() < n,
        0 <= i < k <= cur.len() + 1,
        perms_from(n, cur.insert(i, cur.len() as u8)).contains(q),
    ensures
        insertions(n, cur, k).contains(q),
    decreases k,
{
    let left = insertions(n, cur, (k - 1) as nat);
    let right = perms_from(n, cur.insert(k - 1, cur.len() as u8));
    if i == k - 1 {
        let t = choose|t: int| 0 <= t < right.len() && right[t] == q;
        assert((left + right)[left.len() + t] == q);
    } else {
        lemma_insertions_include(n, cur, (k - 1) as nat, i, q);
        let t = choose|t: int| 0 <= t < left.len() && left[t] == q;
        assert((left + right)[t] == q);
    }
}

/// The generator, grown from `cur`, lists every permutation of `0..n` whose
/// symbols below `cur.len()` come in the order `cur` gives them.
proof fn lemma_perms_from_complete(n: u8, cur: Seq<u8>, q: Seq<u8>)
    requires
        is_permutation(cur, cur.len()),
        cur.len() <= n,
        is_permutation(q, n as nat),
        restrict(q, cur.len() as int) == cur,
    ensures
        perms_from(n, cur).contains(q),
    decreases n - cur.len(),
{
    let len = cur.len() as int;
    if len == n {
        lemma_restrict_all_below(q, len);
        assert(perms_from(n, cur)[0] == q);
    } else {
        let r = restrict(q, len + 1);
        lemma_restrict_basics(q, len + 1);
        assert(q.no_duplicates()) by {
            assert forall|i: int, j: int| 0 <= i < q.len() && 0 <= j < q.len() && i != j implies q[i]
                != q[j] by {
                if i < j {
                    assert(q[i] != q[j]);
                } else {
                    assert(q[j] != q[i]);
                }
            }
        }
        lemma_permutation_covers(q, n as nat, len);
        assert(r.contains(len as u8));
        let i = choose|i: int| 0 <= i < r.len() && r[i] == len as u8;
        assert forall|j: int| 0 <= j < r.len() && j != i implies #[trigger] r[j] < len by {
            assert(r[j] < len + 1);
            assert(r[j] != r[i]);
        }
        lemma_restrict_drops_one(r, len, i);
        lemma_restrict_twice(q, len + 1, len);
        assert(r.remove(i) == cur);
        assert(r =~= cur.insert(i, len as u8));
        lemma_insert_keeps_permutation(cur, i);
        lemma_perms_from_complete(n, r, q);
        lemma_insertions_include(n, cur, cur.len() + 1, i, q);
    }
}

/// The generator lists every permutation of `0..n`.
pub proof fn lemma_generator_lists_every_permutation(n: u8, q: Seq<u8>)
    requires
        is_permutation(q, n as nat),
    ensures
        perms_from(n, seq![]).contains(q),
{
    lemma_restrict_basics(q, 0);
    assert(restrict(q, 0) =~= Seq::<u8>::empty()) by {
        if restrict(q, 0).len() > 0 {
            assert(restrict(q, 0)[0] < 0);
        }
    }
    lemma_perms_from_complete(n, seq![], q);
}


/// Each merge step keeps the string built so far and ends the new string
/// with the entry it merges in.
pub proof fn lemma_merge_step(acc: Seq<u8>, p: Seq<u8>)
    ensures
        ({
            let s = acc + joint(acc, p);
            &&& s.len() >= p.len()
            &&& s.subrange(0, acc.len() as int) == acc
            &&& s.subrange(s.len() - p.len(), s.len() as int) == p
        }),
{
    let m = if acc.len() < p.len() { acc.len() as int } else { p.len() as int };
    lemma_overlap_is_longest(acc, p, m);
    let k = overlap(acc, p);
    let s = acc + joint(acc, p);
    assert(s == acc + p.skip(k));
    assert(s.subrange(0, acc.len() as int) =~= acc);
    assert forall|i: int| 0 <= i < p.len() implies s.subrange(s.len() - p.len(), s.len() as int)[i]
        == p[i] by {
        if i < k {
            assert(acc.subrange(acc.len() - k, acc.len() as int)[i] == p.subrange(0, k)[i]);
        }
    }
    assert(s.subrange(s.len() - p.len(), s.len() as int) =~= p);
}

/// The merge of the first `k` entries starts the merge of the first `k2`.
proof fn lemma_merge_keeps(ps: Seq<Seq<u8>>, k: int, k2: int)
    requires
        0 <= k <= k2,
    ensures
        merge_prefix(ps, k).len() <= merge_prefix(ps, k2).len(),
        merge_prefix(ps, k2).subrange(0, merge_prefix(ps, k).len() as int) == merge_prefix(ps, k),
    decreases k2 - k,
{
    if k < k2 {
        lemma_merge_keeps(ps, k, k2 - 1);
        let acc = merge_prefix(ps, k2 - 1);
        lemma_merge_step(acc, ps[k2 - 1]);
        let small = merge_prefix(ps, k);
        assert(merge_prefix(ps, k2).subrange(0, small.len() as int) =~= acc.subrange(
            0,
            small.len() as int,
        ));
    }
}

/// Every entry merged in so far occurs in the merged string.
pub proof fn lemma_merge_holds_entries(ps: Seq<Seq<u8>>, k: int, j: int)
    requires
        0 <= j < k,
    ensures
        occurs_in(ps[j], merge_prefix(ps, k)),
{
    let acc = merge_prefix(ps, j);
    let p = ps[j];
    lemma_merge_step(acc, p);
    let mid = merge_prefix(ps, j + 1);
    lemma_merge_keeps(ps, j + 1, k);
    let s = merge_prefix(ps, k);
    let t = mid.len() - p.len();
    assert(s.subrange(t, t + p.len()) =~= mid.subrange(t, t + p.len()));
}

/// Every permutation of `n` symbols, written over `1..=n`, occurs in the
/// superpermutation built for `n`, for every `n` up to 255 (the generator
/// counts symbols in a byte).
pub proof fn lemma_superpermutation_holds_every_permutation(n: usize, p: Seq<u8>)
    requires
        n <= 255,
        is_permutation(p, n as nat),
    ensures
        occurs_in(shifted(p), superpermutation(n)),
{
    let s = superpermutation(n);
    if n == 1 {
        assert(p[0] < 1);
        assert(s.subrange(0, 0 + shifted(p).len() as int) =~= shifted(p));
    } else {
        let width = n as u8;
        assert(width as nat == n as nat);
        let gen = perms_from(width, seq![]);
        let ps = shifted_perms(width);
        lemma_generator_lists_every_permutation(width, p);
        let i = choose|i: int| 0 <= i < gen.len() && gen[i] == p;
        assert(ps[i] == shifted(p));
        lemma_merge_holds_entries(ps, ps.len() as int, i);
    }
}

/// The table read from the superpermutation of eight symbols is not empty,
/// and each of its rows is a permutation of `0..8`.
pub proof fn lemma_eight_symbol_table()
    ensures
        permutation_table(superpermutation(8)).len() > 0,
        forall|r: int|
            0 <= r < permutation_table(superpermutation(8)).len() ==> is_permutation(
                #[trigger] permutation_table(superpermutation(8))[r],
                8,
            ),
{
    let identity = seq![0u8, 1u8, 2u8, 3u8, 4u8, 5u8, 6u8, 7u8];
    assert(is_permutation(identity, 8));
    lemma_eight_symbol_table_is_complete(identity);
    let s = superpermutation(8);
    lemma_table_rows(s, windows_in(s.len() as int));
}

/// Once a window holding a permutation has been read, the table holds that
/// permutation from then on.
proof fn lemma_table_takes_window(s: Seq<u8>, t: int)
    requires
        0 <= t,
        t + 8 <= s.len(),
        is_valid_window(window_at(s, t)),
    ensures
        table_upto(s, t + 1).contains(unshifted(window_at(s, t))),
{
    let prev = table_upto(s, t);
    let u = unshifted(window_at(s, t));
    if !prev.contains(u) {
        assert(table_upto(s, t + 1)[prev.len() as int] == u);
    } else {
        let r = choose|r: int| 0 <= r < prev.len() && prev[r] == u;
        assert(table_upto(s, t + 1)[r] == u);
    }
}

/// The table read from the superpermutation of eight symbols holds every
/// permutation of `0..8`.
pub proof fn lemma_eight_symbol_table_is_complete(p: Seq<u8>)
    requires
        is_permutation(p, 8),
    ensures
        permutation_table(superpermutation(8)).contains(p),
{
    let s = superpermutation(8);
    lemma_superpermutation_holds_every_permutation(8, p);
    let sp = shifted(p);
    let t = choose|t: int| 0 <= t && t + sp.len() <= s.len() && #[trigger] s.subrange(t, t + sp.len()) == sp;
    assert(window_at(s, t) == sp);
    assert(is_valid_window(sp)) by {
        assert forall|i: int, j: int| 0 <= i < j < 8 implies sp[i] != sp[j] by {
            assert(p[i] != p[j]);
        }
    }
    assert(unshifted(sp) =~= p);
    lemma_table_takes_window(s, t);
    lemma_table_grows(s, t + 1, windows_in(s.len() as int));
    let early = table_upto(s, t + 1);
    let r = choose|r: int| 0 <= r < early.len() && early[r] == p;
    assert(permutation_table(s)[r] == p);
}


/// Every entry the generator lists from `cur` keeps the symbols of `cur` in
/// the order `cur` gives them.
proof fn lemma_perms_from_restrict(n: u8, cur: Seq<u8>)
    requires
        is_permutation(cur, cur.len()),
        cur.len() <= n,
    ensures
        forall|j: int|
            0 <= j < perms_from(n, cur).len() ==> restrict(
                #[trigger] perms_from(n, cur)[j],
                cur.len() as int,
            ) == cur,
    decreases n - cur.len(), cur.len() + 2,
{
    if cur.len() >= n {
        lemma_restrict_all_below(cur, cur.len() as int);
    } else {
        lemma_insertions_restrict(n, cur, cur.len() + 1);
        assert forall|j: int| 0 <= j < perms_from(n, cur).len() implies restrict(
            #[trigger] perms_from(n, cur)[j],
            cur.len() as int,
        ) == cur by {
            let q = perms_from(n, cur)[j];
            assert(q == insertions(n, cur, cur.len() + 1)[j]);
            let i = choose|i: int|
                #![trigger cur.insert(i, cur.len() as u8)]
                0 <= i < cur.len() + 1 && restrict(q, cur.len() + 1 as int) == cur.insert(
                    i,
                    cur.len() as u8,
                );
            let r = cur.insert(i, cur.len() as u8);
            lemma_restrict_twice(q, cur.len() + 1 as int, cur.len() as int);
            lemma_restrict_drops_one(r, cur.len() as int, i);
            assert(r.remove(i) =~= cur);
        }
    }
}

/// Each entry listed for the first `k` insertion positions keeps the
/// symbols of `cur` with the next symbol at one of those positions.
proof fn lemma_insertions_restrict(n: u8, cur: Seq<u8>, k: nat)
    requires
        is_permutation(cur, cur.len()),
        cur.len() < n,
        k <= cur.len() + 1,
    ensures
        forall|j: int|
            #![trigger insertions(n, cur, k)[j]]
            0 <= j < insertions(n, cur, k).len() ==> exists|i: int|
                #![trigger cur.insert(i, cur.len() as u8)]
                0 <= i < k && restrict(insertions(n, cur, k)[j], cur.len() + 1 as int)
                    == cur.insert(i, cur.len() as u8),
    decreases n - cur.len(), k,
{
    if k > 0 {
        let next = cur.insert(k - 1, cur.len() as u8);
        lemma_insertions_restrict(n, cur, (k - 1) as nat);
        lemma_insert_keeps_permutation(cur, k - 1);
        lemma_perms_from_restrict(n, next);
        let left = insertions(n, cur, (k - 1) as nat);
        let right = perms_from(n, next);
        assert forall|j: int|
            #![trigger insertions(n, cur, k)[j]]
            0 <= j < insertions(n, cur, k).len() implies exists|i: int|
                #![trigger cur.insert(i, cur.len() as u8)]
                0 <= i < k && restrict(insertions(n, cur, k)[j], cur.len() + 1 as int) == cur.insert(
                    i,
                    cur.len() as u8,
                ) by {
            if j < left.len() {
                assert(insertions(n, cur, k)[j] == left[j]);
                let i = choose|i: int|
                    #![trigger cur.insert(i, cur.len() as u8)]
                    0 <= i < k - 1 && restrict(left[j], cur.len() + 1 as int) == cur.insert(
                        i,
                        cur.len() as u8,
                    );
                assert(0 <= i < k);
            } else {
                assert(insertions(n, cur, k)[j] == right[j - left.len()]);
                assert(restrict(right[j - left.len()], cur.len() + 1 as int) == next);
            }
        }
    }
}

/// The generator lists no permutation twice.
proof fn lemma_perms_from_distinct(n: u8, cur: Seq<u8>)
    requires
        is_permutation(cur, cur.len()),
        cur.len() <= n,
    ensures
        perms_from(n, cur).no_duplicates(),
    decreases n - cur.len(), cur.len() + 2,
{
    if cur.len() < n {
        lemma_insertions_distinct(n, cur, cur.len() + 1);
    }
}

proof fn lemma_insertions_distinct(n: u8, cur: Seq<u8>, k: nat)
    requires
        is_permutation(cur, cur.len()),
        cur.len() < n,
        k <= cur.len() + 1,
    ensures
        insertions(n, cur, k).no_duplicates(),
    decreases n - cur.len(), k,
{
    if k > 0 {
        let len = cur.len() as int;
        let next = cur.insert(k - 1, len as u8);
        lemma_insertions_distinct(n, cur, (k - 1) as nat);
        lemma_insertions_restrict(n, cur, (k - 1) as nat);
        lemma_insert_keeps_permutation(cur, k - 1);
        lemma_perms_from_distinct(n, next);
        lemma_perms_from_restrict(n, next);
        let left = insertions(n, cur, (k - 1) as nat);
        let right = perms_from(n, next);
        let all = insertions(n, cur, k);
        assert(all == left + right);
        assert forall|a: int, b: int| 0 <= a < all.len() && 0 <= b < all.len() && a != b implies all[a]
            != all[b] by {
            if a < left.len() && b < left.len() {
            } else if a >= left.len() && b >= left.len() {
                assert(right[a - left.len()] != right[b - left.len()]);
            } else {
                let (x, y) = if a < left.len() {
                    (a, b)
                } else {
                    (b, a)
                };
                let i = choose|i: int|
                    #![trigger cur.insert(i, len as u8)]
                    0 <= i < k - 1 && restrict(left[x], len + 1) == cur.insert(i, len as u8);
                assert(restrict(right[y - left.len()], len + 1) == next);
                assert(cur.insert(i, len as u8)[i] != next[i]) by {
                    assert(cur.insert(i, len as u8)[i] == len);
                    assert(next[i] == cur[i]);
                }
            }
        }
    }
}

/// `(k + 1) * (k + 2) * ... * n`.
pub open spec fn falling_product(n: nat, k: nat) -> nat
    decreases n - k,
{
    if k >= n {
        1
    } else {
        (k + 1) * falling_product(n, k + 1)
    }
}

/// `8! = 40320`.
proof fn lemma_eight_factorial()
    ensures
        falling_product(8, 0) == 40320,
{
    assert(falling_product(8, 8) == 1);
    assert(falling_product(8, 7) == 8 * falling_product(8, 8));
    assert(falling_product(8, 6) == 7 * falling_product(8, 7));
    assert(falling_product(8, 5) == 6 * falling_product(8, 6));
    assert(falling_product(8, 4) == 5 * falling_product(8, 5));
    assert(falling_product(8, 3) == 4 * falling_product(8, 4));
    assert(falling_product(8, 2) == 3 * falling_product(8, 3));
    assert(falling_product(8, 1) == 2 * falling_product(8, 2));
    assert(falling_product(8, 0) == 1 * falling_product(8, 1));
}

/// The generator, grown from `cur`, lists `(len + 1) * ... * n` entries.
proof fn lemma_perms_from_count(n: u8, cur: Seq<u8>)
    requires
        cur.len() <= n,
    ensures
        perms_from(n, cur).len() == falling_product(n as nat, cur.len()),
    decreases n - cur.len(), cur.len() + 2,
{
    if cur.len() < n {
        lemma_insertions_count(n, cur, cur.len() + 1);
    }
}

proof fn lemma_insertions_count(n: u8, cur: Seq<u8>, k: nat)
    requires
        cur.len() < n,
        k <= cur.len() + 1,
    ensures
        insertions(n, cur, k).len() == k * falling_product(n as nat, cur.len() + 1),
    decreases n - cur.len(), k,
{
    if k > 0 {
        lemma_insertions_count(n, cur, (k - 1) as nat);
        lemma_perms_from_count(n, cur.insert(k - 1, cur.len() as u8));
        let f = falling_product(n as nat, cur.len() + 1);
        assert((k - 1) * f + f == k * f) by (nonlinear_arith);
    }
}

/// The generator lists `n!` entries, no two alike.
pub proof fn lemma_generator_count(n: u8)
    ensures
        perms_from(n, seq![]).len() == falling_product(n as nat, 0),
        perms_from(n, seq![]).no_duplicates(),
{
    assert(is_permutation(Seq::<u8>::empty(), 0));
    lemma_perms_from_count(n, seq![]);
    lemma_perms_from_distinct(n, seq![]);
}

/// The table read from the superpermutation of eight symbols holds exactly
/// the `8! = 40320` permutations of `0..8`.
pub proof fn lemma_eight_symbol_table_size()
    ensures
        permutation_table(superpermutation(8)).len() == 40320,
{
    let table = permutation_table(superpermutation(8));
    let gen = perms_from(8, seq![]);
    assert(is_permutation(Seq::<u8>::empty(), 0));
    lemma_perms_from_sound(8, seq![]);
    lemma_perms_from_distinct(8, seq![]);
    lemma_perms_from_count(8, seq![]);
    lemma_eight_factorial();
    lemma_eight_symbol_table();
    let s = superpermutation(8);
    lemma_table_rows(s, windows_in(s.len() as int));
    assert(table.no_duplicates()) by {
        assert forall|a: int, b: int| 0 <= a < table.len() && 0 <= b < table.len() && a != b implies table[a]
            != table[b] by {
            if a < b {
                assert(table[a] != table[b]);
            } else {
                assert(table[b] != table[a]);
            }
        }
    }
    assert(table.to_set() =~= gen.to_set()) by {
        assert forall|p: Seq<u8>| table.to_set().contains(p) implies gen.to_set().contains(p) by {
            let r = choose|r: int| 0 <= r < table.len() && table[r] == p;
            assert(is_permutation(table[r], 8));
            lemma_generator_lists_every_permutation(8, p);
        }
        assert forall|p: Seq<u8>| gen.to_set().contains(p) implies table.to_set().contains(p) by {
            let j = choose|j: int| 0 <= j < gen.len() && gen[j] == p;
            assert(is_permutation(gen[j], 8));
            lemma_eight_symbol_table_is_complete(p);
        }
    }
    table.unique_seq_to_set();
    gen.unique_seq_to_set();
}

} // verus!

//! The length of the superpermutation. The generator lists the
//! permutations in groups that share the order of the symbols below the top
//! one, the top symbol moving one place right from one entry of a group to
//! the next; such neighbours do not overlap at all, and a group's last entry
//! (the top symbol at its end) overlaps the next group's first (the top
//! symbol at its start) by exactly one symbol. So for `n >= 3` symbols the
//! merge is `n * n! - (n - 1)! + 1` symbols long.

use crate::superperm::{
    ends_with_prefix, insertions, is_permutation, lemma_insert_keeps_permutation,
    lemma_overlap_is_longest, lemma_perms_from_sound, merge_prefix, overlap, overlap_upto,
    perms_from, shifted, shifted_perms, superpermutation,
};
use crate::superperm_laws::{falling_product, lemma_generator_count, lemma_merge_step};
use vstd::prelude::*;

verus! {

/// `n!`.
pub open spec fn factorial(n: nat) -> nat
    decreases n,
{
    if n == 0 {
        1
    } else {
        n * factorial((n - 1) as nat)
    }
}

/// `b` is `a` with the symbol `top`, found at `i`, moved one place right.
pub open spec fn moves_right(a: Seq<u8>, b: Seq<u8>, i: int, top: int) -> bool {
    &&& a.len() == b.len()
    &&& 0 <= i < a.len() - 1
    &&& a[i] == top
    &&& b[i + 1] == top
    &&& b[i] == a[i + 1]
    &&& forall|t: int| 0 <= t < a.len() && t != i && t != i + 1 ==> b[t] == a[t]
}

/// How the generator's entry `b` follows the entry `a`, over `n` symbols:
/// either `a` ends with the top symbol `n - 1` and `b` starts with it, or
/// `b` is `a` with the top symbol moved one place right.
pub open spec fn follows(a: Seq<u8>, b: Seq<u8>, n: nat) -> bool {
    ||| (a[n - 1] == n - 1 && b[0] == n - 1)
    ||| exists|i: int| #[trigger] moves_right(a, b, i, n - 1)
}

/// How many of the first `k` entries of `l` end with the top symbol `n - 1`.
pub open spec fn count_top(l: Seq<Seq<u8>>, k: int, n: nat) -> nat
    decreases k,
{
    if k <= 0 {
        0
    } else {
        count_top(l, k - 1, n) + if l[k - 1][n - 1] == n - 1 {
            1nat
        } else {
            0nat
        }
    }
}

/// The shape of what the generator lists: it starts with the top symbol,
/// ends with it, each entry follows the one before, and one entry in `n`
/// ends with the top symbol.
pub open spec fn generator_shape(l: Seq<Seq<u8>>, n: nat) -> bool {
    &&& l.len() > 0
    &&& l[0][0] == n - 1
    &&& l[l.len() - 1][n - 1] == n - 1
    &&& forall|j: int| 0 <= j < l.len() - 1 ==> #[trigger] follows(l[j], l[j + 1], n)
    &&& count_top(l, l.len() as int, n) * n == l.len()
}

proof fn lemma_count_prefix(x: Seq<Seq<u8>>, y: Seq<Seq<u8>>, k: int, n: nat)
    requires
        0 <= k <= x.len(),
    ensures
        count_top(x + y, k, n) == count_top(x, k, n),
    decreases k,
{
    if k > 0 {
        lemma_count_prefix(x, y, k - 1, n);
        assert((x + y)[k - 1] == x[k - 1]);
    }
}

proof fn lemma_count_concat(x: Seq<Seq<u8>>, y: Seq<Seq<u8>>, k: int, n: nat)
    requires
        0 <= k <= y.len(),
    ensures
        count_top(x + y, x.len() + k, n) == count_top(x, x.len() as int, n) + count_top(y, k, n),
    decreases k,
{
    if k == 0 {
        lemma_count_prefix(x, y, x.len() as int, n);
    } else {
        lemma_count_concat(x, y, k - 1, n);
        assert((x + y)[x.len() + k - 1] == y[k - 1]);
    }
}

/// With one symbol left to place, the generator lists `cur` with the top
/// symbol at each place in turn.
proof fn lemma_last_insertions(n: u8, cur: Seq<u8>, k: nat)
    requires
        cur.len() + 1 == n,
        k <= n,
    ensures
        insertions(n, cur, k).len() == k,
        forall|i: int|
            0 <= i < k ==> #[trigger] insertions(n, cur, k)[i] == cur.insert(i, (n - 1) as u8),
    decreases k,
{
    if k > 0 {
        lemma_last_insertions(n, cur, (k - 1) as nat);
        let next = cur.insert(k - 1, cur.len() as u8);
        assert(perms_from(n, next) == seq![next]);
        let l = insertions(n, cur, k);
        assert forall|i: int| 0 <= i < k implies #[trigger] l[i] == cur.insert(i, (n - 1) as u8) by {
            if i < k - 1 {
                assert(l[i] == insertions(n, cur, (k - 1) as nat)[i]);
            }
        }
    }
}

proof fn lemma_last_group_count(n: u8, cur: Seq<u8>, k: int)
    requires
        is_permutation(cur, cur.len()),
        cur.len() + 1 == n,
        0 <= k <= n - 1,
    ensures
        count_top(perms_from(n, cur), k, n as nat) == 0,
    decreases k,
{
    if k > 0 {
        lemma_last_group_count(n, cur, k - 1);
        lemma_last_insertions(n, cur, n as nat);
        let e = cur.insert(k - 1, (n - 1) as u8);
        assert(perms_from(n, cur)[k - 1] == e);
        assert(e[n - 1] == cur[n - 2]);
    }
}

/// With one symbol left to place, the generator's list has its shape.
proof fn lemma_last_group_shape(n: u8, cur: Seq<u8>)
    requires
        is_permutation(cur, cur.len()),
        cur.len() + 1 == n,
    ensures
        generator_shape(perms_from(n, cur), n as nat),
{
    let top = (n - 1) as u8;
    lemma_last_insertions(n, cur, n as nat);
    let l = perms_from(n, cur);
    assert(l[0] == cur.insert(0, top));
    assert(l[n - 1] == cur.insert(n - 1, top));
    assert forall|j: int| 0 <= j < l.len() - 1 implies #[trigger] follows(l[j], l[j + 1], n as nat) by {
        let a = l[j];
        let b = l[j + 1];
        assert(a == cur.insert(j, top));
        assert(b == cur.insert(j + 1, top));
        assert forall|t: int| 0 <= t < a.len() && t != j && t != j + 1 implies b[t] == a[t] by {
            if t < j {
            } else {
                assert(b[t] == cur[t - 1]);
                assert(a[t] == cur[t - 1]);
            }
        }
        assert(moves_right(a, b, j, n - 1));
    }
    lemma_last_group_count(n, cur, n - 1);
    assert(count_top(l, n as int, n as nat) == 1);
}

/// What the generator lists from a permutation `cur` of fewer than `n`
/// symbols has the generator's shape.
pub proof fn lemma_perms_from_shape(n: u8, cur: Seq<u8>)
    requires
        is_permutation(cur, cur.len()),
        cur.len() < n,
    ensures
        generator_shape(perms_from(n, cur), n as nat),
    decreases n - cur.len(), cur.len() + 2,
{
    if cur.len() + 1 == n {
        lemma_last_group_shape(n, cur);
    } else {
        lemma_insertions_shape(n, cur, cur.len() + 1);
    }
}

proof fn lemma_insertions_shape(n: u8, cur: Seq<u8>, k: nat)
    requires
        is_permutation(cur, cur.len()),
        cur.len() + 1 < n,
        1 <= k <= cur.len() + 1,
    ensures
        generator_shape(insertions(n, cur, k), n as nat),
    decreases n - cur.len(), k,
{
    let next = cur.insert(k - 1, cur.len() as u8);
    lemma_insert_keeps_permutation(cur, k - 1);
    lemma_perms_from_shape(n, next);
    let y = perms_from(n, next);
    let l = insertions(n, cur, k);
    if k == 1 {
        assert(insertions(n, cur, 0) == Seq::<Seq<u8>>::empty());
        assert(l == insertions(n, cur, 0) + y);
        assert(l =~= y);
    } else {
        lemma_insertions_shape(n, cur, (k - 1) as nat);
        let x = insertions(n, cur, (k - 1) as nat);
        assert(l == x + y);
        assert forall|j: int| 0 <= j < l.len() - 1 implies #[trigger] follows(l[j], l[j + 1], n as nat) by {
            if j < x.len() - 1 {
                assert(l[j] == x[j] && l[j + 1] == x[j + 1]);
                assert(follows(x[j], x[j + 1], n as nat));
            } else if j == x.len() - 1 {
                assert(l[j] == x[j]);
                assert(l[j + 1] == y[0]);
            } else {
                let u = j - x.len();
                assert(l[j] == y[u] && l[j + 1] == y[u + 1]);
                assert(follows(y[u], y[u + 1], n as nat));
            }
        }
        lemma_count_concat(x, y, y.len() as int, n as nat);
        let cx = count_top(x, x.len() as int, n as nat);
        let cy = count_top(y, y.len() as int, n as nat);
        assert((cx + cy) * n == cx * n + cy * n) by (nonlinear_arith);
    }
}

/// Two entries of one group, the top symbol moved one place right, do not
/// overlap at all.
proof fn lemma_no_overlap(x: Seq<u8>, y: Seq<u8>, i: int, top: int)
    requires
        x.len() >= 3,
        moves_right(x, y, i, top),
        forall|a: int, b: int| 0 <= a < b < x.len() ==> x[a] != x[b],
    ensures
        overlap(x, y) == 0,
{
    let n = x.len() as int;
    lemma_overlap_is_longest(x, y, n);
    assert forall|k: int| 1 <= k <= n implies !ends_with_prefix(x, y, k) by {
        if ends_with_prefix(x, y, k) {
            if i + 1 < k {
                assert(x.subrange(n - k, n)[i + 1] == y.subrange(0, k)[i + 1]);
                assert(x[n - k + i + 1] == x[i]);
            } else if i >= 1 {
                assert(x.subrange(n - k, n)[0] == y.subrange(0, k)[0]);
                assert(x[n - k] == x[0]);
            } else {
                assert(x.subrange(n - k, n)[0] == y.subrange(0, k)[0]);
                assert(x[n - 1] == x[1]);
            }
        }
    }
    if overlap_upto(x, y, n) > 0 {
        assert(ends_with_prefix(x, y, overlap_upto(x, y, n)));
    }
}

/// The last entry of a group, ending with the top symbol, overlaps the
/// first of the next, starting with it, by exactly one symbol.
proof fn lemma_one_overlap(x: Seq<u8>, y: Seq<u8>, top: int)
    requires
        x.len() == y.len(),
        x.len() >= 2,
        x[x.len() - 1] == top,
        y[0] == top,
        forall|a: int, b: int| 0 <= a < b < y.len() ==> y[a] != y[b],
    ensures
        overlap(x, y) == 1,
{
    let n = x.len() as int;
    lemma_overlap_is_longest(x, y, n);
    assert(x.subrange(n - 1, n) =~= y.subrange(0, 1));
    assert(ends_with_prefix(x, y, 1));
    assert forall|k: int| 2 <= k <= n implies !ends_with_prefix(x, y, k) by {
        if ends_with_prefix(x, y, k) {
            assert(x.subrange(n - k, n)[k - 1] == y.subrange(0, k)[k - 1]);
            assert(y[k - 1] == y[0]);
        }
    }
}

/// The longest overlap with a string that ends with `a` is the longest
/// overlap with `a`, when `a` is as long as what follows.
proof fn lemma_overlap_upto_tail(acc: Seq<u8>, a: Seq<u8>, p: Seq<u8>, k: int)
    requires
        acc.len() >= a.len(),
        acc.subrange(acc.len() - a.len(), acc.len() as int) == a,
        0 <= k <= a.len(),
        k <= p.len(),
    ensures
        overlap_upto(acc, p, k) == overlap_upto(a, p, k),
    decreases k,
{
    if k > 0 {
        let n = a.len() as int;
        assert forall|t: int| 0 <= t < k implies #[trigger] acc.subrange(acc.len() - k, acc.len() as int)[t]
            == a.subrange(n - k, n)[t] by {
            assert(acc.subrange(acc.len() - n, acc.len() as int)[n - k + t] == a[n - k + t]);
        }
        assert(acc.subrange(acc.len() - k, acc.len() as int) =~= a.subrange(n - k, n));
        lemma_overlap_upto_tail(acc, a, p, k - 1);
    }
}

/// The permutation over `0..n` written over `1..=n` keeps its symbols
/// apart and its place for each.
proof fn lemma_shifted_symbols(p: Seq<u8>, n: nat)
    requires
        is_permutation(p, n),
        n <= 255,
    ensures
        shifted(p).len() == n,
        forall|t: int| 0 <= t < n ==> #[trigger] shifted(p)[t] == p[t] + 1,
        forall|a: int, b: int| 0 <= a < b < n ==> shifted(p)[a] != shifted(p)[b],
{
}

/// The merge of the first `k` entries is `n * k` symbols long, less one for
/// each of the first `k - 1` entries that ends with the top symbol.
proof fn lemma_merge_length(g: Seq<Seq<u8>>, ps: Seq<Seq<u8>>, n: nat, k: int)
    requires
        3 <= n <= 255,
        1 <= k <= g.len(),
        ps.len() == g.len(),
        forall|j: int| 0 <= j < g.len() ==> ps[j] == shifted(#[trigger] g[j]),
        forall|j: int| 0 <= j < g.len() ==> is_permutation(#[trigger] g[j], n),
        forall|j: int| 0 <= j < g.len() - 1 ==> #[trigger] follows(g[j], g[j + 1], n),
    ensures
        merge_prefix(ps, k).len() == n * k - count_top(g, k - 1, n),
    decreases k,
{
    assert(is_permutation(g[k - 1], n));
    lemma_shifted_symbols(g[k - 1], n);
    if k == 1 {
        assert(merge_prefix(ps, 0) == Seq::<u8>::empty());
        assert(overlap(Seq::<u8>::empty(), ps[0]) == 0);
    } else {
        lemma_merge_length(g, ps, n, k - 1);
        let prev = merge_prefix(ps, k - 2);
        lemma_merge_step(prev, ps[k - 2]);
        let acc = merge_prefix(ps, k - 1);
        let a = g[k - 2];
        let b = g[k - 1];
        assert(is_permutation(a, n));
        lemma_shifted_symbols(a, n);
        let sa = shifted(a);
        let sb = shifted(b);
        assert(ps[k - 2] == sa && ps[k - 1] == sb);
        lemma_overlap_upto_tail(acc, sa, sb, n as int);
        assert(follows(g[k - 2], g[(k - 2) + 1], n));
        assert(g[(k - 2) + 1] == b);
        if a[n - 1] == n - 1 {
            assert(sa[n - 1] == n);
            assert(sb[0] == n) by {
                if !(b[0] == n - 1) {
                    let i = choose|i: int| #[trigger] moves_right(a, b, i, n - 1);
                    assert(a[i] == a[n - 1]);
                }
            }
            lemma_one_overlap(sa, sb, n as int);
        } else {
            let i = choose|i: int| #[trigger] moves_right(a, b, i, n - 1);
            assert(moves_right(sa, sb, i, n as int)) by {
                assert forall|t: int| 0 <= t < sa.len() && t != i && t != i + 1 implies sb[t] == sa[t] by {
                    assert(b[t] == a[t]);
                }
            }
            lemma_no_overlap(sa, sb, i, n as int);
        }
        assert(n * (k - 1) + n == n * k) by (nonlinear_arith);
    }
}

/// `(k + 1) * ... * n` times `k!` is `n!`.
proof fn lemma_factorial_falling(n: nat, k: nat)
    requires
        k <= n,
    ensures
        falling_product(n, k) * factorial(k) == factorial(n),
    decreases n - k,
{
    if k < n {
        lemma_factorial_falling(n, k + 1);
        let f = falling_product(n, k + 1);
        assert(factorial(k + 1) == (k + 1) * factorial(k));
        assert(falling_product(n, k) == (k + 1) * f);
        assert(falling_product(n, k) * factorial(k) == f * factorial(k + 1)) by (nonlinear_arith)
            requires
                falling_product(n, k) == (k + 1) * f,
                factorial(k + 1) == (k + 1) * factorial(k),
        ;
        assert(f * factorial(k + 1) == factorial(n));
    } else {
        assert(falling_product(n, k) == 1);
        assert(1 * factorial(k) == factorial(k));
    }
}

/// The superpermutation built for `n` symbols is `n * n! - (n - 1)! + 1`
/// symbols long, for one symbol and for every `n` from 3 to 255 (the
/// generator counts symbols in a byte).
pub proof fn lemma_superpermutation_length(n: usize)
    requires
        n == 1 || 3 <= n <= 255,
    ensures
        superpermutation(n).len() == n * factorial(n as nat) - factorial((n - 1) as nat) + 1,
{
    if n == 1 {
        assert(factorial(1) == 1 * factorial(0));
    } else {
        let width = n as u8;
        let m = n as nat;
        let g = perms_from(width, seq![]);
        let ps = shifted_perms(width);
        assert(is_permutation(Seq::<u8>::empty(), 0));
        lemma_perms_from_sound(width, seq![]);
        lemma_perms_from_shape(width, seq![]);
        lemma_generator_count(width);
        lemma_factorial_falling(m, 0);
        let total = g.len() as int;
        assert(width as nat == m);
        assert(factorial(0) == 1);
        assert(total == falling_product(m, 0));
        assert(total == factorial(m));
        lemma_merge_length(g, ps, m, total);
        let c = count_top(g, total, m);
        assert(c == count_top(g, total - 1, m) + 1);
        let f = factorial((m - 1) as nat);
        assert(factorial(m) == m * f);
        assert(c * m == m * f);
        assert(c == f) by (nonlinear_arith)
            requires
                c * m == m * f,
                m >= 3,
        ;
    }
}

/// The superpermutation of eight symbols is `317,521` symbols long.
pub proof fn lemma_eight_symbol_length()
    ensures
        superpermutation(8).len() == 317_521,
{
    lemma_superpermutation_length(8);
    assert(factorial(8) == 40320 && factorial(7) == 5040) by {
        reveal_with_fuel(factorial, 9);
    }
}

} // verus!

use vstd::prelude::*;
use vstd::arithmetic::div_mod::{lemma_add_mod_noop, lemma_mod_twice, lemma_small_mod};
use super::MODULUS;
use super::by_hashmap::{splits, splits_upto};
use super::by_table::table;

verus! {

/// Number of ways to write `j` as a sum of numbers between one and `i`, the
/// order of the summands aside, for `i` of at least one: the ways without a
/// summand `i`, and the ways with one, which are the ways to write the rest.
pub open spec fn parts(i: nat, j: nat) -> nat
    decreases i, j,
{
    if i <= 1 {
        1
    } else if j < i {
        parts((i - 1) as nat, j)
    } else {
        parts(i, (j - i) as nat) + parts((i - 1) as nat, j)
    }
}

/// The table holds the numbers of ways, reduced in part.
pub proof fn lemma_table_counts(i: nat, j: nat)
    ensures
        table(i, j) % (MODULUS as nat) == parts(i, j) % (MODULUS as nat),
    decreases i, j,
{
    let m = MODULUS as int;
    if i <= 1 {
    } else if j < i {
        lemma_table_counts((i - 1) as nat, j);
    } else {
        let left = table(i, (j - i) as nat) as int;
        let right = table((i - 1) as nat, j) as int;
        lemma_table_counts(i, (j - i) as nat);
        lemma_table_counts((i - 1) as nat, j);
        lemma_add_mod_noop(left, right % m, m);
        lemma_mod_twice(right, m);
        lemma_add_mod_noop(
            parts(i, (j - i) as nat) as int,
            parts((i - 1) as nat, j) as int,
            m,
        );
    }
}

/// Summands greater than the number itself add no way to write it.
pub proof fn lemma_parts_cap(k: nat, n: nat)
    requires
        k >= n,
        k >= 1,
    ensures
        parts(k, n) == if n == 0 {
            1
        } else {
            parts(n, n)
        },
    decreases k,
{
    if k > n && k >= 2 {
        lemma_parts_cap((k - 1) as nat, n);
    }
}

/// The memo holds the numbers of ways, reduced: sorted by the greatest
/// summand, the ways to write `n` with summands up to `m` are the ways to
/// write the rest with summands up to that greatest one.
pub proof fn lemma_splits_count(n: nat, k: nat)
    requires
        k >= 1,
    ensures
        splits(n, k) == parts(k, n) % (MODULUS as nat),
    decreases n, 1nat, 0nat,
{
    let m = MODULUS as nat;
    if n == 0 {
        lemma_parts_cap(k, 0);
        lemma_small_mod(1, m);
    } else if k == 1 {
        lemma_small_mod(1, m);
    } else {
        let top = if k <= n {
            k
        } else {
            n
        };
        lemma_splits_upto_count(n, top);
        if k > n {
            lemma_parts_cap(k, n);
        }
    }
}

/// The sum over the greatest summands `1..=m` counts the ways to write `n`
/// with summands up to `m`.
pub proof fn lemma_splits_upto_count(n: nat, m: nat)
    requires
        1 <= m <= n,
    ensures
        splits_upto(n, m) % (MODULUS as nat) == parts(m, n) % (MODULUS as nat),
    decreases n, 0nat, m,
{
    let modulus = MODULUS as int;
    lemma_splits_count((n - m) as nat, m);
    if m == 1 {
        assert(splits_upto(n, 0) == 0);
        lemma_small_mod(1, MODULUS as nat);
        lemma_mod_twice(parts(1, (n - 1) as nat) as int, modulus);
    } else {
        lemma_splits_upto_count(n, (m - 1) as nat);
        let before = splits_upto(n, (m - 1) as nat) as int;
        let last = splits((n - m) as nat, m) as int;
        lemma_add_mod_noop(before, last, modulus);
        lemma_mod_twice(parts(m, (n - m) as nat) as int, modulus);
        lemma_add_mod_noop(
            parts((m - 1) as nat, n) as int,
            parts(m, (n - m) as nat) as int,
            modulus,
        );
    }
}

/// The memo and the table agree up to the modulus.
pub proof fn lemma_counts_agree(n: nat)
    ensures
        splits(n, n) == (if n < 2 {
            1
        } else {
            table(n, n)
        }) % (MODULUS as nat),
{
    lemma_small_mod(1, MODULUS as nat);
    if n >= 1 {
        lemma_splits_count(n, n);
        lemma_table_counts(n, n);
    }
}

} // verus!

use vstd::prelude::*;
use super::MODULUS;
use super::agree::lemma_counts_agree;
use super::by_hashmap::splits;

verus! {

/// Entry `j` of the table once the summands up to `i` have been let in: the
/// number of ways to write `j` as a sum of numbers between one and `i`,
/// reduced in part modulo `MODULUS`.
pub open spec fn table(i: nat, j: nat) -> nat
    decreases i, j,
{
    if i <= 1 {
        1
    } else if j < i {
        table((i - 1) as nat, j)
    } else {
        table(i, (j - i) as nat) + table((i - 1) as nat, j) % (MODULUS as nat)
    }
}

/// An entry of the table is at most the modulus times its column's number
/// plus one.
pub proof fn lemma_table_bound(i: nat, j: nat)
    ensures
        table(i, j) <= (j + 1) * MODULUS,
    decreases i, j,
{
    if i <= 1 {
        assert(1 <= (j + 1) * MODULUS) by (nonlinear_arith);
    } else if j < i {
        lemma_table_bound((i - 1) as nat, j);
    } else {
        lemma_table_bound(i, (j - i) as nat);
        assert((j - i + 1) * MODULUS + MODULUS <= (j + 1) * MODULUS) by (nonlinear_arith)
            requires
                i >= 1,
                j >= i,
        ;
    }
}

/// A vector of `len` copies of `value`.
fn filled(value: u64, len: usize) -> (v: Vec<u64>)
    ensures
        v.len() == len,
        forall|j: int| 0 <= j < len ==> v[j] == value,
{
    let mut v: Vec<u64> = Vec::new();
    while v.len() < len
        invariant
            v.len() <= len,
            forall|j: int| 0 <= j < v.len() ==> v[j] == value,
        decreases len - v.len(),
    {
        v.push(value);
    }
    v
}

/// Number of ways to write `n` as a sum of positive numbers, the order of
/// the summands aside, reduced as the table is: up to the modulus it is the
/// number that the memo gives.
pub fn table_split(n: u64) -> (v: u64)
    requires
        n < usize::MAX,
        (n + 1) * MODULUS <= u64::MAX,
    ensures
        v == if n < 2 {
            1
        } else {
            table(n as nat, n as nat)
        },
        v % MODULUS == splits(n as nat, n as nat),
{
    proof {
        lemma_counts_agree(n as nat);
    }
    if n < 2 {
        return 1;
    }
    let n = n as usize;
    let mut done = filled(1, n + 1);
    let mut work = filled(0, n + 1);
    let mut i: usize = 2;
    while i <= n
        invariant
            2 <= i <= n + 1,
            n < usize::MAX,
            (n + 1) * MODULUS <= u64::MAX,
            done.len() == n + 1,
            work.len() == n + 1,
            forall|j: int| 0 <= j <= n ==> done[j] == table((i - 1) as nat, j as nat),
        decreases n + 1 - i,
    {
        let mut j: usize = 0;
        while j < i
            invariant
                2 <= i <= n,
                j <= i,
                done.len() == n + 1,
                work.len() == n + 1,
                forall|k: int| 0 <= k <= n ==> done[k] == table((i - 1) as nat, k as nat),
                forall|k: int| 0 <= k < j ==> work[k] == table(i as nat, k as nat),
            decreases i - j,
        {
            work.set(j, done[j]);
            j += 1;
        }
        while j <= n
            invariant
                2 <= i <= n,
                i <= j <= n + 1,
                n < usize::MAX,
                (n + 1) * MODULUS <= u64::MAX,
                done.len() == n + 1,
                work.len() == n + 1,
                forall|k: int| 0 <= k <= n ==> done[k] == table((i - 1) as nat, k as nat),
                forall|k: int| 0 <= k < j ==> work[k] == table(i as nat, k as nat),
            decreases n + 1 - j,
        {
            proof {
                lemma_table_bound(i as nat, j as nat);
                assert((j + 1) * MODULUS <= (n + 1) * MODULUS) by (nonlinear_arith)
                    requires
                        j <= n,
                ;
            }
            let entry = work[j - i] + done[j] % MODULUS;
            work.set(j, entry);
            j += 1;
        }
        core::mem::swap(&mut done, &mut work);
        i += 1;
    }
    done[n]
}

} // verus!

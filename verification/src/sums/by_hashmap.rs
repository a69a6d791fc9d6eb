use vstd::prelude::*;
use vstd::arithmetic::div_mod::{lemma_add_mod_noop, lemma_mod_bound, lemma_small_mod};
use std::collections::HashMap;
use super::MODULUS;

verus! {

broadcast use vstd::std_specs::hash::group_hash_axioms;

/// Number of ways, reduced modulo `MODULUS`, to write `n` as a sum of
/// numbers between one and `k`. Where a reduction takes place, it is of the
/// sum over the largest summand.
pub open spec fn splits(n: nat, k: nat) -> nat
    decreases n, 1nat, 0nat,
{
    if n == 0 || k == 1 {
        1
    } else {
        splits_upto(n, if k <= n { k } else { n }) % (MODULUS as nat)
    }
}

/// The sum, over the largest summands `1..=m`, of the reduced numbers of
/// ways to write `n` with that largest summand.
pub open spec fn splits_upto(n: nat, m: nat) -> nat
    decreases n, 0nat, m,
{
    if m == 0 || m > n {
        0
    } else {
        splits_upto(n, (m - 1) as nat) + splits((n - m) as nat, m)
    }
}

/// The key under which the memo keeps `splits(n, k)`.
pub open spec fn key_of(n: u64, k: u64) -> u128 {
    (n * 0x1_0000_0000_0000_0000 + k) as u128
}

/// Reduced numbers are below the modulus.
pub proof fn lemma_splits_bound(n: nat, k: nat)
    ensures
        splits(n, k) < MODULUS,
{
    if !(n == 0 || k == 1) {
        lemma_mod_bound(splits_upto(n, if k <= n { k } else { n }) as int, MODULUS as int);
    }
}

/// Counts sums and remembers every count that it has worked out.
pub struct MemoSumSplitter(pub HashMap<u128, u64>);

impl MemoSumSplitter {
    /// Every count in the memo is the right one.
    pub open spec fn wf(&self) -> bool {
        forall|n: u64, k: u64|
            self.0@.contains_key(#[trigger] key_of(n, k)) ==> self.0@[key_of(n, k)] == splits(
                n as nat,
                k as nat,
            )
    }

    /// Split n into sums with summands at most k.
    pub fn split_rec_impl(&mut self, n: u64, k: u64) -> (v: u64)
        requires
            old(self).wf(),
        ensures
            final(self).wf(),
            v == splits(n as nat, k as nat),
        decreases n, 0nat,
    {
        if n == 0 || k == 1 {
            return 1;
        }
        let mut v: u64 = 0;
        let top = if k <= n {
            k
        } else {
            n
        };
        let mut tried: u64 = 0;
        proof {
            lemma_small_mod(0, MODULUS as nat);
        }
        while tried < top
            invariant
                self.wf(),
                top <= n,
                n > 0,
                tried <= top,
                v == splits_upto(n as nat, tried as nat) % (MODULUS as nat),
                v < MODULUS,
            decreases top - tried,
        {
            let i = tried + 1;
            let part = self.split_rec(n - i, i);
            proof {
                lemma_splits_bound((n - i) as nat, i as nat);
                lemma_add_mod_noop(
                    splits_upto(n as nat, (i - 1) as nat) as int,
                    part as int,
                    MODULUS as int,
                );
                lemma_small_mod(part as nat, MODULUS as nat);
            }
            v += part;
            v %= MODULUS;
            tried = i;
        }
        v
    }

    /// The count for `n` and `k`, from the memo if it is there.
    pub fn split_rec(&mut self, n: u64, k: u64) -> (v: u64)
        requires
            old(self).wf(),
        ensures
            final(self).wf(),
            v == splits(n as nat, k as nat),
        decreases n, 1nat,
    {
        assert(n * 0x1_0000_0000_0000_0000 + k <= 0xffff_ffff_ffff_ffff_ffff_ffff_ffff_ffff)
            by (nonlinear_arith)
            requires
                0 <= n <= 0xffff_ffff_ffff_ffff,
                0 <= k <= 0xffff_ffff_ffff_ffff,
        ;
        let key: u128 = (n as u128) * 0x1_0000_0000_0000_0000 + (k as u128);
        assert(key == key_of(n, k));
        if let Some(v) = self.0.get(&key) {
            return *v;
        }
        let v = self.split_rec_impl(n, k);
        self.0.insert(key, v);
        proof {
            assert forall|a: u64, b: u64| self.0@.contains_key(#[trigger] key_of(a, b)) implies self.0@[key_of(
                a,
                b,
            )] == splits(a as nat, b as nat) by {
                lemma_key_injective(n, k, a, b);
            }
        }
        v
    }

    /// Number of ways, reduced, to write `n` as a sum of positive numbers.
    pub fn split(&mut self, n: u64) -> (v: u64)
        requires
            old(self).wf(),
        ensures
            final(self).wf(),
            v == splits(n as nat, n as nat),
    {
        self.split_rec(n, n)
    }
}

/// Different pairs have different keys.
pub proof fn lemma_key_injective(n: u64, k: u64, a: u64, b: u64)
    ensures
        key_of(n, k) == key_of(a, b) ==> n == a && k == b,
{
    assert(n * 0x1_0000_0000_0000_0000 + k == a * 0x1_0000_0000_0000_0000 + b ==> n == a && k
        == b) by (nonlinear_arith)
        requires
            0 <= n <= 0xffff_ffff_ffff_ffff,
            0 <= k <= 0xffff_ffff_ffff_ffff,
            0 <= a <= 0xffff_ffff_ffff_ffff,
            0 <= b <= 0xffff_ffff_ffff_ffff,
    ;
    assert(n * 0x1_0000_0000_0000_0000 + k <= 0xffff_ffff_ffff_ffff_ffff_ffff_ffff_ffff
        && a * 0x1_0000_0000_0000_0000 + b <= 0xffff_ffff_ffff_ffff_ffff_ffff_ffff_ffff)
        by (nonlinear_arith)
        requires
            0 <= n <= 0xffff_ffff_ffff_ffff,
            0 <= k <= 0xffff_ffff_ffff_ffff,
            0 <= a <= 0xffff_ffff_ffff_ffff,
            0 <= b <= 0xffff_ffff_ffff_ffff,
    ;
}

impl Default for MemoSumSplitter {
    fn default() -> (splitter: Self)
        ensures
            splitter.wf(),
            splitter.0@ == Map::<u128, u64>::empty(),
    {
        MemoSumSplitter(HashMap::new())
    }
}

/// Number of ways, reduced, to write `n` as a sum of positive numbers.
pub fn memo_split(n: u64) -> (v: u64)
    ensures
        v == splits(n as nat, n as nat),
{
    let mut splitter = MemoSumSplitter::default();
    splitter.split(n)
}

} // verus!

use vstd::prelude::*;
use vstd::arithmetic::div_mod::{lemma_fundamental_div_mod, lemma_mod_multiples_basic};

verus! {

/// `n` has no divisor but one and itself, and is not one of these two.
pub open spec fn is_prime(n: nat) -> bool {
    n >= 2 && forall|d: nat| 2 <= d < n ==> #[trigger] (n % d) != 0
}

/// The numbers of `factors` multiplied.
pub open spec fn product(factors: Seq<u64>) -> nat
    decreases factors.len(),
{
    if factors.len() == 0 {
        1
    } else {
        product(factors.drop_last()) * factors.last() as nat
    }
}

/// The least divisor of `n` that is at least `k`.
pub open spec fn least_divisor(n: nat, k: nat) -> nat
    decreases n - k,
{
    if k >= n || k == 0 {
        n
    } else if n % k == 0 {
        k
    } else {
        least_divisor(n, k + 1)
    }
}

proof fn lemma_least_divisor(n: nat, k: nat)
    requires
        1 <= k <= n,
    ensures
        k <= least_divisor(n, k) <= n,
        n % least_divisor(n, k) == 0,
        forall|e: nat| k <= e < least_divisor(n, k) ==> #[trigger] (n % e) != 0,
    decreases n - k,
{
    if k >= n {
        assert(n % n == 0) by (nonlinear_arith)
            requires
                n >= 1,
        ;
    } else if n % k != 0 {
        lemma_least_divisor(n, k + 1);
    }
}

/// A divisor of a divisor of `n` divides `n`.
proof fn lemma_divides_trans(n: nat, d: nat, e: nat)
    requires
        d > 0,
        e > 0,
        n % d == 0,
        d % e == 0,
    ensures
        n % e == 0,
{
    lemma_fundamental_div_mod(n as int, d as int);
    lemma_fundamental_div_mod(d as int, e as int);
    let a = n as int / d as int;
    let b = d as int / e as int;
    assert(n == (b * a) * e) by (nonlinear_arith)
        requires
            n == d * a,
            d == e * b,
    ;
    lemma_mod_multiples_basic(b * a, e as int);
}

/// The least divisor above one of a number is prime, and unless the number
/// is prime itself the square of that divisor does not exceed it.
pub proof fn lemma_prime_divisor(n: nat) -> (p: nat)
    requires
        n >= 2,
    ensures
        is_prime(p),
        p <= n,
        n % p == 0,
        p == n || p * p <= n,
        p == n <==> is_prime(n),
{
    let p = least_divisor(n, 2);
    lemma_least_divisor(n, 2);
    assert forall|e: nat| 2 <= e < p implies #[trigger] (p % e) != 0 by {
        if p % e == 0 {
            lemma_divides_trans(n, p, e);
        }
    }
    if p < n {
        lemma_fundamental_div_mod(n as int, p as int);
        let a = (n as int / p as int) as nat;
        assert(a >= 2 && n == a * p) by (nonlinear_arith)
            requires
                n == p * a,
                2 <= p < n,
        ;
        lemma_mod_multiples_basic(p as int, a as int);
        assert(n % a == 0);
        assert(a >= p);
        assert(p * p <= n) by (nonlinear_arith)
            requires
                n == a * p,
                a >= p,
                p >= 2,
        ;
    }
    p
}

/// Tells whether `n` is prime, given the primes below it in rising order.
pub fn is_prime_wrt(n: u64, primes: &[u64]) -> (prime: bool)
    requires
        n >= 2,
        forall|i: int, j: int| 0 <= i < j < primes.len() ==> primes[i] < primes[j],
        forall|i: int| 0 <= i < primes.len() ==> is_prime(#[trigger] primes[i] as nat),
        forall|p: nat| #[trigger] is_prime(p) && p < n ==> primes@.contains(p as u64),
    ensures
        prime == is_prime(n as nat),
{
    let mut k: usize = 0;
    let mut checked_all = false;
    while k < primes.len() && !checked_all
        invariant
            n >= 2,
            k <= primes.len(),
            forall|i: int, j: int| 0 <= i < j < primes.len() ==> primes[i] < primes[j],
            forall|i: int| 0 <= i < primes.len() ==> is_prime(#[trigger] primes[i] as nat),
            forall|i: int| 0 <= i < k ==> n % #[trigger] primes[i] != 0 || primes[i] >= n,
            checked_all ==> k < primes.len() && primes[k as int] * primes[k as int] > n,
        decreases primes.len() - k, (if checked_all { 0int } else { 1int }),
    {
        let i = primes[k];
        assert(is_prime(i as nat));
        assert(i * i <= 0xffff_ffff_ffff_ffff * 0xffff_ffff_ffff_ffff) by (nonlinear_arith)
            requires
                0 <= i <= 0xffff_ffff_ffff_ffff,
        ;
        if (i as u128) * (i as u128) > n as u128 {
            checked_all = true;
        } else if n % i == 0 {
            assert(i < n) by (nonlinear_arith)
                requires
                    i * i <= n,
                    i >= 2,
            ;
            return false;
        } else {
            k += 1;
        }
    }
    proof {
        let p = lemma_prime_divisor(n as nat);
        if p < n {
            let j = choose|j: int| 0 <= j < primes.len() && primes[j] == p as u64;
            if checked_all {
                if j >= k {
                    let q = primes[k as int] as nat;
                    assert(q <= p);
                    assert(q * q <= p * p) by (nonlinear_arith)
                        requires
                            q <= p,
                    ;
                }
            }
            assert(j < k);
            assert(n % primes[j] != 0 || primes[j] >= n);
        }
    }
    true
}

/// The primes found so far: all primes below `next`, in rising order.
pub struct PrimeVault {
    pub primes: Vec<u64>,
    pub next: u64,
}

impl PrimeVault {
    pub open spec fn wf(&self) -> bool {
        &&& self.next >= 2
        &&& forall|i: int, j: int|
            0 <= i < j < self.primes.len() ==> self.primes@[i] < self.primes@[j]
        &&& forall|i: int|
            0 <= i < self.primes.len() ==> is_prime(#[trigger] self.primes@[i] as nat)
                && self.primes@[i] < self.next
        &&& forall|p: nat| #[trigger] is_prime(p) && p < self.next ==> self.primes@.contains(p as u64)
    }

    pub fn new() -> (vault: Self)
        ensures
            vault.wf(),
            vault.primes@ == Seq::<u64>::empty(),
            vault.next == 2,
    {
        PrimeVault { primes: Vec::new(), next: 2 }
    }

    /// Finds the least prime that is not in the vault yet and is below
    /// `limit`, and adds it; `None` if there is no such prime.
    pub fn extend(&mut self, limit: u64) -> (found: Option<u64>)
        requires
            old(self).wf(),
        ensures
            final(self).wf(),
            match found {
                Some(p) => old(self).next <= p < limit && is_prime(p as nat)
                    && (forall|q: nat| old(self).next <= q < p ==> !#[trigger] is_prime(q))
                    && final(self).primes@ == old(self).primes@.push(p) && final(self).next == p + 1,
                None => (forall|q: nat| old(self).next <= q < limit ==> !#[trigger] is_prime(q))
                    && final(self).primes@ == old(self).primes@
                    && final(self).next == if old(self).next < limit {
                    limit
                } else {
                    old(self).next
                },
            },
    {
        while self.next < limit && !is_prime_wrt(self.next, self.primes.as_slice())
            invariant
                self.wf(),
                self.primes@ == old(self).primes@,
                old(self).next <= self.next,
                self.next <= limit || self.next == old(self).next,
                forall|q: nat| old(self).next <= q < self.next ==> !#[trigger] is_prime(q),
            decreases limit - self.next,
        {
            self.next += 1;
        }
        if self.next < limit {
            let this = self.next;
            self.next += 1;
            self.primes.push(this);
            proof {
                let before = old(self).primes@;
                assert forall|p: nat| #[trigger] is_prime(p) && p < self.next implies self.primes@.contains(
                    p as u64,
                ) by {
                    if p < this {
                        let j = choose|j: int| 0 <= j < before.len() && before[j] == p as u64;
                        assert(self.primes@[j] == p as u64);
                    } else {
                        assert(self.primes@[before.len() as int] == this);
                    }
                }
            }
            Some(this)
        } else {
            None
        }
    }
}

impl Default for PrimeVault {
    fn default() -> (vault: Self)
        ensures
            vault.wf(),
            vault.primes@ == Seq::<u64>::empty(),
            vault.next == 2,
    {
        Self::new()
    }
}

/// Walks over the primes below `limit` in rising order, first those that
/// the vault holds, then those that it has to find. `vault_ix` primes have
/// been handed out.
pub struct ExtendIter<'a> {
    pub vault: &'a mut PrimeVault,
    pub limit: u64,
    pub vault_ix: usize,
}

impl PrimeVault {
    pub fn extend_iter(&mut self, limit: u64) -> (iter: ExtendIter<'_>)
        ensures
            *iter.vault == *old(self),
            iter.limit == limit,
            iter.vault_ix == 0,
            *final(self) == *final(iter.vault),
    {
        ExtendIter { vault: self, limit, vault_ix: 0 }
    }
}

impl<'a> ExtendIter<'a> {
    /// The iterator stands at a position of its vault.
    pub open spec fn wf(&self) -> bool {
        self.vault.wf() && self.vault_ix <= self.vault.primes.len()
    }

    /// The next prime below the limit; `None` when there is none left. The
    /// vault grows by the prime if it did not hold it.
    pub fn next(&mut self) -> (item: Option<u64>)
        requires
            old(self).wf(),
        ensures
            final(self).wf(),
            *final(final(self).vault) == *final(old(self).vault),
            final(self).limit == old(self).limit,
            old(self).vault.primes@.is_prefix_of(final(self).vault.primes@),
            old(self).vault.next <= final(self).vault.next,
            old(self).vault_ix < old(self).vault.primes.len()
                ==> *final(self).vault == *old(self).vault,
            old(self).vault_ix >= old(self).vault.primes.len() ==> match item {
                Some(p) => old(self).vault.next <= p
                    && (forall|q: nat| old(self).vault.next <= q < p ==> !#[trigger] is_prime(q))
                    && final(self).vault.primes@ == old(self).vault.primes@.push(p)
                    && final(self).vault.next == p + 1,
                None => final(self).vault.next == if old(self).vault.next < old(self).limit {
                    old(self).limit
                } else {
                    old(self).vault.next
                },
            },
            match item {
                Some(p) => p < old(self).limit && final(self).vault_ix == old(self).vault_ix + 1
                    && old(self).vault_ix < final(self).vault.primes.len()
                    && final(self).vault.primes@[old(self).vault_ix as int] == p
                    && final(self).vault.primes.len() <= old(self).vault.primes.len() + 1,
                None => final(self).vault_ix == old(self).vault_ix
                    && final(self).vault.primes@ == old(self).vault.primes@
                    && final(self).vault.next >= old(self).limit && forall|i: int|
                    old(self).vault_ix <= i < final(self).vault.primes.len()
                        ==> #[trigger] final(self).vault.primes@[i] >= old(self).limit,
            },
    {
        let ix = self.vault_ix;
        if ix < self.vault.primes.len() {
            let result = self.vault.primes[ix];
            if result < self.limit {
                self.vault_ix = ix + 1;
                Some(result)
            } else {
                None
            }
        } else {
            let ghost before = self.vault.primes@;
            let found = self.vault.extend(self.limit);
            if found.is_some() {
                assert(self.vault.primes@.len() == before.len() + 1);
                assert(self.vault.primes.len() == ix + 1);
                self.vault_ix = ix + 1;
                assert(before.is_prefix_of(self.vault.primes@));
            }
            found
        }
    }

    /// All primes below the limit that are left, in rising order.
    pub fn collect(self) -> (primes: Vec<u64>)
        requires
            old(self.vault).wf(),
            self.vault_ix <= old(self.vault).primes.len(),
        ensures
            final(self.vault).wf(),
            old(self.vault).primes@.is_prefix_of(final(self.vault).primes@),
            self.vault_ix + primes.len() <= final(self.vault).primes.len(),
            primes@ == final(self.vault).primes@.subrange(
                self.vault_ix as int,
                self.vault_ix + primes.len(),
            ),
            forall|k: int| 0 <= k < primes.len() ==> #[trigger] primes[k] < self.limit,
            forall|i: int|
                self.vault_ix + primes.len() <= i < final(self.vault).primes.len()
                    ==> #[trigger] final(self.vault).primes@[i] >= self.limit,
            final(self.vault).next == if old(self.vault).next < self.limit {
                self.limit
            } else {
                old(self.vault).next
            },
            old(self.vault).next >= self.limit ==> final(self.vault).primes@ == old(self.vault).primes@,
    {
        let mut iter = self;
        let mut primes: Vec<u64> = Vec::new();
        let ghost start = iter.vault_ix as int;
        let ghost first = iter.vault.primes@;
        let ghost first_next = iter.vault.next;
        let ghost mut floor: int = 0;
        let mut more = true;
        while more
            invariant
                iter.wf(),
                iter.limit == self.limit,
                *final(iter.vault) == *final(self.vault),
                first.is_prefix_of(iter.vault.primes@),
                first_next <= iter.vault.next,
                iter.vault.next <= first_next || iter.vault.next <= self.limit,
                first_next >= self.limit ==> iter.vault.primes@ == first,
                !more ==> iter.vault.next == if first_next < self.limit {
                    self.limit
                } else {
                    first_next
                },
                iter.vault_ix == start + primes.len(),
                0 <= start,
                start + primes.len() <= iter.vault.primes.len(),
                primes@ == iter.vault.primes@.subrange(start, start + primes.len()),
                forall|k: int| 0 <= k < primes.len() ==> #[trigger] primes[k] < self.limit,
                0 <= floor <= self.limit,
                forall|i: int|
                    iter.vault_ix <= i < iter.vault.primes.len() ==> #[trigger] iter.vault.primes@[i]
                        >= floor,
                floor <= iter.vault.next || iter.vault_ix < iter.vault.primes.len(),
                !more ==> iter.vault.next >= self.limit && forall|i: int|
                    iter.vault_ix <= i < iter.vault.primes.len() ==> #[trigger] iter.vault.primes@[i]
                        >= self.limit,
            decreases self.limit - floor, (if more { 1int } else { 0int }),
        {
            let ghost before = iter.vault.primes@;
            let ghost position = iter.vault_ix as int;
            let ghost handed = primes@;
            match iter.next() {
                Some(p) => {
                    primes.push(p);
                    proof {
                        assert(p >= floor);
                        floor = p + 1;
                        let after = iter.vault.primes@;
                        assert forall|k: int| 0 <= k < before.len() implies before[k] == after[k] by {
                            assert(before[k] == after.subrange(0, before.len() as int)[k]);
                        }
                        assert(position == start + handed.len());
                        assert(after[position] == p);
                        assert forall|k: int| 0 <= k < primes.len() implies primes[k] == after[start
                            + k] by {
                            if k < handed.len() {
                                assert(handed[k] == before.subrange(start, position)[k]);
                                assert(before[start + k] == after[start + k]);
                            }
                        }
                        assert(primes@ =~= after.subrange(start, start + primes.len()));
                        assert forall|i: int|
                            iter.vault_ix <= i < iter.vault.primes.len() implies #[trigger] iter.vault.primes@[i]
                            >= floor by {
                            assert(iter.vault.primes@[position] < iter.vault.primes@[i]);
                        }
                    }
                },
                None => {
                    more = false;
                },
            }
        }
        primes
    }
}

/// Divides `rest` by `p` as often as it goes, and notes `p` in `factors` each
/// time.
fn divide_out(rest: u64, p: u64, factors: &mut Vec<u64>) -> (left: u64)
    requires
        p >= 2,
        rest >= 1,
    ensures
        1 <= left <= rest,
        left % p != 0,
        rest % left == 0,
        product(final(factors)@) * left == product(old(factors)@) * rest,
        old(factors).len() <= final(factors).len(),
        forall|k: int| 0 <= k < old(factors).len() ==> final(factors)@[k] == old(factors)@[k],
        forall|k: int| old(factors).len() <= k < final(factors).len() ==> final(factors)@[k] == p,
{
    let mut left = rest;
    proof {
        assert(rest % rest == 0) by (nonlinear_arith)
            requires
                rest >= 1,
        ;
    }
    while left % p == 0
        invariant
            p >= 2,
            1 <= left <= rest,
            rest % left == 0,
            product(factors@) * left == product(old(factors)@) * rest,
            old(factors).len() <= factors.len(),
            forall|k: int| 0 <= k < old(factors).len() ==> factors@[k] == old(factors)@[k],
            forall|k: int| old(factors).len() <= k < factors.len() ==> factors@[k] == p,
        decreases left,
    {
        let ghost whole = left;
        let ghost found = factors@;
        proof {
            lemma_fundamental_div_mod(left as int, p as int);
            assert(left / p < left && left == (left / p) * p && left / p >= 1) by (nonlinear_arith)
                requires
                    left == p * (left / p),
                    p >= 2,
                    left >= 1,
            ;
            lemma_mod_multiples_basic(p as int, (left / p) as int);
            assert(left % (left / p) == 0);
            lemma_divides_trans(rest as nat, left as nat, (left / p) as nat);
        }
        left /= p;
        factors.push(p);
        proof {
            assert(factors@.drop_last() =~= found);
            assert(product(factors@) == product(found) * p);
            assert(product(factors@) * left == product(found) * whole) by (nonlinear_arith)
                requires
                    product(factors@) == product(found) * p,
                    whole == left * p,
            ;
        }
    }
    left
}

impl PrimeVault {
    /// The prime factors of `n` in rising order, each as often as it
    /// divides `n`. The vault grows by the primes that had to be tried.
    pub fn factorize(&mut self, n: u64) -> (factors: Vec<u64>)
        requires
            old(self).wf(),
            n < u64::MAX,
        ensures
            final(self).wf(),
            old(self).primes@.is_prefix_of(final(self).primes@),
            old(self).next <= final(self).next,
            final(self).next <= old(self).next || final(self).next <= n + 1,
            n >= 1 ==> product(factors@) == n,
            n == 0 ==> factors.len() == 0,
            forall|k: int| 0 <= k < factors.len() ==> is_prime(#[trigger] factors[k] as nat),
            forall|j: int, k: int| 0 <= j <= k < factors.len() ==> factors[j] <= factors[k],
    {
        let mut rest = n;
        let mut factors: Vec<u64> = Vec::new();
        let ghost first = self.primes@;
        let ghost first_next = self.next;
        let ghost outcome = *final(self);
        let mut iter = self.extend_iter(n + 1);
        let ghost mut floor: int = 0;
        let mut more = true;
        assert(product(factors@) == 1);
        while more
            invariant
                iter.wf(),
                iter.limit == n + 1,
                *final(iter.vault) == outcome,
                first.is_prefix_of(iter.vault.primes@),
                first_next <= iter.vault.next,
                iter.vault.next <= first_next || iter.vault.next <= n + 1,
                rest <= n < u64::MAX,
                n >= 1 ==> rest >= 1 && product(factors@) * rest == n,
                n == 0 ==> factors.len() == 0,
                forall|k: int| 0 <= k < factors.len() ==> is_prime(#[trigger] factors[k] as nat),
                forall|j: int, k: int| 0 <= j <= k < factors.len() ==> factors[j] <= factors[k],
                forall|k: int| 0 <= k < factors.len() ==> #[trigger] factors[k] < floor,
                0 <= floor <= n + 1,
                forall|i: int|
                    iter.vault_ix <= i < iter.vault.primes.len() ==> #[trigger] iter.vault.primes@[i]
                        >= floor,
                floor <= iter.vault.next || iter.vault_ix < iter.vault.primes.len(),
                forall|i: int|
                    0 <= i < iter.vault_ix ==> rest % #[trigger] iter.vault.primes@[i] != 0 || n == 0,
                !more && n >= 1 ==> rest == 1,
            decreases n + 1 - floor, (if more { 1int } else { 0int }),
        {
            let ghost before = iter.vault.primes@;
            let ghost position = iter.vault_ix as int;
            match iter.next() {
                None => {
                    more = false;
                    proof {
                        if n >= 1 && rest >= 2 {
                            let q = lemma_prime_divisor(rest as nat);
                            let j = choose|j: int|
                                0 <= j < iter.vault.primes.len() && iter.vault.primes@[j] == q as u64;
                            assert(iter.vault.primes@[j] < n + 1);
                            assert(j < position);
                        }
                    }
                },
                Some(p) => {
                    let ghost seen = iter.vault.primes@;
                    proof {
                        assert forall|k: int| 0 <= k < before.len() implies before[k] == seen[k] by {
                            assert(before[k] == seen.subrange(0, before.len() as int)[k]);
                        }
                        assert(seen[position] == p);
                        assert(is_prime(p as nat));
                        assert(p >= floor);
                    }
                    if p > rest {
                        more = false;
                        proof {
                            if n >= 1 {
                                vstd::arithmetic::div_mod::lemma_small_mod(rest as nat, p as nat);
                            }
                            if n >= 1 && rest >= 2 {
                                let q = lemma_prime_divisor(rest as nat);
                                let j = choose|j: int| 0 <= j < seen.len() && seen[j] == q as u64;
                                if j >= position {
                                    assert(seen[position] <= seen[j]);
                                }
                                assert(j < position);
                                assert(rest % seen[j] != 0);
                            }
                        }
                    } else {
                        let ghost whole = rest;
                        let ghost found = factors@;
                        rest = divide_out(rest, p, &mut factors);
                        proof {
                            assert forall|i: int| 0 <= i < position implies rest
                                % #[trigger] seen[i] != 0 by {
                                assert(is_prime(seen[i] as nat));
                                if rest % seen[i] == 0 {
                                    lemma_divides_trans(whole as nat, rest as nat, seen[i] as nat);
                                }
                            }
                            assert forall|j: int, k: int|
                                0 <= j <= k < factors.len() implies factors[j] <= factors[k] by {
                                if j < found.len() {
                                    assert(factors[j] == found[j]);
                                }
                                if k < found.len() {
                                    assert(factors[k] == found[k]);
                                }
                            }
                            assert forall|k: int| 0 <= k < factors.len() implies is_prime(
                                #[trigger] factors[k] as nat,
                            ) && factors[k] <= p by {
                                if k < found.len() {
                                    assert(factors[k] == found[k]);
                                }
                            }
                        }
                        if rest == 1 {
                            more = false;
                        }
                    }
                    proof {
                        floor = p + 1;
                        assert forall|i: int|
                            iter.vault_ix <= i < iter.vault.primes.len() implies #[trigger] iter.vault.primes@[i]
                            >= floor by {
                            assert(seen[position] < seen[i]);
                        }
                    }
                },
            }
        }
        factors
    }
}

} // verus!

//! Primality: the mathematical definition, the divisor lemmas every
//! sieve proof rests on, a direct primality test, and an incrementally
//! growing prime membership cache.
use vstd::prelude::*;

use fixedbitset::FixedBitSet;

use crate::bitset::bits;
use crate::bitset::bitset_contains;
use crate::bitset::bitset_default;
use crate::bitset::bitset_grow;
use crate::bitset::bitset_insert;
use crate::bitset::bitset_len;
use crate::sieve::reach_value;
use crate::sieve::IncrementalSieve;

verus! {

/// The first value past the deepest sieve's range: the membership cache
/// can answer for every value below it.
pub const SIEVE_REACH: u64 = 18446744073705357315;

/// `n` is prime: at least two, with no divisor strictly between one and
/// itself.
pub open spec fn is_prime_spec(n: nat) -> bool {
    n >= 2 && forall|d: nat| 2 <= d < n ==> #[trigger] (n % d) != 0
}

/// A proper divisor witnesses compositeness.
pub proof fn lemma_divisor_not_prime(n: nat, d: nat)
    requires
        2 <= d < n,
        n % d == 0,
    ensures
        !is_prime_spec(n),
{
}

/// Every composite number has a prime factor whose square does not
/// exceed it.
pub proof fn lemma_composite_prime_factor(n: nat)
    requires
        n >= 2,
        !is_prime_spec(n),
    ensures
        exists|q: nat| is_prime_spec(q) && #[trigger] (n % q) == 0 && q * q <= n,
{
    let d = choose|d: nat| 2 <= d < n && #[trigger] (n % d) == 0;
    lemma_prime_factor_from_divisor(n, d);
}

/// From any proper divisor, descend to a prime factor with a square not
/// exceeding `n`.
proof fn lemma_prime_factor_from_divisor(n: nat, d: nat)
    requires
        2 <= d < n,
        n % d == 0,
    ensures
        exists|q: nat| is_prime_spec(q) && #[trigger] (n % q) == 0 && q * q <= n,
    decreases d,
{
    if is_prime_spec(d) {
        if d * d <= n {
            assert(is_prime_spec(d) && n % d == 0 && d * d <= n);
        } else {
            let q = n / d;
            vstd::arithmetic::div_mod::lemma_fundamental_div_mod(n as int, d as int);
            assert(n == d * q);
            assert(q >= 2) by (nonlinear_arith)
                requires
                    n == d * q,
                    d < n,
                    d >= 2,
            ;
            assert(q < d) by (nonlinear_arith)
                requires
                    n == d * q,
                    n < d * d,
                    d >= 2,
                    q >= 2,
            ;
            assert(q < n) by (nonlinear_arith)
                requires
                    n == d * q,
                    d >= 2,
                    q >= 2,
            ;
            assert(n % q == 0) by {
                vstd::arithmetic::div_mod::lemma_mod_multiples_basic(d as int, q as int);
                assert(d * q == q * d) by (nonlinear_arith);
            }
            lemma_prime_factor_from_divisor(n, q);
        }
    } else {
        let e = choose|e: nat| 2 <= e < d && #[trigger] (d % e) == 0;
        let m = d / e;
        let k = n / d;
        vstd::arithmetic::div_mod::lemma_fundamental_div_mod(d as int, e as int);
        vstd::arithmetic::div_mod::lemma_fundamental_div_mod(n as int, d as int);
        assert(d == e * m && n == d * k);
        assert(n == e * (m * k)) by (nonlinear_arith)
            requires
                d == e * m,
                n == d * k,
        ;
        assert(n % e == 0) by {
            vstd::arithmetic::div_mod::lemma_mod_multiples_basic((m * k) as int, e as int);
            assert(e * (m * k) == (m * k) * e) by (nonlinear_arith);
        }
        lemma_prime_factor_from_divisor(n, e);
    }
}

/// A prime has no divisor at least two whose square stays within it.
pub proof fn lemma_prime_no_small_divisor(n: nat, q: nat)
    requires
        is_prime_spec(n),
        2 <= q,
        q * q <= n,
    ensures
        n % q != 0,
{
    assert(q < n) by (nonlinear_arith)
        requires
            2 <= q,
            q * q <= n,
    ;
}

/// A multiple of an even number is even.
pub proof fn lemma_even_divisor(n: nat, e: nat)
    requires
        e >= 2,
        e % 2 == 0,
        n % e == 0,
    ensures
        n % 2 == 0,
{
    let m = e / 2;
    let k = n / e;
    vstd::arithmetic::div_mod::lemma_fundamental_div_mod(e as int, 2);
    vstd::arithmetic::div_mod::lemma_fundamental_div_mod(n as int, e as int);
    assert(n == 2 * (m * k)) by (nonlinear_arith)
        requires
            e == 2 * m,
            n == e * k,
    ;
    assert(n % 2 == 0) by {
        vstd::arithmetic::div_mod::lemma_mod_multiples_basic((m * k) as int, 2);
        assert(2 * (m * k) == (m * k) * 2) by (nonlinear_arith);
    }
}

/// The primes strictly below `n`, as an increasing sequence.
pub open spec fn primes_below_seq(n: nat) -> Seq<u64>
    decreases n,
{
    if n <= 2 {
        Seq::<u64>::empty()
    } else if is_prime_spec((n - 1) as nat) {
        primes_below_seq((n - 1) as nat).push((n - 1) as u64)
    } else {
        primes_below_seq((n - 1) as nat)
    }
}

/// The basic shape of `primes_below_seq`: its elements are exactly the
/// primes below the bound, in strictly increasing order, and its last
/// element (when present) is the largest prime below the bound.
pub proof fn lemma_pbs_props(n: nat)
    requires
        n <= u64::MAX as nat + 1,
    ensures
        forall|k: int|
            0 <= k < primes_below_seq(n).len() ==> is_prime_spec(
                #[trigger] primes_below_seq(n)[k] as nat,
            ) && (primes_below_seq(n)[k] as nat) < n,
        forall|k1: int, k2: int|
            0 <= k1 < k2 < primes_below_seq(n).len() ==> primes_below_seq(n)[k1]
                < primes_below_seq(n)[k2],
        forall|p: nat|
            2 <= p < n && #[trigger] is_prime_spec(p) ==> primes_below_seq(n).contains(p as u64),
        primes_below_seq(n).len() > 0 ==> forall|m: nat|
            primes_below_seq(n).last() < m < n ==> !is_prime_spec(m),
        n >= 3 ==> primes_below_seq(n).len() > 0,
    decreases n,
{
    if n <= 2 {
    } else {
        lemma_pbs_props((n - 1) as nat);
        let prev = primes_below_seq((n - 1) as nat);
        let cur = primes_below_seq(n);
        if is_prime_spec((n - 1) as nat) {
            assert(cur == prev.push((n - 1) as u64));
            assert(forall|k: int| 0 <= k < prev.len() ==> cur[k] == prev[k]);
            assert(cur.last() == (n - 1) as u64);
            assert forall|p: nat|
                2 <= p < n && #[trigger] is_prime_spec(p) implies cur.contains(p as u64) by {
                if p < n - 1 {
                    let k = choose|k: int| 0 <= k < prev.len() && prev[k] == p as u64;
                    assert(cur[k] == p as u64);
                } else {
                    assert(cur[cur.len() - 1] == p as u64);
                }
            }
            assert(n == 3 ==> cur.len() > 0);
        } else {
            assert(cur == prev);
            if n - 1 == 2 {
                assert(is_prime_spec(2));
            }
            assert(n >= 3 ==> prev.len() > 0);
        }
    }
}

/// `primes_below_seq` of a smaller bound is a prefix of that of a
/// larger bound: producing primes incrementally is deterministic, and
/// continuing past a point only extends the sequence already produced.
pub proof fn lemma_pbs_prefix(a: nat, b: nat)
    requires
        a <= b,
    ensures
        primes_below_seq(a).len() <= primes_below_seq(b).len(),
        primes_below_seq(a) == primes_below_seq(b).take(primes_below_seq(a).len() as int),
    decreases b,
{
    if a < b {
        lemma_pbs_prefix(a, (b - 1) as nat);
        let pa = primes_below_seq(a);
        let pb1 = primes_below_seq((b - 1) as nat);
        if b > 2 && is_prime_spec((b - 1) as nat) {
            assert(primes_below_seq(b) == pb1.push((b - 1) as u64));
            assert(primes_below_seq(b).take(pa.len() as int) =~= pb1.take(pa.len() as int));
        } else {
            assert(primes_below_seq(b) == pb1);
        }
    } else {
        assert(primes_below_seq(a).take(primes_below_seq(a).len() as int)
            =~= primes_below_seq(a));
    }
}

/// An even number above two is composite.
pub proof fn lemma_even_not_prime(m: nat)
    requires
        m > 2,
        m % 2 == 0,
    ensures
        !is_prime_spec(m),
{
    lemma_divisor_not_prime(m, 2);
}

/// Stepping the bound over an odd value: the value itself joins the
/// sequence exactly when prime, and the following even value never does.
pub proof fn lemma_pbs_odd_step(v: nat)
    requires
        v >= 3,
        v % 2 == 1,
    ensures
        is_prime_spec(v) ==> primes_below_seq(v + 2) == primes_below_seq(v).push(v as u64),
        !is_prime_spec(v) ==> primes_below_seq(v + 2) == primes_below_seq(v),
{
    assert((v + 1) % 2 == 0);
    lemma_even_not_prime(v + 1);
    assert(primes_below_seq(v + 2) == if is_prime_spec((v + 1) as nat) {
        primes_below_seq(v + 1).push((v + 1) as u64)
    } else {
        primes_below_seq(v + 1)
    });
}

/// An odd composite has an odd prime factor whose square stays within
/// it.
pub proof fn lemma_odd_composite_factor(n: nat)
    requires
        n >= 3,
        n % 2 == 1,
        !is_prime_spec(n),
    ensures
        exists|q: nat|
            is_prime_spec(q) && q % 2 == 1 && #[trigger] (n % q) == 0 && q * q <= n,
{
    lemma_composite_prime_factor(n);
    let q = choose|q: nat| is_prime_spec(q) && #[trigger] (n % q) == 0 && q * q <= n;
    if q == 2 {
        assert(n % 2 == 0);
    }
    if q % 2 == 0 {
        assert(q >= 2);
        if q > 2 {
            lemma_even_not_prime(q);
        }
    }
    assert(is_prime_spec(q) && q % 2 == 1 && n % q == 0 && q * q <= n);
}

/// Whether `value` is prime, by trial division over odd candidates up to
/// the square root.
pub fn is_prime(value: u64) -> (r: bool)
    ensures
        r == is_prime_spec(value as nat),
{
    if value < 2 {
        return false;
    }
    if value == 2 {
        return true;
    }
    if value % 2 == 0 {
        proof {
            lemma_divisor_not_prime(value as nat, 2);
        }
        return false;
    }
    let mut d: u64 = 3;
    while d <= value / d
        invariant
            3 <= d,
            d % 2 == 1,
            value % 2 != 0,
            value >= 3,
            forall|e: nat| 2 <= e < d ==> #[trigger] ((value as nat) % e) != 0,
        decreases value - d,
    {
        proof {
            vstd::arithmetic::div_mod::lemma_fundamental_div_mod(value as int, d as int);
            assert((d as int) * (d as int) <= value) by (nonlinear_arith)
                requires
                    d >= 3,
                    d <= value / d,
                    value == (d as int) * (value / d) + value % d,
                    0 <= value % d,
            ;
            assert(d < 0x1_0000_0000u64) by (nonlinear_arith)
                requires
                    (d as int) * (d as int) <= value,
                    value <= u64::MAX,
                    d >= 3,
            ;
        }
        if value % d == 0 {
            proof {
                assert(d < value) by (nonlinear_arith)
                    requires
                        d >= 3,
                        (d as int) * (d as int) <= value as int,
                        value >= 3,
                        value % d == 0,
                        value % 2 != 0,
                ;
                lemma_divisor_not_prime(value as nat, d as nat);
            }
            return false;
        }
        proof {
            assert forall|e: nat| 2 <= e < d + 2 implies #[trigger] ((value as nat) % e) != 0 by {
                if e == d + 1 {
                    if (value as nat) % e == 0 {
                        lemma_even_divisor(value as nat, e);
                    }
                } else if e == d {
                    assert((value as nat) % (d as nat) != 0);
                }
            }
            assert(d + 2 <= value) by (nonlinear_arith)
                requires
                    d >= 3,
                    (d as int) * (d as int) <= value,
            ;
        }
        d = d + 2;
    }
    proof {
        vstd::arithmetic::div_mod::lemma_fundamental_div_mod(value as int, d as int);
        assert((value as int) < (d as int) * (d as int)) by (nonlinear_arith)
            requires
                d >= 3,
                d > value / d,
                value == (d as int) * (value / d) + value % d,
                value % d < d,
        ;
        if !is_prime_spec(value as nat) {
            lemma_composite_prime_factor(value as nat);
            let q = choose|q: nat|
                is_prime_spec(q) && #[trigger] ((value as nat) % q) == 0 && q * q <= value;
            assert(q < d) by (nonlinear_arith)
                requires
                    q * q <= value as int,
                    (value as int) < (d as int) * (d as int),
                    q >= 2,
                    d >= 3,
            ;
        }
    }
    true
}


/// A set of primes that expands incrementally: a bounded bitset over
/// `[0, limit)` backed by a segmented sieve positioned at the bitset's
/// horizon, grown on demand with a doubling policy.
pub struct IncrementalPrimeSet {
    set: FixedBitSet,
    sieve: IncrementalSieve,
    pending: Option<u64>,
}

impl IncrementalPrimeSet {
    /// The cache's current horizon: values below it answer in constant
    /// time.
    pub closed spec fn spec_limit(&self) -> int {
        bits(self.set).len() as int
    }

    /// The bitset answers primality for everything below the horizon,
    /// and the sieve holds the first prime at or past it.
    pub closed spec fn wf(&self) -> bool {
        &&& self.sieve.wf()
        &&& self.sieve.level() == 2
        &&& self.sieve.emitted() == primes_below_seq(self.sieve.reached() as nat)
        &&& 2 <= self.sieve.reached() <= u64::MAX
        &&& self.spec_limit() <= usize::MAX
        &&& forall|v: int|
            0 <= v < self.spec_limit() ==> #[trigger] bits(self.set)[v] == is_prime_spec(
                v as nat,
            )
        &&& match self.pending {
            Option::Some(p) => {
                &&& is_prime_spec(p as nat)
                &&& self.sieve.emitted().len() > 0
                &&& self.sieve.emitted().last() == p
                &&& self.spec_limit() <= p as int
                &&& forall|m: nat| self.spec_limit() <= m < p ==> !is_prime_spec(m)
            },
            Option::None => {
                ||| (self.sieve.emitted().len() == 0 && self.spec_limit() == 0)
                ||| (self.sieve.emitted().len() > 0 && self.spec_limit() > 0
                    && self.sieve.reached() >= SIEVE_REACH && forall|m: nat|
                    self.spec_limit() <= m < self.sieve.reached() ==> !is_prime_spec(m))
            },
        }
    }

    /// An empty cache: horizon zero, nothing sieved yet.
    pub fn new() -> (r: IncrementalPrimeSet)
        ensures
            r.wf(),
            r.spec_limit() == 0,
    {
        IncrementalPrimeSet {
            set: bitset_default(),
            sieve: IncrementalSieve::new(),
            pending: None,
        }
    }

    /// A cache pre-grown to the given horizon.
    pub fn with_initial_limit(limit: u64) -> (r: IncrementalPrimeSet)
        requires
            limit <= usize::MAX,
            limit <= SIEVE_REACH,
        ensures
            r.wf(),
            r.spec_limit() == limit,
    {
        let mut set = IncrementalPrimeSet::new();
        set.expand(limit);
        set
    }

    /// Grow the horizon to `limit`, recording every newly discovered
    /// prime; a no-op when the horizon is already at least `limit`.
    pub fn expand(&mut self, limit: u64)
        requires
            old(self).wf(),
            limit <= usize::MAX,
            limit <= SIEVE_REACH,
        ensures
            final(self).wf(),
            final(self).spec_limit() == if limit as int <= old(self).spec_limit() {
                old(self).spec_limit()
            } else {
                limit as int
            },
    {
        let cur = bitset_len(&self.set);
        if limit <= cur as u64 {
            return ;
        }
        proof {
            lemma_sieve_reach_values();
        }
        bitset_grow(&mut self.set, limit as usize);
        if self.pending.is_none() && cur == 0 {
            let first = self.sieve.next_prime();
            proof {
                if first is None {
                    lemma_pbs_props(self.sieve.reached() as nat);
                    assert(false);
                }
            }
            self.pending = first;
        }
        proof {
            match self.pending {
                Option::Some(p) => {
                    assert forall|m: nat| limit <= m < p implies !is_prime_spec(m) by {}
                    assert forall|v: int|
                        p as int <= v < limit implies !#[trigger] bits(self.set)[v] by {}
                },
                Option::None => {
                    assert(self.sieve.reached() >= SIEVE_REACH);
                    assert forall|v: int|
                        0 <= v < limit implies bits(self.set)[v] == #[trigger] is_prime_spec(
                        v as nat,
                    ) by {}
                },
            }
        }
        if self.pending.is_none() {
            return ;
        }
        loop
            invariant
                self.sieve.wf(),
                self.sieve.level() == 2,
                self.sieve.emitted() == primes_below_seq(self.sieve.reached() as nat),
                2 <= self.sieve.reached() <= u64::MAX,
                bits(self.set).len() == limit,
                0 < limit <= usize::MAX,
                limit <= SIEVE_REACH,
                reach_value(2) == SIEVE_REACH as int,
                limit as int > old(self).spec_limit(),
                self.pending is Some,
                is_prime_spec(self.pending->0 as nat),
                self.sieve.emitted().len() > 0,
                self.sieve.emitted().last() == self.pending->0,
                forall|m: nat| limit <= m < self.pending->0 ==> !is_prime_spec(m),
                forall|v: int|
                    0 <= v < limit && v < self.pending->0 as int ==> bits(self.set)[v]
                        == #[trigger] is_prime_spec(v as nat),
                forall|v: int|
                    self.pending->0 as int <= v < limit ==> !#[trigger] bits(self.set)[v],
            decreases limit as int + 1 - (if self.pending->0 as int <= limit as int + 1 {
                self.pending->0 as int
            } else {
                limit as int + 1
            }),
        {
            let p = match self.pending {
                Some(p) => p,
                None => 0,
            };
            if p >= limit {
                return ;
            }
            let ghost pre = bits(self.set);
            bitset_insert(&mut self.set, p as usize);
            proof {
                assert(bits(self.set) == pre.update(p as int, true));
            }
            let next = self.sieve.next_prime();
            self.pending = next;
            match next {
                Some(q) => {
                    proof {
                        assert(self.sieve.emitted().last() == q);
                        assert forall|v: int|
                            0 <= v < limit && v < q as int implies bits(self.set)[v]
                            == #[trigger] is_prime_spec(v as nat) by {
                            if (p as int) < v && v < (q as int) {
                                assert(!is_prime_spec(v as nat));
                            }
                            if v < p as int {
                                assert(pre[v] == is_prime_spec(v as nat));
                            }
                            if (p as int) < v {
                                assert(!pre[v]);
                            }
                            lemma_bits_update_step(
                                pre,
                                bits(self.set),
                                p,
                                limit,
                                v,
                                q as int,
                            );
                        }
                        assert forall|m: nat| limit <= m < q implies !is_prime_spec(m) by {
                            if (p as nat) < m {
                                assert(!is_prime_spec(m));
                            }
                        }
                        assert forall|v: int|
                            q as int <= v < limit implies !#[trigger] bits(self.set)[v] by {
                            assert(bits(self.set)[v] == pre[v]);
                        }
                    }
                },
                None => {
                    proof {
                        lemma_pbs_props(self.sieve.reached() as nat);
                        assert(self.sieve.emitted().last() == p);
                        assert forall|v: int|
                            0 <= v < limit implies bits(self.set)[v] == #[trigger] is_prime_spec(
                            v as nat,
                        ) by {
                            if (p as int) < v {
                                assert(!is_prime_spec(v as nat));
                            }
                            if v < p as int {
                                assert(pre[v] == is_prime_spec(v as nat));
                            }
                            if (p as int) < v {
                                assert(!pre[v]);
                            }
                            lemma_bits_update_step(
                                pre,
                                bits(self.set),
                                p,
                                limit,
                                v,
                                limit as int,
                            );
                        }
                        assert forall|m: nat|
                            limit <= m < self.sieve.reached() implies !is_prime_spec(m) by {
                            if (p as nat) < m {
                                assert(!is_prime_spec(m));
                            }
                        }
                    }
                    return ;
                },
            }
        }
    }

    /// The current horizon.
    pub fn limit(&self) -> (r: u64)
        requires
            self.wf(),
        ensures
            r == self.spec_limit(),
    {
        bitset_len(&self.set) as u64
    }

    /// Constant-time membership for values at or below the horizon.
    pub fn contains(&self, prime: u64) -> (r: bool)
        requires
            self.wf(),
            prime as int <= self.spec_limit(),
        ensures
            r == ((prime as int) < self.spec_limit() && is_prime_spec(prime as nat)),
    {
        bitset_contains(&self.set, prime as usize)
    }

    /// Whether `value` is prime, lazily growing the cache when the
    /// query lies beyond the current horizon.
    pub fn check_prime(&mut self, value: u64) -> (r: bool)
        requires
            old(self).wf(),
            value + 1000 <= usize::MAX,
            value + 1000 <= SIEVE_REACH,
        ensures
            final(self).wf(),
            r == is_prime_spec(value as nat),
            final(self).spec_limit() >= old(self).spec_limit(),
            (value as int) < final(self).spec_limit(),
    {
        let cur = self.limit();
        if value >= cur {
            let doubled: u64 = if cur <= usize::MAX as u64 / 2 {
                2 * cur
            } else {
                usize::MAX as u64
            };
            let doubled = if doubled > SIEVE_REACH {
                SIEVE_REACH
            } else {
                doubled
            };
            let target = if value + 1000 >= doubled {
                value + 1000
            } else {
                doubled
            };
            self.expand(target);
        }
        self.contains(value)
    }
}

/// One insertion step of the cache's expansion: after recording the
/// pending prime, every position below the next pending prime answers
/// primality correctly.
proof fn lemma_bits_update_step(
    pre: Seq<bool>,
    post: Seq<bool>,
    p: u64,
    limit: u64,
    v: int,
    hi: int,
)
    requires
        post == pre.update(p as int, true),
        (p as int) < limit <= pre.len(),
        is_prime_spec(p as nat),
        0 <= v < limit,
        v < hi,
        v < p as int ==> pre[v] == is_prime_spec(v as nat),
        (p as int) < v && v < hi ==> !is_prime_spec(v as nat),
        (p as int) < v ==> !pre[v],
    ensures
        post[v] == is_prime_spec(v as nat),
{
    if v == p as int {
        assert(post[v]);
    } else {
        assert(post[v] == pre[v]);
    }
}

/// The numeric identities behind the cache's reach constant.
proof fn lemma_sieve_reach_values()
    ensures
        reach_value(2) == SIEVE_REACH as int,
        SIEVE_REACH > 1000,
{
    assert(crate::sieve::lowi_cap(2) == crate::sieve::LOWI_MAX as int);
    assert(crate::sieve::LOWI_MAX as int == 9223372036850581504int);
    assert(reach_value(2) == 3 + 2 * (9223372036850581504int + 2097152));
}

/// Membership-cache consistency: the cache's answer for `v` coincides
/// with membership of `v` in the bounded sieve's bitset over
/// `[0, v + 1)`, whatever order queries arrive in.
pub proof fn lemma_cache_matches_bounded_sieve(r: bool, s: Seq<bool>, v: u64)
    requires
        r == is_prime_spec(v as nat),
        v < u64::MAX,
        crate::sieve::prime_bits(s, (v + 1) as nat),
    ensures
        r == s[v as int],
{
}

} // verus!

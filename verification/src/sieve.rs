//! Sieves of Eratosthenes: a bounded sieve producing a bitset of all
//! primes below a limit, and an incremental page-segmented sieve that
//! produces the primes one at a time without a fixed upper bound.
use vstd::prelude::*;

use fixedbitset::FixedBitSet;

use crate::bitset::bits;
use crate::bitset::bitset_contains;
use crate::bitset::bitset_ones;
use crate::bitset::bitset_set;
use crate::bitset::bitset_set_range_from;
use crate::bitset::bitset_with_capacity;
use crate::primes::is_prime_spec;
use crate::primes::lemma_composite_prime_factor;
use crate::primes::lemma_prime_no_small_divisor;

verus! {

/// Failures of sieve construction.
#[derive(Clone, Copy, PartialEq, Eq, Structural, Debug)]
pub enum SieveError {
    /// The requested bound exceeds the platform's addressable range.
    InvalidLimit,
}

/// The sieve's result: a bitset of length `limit` whose set bits are
/// exactly the primes below `limit`.
pub open spec fn prime_bits(s: Seq<bool>, limit: nat) -> bool {
    &&& s.len() == limit
    &&& forall|v: int| 0 <= v < limit ==> s[v] == is_prime_spec(v as nat)
}

/// A bit-per-integer table of the primes strictly below `limit`, built
/// with the sieve of Eratosthenes.  Fails with `InvalidLimit` exactly
/// when the bound cannot be indexed on this platform.
pub fn prime_set(limit: u64) -> (r: Result<FixedBitSet, SieveError>)
    ensures
        match r {
            Ok(s) => limit <= usize::MAX && prime_bits(bits(s), limit as nat),
            Err(e) => limit > usize::MAX && e == SieveError::InvalidLimit,
        },
{
    if limit > usize::MAX as u64 {
        return Err(SieveError::InvalidLimit);
    }
    let n = limit as usize;
    let mut s = bitset_with_capacity(n);
    if n >= 2 {
        bitset_set_range_from(&mut s, 2, true);
    }
    let mut i: usize = 2;
    proof {
        assert forall|v: int| 0 <= v < n implies #[trigger] bits(s)[v] == marked_spec(
            v,
            i as int,
        ) by {}
    }
    while i < n && i <= (n - 1) / i
        invariant
            2 <= i,
            n == limit <= usize::MAX,
            bits(s).len() == n,
            forall|v: int| 0 <= v < n ==> #[trigger] bits(s)[v] == marked_spec(v, i as int),
        decreases n - i,
    {
        proof {
            vstd::arithmetic::div_mod::lemma_fundamental_div_mod((n - 1) as int, i as int);
            assert((i as int) * (i as int) <= n - 1) by (nonlinear_arith)
                requires
                    i >= 2,
                    i <= (n - 1) / (i as int),
                    (n - 1) as int == (i as int) * ((n - 1) / (i as int)) + (n - 1) % (i as int),
                    0 <= (n - 1) % (i as int),
            ;
        }
        if bitset_contains(&s, i) {
            proof {
                assert((i as int) * (i as int) >= i) by (nonlinear_arith)
                    requires
                        i >= 2,
                ;
                lemma_marked_is_prime(i as int, i as int);
            }
            let mut j = i * i;
            proof {
                vstd::arithmetic::div_mod::lemma_mod_multiples_basic(i as int, i as int);
            }
            while j < n
                invariant
                    2 <= i,
                    n <= usize::MAX,
                    is_prime_spec(i as nat),
                    (i as int) * (i as int) <= j,
                    (j as int) % (i as int) == 0 || j == n,
                    bits(s).len() == n,
                    forall|v: int|
                        0 <= v < n ==> #[trigger] bits(s)[v] == (marked_spec(v, i as int)
                            && !culled(v, i as int, j as int)),
                decreases n - j,
            {
                bitset_set(&mut s, j, false);
                proof {
                    assert forall|v: int| 0 <= v < n implies #[trigger] bits(s)[v] == (
                    marked_spec(v, i as int) && !culled(v, i as int, j + i)) by {
                        if v != j {
                            if j < v < j + i && v % (i as int) == 0 {
                                lemma_no_multiple_between(v, j as int, i as int);
                            }
                            assert(culled(v, i as int, j + i) == culled(v, i as int, j as int));
                        } else {
                            assert(culled(v, i as int, j + i));
                        }
                    }
                }
                if n - j > i {
                    proof {
                        vstd::arithmetic::div_mod::lemma_mod_add_multiples_vanish(
                            j as int,
                            i as int,
                        );
                    }
                    j = j + i;
                } else {
                    proof {
                        assert forall|v: int| 0 <= v < n implies #[trigger] bits(s)[v] == (
                        marked_spec(v, i as int) && !culled(v, i as int, n as int)) by {
                            assert(culled(v, i as int, j + i) == culled(v, i as int, n as int));
                        }
                    }
                    j = n;
                }
            }
            proof {
                assert forall|v: int| 0 <= v < n implies #[trigger] bits(s)[v] == (marked_spec(
                    v,
                    i as int,
                ) && !(i * i <= v && v % (i as int) == 0)) by {
                    assert(culled(v, i as int, j as int) == (i * i <= v && v % (i as int) == 0));
                }
                lemma_marked_step(n as int, i as int);
            }
        } else {
            proof {
                assert(!marked_spec(i as int, i as int));
                if is_prime_spec(i as nat) {
                    lemma_marked_prime_self(i as int);
                }
                lemma_marked_composite_step(n as int, i as int);
            }
        }
        i = i + 1;
    }
    proof {
        if i < n {
            vstd::arithmetic::div_mod::lemma_fundamental_div_mod((n - 1) as int, i as int);
            assert(n <= (i as int) * (i as int)) by (nonlinear_arith)
                requires
                    i >= 2,
                    (n - 1) as int == (i as int) * ((n - 1) / (i as int)) + (n - 1) % (i as int),
                    (n - 1) / (i as int) < i,
                    (n - 1) % (i as int) < i,
            ;
        } else {
            assert(n <= (i as int) * (i as int)) by (nonlinear_arith)
                requires
                    i >= 2,
                    n <= i,
            ;
        }
        assert forall|v: int| 0 <= v < n implies #[trigger] bits(s)[v] == is_prime_spec(
            v as nat,
        ) by {
            lemma_marked_done(v, i as int, n as int);
        }
    }
    Ok(s)
}

/// Position `v` has been struck as a multiple of `q` below `j`: at
/// least the square of `q`, below `j`, and divisible by `q`.
pub open spec fn culled(v: int, q: int, j: int) -> bool {
    q * q <= v < j && v % q == 0
}

/// The sieve's invariant for position `v` once all candidates below `i`
/// have been processed: still marked iff at least two and not struck by
/// any prime below `i` whose square reaches it.
pub open spec fn marked_spec(v: int, i: int) -> bool {
    &&& v >= 2
    &&& forall|q: int|
        2 <= q < i && is_prime_spec(q as nat) ==> !(#[trigger] (v % q) == 0 && q * q <= v)
}

/// A position still marked when the sieve reaches it is prime.
proof fn lemma_marked_is_prime(v: int, i: int)
    requires
        v >= 2,
        v <= i,
        marked_spec(v, i),
    ensures
        is_prime_spec(v as nat),
{
    if !is_prime_spec(v as nat) {
        lemma_composite_prime_factor(v as nat);
        let q = choose|q: nat|
            is_prime_spec(q) && #[trigger] ((v as nat) % q) == 0 && q * q <= v;
        assert(q < v) by (nonlinear_arith)
            requires
                q * q <= v,
                q >= 2,
        ;
        assert(v % (q as int) == 0);
    }
}

/// A prime is never struck by the sieve: no smaller prime reaches it.
proof fn lemma_marked_prime_self(v: int)
    requires
        v >= 2,
        is_prime_spec(v as nat),
    ensures
        marked_spec(v, v),
{
    assert forall|q: int| 2 <= q < v && is_prime_spec(q as nat) implies !(#[trigger] (v % q) == 0
        && q * q <= v) by {
        if v % q == 0 && q * q <= v {
            lemma_prime_no_small_divisor(v as nat, q as nat);
        }
    }
}

/// No multiple of `i` lies strictly between consecutive multiples.
proof fn lemma_no_multiple_between(v: int, j: int, i: int)
    requires
        i >= 1,
        j % i == 0,
        j < v < j + i,
    ensures
        v % i != 0,
{
    vstd::arithmetic::div_mod::lemma_mod_adds(j, v - j, i);
    vstd::arithmetic::div_mod::lemma_small_mod((v - j) as nat, i as nat);
}

/// Once every multiple of a prime `i` from `i * i` on is struck,
/// positions marked for all primes below `i` and unstruck by `i` are
/// exactly those marked for all primes below `i + 1`.
proof fn lemma_marked_step(n: int, i: int)
    requires
        i >= 2,
        is_prime_spec(i as nat),
    ensures
        forall|v: int|
            0 <= v < n ==> (marked_spec(v, i) && !(i * i <= v && #[trigger] (v % i) == 0))
                == marked_spec(v, i + 1),
{
    assert forall|v: int| 0 <= v < n implies (marked_spec(v, i) && !(i * i <= v && #[trigger] (v
        % i) == 0)) == marked_spec(v, i + 1) by {
        if marked_spec(v, i) && !(i * i <= v && v % i == 0) {
            assert forall|q: int| 2 <= q < i + 1 && is_prime_spec(q as nat) implies !(#[trigger] (
            v % q) == 0 && q * q <= v) by {
                if q == i {
                } else {
                    assert(!(v % q == 0 && q * q <= v));
                }
            }
        }
        if marked_spec(v, i + 1) {
            assert(marked_spec(v, i));
            if i * i <= v && v % i == 0 {
                assert(!(v % i == 0 && i * i <= v));
            }
        }
    }
}

/// A composite candidate strikes nothing: marks for all primes below
/// `i` coincide with marks for all primes below `i + 1`.
proof fn lemma_marked_composite_step(n: int, i: int)
    requires
        i >= 2,
        !is_prime_spec(i as nat),
    ensures
        forall|v: int| 0 <= v < n ==> marked_spec(v, i) == marked_spec(v, i + 1),
{
    assert forall|v: int| 0 <= v < n implies marked_spec(v, i) == marked_spec(v, i + 1) by {
        if marked_spec(v, i) {
            assert forall|q: int| 2 <= q < i + 1 && is_prime_spec(q as nat) implies !(#[trigger] (
            v % q) == 0 && q * q <= v) by {
                if q != i {
                    assert(!(v % q == 0 && q * q <= v));
                }
            }
        }
    }
}

/// When the candidate square passes the bound, the sieve marks are the
/// primality predicate itself.
proof fn lemma_marked_done(v: int, i: int, n: int)
    requires
        i >= 2,
        0 <= v < n,
        n <= i * i,
    ensures
        marked_spec(v, i) == is_prime_spec(v as nat),
{
    if v < 2 {
    } else if is_prime_spec(v as nat) {
        assert forall|q: int| 2 <= q < i && is_prime_spec(q as nat) implies !(#[trigger] (v % q)
            == 0 && q * q <= v) by {
            if v % q == 0 && q * q <= v {
                lemma_prime_no_small_divisor(v as nat, q as nat);
            }
        }
    } else {
        lemma_composite_prime_factor(v as nat);
        let q = choose|q: nat|
            is_prime_spec(q) && #[trigger] ((v as nat) % q) == 0 && q * q <= v;
        assert(q < i) by (nonlinear_arith)
            requires
                q * q <= v,
                v < n,
                n <= i * i,
                q >= 2,
                i >= 2,
        ;
        assert(v % (q as int) == 0 && (q as int) * (q as int) <= v);
        assert(!marked_spec(v, i));
    }
}

/// Number of 32-bit words in one page buffer.
pub const BFSZ: usize = 65536;

/// Number of candidate bits per page.
pub const BFBTS: u64 = 2097152;

/// Numeric width of one page: each bit stands for one odd value.
pub const BFRNG: u64 = 4194304;

/// The odd value represented by global bit index `g`.
pub open spec fn bit_value(g: int) -> int {
    3 + 2 * g
}

/// Bit `j` of the packed word buffer.
pub open spec fn buf_bit(buf: Seq<u32>, j: u64) -> bool {
    (buf[(j >> 5) as int] >> ((j & 31) as u32)) & 1 == 1
}

/// Word and bit offsets below `BFBTS` stay in range, and equal offsets
/// identify the bit.
proof fn lemma_bit_index(j: u64, k: u64)
    requires
        j < BFBTS,
        k < BFBTS,
    ensures
        (j >> 5) < BFSZ,
        (j & 31) < 32,
        ((j >> 5) == (k >> 5) && (j & 31) == (k & 31)) ==> j == k,
{
    assert((j >> 5) < 0x10000 && (j & 31) < 32 && (((j >> 5) == (k >> 5) && (j & 31) == (k
        & 31)) ==> j == k)) by (bit_vector)
        requires
            j < 0x200000u64,
            k < 0x200000u64,
    ;
}

/// Reading one bit of the page buffer.
fn buf_get(buf: &Vec<u32>, j: u64) -> (r: bool)
    requires
        buf@.len() == BFSZ,
        j < BFBTS,
    ensures
        r == buf_bit(buf@, j),
{
    proof {
        lemma_bit_index(j, j);
    }
    let w = buf[(j >> 5) as usize];
    let b = (j & 31) as u32;
    proof {
        assert(((w & (1u32 << b)) != 0) == ((w >> b) & 1 == 1)) by (bit_vector)
            requires
                b < 32u32,
        ;
    }
    (w & (1u32 << b)) != 0
}

/// Setting one bit of the page buffer; all other bits are untouched.
fn buf_set(buf: &mut Vec<u32>, j: u64)
    requires
        old(buf)@.len() == BFSZ,
        j < BFBTS,
    ensures
        final(buf)@.len() == BFSZ,
        forall|k: u64|
            k < BFBTS ==> #[trigger] buf_bit(final(buf)@, k) == (k == j || buf_bit(
                old(buf)@,
                k,
            )),
{
    proof {
        lemma_bit_index(j, j);
    }
    let wi = (j >> 5) as usize;
    let b = (j & 31) as u32;
    let w = buf[wi];
    buf[wi] = w | (1u32 << b);
    proof {
        assert forall|k: u64| k < BFBTS implies #[trigger] buf_bit(buf@, k) == (k == j
            || buf_bit(old(buf)@, k)) by {
            lemma_bit_index(k, j);
            if (k >> 5) == (j >> 5) {
                let bk = (k & 31) as u32;
                assert(((((w | (1u32 << b)) >> bk) & 1) == 1) == (bk == b || ((w >> bk) & 1)
                    == 1)) by (bit_vector)
                    requires
                        b < 32u32,
                        bk < 32u32,
                ;
            }
        }
    }
}

/// Clear every bit of the page buffer.
fn clear_buf(buf: &mut Vec<u32>)
    requires
        old(buf)@.len() == BFSZ,
    ensures
        final(buf)@.len() == BFSZ,
        forall|k: u64| k < BFBTS ==> !#[trigger] buf_bit(final(buf)@, k),
{
    let mut i: usize = 0;
    while i < BFSZ
        invariant
            i <= BFSZ,
            buf@.len() == BFSZ,
            forall|t: int| 0 <= t < i ==> buf@[t] == 0u32,
        decreases BFSZ - i,
    {
        buf[i] = 0;
        i += 1;
    }
    proof {
        assert forall|k: u64| k < BFBTS implies !#[trigger] buf_bit(buf@, k) by {
            lemma_bit_index(k, k);
            let bk = (k & 31) as u32;
            assert((0u32 >> bk) & 1 == 0) by (bit_vector);
        }
    }
}

/// Odd value `bit_value(lowi + j)` is a struck multiple of `p`: at
/// least `p * p` and divisible by `p`.
pub open spec fn strikes(p: int, lowi: int, j: int) -> bool {
    p * p <= bit_value(lowi + j) && bit_value(lowi + j) % p == 0
}

/// For odd `p` with `p * p == bit_value(s0)`, divisibility of
/// `bit_value(g)` by `p` is a stride condition on the bit index.
proof fn lemma_stride_equiv(p: int, s0: int, g: int)
    requires
        p >= 3,
        p % 2 == 1,
        p * p == bit_value(s0),
        0 <= s0,
        0 <= g,
    ensures
        (bit_value(g) % p == 0) == ((g - s0) % p == 0),
{
    let d = g - s0;
    assert(bit_value(g) == p * p + 2 * d);
    vstd::arithmetic::div_mod::lemma_mod_multiples_vanish(p, 2 * d, p);
    assert(p * p + 2 * d == p * p + (2 * d));
    assert((p * p + 2 * d) % p == (2 * d) % p);
    lemma_double_mod_zero(d, p);
}

/// For odd modulus `p`, a doubled value is a multiple exactly when the
/// value itself is.
proof fn lemma_double_mod_zero(d: int, p: int)
    requires
        p >= 3,
        p % 2 == 1,
    ensures
        ((2 * d) % p == 0) == (d % p == 0),
{
    let r = d % p;
    vstd::arithmetic::div_mod::lemma_fundamental_div_mod(d, p);
    assert(d == p * (d / p) + r);
    assert(0 <= r < p);
    assert(2 * d == p * (2 * (d / p)) + 2 * r) by (nonlinear_arith)
        requires
            d == p * (d / p) + r,
    ;
    vstd::arithmetic::div_mod::lemma_mod_multiples_vanish(2 * (d / p), 2 * r, p);
    assert((2 * d) % p == (2 * r) % p);
    if r == 0 {
        vstd::arithmetic::div_mod::lemma_small_mod(0, p as nat);
    } else {
        if 2 * r < p {
            vstd::arithmetic::div_mod::lemma_small_mod((2 * r) as nat, p as nat);
        } else {
            assert(0 <= 2 * r - p < p);
            vstd::arithmetic::div_mod::lemma_mod_multiples_vanish(1, 2 * r - p, p);
            vstd::arithmetic::div_mod::lemma_small_mod((2 * r - p) as nat, p as nat);
            assert((2 * r) % p == 2 * r - p);
            assert(2 * r != p);
        }
    }
    if d % p == 0 {
        assert((2 * d) % p == 0);
    }
}

/// The largest page offset the deepest-reaching sieve level may use:
/// one page below the end of the `u64`-addressable odd range.
pub const LOWI_MAX: u64 = 9223372036854775808 - 4194304;

/// The square of an odd number is odd.
proof fn lemma_odd_square(p: int)
    requires
        p >= 3,
        p % 2 == 1,
    ensures
        (p * p) % 2 == 1,
{
    vstd::arithmetic::div_mod::lemma_fundamental_div_mod(p, 2);
    let t = p / 2;
    assert(p * p == 2 * (2 * t * t + 2 * t) + 1) by (nonlinear_arith)
        requires
            p == 2 * t + 1,
    ;
    vstd::arithmetic::div_mod::lemma_mod_multiples_vanish(2 * t * t + 2 * t, 1, 2);
    vstd::arithmetic::div_mod::lemma_small_mod(1, 2);
}

/// Relates a candidate start offset `s` within the page to the global
/// stride anchored at `s0`, the bit index of `p * p`.
#[verifier::rlimit(50)]
proof fn lemma_start_index(lowi: int, s0: int, p: int, s: int, k: int)
    requires
        p >= 3,
        0 <= s0,
        0 <= lowi,
        0 <= k,
        s0 >= lowi ==> s == s0 - lowi,
        s0 < lowi ==> 0 <= s < p && (lowi + s - s0) % p == 0,
    ensures
        (k >= s && (k - s) % p == 0) == (lowi + k >= s0 && (lowi + k - s0) % p == 0),
{
    if s0 >= lowi {
        assert(lowi + k - s0 == k - s);
    } else {
        let a = lowi + s - s0;
        vstd::arithmetic::div_mod::lemma_fundamental_div_mod(a, p);
        let t = a / p;
        assert(a == p * t);
        assert(lowi + k - s0 == p * t + (k - s));
        vstd::arithmetic::div_mod::lemma_mod_multiples_vanish(t, k - s, p);
        assert((lowi + k - s0) % p == (k - s) % p);
        assert(lowi + k >= s0);
        if (k - s) % p == 0 && k < s {
            assert(-p < k - s < 0);
            vstd::arithmetic::div_mod::lemma_mod_multiples_vanish(1, k - s, p);
            vstd::arithmetic::div_mod::lemma_small_mod((k - s + p) as nat, p as nat);
            assert((k - s) % p == k - s + p);
        }
    }
}

/// Strike every in-page multiple of the odd prime `p` at or above
/// `p * p`, leaving all other bits unchanged: the page-segmented
/// boundary arithmetic of the incremental sieve.
#[verifier::rlimit(50)]
fn mark_multiples(buf: &mut Vec<u32>, lowi: u64, p: u64)
    requires
        old(buf)@.len() == BFSZ,
        3 <= p,
        p % 2 == 1,
        p < 0x100000000u64,
        lowi <= LOWI_MAX,
    ensures
        final(buf)@.len() == BFSZ,
        forall|k: u64|
            k < BFBTS ==> #[trigger] buf_bit(final(buf)@, k) == (buf_bit(old(buf)@, k)
                || strikes(p as int, lowi as int, k as int)),
{
    proof {
        lemma_odd_square(p as int);
        assert((p as int) * (p as int) >= 9) by (nonlinear_arith)
            requires
                p >= 3,
        ;
        assert((p as int) * (p as int) < 0x10000000000000000) by (nonlinear_arith)
            requires
                p < 0x100000000u64,
        ;
    }
    let sq: u64 = p * p;
    let s0: u64 = (sq - 3) / 2;
    proof {
        assert(bit_value(s0 as int) == sq);
    }
    let s: u64;
    if s0 >= lowi {
        s = s0 - lowi;
    } else {
        let r = (lowi - s0) % p;
        if r != 0 {
            s = p - r;
        } else {
            s = 0;
        }
        proof {
            let a = (lowi - s0) as int;
            vstd::arithmetic::div_mod::lemma_fundamental_div_mod(a, p as int);
            if r != 0 {
                assert(lowi + s - s0 == (p as int) * (a / (p as int)) + (p as int));
                assert((p as int) * (a / (p as int)) + (p as int) == (p as int) * (a / (p as int)
                    + 1)) by (nonlinear_arith);
                vstd::arithmetic::div_mod::lemma_mod_multiples_basic(
                    a / (p as int) + 1,
                    p as int,
                );
            } else {
                assert(lowi + s - s0 == (p as int) * (a / (p as int)));
                vstd::arithmetic::div_mod::lemma_mod_multiples_basic(a / (p as int), p as int);
            }
        }
    }
    proof {
        vstd::arithmetic::div_mod::lemma_small_mod(0, p as nat);
    }
    let mut j: u64 = s;
    while j < BFBTS
        invariant
            buf@.len() == BFSZ,
            s <= j,
            3 <= p,
            p < 0x100000000u64,
            ((j - s) as int) % (p as int) == 0,
            forall|k: u64|
                k < BFBTS ==> #[trigger] buf_bit(buf@, k) == (buf_bit(old(buf)@, k) || (k >= s
                    && ((k - s) as int) % (p as int) == 0 && k < j)),
        decreases BFBTS + p - j,
    {
        buf_set(buf, j);
        proof {
            assert forall|k: u64|
                k < BFBTS implies #[trigger] buf_bit(buf@, k) == (buf_bit(old(buf)@, k) || (k
                >= s && ((k - s) as int) % (p as int) == 0 && k < j + p)) by {
                if k != j && j < k < j + p {
                    if ((k - s) as int) % (p as int) == 0 {
                        let dj = (j - s) as int;
                        let dk = (k - s) as int;
                        vstd::arithmetic::div_mod::lemma_fundamental_div_mod(dj, p as int);
                        vstd::arithmetic::div_mod::lemma_mod_multiples_vanish(
                            dj / (p as int),
                            dk - dj,
                            p as int,
                        );
                        vstd::arithmetic::div_mod::lemma_small_mod(
                            (dk - dj) as nat,
                            p as nat,
                        );
                        assert(dk % (p as int) == (dk - dj) % (p as int));
                        assert(false);
                    }
                }
                if k == j {
                    assert(((j - s) as int) % (p as int) == 0);
                }
            }
            let dj = (j - s) as int;
            vstd::arithmetic::div_mod::lemma_fundamental_div_mod(dj, p as int);
            assert((p as int) * (dj / (p as int)) + (p as int) == (p as int) * (dj / (p as int)
                + 1)) by (nonlinear_arith);
            vstd::arithmetic::div_mod::lemma_mod_multiples_basic(
                dj / (p as int) + 1,
                p as int,
            );
        }
        j = j + p;
    }
    proof {
        assert forall|k: u64|
            k < BFBTS implies #[trigger] buf_bit(buf@, k) == (buf_bit(old(buf)@, k) || strikes(
            p as int,
            lowi as int,
            k as int,
        )) by {
            lemma_stride_equiv(p as int, s0 as int, (lowi + k) as int);
            lemma_start_index(lowi as int, s0 as int, p as int, s as int, k as int);
        }
    }
}

/// A prime above two is odd.
proof fn lemma_odd_prime(p: nat)
    requires
        is_prime_spec(p),
        p > 2,
    ensures
        p % 2 == 1,
{
    if p % 2 == 0 {
        crate::primes::lemma_divisor_not_prime(p, 2);
    }
}

/// A struck value is composite: it has the striking prime as a proper
/// divisor.
proof fn lemma_strikes_composite(p: int, lowi: int, j: int)
    requires
        p >= 3,
        is_prime_spec(p as nat),
        lowi >= 0,
        0 <= j,
        strikes(p, lowi, j),
    ensures
        !is_prime_spec(bit_value(lowi + j) as nat),
{
    let v = bit_value(lowi + j);
    assert(p < v) by (nonlinear_arith)
        requires
            p >= 3,
            p * p <= v,
    ;
    crate::primes::lemma_divisor_not_prime(v as nat, p as nat);
}

/// An odd value in a fully sieved page is composite exactly when some
/// odd prime with square below the page bound strikes it.
proof fn lemma_struck_iff_composite(bpa: Seq<u64>, cb: nat, lowi: int, j: int)
    requires
        seq![2u64] + bpa == crate::primes::primes_below_seq(cb),
        3 <= cb <= u64::MAX,
        lowi >= 0,
        0 <= j < BFBTS,
        cb * cb >= bit_value(lowi + BFBTS as int),
    ensures
        (exists|t: int| 0 <= t < bpa.len() && strikes(#[trigger] bpa[t] as int, lowi, j))
            == !is_prime_spec(bit_value(lowi + j) as nat),
{
    let v = bit_value(lowi + j);
    let pbs = crate::primes::primes_below_seq(cb);
    crate::primes::lemma_pbs_props(cb);
    if exists|t: int| 0 <= t < bpa.len() && strikes(#[trigger] bpa[t] as int, lowi, j) {
        let t = choose|t: int| 0 <= t < bpa.len() && strikes(#[trigger] bpa[t] as int, lowi, j);
        let p = bpa[t] as int;
        assert(pbs[t + 1] == bpa[t]);
        assert(is_prime_spec(p as nat));
        assert(pbs[0] == 2 || pbs[0] < pbs[t + 1]);
        assert(p > 2) by {
            assert(pbs[0] >= 2 && is_prime_spec(pbs[0] as nat));
            assert(pbs[0] < pbs[t + 1]);
        }
        lemma_strikes_composite(p, lowi, j);
    } else {
        if !is_prime_spec(v as nat) {
            assert(v % 2 == 1) by {
                vstd::arithmetic::div_mod::lemma_mod_multiples_vanish(lowi + j, 1, 2);
                vstd::arithmetic::div_mod::lemma_small_mod(1, 2);
                assert(v == 2 * (lowi + j + 1) + 1);
            }
            crate::primes::lemma_odd_composite_factor(v as nat);
            let q = choose|q: nat|
                is_prime_spec(q) && q % 2 == 1 && #[trigger] ((v as nat) % q) == 0 && q * q
                    <= v;
            assert(q < cb) by (nonlinear_arith)
                requires
                    q * q <= v,
                    v < cb * cb,
                    q >= 2,
                    cb >= 3,
            ;
            assert(v < cb * cb) by {
                assert(v < bit_value(lowi + BFBTS as int));
            }
            assert(pbs.contains(q as u64));
            let t = choose|t: int| 0 <= t < pbs.len() && pbs[t] == q as u64;
            assert(q != 2);
            assert(t >= 1) by {
                if t == 0 {
                    assert(pbs[0] == 2) by {
                        assert(pbs.contains(2u64));
                        let t2 = choose|t2: int| 0 <= t2 < pbs.len() && pbs[t2] == 2u64;
                        if t2 > 0 {
                            assert(pbs[0] < pbs[t2]);
                            assert(is_prime_spec(pbs[0] as nat));
                        }
                    }
                }
            }
            assert(bpa[t - 1] == q as u64);
            assert(strikes(q as int, lowi, j)) by {
                assert((v as int) % (q as int) == 0);
            }
        }
    }
}

/// Sieve one page against the base primes `bpa`, which list every odd
/// prime below `cb`: afterwards a bit is set exactly when its odd value
/// is composite.
fn cull_page(buf: &mut Vec<u32>, lowi: u64, bpa: &Vec<u64>, Ghost(cb): Ghost<nat>)
    requires
        old(buf)@.len() == BFSZ,
        lowi <= LOWI_MAX,
        seq![2u64] + bpa@ == crate::primes::primes_below_seq(cb),
        3 <= cb <= u64::MAX,
        cb * cb >= bit_value(lowi as int + BFBTS as int),
    ensures
        final(buf)@.len() == BFSZ,
        forall|j: u64|
            j < BFBTS ==> #[trigger] buf_bit(final(buf)@, j) == !is_prime_spec(
                bit_value(lowi as int + j as int) as nat,
            ),
{
    clear_buf(buf);
    let nxt: u64 = 3 + 2 * lowi + BFRNG;
    let n = bpa.len();
    let mut idx: usize = 0;
    proof {
        crate::primes::lemma_pbs_props(cb);
    }
    while idx < n
        invariant
            idx <= n,
            n == bpa@.len(),
            buf@.len() == BFSZ,
            lowi <= LOWI_MAX,
            nxt == 3 + 2 * lowi + BFRNG,
            seq![2u64] + bpa@ == crate::primes::primes_below_seq(cb),
            3 <= cb <= u64::MAX,
            cb * cb >= bit_value(lowi as int + BFBTS as int),
            forall|j: u64|
                j < BFBTS ==> #[trigger] buf_bit(buf@, j) == exists|t: int|
                    0 <= t < idx && strikes(#[trigger] bpa@[t] as int, lowi as int, j as int),
        decreases n - idx,
    {
        let p = bpa[idx];
        proof {
            let pbs = crate::primes::primes_below_seq(cb);
            crate::primes::lemma_pbs_props(cb);
            assert(pbs[idx + 1] == bpa@[idx as int]);
            assert(is_prime_spec(p as nat) && (p as nat) < cb);
            assert(p > 2) by {
                assert(pbs[0] >= 2 && is_prime_spec(pbs[0] as nat));
                assert(pbs[0] < pbs[idx + 1]);
            }
            lemma_odd_prime(p as nat);
        }
        proof {
            assert((p as int) * (p as int) < 0x100000000000000000000000000000000) by (
            nonlinear_arith)
                requires
                    p <= 0xFFFFFFFFFFFFFFFFu64,
            ;
        }
        if (p as u128) * (p as u128) < (nxt as u128) {
            proof {
                assert(p < 0x100000000u64) by (nonlinear_arith)
                    requires
                        (p as int) * (p as int) < nxt as int,
                        nxt <= u64::MAX,
                        p >= 3,
                ;
            }
            mark_multiples(buf, lowi, p);
            proof {
                assert forall|j: u64| j < BFBTS implies #[trigger] buf_bit(buf@, j)
                    == exists|t: int|
                    0 <= t < idx + 1 && strikes(
                        #[trigger] bpa@[t] as int,
                        lowi as int,
                        j as int,
                    ) by {
                    if buf_bit(buf@, j) {
                        if strikes(p as int, lowi as int, j as int) {
                            assert(strikes(bpa@[idx as int] as int, lowi as int, j as int));
                        } else {
                            let t = choose|t: int|
                                0 <= t < idx && strikes(
                                    #[trigger] bpa@[t] as int,
                                    lowi as int,
                                    j as int,
                                );
                            assert(strikes(bpa@[t] as int, lowi as int, j as int));
                        }
                    }
                }
            }
        } else {
            proof {
                assert forall|j: u64| j < BFBTS implies #[trigger] buf_bit(buf@, j)
                    == exists|t: int|
                    0 <= t < idx + 1 && strikes(
                        #[trigger] bpa@[t] as int,
                        lowi as int,
                        j as int,
                    ) by {
                    if strikes(p as int, lowi as int, j as int) {
                        assert(bit_value(lowi as int + j as int) < nxt);
                        assert(false);
                    }
                    if exists|t: int|
                        0 <= t < idx + 1 && strikes(
                            #[trigger] bpa@[t] as int,
                            lowi as int,
                            j as int,
                        ) {
                        let t = choose|t: int|
                            0 <= t < idx + 1 && strikes(
                                #[trigger] bpa@[t] as int,
                                lowi as int,
                                j as int,
                            );
                        assert(t < idx);
                    }
                }
            }
        }
        idx += 1;
    }
    proof {
        assert forall|j: u64| j < BFBTS implies #[trigger] buf_bit(buf@, j) == !is_prime_spec(
            bit_value(lowi as int + j as int) as nat,
        ) by {
            lemma_struck_iff_composite(bpa@, cb, lowi as int, j as int);
        }
    }
}


/// First candidate value not covered by the very first page.
pub const FIRST_PAGE_END: u64 = 4194307;

/// The largest page offset a depth-one sieve level may use.
pub const LOWI_CAP_ONE: u64 = 4398046511104;

/// The page offset bound for a sieve level of the given nesting depth.
pub open spec fn lowi_cap(depth: int) -> int {
    if depth <= 0 {
        0
    } else if depth == 1 {
        LOWI_CAP_ONE as int
    } else {
        LOWI_MAX as int
    }
}

/// The first value a sieve level of the given depth can no longer
/// examine: the end of its last page.
pub open spec fn reach_value(depth: int) -> int {
    bit_value(lowi_cap(depth) + BFBTS as int)
}

/// Sieve one page of odd candidates with no base primes yet available:
/// candidates strike their own multiples as in the bounded sieve.
fn cull_first_page(buf: &mut Vec<u32>)
    requires
        old(buf)@.len() == BFSZ,
        forall|k: u64| k < BFBTS ==> !buf_bit(old(buf)@, k),
    ensures
        final(buf)@.len() == BFSZ,
        forall|j: u64|
            j < BFBTS ==> #[trigger] buf_bit(final(buf)@, j) == !is_prime_spec(
                bit_value(j as int) as nat,
            ),
{
    let mut i: u64 = 0;
    let mut p: u64 = 3;
    let mut sqr: u64 = 9;
    while sqr < FIRST_PAGE_END
        invariant
            buf@.len() == BFSZ,
            p == 3 + 2 * i,
            sqr == p * p,
            3 <= p <= 2049,
            p % 2 == 1,
            forall|j: u64|
                j < BFBTS ==> #[trigger] buf_bit(buf@, j) == struck_small(p as int, j as int),
        decreases FIRST_PAGE_END - p,
    {
        proof {
            assert(p <= 2047) by (nonlinear_arith)
                requires
                    sqr == (p as int) * (p as int),
                    sqr < 4194307,
                    p >= 3,
                    p % 2 == 1,
            ;
        }
        if !buf_get(buf, i) {
            proof {
                assert(bit_value(i as int) == p);
                if !is_prime_spec(p as nat) {
                    crate::primes::lemma_odd_composite_factor(p as nat);
                    let q = choose|q: nat|
                        is_prime_spec(q) && q % 2 == 1 && #[trigger] ((p as nat) % q) == 0 && q
                            * q <= p;
                    assert(q < p) by (nonlinear_arith)
                        requires
                            q * q <= p as int,
                            q >= 3,
                    ;
                    assert(strikes(q as int, 0, i as int));
                    assert(struck_small(p as int, i as int));
                }
            }
            mark_multiples(buf, 0, p);
            proof {
                assert forall|j: u64|
                    j < BFBTS implies #[trigger] buf_bit(buf@, j) == struck_small(
                    p as int + 2,
                    j as int,
                ) by {
                    if buf_bit(buf@, j) {
                        if strikes(p as int, 0, j as int) {
                            assert(3 <= p < p + 2 && is_prime_spec(p as nat));
                        } else {
                            let q = choose|q: int|
                                3 <= q < p && is_prime_spec(q as nat) && #[trigger] strikes(
                                    q,
                                    0,
                                    j as int,
                                );
                            assert(3 <= q < p + 2 && strikes(q, 0, j as int));
                        }
                    } else {
                        if struck_small(p as int + 2, j as int) {
                            let q = choose|q: int|
                                3 <= q < p + 2 && is_prime_spec(q as nat) && #[trigger] strikes(
                                    q,
                                    0,
                                    j as int,
                                );
                            if q < p {
                                assert(struck_small(p as int, j as int));
                            } else if q == p + 1 {
                                crate::primes::lemma_even_not_prime(q as nat);
                            }
                            assert(false);
                        }
                    }
                }
            }
        } else {
            proof {
                assert forall|j: u64|
                    j < BFBTS implies #[trigger] buf_bit(buf@, j) == struck_small(
                    p as int + 2,
                    j as int,
                ) by {
                    if !buf_bit(buf@, j) && struck_small(p as int + 2, j as int) {
                        let q = choose|q: int|
                            3 <= q < p + 2 && is_prime_spec(q as nat) && #[trigger] strikes(
                                q,
                                0,
                                j as int,
                            );
                        if q == p {
                            assert(struck_small(p as int, i as int));
                            let q2 = choose|q2: int|
                                3 <= q2 < p && is_prime_spec(q2 as nat) && #[trigger] strikes(
                                    q2,
                                    0,
                                    i as int,
                                );
                            lemma_strikes_composite(q2, 0, i as int);
                            assert(bit_value(i as int) == p);
                            assert(false);
                        } else if q == p + 1 {
                            crate::primes::lemma_even_not_prime(q as nat);
                            assert(false);
                        } else {
                            assert(struck_small(p as int, j as int));
                            assert(false);
                        }
                    }
                }
            }
        }
        i += 1;
        p += 2;
        proof {
            assert((p as int) * (p as int) <= 2049 * 2049) by (nonlinear_arith)
                requires
                    3 <= p <= 2049,
            ;
        }
        sqr = p * p;
    }
    proof {
        assert forall|j: u64| j < BFBTS implies #[trigger] buf_bit(buf@, j) == !is_prime_spec(
            bit_value(j as int) as nat,
        ) by {
            let v = bit_value(j as int);
            if buf_bit(buf@, j) {
                let q = choose|q: int|
                    3 <= q < p && is_prime_spec(q as nat) && #[trigger] strikes(q, 0, j as int);
                lemma_strikes_composite(q, 0, j as int);
            } else {
                if !is_prime_spec(v as nat) {
                    assert(v % 2 == 1) by {
                        vstd::arithmetic::div_mod::lemma_mod_multiples_vanish(j as int + 1, 1, 2);
                        vstd::arithmetic::div_mod::lemma_small_mod(1, 2);
                        assert(v == 2 * (j as int + 1) + 1);
                    }
                    crate::primes::lemma_odd_composite_factor(v as nat);
                    let q = choose|q: nat|
                        is_prime_spec(q) && q % 2 == 1 && #[trigger] ((v as nat) % q) == 0 && q
                            * q <= v;
                    assert(q < p) by (nonlinear_arith)
                        requires
                            q * q <= v,
                            v < sqr as int,
                            sqr == (p as int) * (p as int),
                            q >= 2,
                            p >= 3,
                    ;
                    assert(v < sqr as int) by {
                        assert(v <= bit_value(BFBTS as int - 1));
                    }
                    assert(strikes(q as int, 0, j as int));
                    assert(struck_small(p as int, j as int));
                    assert(false);
                }
            }
        }
    }
}

/// Some odd prime below `p` strikes bit `j` of the first page.
pub open spec fn struck_small(p: int, j: int) -> bool {
    exists|q: int| 3 <= q < p && is_prime_spec(q as nat) && #[trigger] strikes(q, 0, j)
}


/// An incremental sieve of Eratosthenes: produces the primes one at a
/// time, indefinitely, sieving fixed-width pages of odd candidates
/// against base primes supplied by a nested instance of itself.
pub struct IncrementalSieve {
    bi: Option<u64>,
    lowi: u64,
    bpa: Vec<u64>,
    bps: Option<Box<IncrementalSieve>>,
    buf: Vec<u32>,
    depth: u8,
    hist: Ghost<Seq<u64>>,
}

impl IncrementalSieve {
    /// The primes this sieve has produced so far, in order.
    pub closed spec fn emitted(&self) -> Seq<u64> {
        self.hist@
    }

    /// The first value this sieve has not yet examined: every prime
    /// below it has been produced.
    pub closed spec fn reached(&self) -> int {
        match self.bi {
            Option::None => 2,
            Option::Some(b) => bit_value(self.lowi as int + b as int),
        }
    }

    /// The sieve's nesting depth: how many levels of base-prime sieves
    /// it may create below itself.
    pub closed spec fn level(&self) -> int
        decreases 0int,
    {
        self.depth as int
    }

    /// The sieve's base primes and page buffer agree with its history.
    pub closed spec fn wf(&self) -> bool
        decreases self.level(),
    {
        &&& self.buf@.len() == BFSZ
        &&& self.depth <= 2
        &&& self.lowi % BFBTS == 0
        &&& self.lowi <= lowi_cap(self.depth as int)
        &&& match self.bi {
            Option::None => {
                &&& self.lowi == 0
                &&& self.bpa@.len() == 0
                &&& self.bps is None
                &&& self.hist@ == Seq::<u64>::empty()
                &&& forall|k: u64| k < BFBTS ==> !#[trigger] buf_bit(self.buf@, k)
            },
            Option::Some(b) => {
                &&& b <= BFBTS
                &&& self.hist@ == crate::primes::primes_below_seq(self.reached() as nat)
                &&& if self.lowi == 0 && b == 0 {
                    &&& self.bpa@.len() == 0
                    &&& self.bps is None
                    &&& forall|k: u64| k < BFBTS ==> !#[trigger] buf_bit(self.buf@, k)
                } else {
                    &&& self.page_sieved()
                    &&& self.base_ok()
                }
            },
        }
    }

    /// Every bit of the current page marks exactly the composites.
    pub closed spec fn page_sieved(&self) -> bool {
        forall|j: u64|
            j < BFBTS ==> #[trigger] buf_bit(self.buf@, j) == !is_prime_spec(
                bit_value(self.lowi as int + j as int) as nat,
            )
    }

    /// The base-prime list is the history of the nested sieve, less the
    /// prime two.
    pub closed spec fn base_ok(&self) -> bool
        decreases self.level(), 0int,
    {
        if self.lowi == 0 {
            self.bpa@.len() == 0 && self.bps is None
        } else {
            &&& self.depth >= 1
            &&& self.bps is Some
            &&& self.bps->Some_0.depth == self.depth - 1
            &&& self.bps->Some_0.wf()
            &&& seq![2u64] + self.bpa@ == self.bps->Some_0.emitted()
            &&& self.bpa@.len() >= 1
        }
    }

    /// A fresh sieve that may nest base-prime sieves `depth` deep.
    fn with_depth(depth: u8) -> (r: IncrementalSieve)
        requires
            depth <= 2,
        ensures
            r.wf(),
            r.emitted() == Seq::<u64>::empty(),
            r.level() == depth,
            r.reached() == 2,
    {
        let mut buf: Vec<u32> = Vec::new();
        let mut i: usize = 0;
        while i < BFSZ
            invariant
                i <= BFSZ,
                buf@.len() == i,
                forall|t: int| 0 <= t < i ==> buf@[t] == 0u32,
            decreases BFSZ - i,
        {
            buf.push(0);
            i += 1;
        }
        let r = IncrementalSieve {
            bi: None,
            lowi: 0,
            bpa: Vec::new(),
            bps: None,
            buf,
            depth,
            hist: Ghost(Seq::empty()),
        };
        proof {
            assert forall|k: u64| k < BFBTS implies !#[trigger] buf_bit(r.buf@, k) by {
                lemma_bit_index(k, k);
                let bk = (k & 31) as u32;
                assert((0u32 >> bk) & 1 == 0) by (bit_vector);
            }
            vstd::arithmetic::div_mod::lemma_small_mod(0, BFBTS as nat);
        }
        r
    }

    /// A fresh sieve, nested deep enough to reach every producible
    /// 64-bit prime.
    pub fn new() -> (r: IncrementalSieve)
        ensures
            r.wf(),
            r.emitted() == Seq::<u64>::empty(),
            r.level() == 2,
            r.reached() == 2,
    {
        IncrementalSieve::with_depth(2)
    }

    /// Produce the next prime, sieving further pages on demand.  `None`
    /// only when the sieve's entire numeric range is exhausted, in which
    /// case every prime below `reach_value(level)` has been produced.
    pub fn next_prime(&mut self) -> (r: Option<u64>)
        requires
            old(self).wf(),
        ensures
            final(self).wf(),
            final(self).level() == old(self).level(),
            final(self).emitted() == crate::primes::primes_below_seq(
                final(self).reached() as nat,
            ),
            2 <= final(self).reached() <= u64::MAX,
            final(self).reached() >= old(self).reached(),
            match r {
                Option::Some(p) => {
                    &&& final(self).emitted() == old(self).emitted().push(p)
                    &&& is_prime_spec(p as nat)
                    &&& p < final(self).reached()
                    &&& old(self).emitted().len() == 0 ==> p == 2
                    &&& old(self).emitted().len() > 0 ==> p > old(self).emitted().last()
                    &&& forall|m: nat|
                        old(self).emitted().len() > 0 && old(self).emitted().last() < m < p
                            ==> !is_prime_spec(m)
                },
                Option::None => {
                    &&& final(self).emitted() == old(self).emitted()
                    &&& final(self).reached() >= reach_value(final(self).level())
                },
            },
        decreases old(self).level(),
    {
        let ghost depth0 = self.depth;
        if self.bi.is_none() {
            self.bi = Some(0);
            proof {
                assert(is_prime_spec(2));
                assert(crate::primes::primes_below_seq(3) == crate::primes::primes_below_seq(
                    2,
                ).push(2u64));
                assert(seq![2u64] =~= crate::primes::primes_below_seq(2).push(2u64));
            }
            proof {
                self.hist@ = seq![2u64];
            }
            return Some(2);
        }
        let mut b: u64 = match self.bi {
            Some(x) => x,
            None => 0,
        };
        if self.lowi == 0 && b == 0 {
            cull_first_page(&mut self.buf);
        }
        proof {
            assert(self.page_sieved() || self.lowi > 0 || b > 0);
        }
        loop
            invariant
                self.buf@.len() == BFSZ,
                self.depth == depth0,
                depth0 == old(self).depth <= 2,
                self.lowi % BFBTS == 0,
                self.lowi <= lowi_cap(self.depth as int),
                b <= BFBTS,
                self.hist@ == old(self).hist@,
                self.hist@ == crate::primes::primes_below_seq(
                    bit_value(self.lowi as int + b as int) as nat,
                ),
                self.page_sieved(),
                self.base_ok(),
                bit_value(self.lowi as int + b as int) >= old(self).reached(),
            decreases lowi_cap(self.depth as int) - self.lowi, 1int,
        {
            while b < BFBTS && buf_get(&self.buf, b)
                invariant
                    self.buf@.len() == BFSZ,
                    b <= BFBTS,
                    self.lowi <= lowi_cap(self.depth as int),
                    self.depth <= 2,
                    self.page_sieved(),
                    self.hist@ == crate::primes::primes_below_seq(
                        bit_value(self.lowi as int + b as int) as nat,
                    ),
                    bit_value(self.lowi as int + b as int) >= old(self).reached(),
                decreases BFBTS - b,
            {
                proof {
                    let v = bit_value(self.lowi as int + b as int);
                    lemma_value_odd(self.lowi as int, b as int);
                    crate::primes::lemma_pbs_odd_step(v as nat);
                    assert(!is_prime_spec(v as nat));
                }
                b = b + 1;
            }
            if b < BFBTS {
                let v: u64 = 3 + 2 * (self.lowi + b);
                proof {
                    let vi = bit_value(self.lowi as int + b as int);
                    assert(v == vi);
                    assert(is_prime_spec(v as nat));
                    lemma_value_odd(self.lowi as int, b as int);
                    crate::primes::lemma_pbs_odd_step(vi as nat);
                    crate::primes::lemma_pbs_props(vi as nat);
                }
                self.bi = Some(b + 1);
                proof {
                    self.hist@ = self.hist@.push(v);
                }
                return Some(v);
            }
            let cap: u64 = if self.depth == 0 {
                0
            } else if self.depth == 1 {
                LOWI_CAP_ONE
            } else {
                LOWI_MAX
            };
            if self.lowi >= cap {
                self.bi = Some(b);
                proof {
                    crate::primes::lemma_pbs_props(self.reached() as nat);
                }
                return None;
            }
            let ghost old_cursor = bit_value(self.lowi as int + b as int);
            self.lowi = self.lowi + BFBTS;
            b = 0;
            proof {
                assert(bit_value(self.lowi as int) == old_cursor);
                vstd::arithmetic::div_mod::lemma_mod_add_multiples_vanish(
                    (self.lowi - BFBTS) as int,
                    BFBTS as int,
                );
            }
            if self.bps.is_none() {
                let child = IncrementalSieve::with_depth(self.depth - 1);
                self.bps = Some(Box::new(child));
            }
            let mut child: Box<IncrementalSieve> = match self.bps.take() {
                Some(c) => c,
                None => {
                    proof {
                        assert(false);
                    }
                    Box::new(IncrementalSieve::with_depth(0))
                },
            };
            if self.bpa.len() == 0 {
                let first = child.next_prime();
                proof {
                    if first is None {
                        crate::primes::lemma_pbs_props(child.reached() as nat);
                        assert(child.emitted().len() > 0);
                        assert(false);
                    }
                }
                let second = child.next_prime();
                proof {
                    if second is None {
                        crate::primes::lemma_pbs_props(child.reached() as nat);
                        assert(child.emitted().contains(3u64)) by {
                            lemma_three_prime();
                        }
                        assert(false);
                    }
                    let p2 = second->Some_0;
                    lemma_three_prime();
                    if p2 != 3 {
                        assert(p2 > 2 && !is_prime_spec(3) || p2 == 3 || p2 < 3) by {
                            if p2 > 3 {
                                assert(!is_prime_spec(3));
                            }
                        }
                        assert(false);
                    }
                }
                let p3 = match second {
                    Some(x) => x,
                    None => 3,
                };
                self.bpa.push(p3);
                proof {
                    assert(seq![2u64] + self.bpa@ =~= child.emitted());
                }
            }
            let nxt: u64 = 3 + 2 * self.lowi + BFRNG;
            let mut last: u64 = self.bpa[self.bpa.len() - 1];
            let mut child_done: bool = false;
            proof {
                assert((seq![2u64] + self.bpa@).last() == self.bpa@.last());
                crate::primes::lemma_pbs_props(child.reached() as nat);
                let e = child.emitted();
                assert(e.len() >= 2);
                assert(e[0] == 2);
                assert(e[0] < e[e.len() - 1]);
                assert(last == e[e.len() - 1]);
            }
            while !child_done && last <= (nxt - 1) / last
                invariant
                    child.wf(),
                    child.level() == self.depth - 1,
                    self.depth == depth0 <= 2,
                    depth0 == old(self).level(),
                    self.depth >= 1,
                    seq![2u64] + self.bpa@ == child.emitted(),
                    child.emitted() == crate::primes::primes_below_seq(child.reached() as nat),
                    2 <= child.reached() <= u64::MAX,
                    self.bpa@.len() >= 1,
                    last == self.bpa@.last(),
                    last >= 3,
                    nxt == 3 + 2 * self.lowi + BFRNG,
                    nxt >= 3,
                    self.lowi % BFBTS == 0,
                    self.lowi <= lowi_cap(self.depth as int),
                    self.buf@.len() == BFSZ,
                    self.hist@ == old(self).hist@,
                    self.hist@ == crate::primes::primes_below_seq(
                        bit_value(self.lowi as int) as nat,
                    ),
                    child_done ==> child.reached() >= reach_value(child.level()),
                decreases (if child_done {
                    0int
                } else {
                    1int
                }), (if last <= nxt {
                    nxt - last
                } else {
                    0int
                }),
            {
                proof {
                    vstd::arithmetic::div_mod::lemma_fundamental_div_mod(
                        (nxt - 1) as int,
                        last as int,
                    );
                    assert((last as int) * (last as int) < nxt as int) by (nonlinear_arith)
                        requires
                            last >= 3,
                            last <= (nxt - 1) / (last as int),
                            (nxt - 1) as int == (last as int) * ((nxt - 1) / (last as int)) + (
                            nxt - 1) % (last as int),
                            0 <= (nxt - 1) % (last as int),
                    ;
                    assert(last < nxt) by (nonlinear_arith)
                        requires
                            (last as int) * (last as int) < nxt as int,
                            last >= 1,
                    ;
                }
                match child.next_prime() {
                    Some(np) => {
                        proof {
                            assert(child.emitted().last() == np);
                            assert(np > last);
                        }
                        self.bpa.push(np);
                        last = np;
                        proof {
                            assert(seq![2u64] + self.bpa@ =~= child.emitted());
                        }
                    },
                    None => {
                        child_done = true;
                    },
                }
            }
            let ghost cb = child.reached() as nat;
            proof {
                crate::primes::lemma_pbs_props(cb);
                if child_done {
                    assert(child.reached() >= reach_value(self.depth as int - 1));
                    lemma_reach_covers(self.depth as int, self.lowi as int, cb as int);
                } else {
                    vstd::arithmetic::div_mod::lemma_fundamental_div_mod(
                        (nxt - 1) as int,
                        last as int,
                    );
                    assert((last as int) * (last as int) >= nxt as int) by (nonlinear_arith)
                        requires
                            last >= 3,
                            last > (nxt - 1) / (last as int),
                            (nxt - 1) as int == (last as int) * ((nxt - 1) / (last as int)) + (
                            nxt - 1) % (last as int),
                            (nxt - 1) % (last as int) < last,
                    ;
                    assert(child.emitted().contains(last)) by {
                        assert(child.emitted()[self.bpa@.len() as int] == last);
                    }
                    assert((last as nat) < cb);
                    assert(cb * cb >= bit_value(self.lowi as int + BFBTS as int)) by (
                    nonlinear_arith)
                        requires
                            (last as int) * (last as int) >= nxt as int,
                            nxt as int == bit_value(self.lowi as int + BFBTS as int),
                            (last as int) < cb as int,
                            last >= 3,
                    ;
                }
                assert(3 <= cb <= u64::MAX);
            }
            self.bps = Some(child);
            let lowi = self.lowi;
            let ghost pre_bpa = self.bpa@;
            cull_page(&mut self.buf, lowi, &self.bpa, Ghost(cb));
            proof {
                assert(self.page_sieved());
                assert(self.base_ok());
            }
        }
    }
}

/// Three is prime.
proof fn lemma_three_prime()
    ensures
        is_prime_spec(3),
{
    assert forall|d: nat| 2 <= d < 3 implies #[trigger] (3nat % d) != 0 by {
        assert(d == 2);
        assert(3nat % 2 == 1);
    }
}

/// Odd values: every represented candidate is odd.
proof fn lemma_value_odd(lowi: int, j: int)
    requires
        lowi >= 0,
        j >= 0,
    ensures
        bit_value(lowi + j) % 2 == 1,
        bit_value(lowi + j) >= 3,
{
    vstd::arithmetic::div_mod::lemma_mod_multiples_vanish(lowi + j + 1, 1, 2);
    vstd::arithmetic::div_mod::lemma_small_mod(1, 2);
    assert(bit_value(lowi + j) == 2 * (lowi + j + 1) + 1);
}

/// When a nested sieve is exhausted, its reach still covers every base
/// prime the level above it can need.
proof fn lemma_reach_covers(depth: int, lowi: int, cb: int)
    requires
        1 <= depth <= 2,
        0 <= lowi <= lowi_cap(depth),
        cb >= reach_value(depth - 1),
    ensures
        cb * cb >= bit_value(lowi + BFBTS as int),
{
    if depth == 1 {
        assert(cb >= 4194307);
        assert(bit_value(lowi + BFBTS as int) <= 3 + 2 * (4398046511104int + 2097152));
        assert(cb * cb >= 4194307int * 4194307) by (nonlinear_arith)
            requires
                cb >= 4194307,
        ;
        assert(4194307int * 4194307 == 17592211210249) by (nonlinear_arith);
    } else {
        assert(cb >= 4294967296) by {
            assert(reach_value(1) == 3 + 2 * (4398046511104int + 2097152));
        }
        assert(cb * cb >= 4294967296int * 4294967296) by (nonlinear_arith)
            requires
                cb >= 4294967296,
        ;
        assert(4294967296int * 4294967296 == 18446744073709551616) by (nonlinear_arith);
        assert(bit_value(lowi + BFBTS as int) <= 3 + 2 * (LOWI_MAX as int + 2097152));
    }
}


/// A freshly produced prime is at least the old bound and below the
/// new one.
proof fn lemma_pbs_push_bounds(lo: nat, hi: nat, p: u64)
    requires
        lo <= hi <= u64::MAX as nat + 1,
        crate::primes::primes_below_seq(hi) == crate::primes::primes_below_seq(lo).push(p),
    ensures
        lo <= p as nat,
        (p as nat) < hi,
        is_prime_spec(p as nat),
{
    let pl = crate::primes::primes_below_seq(lo);
    let ph = crate::primes::primes_below_seq(hi);
    crate::primes::lemma_pbs_props(lo);
    crate::primes::lemma_pbs_props(hi);
    assert(ph[ph.len() - 1] == p);
    if (p as nat) < lo {
        assert(pl.contains(p));
        let t = choose|t: int| 0 <= t < pl.len() && pl[t] == p;
        assert(ph[t] == p);
        assert(ph[t] < ph[ph.len() - 1]);
    }
}

/// Cutting the prime sequence at any bound between two production
/// points: the cut either includes the newly produced prime or not.
proof fn lemma_pbs_cut(lo: nat, hi: nat, limit: nat, p: u64)
    requires
        lo <= limit <= hi <= u64::MAX as nat + 1,
        crate::primes::primes_below_seq(hi) == crate::primes::primes_below_seq(lo).push(p),
    ensures
        (p as nat) < limit ==> crate::primes::primes_below_seq(limit)
            == crate::primes::primes_below_seq(hi),
        (p as nat) >= limit ==> crate::primes::primes_below_seq(limit)
            == crate::primes::primes_below_seq(lo),
{
    let pl = crate::primes::primes_below_seq(lo);
    let pm = crate::primes::primes_below_seq(limit);
    let ph = crate::primes::primes_below_seq(hi);
    crate::primes::lemma_pbs_props(lo);
    crate::primes::lemma_pbs_props(limit);
    crate::primes::lemma_pbs_props(hi);
    crate::primes::lemma_pbs_prefix(lo, limit);
    crate::primes::lemma_pbs_prefix(limit, hi);
    lemma_pbs_push_bounds(lo, hi, p);
    if (p as nat) < limit {
        assert(pm.contains(p));
        let t = choose|t: int| 0 <= t < pm.len() && pm[t] == p;
        assert(ph[t] == p);
        if t < ph.len() - 1 {
            assert(ph[t] < ph[ph.len() - 1]);
        }
        assert(t == ph.len() - 1);
        assert(pm.len() == ph.len());
        assert(pm =~= ph.take(pm.len() as int));
        assert(ph.take(ph.len() as int) =~= ph);
    } else {
        if pm.len() > pl.len() {
            assert(pm.len() == ph.len());
            assert(pm =~= ph.take(pm.len() as int));
            assert(ph.take(ph.len() as int) =~= ph);
            assert(pm[ph.len() - 1] == p);
            assert((p as nat) < limit);
        }
        assert(pm.len() == pl.len());
        assert(pl =~= pm.take(pl.len() as int));
        assert(pm.take(pm.len() as int) =~= pm);
    }
}

/// No prime was produced between two bounds: cutting anywhere between
/// them gives the same sequence.
proof fn lemma_pbs_flat(lo: nat, hi: nat, limit: nat)
    requires
        lo <= limit <= hi <= u64::MAX as nat + 1,
        crate::primes::primes_below_seq(hi) == crate::primes::primes_below_seq(lo),
    ensures
        crate::primes::primes_below_seq(limit) == crate::primes::primes_below_seq(lo),
{
    let pl = crate::primes::primes_below_seq(lo);
    let pm = crate::primes::primes_below_seq(limit);
    crate::primes::lemma_pbs_prefix(lo, limit);
    crate::primes::lemma_pbs_prefix(limit, hi);
    assert(pl =~= pm.take(pl.len() as int));
    assert(pm.take(pm.len() as int) =~= pm);
}

impl IncrementalSieve {
    /// All primes below `limit` from a fresh sieve, in increasing
    /// order, sieving incrementally page by page.
    pub fn generate_primes_until(&mut self, limit: u64) -> (r: Vec<u64>)
        requires
            old(self).wf(),
            old(self).emitted().len() == 0,
            limit as int <= reach_value(old(self).level()),
        ensures
            final(self).wf(),
            r@ == crate::primes::primes_below_seq(limit as nat),
    {
        let mut r: Vec<u64> = Vec::new();
        proof {
            if self.emitted() != crate::primes::primes_below_seq(self.reached() as nat) {
                assert(self.wf());
            }
            crate::primes::lemma_pbs_props(self.reached() as nat);
        }
        loop
            invariant
                self.wf(),
                self.level() == old(self).level(),
                self.emitted() == crate::primes::primes_below_seq(self.reached() as nat),
                2 <= self.reached() <= u64::MAX,
                self.emitted().len() <= crate::primes::primes_below_seq(limit as nat).len(),
                limit as int <= reach_value(self.level()),
                r@ == crate::primes::primes_below_seq(
                    if limit as int <= self.reached() {
                        limit as nat
                    } else {
                        self.reached() as nat
                    },
                ),
            decreases crate::primes::primes_below_seq(limit as nat).len()
                - self.emitted().len(),
        {
            let ghost old_r = self.reached() as nat;
            match self.next_prime() {
                Some(p) => {
                    let ghost new_r = self.reached() as nat;
                    if p < limit {
                        r.push(p);
                        proof {
                            lemma_pbs_push_bounds(old_r, new_r, p);
                            if limit as int <= self.reached() {
                                lemma_pbs_cut(old_r, new_r, limit as nat, p);
                            } else {
                                crate::primes::lemma_pbs_prefix(new_r, limit as nat);
                            }
                        }
                    } else {
                        proof {
                            lemma_pbs_push_bounds(old_r, new_r, p);
                            if old_r <= limit as nat {
                                lemma_pbs_cut(old_r, new_r, limit as nat, p);
                            }
                        }
                        return r;
                    }
                },
                None => {
                    proof {
                        if old_r <= limit as nat {
                            lemma_pbs_flat(old_r, self.reached() as nat, limit as nat);
                        }
                    }
                    return r;
                },
            }
        }
    }
}

/// `v` lists exactly the primes below `limit`, in strictly increasing
/// order.
pub open spec fn prime_list(v: Seq<u64>, limit: nat) -> bool {
    &&& forall|k: int|
        0 <= k < v.len() ==> is_prime_spec(#[trigger] v[k] as nat) && v[k] < limit
    &&& forall|p: int|
        0 <= p < limit && #[trigger] is_prime_spec(p as nat) ==> exists|k: int|
            0 <= k < v.len() && v[k] == p
    &&& forall|k1: int, k2: int| 0 <= k1 < k2 < v.len() ==> v[k1] < v[k2]
}

/// The primes strictly below `limit`, in increasing order.
pub fn primes(limit: u64) -> (r: Result<Vec<u64>, SieveError>)
    ensures
        match r {
            Ok(v) => limit <= usize::MAX && prime_list(v@, limit as nat),
            Err(e) => limit > usize::MAX && e == SieveError::InvalidLimit,
        },
{
    let s = match prime_set(limit) {
        Ok(s) => s,
        Err(e) => {
            return Err(e);
        },
    };
    let ones = bitset_ones(&s);
    let mut r: Vec<u64> = Vec::new();
    let mut k: usize = 0;
    while k < ones.len()
        invariant
            k <= ones@.len(),
            r@.len() == k,
            forall|t: int| 0 <= t < k ==> r@[t] == ones@[t] as u64,
        decreases ones@.len() - k,
    {
        r.push(ones[k] as u64);
        k += 1;
    }
    proof {
        assert forall|k: int| 0 <= k < r@.len() implies is_prime_spec(#[trigger] r@[k] as nat)
            && r@[k] < limit by {
            assert(ones@[k] < bits(s).len());
            assert(bits(s)[ones@[k] as int]);
        }
        assert forall|k1: int, k2: int| 0 <= k1 < k2 < r@.len() implies #[trigger] r@[k1]
            < #[trigger] r@[k2] by {
            assert(ones@[k1] < ones@[k2]);
        }
        assert forall|p: int|
            0 <= p < limit && #[trigger] is_prime_spec(p as nat) implies exists|t: int|
            0 <= t < r@.len() && r@[t] == p by {
            assert(bits(s)[p]);
            assert(ones@.contains(p as usize));
            let t = choose|t: int| 0 <= t < ones@.len() && ones@[t] == p as usize;
            assert(r@[t] == p);
        }
        assert(prime_list(r@, limit as nat));
    }
    Ok(r)
}

/// Sieve agreement: the bounded sieve's bitset and the segmented
/// sieve's output list the same primes — a set bit below the limit
/// corresponds exactly to an element of the produced sequence.
pub proof fn lemma_sieves_agree(s: Seq<bool>, limit: u64, v: u64)
    requires
        prime_bits(s, limit as nat),
        v < limit,
    ensures
        s[v as int] == crate::primes::primes_below_seq(limit as nat).contains(v),
{
    crate::primes::lemma_pbs_props(limit as nat);
    let pbs = crate::primes::primes_below_seq(limit as nat);
    if s[v as int] {
        assert(is_prime_spec(v as nat));
        assert(pbs.contains(v));
    } else {
        if pbs.contains(v) {
            let t = choose|t: int| 0 <= t < pbs.len() && pbs[t] == v;
            assert(is_prime_spec(pbs[t] as nat));
        }
    }
}

/// Sieve determinism: two runs of the bounded sieve over the same limit
/// produce bit-identical results.
pub proof fn lemma_prime_set_deterministic(s1: Seq<bool>, s2: Seq<bool>, limit: u64)
    requires
        prime_bits(s1, limit as nat),
        prime_bits(s2, limit as nat),
    ensures
        s1 == s2,
{
    assert(s1 =~= s2);
}

} // verus!

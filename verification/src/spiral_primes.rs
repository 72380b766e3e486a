//! Corners of a number spiral and the ratio of primes along its
//! diagonals.
use vstd::prelude::*;

use crate::primes::is_prime_spec;
use crate::primes::IncrementalPrimeSet;

verus! {

/// The `k`-th corner value (zero-based) of the spiral ring with side
/// length `2 * n`: the ring starts past the square `(2n - 1)^2`.
pub open spec fn ring_corner(n: int, k: int) -> int {
    (2 * n - 1) * (2 * n - 1) + 2 * n * (k + 1)
}

/// The four corner values of one spiral ring.
pub struct Corner(pub [u64; 4]);

/// An iterator over the corner values of successive spiral rings.
pub struct SpiralCornerIter {
    side_length: u32,
    last_value: u64,
}

/// How many primes lie on the corners of the first `n` spiral rings.
pub open spec fn prime_corner_count(n: int) -> int
    decreases n,
{
    if n <= 0 {
        0
    } else {
        prime_corner_count(n - 1) + (if is_prime_spec(ring_corner(n, 0) as nat) {
            1int
        } else {
            0int
        }) + (if is_prime_spec(ring_corner(n, 1) as nat) {
            1int
        } else {
            0int
        }) + (if is_prime_spec(ring_corner(n, 2) as nat) {
            1int
        } else {
            0int
        }) + (if is_prime_spec(ring_corner(n, 3) as nat) {
            1int
        } else {
            0int
        })
    }
}

/// The corner values of rings `n0` up to side length `limit`, in
/// emission order.
pub open spec fn corners_upto(n0: int, limit: int) -> Seq<u64>
    decreases limit + 2 - 2 * n0,
{
    if n0 < 1 || 2 * n0 > limit {
        Seq::empty()
    } else {
        seq![
            ring_corner(n0, 0) as u64,
            ring_corner(n0, 1) as u64,
            ring_corner(n0, 2) as u64,
            ring_corner(n0, 3) as u64,
        ] + corners_upto(n0 + 1, limit)
    }
}

impl SpiralCornerIter {
    /// The one-based index of the ring the iterator will emit next.
    pub closed spec fn ring(&self) -> int {
        self.side_length as int / 2
    }

    /// The iterator's position is consistent: the side length is twice
    /// the ring index and the last emitted value closes the previous
    /// ring.
    pub closed spec fn wf(&self) -> bool {
        &&& self.side_length as int == 2 * self.ring()
        &&& 1 <= self.ring() <= 0x40000000
        &&& self.last_value as int == (2 * self.ring() - 1) * (2 * self.ring() - 1)
    }

    /// An iterator positioned at the first ring.
    pub fn new() -> (r: SpiralCornerIter)
        ensures
            r.wf(),
            r.ring() == 1,
    {
        let r = SpiralCornerIter { side_length: 2, last_value: 1 };
        proof {
            assert(r.side_length as int / 2 == 1);
        }
        r
    }

    /// Emit the corners of the current ring and advance to the next.
    pub fn next_corner(&mut self) -> (r: (u32, Corner))
        requires
            old(self).wf(),
            old(self).ring() < 0x40000000,
        ensures
            final(self).wf(),
            final(self).ring() == old(self).ring() + 1,
            r.0 == 2 * old(self).ring(),
            forall|k: int| 0 <= k < 4 ==> r.1.0@[k] == ring_corner(old(self).ring(), k),
    {
        let ghost n = self.ring();
        let side_length = self.side_length;
        let last_value = self.last_value;
        let offset = side_length as u64;
        proof {
            assert(self.last_value as int + 4 * offset == (2 * n + 1) * (2 * n + 1)) by (
            nonlinear_arith)
                requires
                    self.last_value as int == (2 * n - 1) * (2 * n - 1),
                    offset == 2 * n,
                    n >= 1,
            ;
            assert((2 * n + 1) * (2 * n + 1) <= 0x80000001 * 0x80000001) by (nonlinear_arith)
                requires
                    1 <= n <= 0x40000000,
            ;
        }
        let corner_table = [
            last_value + offset,
            last_value + offset * 2,
            last_value + offset * 3,
            last_value + offset * 4,
        ];
        self.last_value = corner_table[3];
        self.side_length = side_length + 2;
        proof {
            assert(self.side_length as int / 2 == n + 1);
        }
        (side_length, Corner(corner_table))
    }

    /// All corner values of rings whose side length does not exceed
    /// `limit`, flattened in order.
    pub fn take_until_length(self, limit: u32) -> (r: Vec<u64>)
        requires
            self.wf(),
            limit <= 1000000000,
        ensures
            r@ == corners_upto(self.ring(), limit as int),
    {
        let mut it = self;
        let ghost n0 = it.ring();
        let mut r: Vec<u64> = Vec::new();
        while it.side_length <= limit
            invariant
                it.wf(),
                limit <= 1000000000,
                n0 <= it.ring(),
                r@ + corners_upto(it.ring(), limit as int) == corners_upto(n0, limit as int),
            decreases limit as int + 2 - it.side_length as int,
        {
            let ghost pre = r@;
            let ghost n = it.ring();
            let (_, corner) = it.next_corner();
            let v0 = corner.0[0];
            let v1 = corner.0[1];
            let v2 = corner.0[2];
            let v3 = corner.0[3];
            r.push(v0);
            r.push(v1);
            r.push(v2);
            r.push(v3);
            proof {
                assert(corners_upto(n, limit as int) == seq![
                    ring_corner(n, 0) as u64,
                    ring_corner(n, 1) as u64,
                    ring_corner(n, 2) as u64,
                    ring_corner(n, 3) as u64,
                ] + corners_upto(n + 1, limit as int));
                assert(r@ =~= pre + seq![v0, v1, v2, v3]);
                assert(r@ + corners_upto(it.ring(), limit as int) =~= corners_upto(
                    n0,
                    limit as int,
                ));
            }
        }
        proof {
            assert(corners_upto(it.ring(), limit as int) =~= Seq::<u64>::empty());
            assert(r@ + Seq::<u64>::empty() =~= r@);
        }
        r
    }
}

/// An iterator over the spiral's ring corners, from the innermost ring.
pub fn corners() -> (r: SpiralCornerIter)
    ensures
        r.wf(),
        r.ring() == 1,
{
    SpiralCornerIter::new()
}

/// The side length at which the prime ratio of the spiral's diagonals
/// first drops below one in ten.
#[derive(Default)]
pub struct SpiralPrimeProblem;

/// The prime ratio among all diagonal values up to ring `n` is below
/// ten percent.
pub open spec fn ratio_below_tenth(n: int) -> bool {
    10 * prime_corner_count(n) < 2 * (2 * n) + 1
}

impl SpiralPrimeProblem {
    /// Scan rings outward and return the first side length whose
    /// diagonal prime ratio falls below ten percent, or `None` if none
    /// does within `max_side_length`.
    pub fn solve(&self, max_side_length: u32) -> (r: Option<u32>)
        requires
            max_side_length <= 100000000,
            usize::MAX as int >= 40000000400001001int,
        ensures
            match r {
                Some(s) => {
                    &&& s % 2 == 0
                    &&& 2 <= s <= max_side_length
                    &&& ratio_below_tenth(s as int / 2)
                    &&& forall|m: int| 1 <= m < s as int / 2 ==> !ratio_below_tenth(m)
                },
                None => forall|m: int|
                    1 <= m && 2 * m <= max_side_length ==> !ratio_below_tenth(m),
            },
    {
        let mut prime_count: u64 = 0;
        let mut prime_set = IncrementalPrimeSet::new();
        let mut iter = SpiralCornerIter::new();
        while iter.side_length <= max_side_length
            invariant
                iter.wf(),
                prime_set.wf(),
                max_side_length <= 100000000,
                usize::MAX as int >= 40000000400001001int,
                1 <= iter.ring() <= max_side_length as int / 2 + 1,
                prime_count == prime_corner_count(iter.ring() - 1),
                prime_count <= 4 * (iter.ring() - 1),
                forall|m: int| 1 <= m < iter.ring() ==> !ratio_below_tenth(m),
            decreases max_side_length as int + 2 - iter.side_length as int,
        {
            let ghost n = iter.ring();
            let (side_length, corner) = iter.next_corner();
            proof {
                assert(ring_corner(n, 3) == (2 * n + 1) * (2 * n + 1)) by (nonlinear_arith);
                assert forall|k: int| 0 <= k < 4 implies 2 <= #[trigger] ring_corner(n, k)
                    <= 200000001int * 200000001 by {
                    assert(2 <= (2 * n - 1) * (2 * n - 1) + 2 * n * (k + 1) && (2 * n - 1) * (2
                        * n - 1) + 2 * n * (k + 1) <= (2 * n - 1) * (2 * n - 1) + 2 * n * 4)
                        by (nonlinear_arith)
                        requires
                            0 <= k < 4,
                            n >= 1,
                    ;
                    assert((2 * n + 1) * (2 * n + 1) <= 200000001int * 200000001) by (
                    nonlinear_arith)
                        requires
                            1 <= n <= 50000001,
                    ;
                }
            }
            let mut ki: usize = 0;
            while ki < 4
                invariant
                    ki <= 4,
                    prime_set.wf(),
                    forall|k: int| 0 <= k < 4 ==> corner.0@[k] == ring_corner(n, k),
                    forall|k: int|
                        0 <= k < 4 ==> 2 <= #[trigger] ring_corner(n, k)
                            <= 200000001int * 200000001,
                    1 <= n <= 50000001,
                    usize::MAX as int >= 40000000400001001int,
                    prime_count == prime_corner_count(n - 1) + count_first(n, ki as int),
                    prime_count <= 4 * (n - 1) + ki,
                    prime_corner_count(n - 1) <= 4 * (n - 1),
                decreases 4 - ki,
            {
                let value = corner.0[ki];
                proof {
                    assert(value == corner.0@[ki as int]);
                    assert(value == ring_corner(n, ki as int));
                    assert(2 <= ring_corner(n, ki as int) <= 200000001int * 200000001);
                }
                if prime_set.check_prime(value) {
                    prime_count = prime_count + 1;
                }
                ki += 1;
            }
            proof {
                assert(count_first(n, 4) == count_first(n, 3) + (if is_prime_spec(
                    ring_corner(n, 3) as nat,
                ) {
                    1int
                } else {
                    0int
                }));
                assert(count_first(n, 3) == count_first(n, 2) + (if is_prime_spec(
                    ring_corner(n, 2) as nat,
                ) {
                    1int
                } else {
                    0int
                }));
                assert(count_first(n, 2) == count_first(n, 1) + (if is_prime_spec(
                    ring_corner(n, 1) as nat,
                ) {
                    1int
                } else {
                    0int
                }));
                assert(count_first(n, 1) == count_first(n, 0) + (if is_prime_spec(
                    ring_corner(n, 0) as nat,
                ) {
                    1int
                } else {
                    0int
                }));
                assert(prime_count == prime_corner_count(n));
            }
            let total_count: u64 = 2 * (side_length as u64) + 1;
            if 10 * prime_count < total_count {
                proof {
                    assert(side_length as int % 2 == 0) by {
                        vstd::arithmetic::div_mod::lemma_mod_multiples_basic(n, 2);
                        assert(side_length as int == n * 2);
                    }
                    assert(side_length as int / 2 == n) by {
                        vstd::arithmetic::div_mod::lemma_div_multiples_vanish(n, 2);
                        assert(side_length as int == 2 * n);
                    }
                }
                return Some(side_length);
            }
        }
        None
    }
}

/// How many of the first `k` corners of ring `n` are prime.
pub open spec fn count_first(n: int, k: int) -> int
    decreases k,
{
    if k <= 0 {
        0
    } else {
        count_first(n, k - 1) + (if is_prime_spec(ring_corner(n, k - 1) as nat) {
            1int
        } else {
            0int
        })
    }
}

} // verus!

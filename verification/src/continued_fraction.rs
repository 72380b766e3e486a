//! Continued-fraction term generators for well-known constants.
use vstd::prelude::*;

verus! {

/// A continued fraction: a leading integer part followed by the
/// sequence of partial denominators.
pub struct ContinuedFraction {
    first_digit: u32,
    remaining: Vec<u32>,
}

/// The expected term of the continued fraction of Euler's number at
/// position `i` of the tail: every third term (starting at position
/// one) is the next even number, the rest are one.
pub open spec fn e_term(i: int) -> u32 {
    if i % 3 == 1 {
        (2 * ((i + 2) / 3)) as u32
    } else {
        1u32
    }
}

impl ContinuedFraction {
    /// The integer part.
    pub closed spec fn spec_first(&self) -> u32 {
        self.first_digit
    }

    /// The partial denominators.
    pub closed spec fn spec_terms(&self) -> Seq<u32> {
        self.remaining@
    }

    /// A continued fraction from its parts.
    pub fn new(first: u32, remaining: Vec<u32>) -> (r: ContinuedFraction)
        ensures
            r.spec_first() == first,
            r.spec_terms() == remaining@,
    {
        ContinuedFraction { first_digit: first, remaining }
    }

    /// The continued fraction of Euler's number with at least `len`
    /// tail terms: `[2; 1, 2, 1, 1, 4, 1, 1, 6, ...]`.
    pub fn e(len: usize) -> (r: ContinuedFraction)
        requires
            len <= 1000000000,
        ensures
            r.spec_first() == 2,
            len <= r.spec_terms().len() < len + 3,
            r.spec_terms().len() % 3 == 1,
            forall|i: int| 0 <= i < r.spec_terms().len() ==> #[trigger] r.spec_terms()[i] == e_term(i),
    {
        let mut remaining: Vec<u32> = Vec::new();
        remaining.push(1);
        let mut k: u32 = 1;
        while remaining.len() < len
            invariant
                len <= 1000000000,
                remaining@.len() == 3 * k - 2,
                1 <= k,
                3 * k <= len + 4,
                forall|i: int| 0 <= i < remaining@.len() ==> #[trigger] remaining@[i] == e_term(i),
            decreases (if remaining@.len() <= len {
                len - remaining@.len()
            } else {
                0int
            }),
        {
            let ghost n0 = remaining@.len() as int;
            remaining.push(2 * k);
            remaining.push(1);
            remaining.push(1);
            proof {
                assert(n0 % 3 == 1) by {
                    assert(n0 == 3 * (k - 1) + 1);
                    vstd::arithmetic::div_mod::lemma_mod_multiples_vanish(k - 1, 1, 3);
                    vstd::arithmetic::div_mod::lemma_small_mod(1, 3);
                }
                assert((n0 + 2) / 3 == k) by {
                    assert(n0 + 2 == 3 * k);
                    vstd::arithmetic::div_mod::lemma_div_multiples_vanish(k as int, 3);
                }
                assert(e_term(n0) == 2 * k);
                assert((n0 + 1) % 3 == 2 && (n0 + 2) % 3 == 0) by {
                    assert(n0 + 1 == 3 * (k - 1) + 2);
                    assert(n0 + 2 == 3 * (k - 1) + 3);
                    vstd::arithmetic::div_mod::lemma_mod_multiples_vanish(k - 1, 2, 3);
                    vstd::arithmetic::div_mod::lemma_small_mod(2, 3);
                    vstd::arithmetic::div_mod::lemma_mod_multiples_vanish(k as int, 0, 3);
                    vstd::arithmetic::div_mod::lemma_small_mod(0, 3);
                }
                assert(e_term(n0 + 1) == 1 && e_term(n0 + 2) == 1);
            }
            k = k + 1;
        }
        proof {
            let n = remaining@.len() as int;
            assert(n % 3 == 1) by {
                assert(n == 3 * (k - 1) + 1);
                vstd::arithmetic::div_mod::lemma_mod_multiples_vanish(k - 1, 1, 3);
                vstd::arithmetic::div_mod::lemma_small_mod(1, 3);
            }
        }
        ContinuedFraction { first_digit: 2, remaining }
    }

    /// The continued fraction of the square root of two with `len` tail
    /// terms: `[1; 2, 2, 2, ...]`.
    pub fn sqrt2(len: usize) -> (r: ContinuedFraction)
        ensures
            r.spec_first() == 1,
            r.spec_terms() == Seq::new(len as nat, |i: int| 2u32),
    {
        let mut remaining: Vec<u32> = Vec::new();
        let mut i: usize = 0;
        while i < len
            invariant
                i <= len,
                remaining@ =~= Seq::new(i as nat, |t: int| 2u32),
            decreases len - i,
        {
            remaining.push(2);
            proof {
                assert(remaining@ =~= Seq::new((i + 1) as nat, |t: int| 2u32));
            }
            i += 1;
        }
        ContinuedFraction { first_digit: 1, remaining }
    }
}

} // verus!

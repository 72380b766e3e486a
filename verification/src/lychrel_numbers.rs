//! Lychrel-number search: repeatedly add a number to its digit reversal
//! and look for a palindrome.
use vstd::prelude::*;

use crate::digits::add_seq;
use crate::digits::all_digits;
use crate::digits::canonical_digits;
use crate::digits::is_palindrome_seq;
use crate::digits::BigDigits;

verus! {

/// One reverse-and-add step on a digit sequence.
pub open spec fn reverse_add_step(s: Seq<u8>) -> Seq<u8> {
    add_seq(s, s.reverse())
}

/// The digit sequence after `k` reverse-and-add steps from `s`.
pub open spec fn lychrel_iter(s: Seq<u8>, k: nat) -> Seq<u8>
    decreases k,
{
    if k == 0 {
        s
    } else {
        reverse_add_step(lychrel_iter(s, (k - 1) as nat))
    }
}

/// The number of reverse-and-add steps the search performs: at least one
/// step is always taken, even when no further iterations are requested.
pub open spec fn search_steps(max_iterations: u32) -> nat {
    if max_iterations == 0 {
        1
    } else {
        max_iterations as nat
    }
}

/// `value` is a Lychrel candidate within `steps` reverse-and-add steps:
/// no step from its canonical digits yields a palindrome.
pub open spec fn is_lychrel_candidate(value: nat, steps: nat) -> bool {
    forall|k: int|
        1 <= k <= steps ==> !is_palindrome_seq(
            #[trigger] lychrel_iter(canonical_digits(value), k as nat),
        )
}

/// Iterated reverse-and-add keeps every element a decimal digit.
proof fn lemma_lychrel_iter_wf(s: Seq<u8>, k: nat)
    requires
        all_digits(s),
    ensures
        all_digits(lychrel_iter(s, k)),
    decreases k,
{
    if k > 0 {
        lemma_lychrel_iter_wf(s, (k - 1) as nat);
        let prev = lychrel_iter(s, (k - 1) as nat);
        assert(all_digits(prev.reverse()));
        crate::digits::lemma_add_value(prev, prev.reverse());
    }
}

/// Whether `value` fails to reach a palindrome within `max_iterations`
/// reverse-and-add steps (one step is taken even for a zero bound).
pub fn is_lycrell_number(value: u64, max_iterations: u32) -> (r: bool)
    ensures
        r == is_lychrel_candidate(value as nat, search_steps(max_iterations)),
{
    let mut done: u32 = 0;
    let mut digits = BigDigits::from_value(value);
    proof {
        crate::digits::lemma_canonical_digits_value(value as nat);
    }
    loop
        invariant
            done < search_steps(max_iterations),
            max_iterations > 0 ==> done < max_iterations,
            digits.wf(),
            digits@ == lychrel_iter(canonical_digits(value as nat), done as nat),
            forall|k: int|
                1 <= k <= done ==> !is_palindrome_seq(
                    #[trigger] lychrel_iter(canonical_digits(value as nat), k as nat),
                ),
        decreases search_steps(max_iterations) - done,
    {
        let rev = digits.reversed();
        digits.add_assign(&rev);
        done = done + 1;
        assert(digits@ == lychrel_iter(canonical_digits(value as nat), done as nat));
        if digits.is_palindrome() {
            proof {
                let k: int = done as int;
                assert(1 <= k <= search_steps(max_iterations));
                assert(is_palindrome_seq(
                    lychrel_iter(canonical_digits(value as nat), k as nat),
                ));
                assert(!is_lychrel_candidate(value as nat, search_steps(max_iterations)));
            }
            return false;
        }
        if done >= max_iterations {
            return true;
        }
    }
}

/// The number of Lychrel candidates (within fifty steps) below `n`.
pub open spec fn lychrel_count(n: nat) -> nat
    decreases n,
{
    if n == 0 {
        0
    } else {
        lychrel_count((n - 1) as nat) + if is_lychrel_candidate((n - 1) as nat, 50) {
            1nat
        } else {
            0nat
        }
    }
}

/// Count how many values below ten thousand are Lychrel candidates
/// within fifty reverse-and-add steps.
pub fn solve() -> (r: u32)
    ensures
        r == lychrel_count(10000),
{
    let mut count: u32 = 0;
    let mut value: u64 = 0;
    while value < 10_000
        invariant
            value <= 10_000,
            count <= value,
            count == lychrel_count(value as nat),
        decreases 10_000 - value,
    {
        if is_lycrell_number(value, 50) {
            count = count + 1;
        }
        value = value + 1;
    }
    count
}

} // verus!

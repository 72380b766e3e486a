//! Trusted interface to `fixedbitset::FixedBitSet`, the bit-per-integer
//! store backing the bounded prime sieve and the membership cache.
//!
//! The abstract contents of a bit set are named by `bits`, a boolean
//! sequence of the set's length; each wrapper states over `bits` what
//! the crate's source shows for the method it calls.
use vstd::prelude::*;

use fixedbitset::FixedBitSet;

verus! {

#[verifier::external_type_specification]
#[verifier::external_body]
pub struct ExFixedBitSet(FixedBitSet);

/// The bits held by a `FixedBitSet`, as a boolean sequence whose length
/// is the set's capacity in bits.
pub uninterp spec fn bits(s: FixedBitSet) -> Seq<bool>;

/// Relies on FixedBitSet::with_capacity: `n` bits, all initially clear.
#[verifier::external_body]
pub fn bitset_with_capacity(n: usize) -> (r: FixedBitSet)
    ensures
        bits(r) == Seq::new(n as nat, |i: int| false),
{
    FixedBitSet::with_capacity(n)
}

/// Relies on FixedBitSet::default: an empty bit set of length zero.
#[verifier::external_body]
pub fn bitset_default() -> (r: FixedBitSet)
    ensures
        bits(r) == Seq::<bool>::empty(),
{
    FixedBitSet::default()
}

/// Relies on FixedBitSet::len: the number of bits the set holds.
#[verifier::external_body]
pub fn bitset_len(s: &FixedBitSet) -> (r: usize)
    ensures
        r == bits(*s).len(),
{
    s.len()
}

/// Relies on FixedBitSet::contains: whether bit `i` is set; bits outside
/// the capacity read as clear.
#[verifier::external_body]
pub fn bitset_contains(s: &FixedBitSet, i: usize) -> (r: bool)
    ensures
        r == (i < bits(*s).len() && bits(*s)[i as int]),
{
    s.contains(i)
}

/// Relies on FixedBitSet::set: writes bit `i`, which must be in range.
#[verifier::external_body]
pub fn bitset_set(s: &mut FixedBitSet, i: usize, enabled: bool)
    requires
        i < bits(*old(s)).len(),
    ensures
        bits(*final(s)) == bits(*old(s)).update(i as int, enabled),
{
    s.set(i, enabled)
}

/// Relies on FixedBitSet::insert: sets bit `i`, which must be in range.
#[verifier::external_body]
pub fn bitset_insert(s: &mut FixedBitSet, i: usize)
    requires
        i < bits(*old(s)).len(),
    ensures
        bits(*final(s)) == bits(*old(s)).update(i as int, true),
{
    s.insert(i)
}

/// Relies on FixedBitSet::set_range with an open upper bound: writes
/// every bit from `from` to the end of the set.
#[verifier::external_body]
pub fn bitset_set_range_from(s: &mut FixedBitSet, from: usize, enabled: bool)
    requires
        from <= bits(*old(s)).len(),
    ensures
        bits(*final(s)) == Seq::new(
            bits(*old(s)).len(),
            |i: int| if i >= from { enabled } else { bits(*old(s))[i] },
        ),
{
    s.set_range(from.., enabled)
}

/// Relies on FixedBitSet::grow: extends the set to `n` bits with the new
/// bits clear; a no-op when the set is already at least that long.
#[verifier::external_body]
pub fn bitset_grow(s: &mut FixedBitSet, n: usize)
    ensures
        bits(*final(s)) == if n > bits(*old(s)).len() {
            bits(*old(s)) + Seq::new((n - bits(*old(s)).len()) as nat, |i: int| false)
        } else {
            bits(*old(s))
        },
{
    s.grow(n)
}

/// Relies on FixedBitSet::ones: the indices of the set bits, collected
/// in strictly increasing order.
#[verifier::external_body]
pub fn bitset_ones(s: &FixedBitSet) -> (r: Vec<usize>)
    ensures
        forall|k: int| 0 <= k < r@.len() ==> (#[trigger] r@[k]) < bits(*s).len(),
        forall|k: int| 0 <= k < r@.len() ==> bits(*s)[(#[trigger] r@[k]) as int],
        forall|i: int| 0 <= i < bits(*s).len() && #[trigger] bits(*s)[i] ==> r@.contains(
            i as usize,
        ),
        forall|k1: int, k2: int|
            0 <= k1 < k2 < r@.len() ==> (#[trigger] r@[k1]) < (#[trigger] r@[k2]),
{
    s.ones().collect()
}

} // verus!

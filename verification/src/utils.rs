//! Small shared numeric utilities.
use vstd::prelude::*;

verus! {

/// Each element of `acc` extended by one element of `pool`, in order.
pub open spec fn extend_one<T>(x: Seq<T>, pool: Seq<T>) -> Seq<Seq<T>> {
    Seq::new(pool.len(), |j: int| x.push(pool[j]))
}

/// Every element of `acc` extended by every element of `pool`.
pub open spec fn extend_all<T>(acc: Seq<Seq<T>>, pool: Seq<T>) -> Seq<Seq<T>>
    decreases acc.len(),
{
    if acc.len() == 0 {
        Seq::empty()
    } else {
        extend_one(acc.first(), pool) + extend_all(acc.drop_first(), pool)
    }
}

/// The Cartesian product of `repeat` copies of `pool`, lexicographic in
/// the order of `pool`.
pub open spec fn product_spec<T>(pool: Seq<T>, repeat: nat) -> Seq<Seq<T>>
    decreases repeat,
{
    if repeat == 0 {
        seq![Seq::<T>::empty()]
    } else {
        extend_all(product_spec(pool, (repeat - 1) as nat), pool)
    }
}

/// Appending a batch on the left distributes through `extend_all`.
proof fn lemma_extend_all_concat<T>(a: Seq<Seq<T>>, b: Seq<Seq<T>>, pool: Seq<T>)
    ensures
        extend_all(a + b, pool) == extend_all(a, pool) + extend_all(b, pool),
    decreases a.len(),
{
    if a.len() == 0 {
        assert(a + b =~= b);
        assert(extend_all(a, pool) + extend_all(b, pool) =~= extend_all(b, pool));
    } else {
        lemma_extend_all_concat(a.drop_first(), b, pool);
        assert((a + b).first() == a.first());
        assert((a + b).drop_first() =~= a.drop_first() + b);
        assert(extend_one(a.first(), pool) + (extend_all(a.drop_first(), pool) + extend_all(
            b,
            pool,
        )) =~= (extend_one(a.first(), pool) + extend_all(a.drop_first(), pool)) + extend_all(
            b,
            pool,
        ));
    }
}

/// Cartesian product of `repeat` copies of the input values, in
/// lexicographic order.
pub fn product<T: Copy>(args: &[T], repeat: usize) -> (r: Vec<Vec<T>>)
    ensures
        r@.map_values(|v: Vec<T>| v@) == product_spec(args@, repeat as nat),
{
    let mut result: Vec<Vec<T>> = Vec::new();
    result.push(Vec::new());
    proof {
        assert(result@.map_values(|v: Vec<T>| v@) =~= product_spec(args@, 0));
    }
    let mut round: usize = 0;
    while round < repeat
        invariant
            round <= repeat,
            result@.map_values(|v: Vec<T>| v@) == product_spec(args@, round as nat),
        decreases repeat - round,
    {
        let mut updated: Vec<Vec<T>> = Vec::new();
        let mut xi: usize = 0;
        while xi < result.len()
            invariant
                xi <= result@.len(),
                result@.map_values(|v: Vec<T>| v@) == product_spec(args@, round as nat),
                updated@.map_values(|v: Vec<T>| v@) =~= extend_all(
                    result@.map_values(|v: Vec<T>| v@).take(xi as int),
                    args@,
                ),
            decreases result@.len() - xi,
        {
            let ghost pre = result@.map_values(|v: Vec<T>| v@).take(xi as int);
            let mut yi: usize = 0;
            while yi < args.len()
                invariant
                    yi <= args@.len(),
                    xi < result@.len(),
                    result@.map_values(|v: Vec<T>| v@) == product_spec(args@, round as nat),
                    pre == result@.map_values(|v: Vec<T>| v@).take(xi as int),
                    updated@.map_values(|v: Vec<T>| v@) =~= extend_all(pre, args@)
                        + extend_one(result@[xi as int]@, args@).take(yi as int),
                decreases args@.len() - yi,
            {
                let mut item: Vec<T> = Vec::new();
                let mut ci: usize = 0;
                let row = &result[xi];
                while ci < row.len()
                    invariant
                        ci <= row@.len(),
                        item@ =~= row@.take(ci as int),
                    decreases row@.len() - ci,
                {
                    item.push(row[ci]);
                    assert(item@ =~= row@.take(ci + 1));
                    ci += 1;
                }
                assert(item@ =~= result@[xi as int]@);
                item.push(*vstd::slice::slice_index_get(args, yi));
                let ghost um = updated@.map_values(|v: Vec<T>| v@);
                updated.push(item);
                proof {
                    assert(item@ == result@[xi as int]@.push(args@[yi as int]));
                    assert(updated@.map_values(|v: Vec<T>| v@) =~= um.push(item@));
                    assert(extend_one(result@[xi as int]@, args@).take(yi + 1)
                        =~= extend_one(result@[xi as int]@, args@).take(yi as int).push(
                        result@[xi as int]@.push(args@[yi as int]),
                    ));
                    assert(um.push(item@) =~= extend_all(pre, args@) + extend_one(
                        result@[xi as int]@,
                        args@,
                    ).take(yi + 1));
                }
                yi += 1;
            }
            proof {
                let all = result@.map_values(|v: Vec<T>| v@);
                assert(extend_one(result@[xi as int]@, args@).take(args@.len() as int)
                    =~= extend_one(all[xi as int], args@));
                assert(all.take(xi + 1) =~= all.take(xi as int).push(all[xi as int]));
                lemma_extend_all_concat(all.take(xi as int), seq![all[xi as int]], args@);
                assert(all.take(xi as int) + seq![all[xi as int]] =~= all.take(xi + 1));
                assert(extend_all(seq![all[xi as int]], args@) =~= extend_one(
                    all[xi as int],
                    args@,
                )) by {
                    assert(seq![all[xi as int]].drop_first() =~= Seq::<Seq<T>>::empty());
                    assert(extend_one(all[xi as int], args@) + extend_all(
                        Seq::<Seq<T>>::empty(),
                        args@,
                    ) =~= extend_one(all[xi as int], args@));
                }
            }
            xi += 1;
        }
        proof {
            let all = result@.map_values(|v: Vec<T>| v@);
            assert(all.take(all.len() as int) =~= all);
        }
        result = updated;
        round += 1;
    }
    result
}

/// The sum of the decimal digits of `n`.
pub open spec fn digit_sum(n: nat) -> nat
    decreases n,
{
    if n == 0 {
        0
    } else {
        digit_sum(n / 10) + n % 10
    }
}

/// Digit sums below a power of ten are bounded by nine per digit.
proof fn lemma_digit_sum_bound(n: nat, k: nat)
    requires
        n < crate::digits::pow10(k),
    ensures
        digit_sum(n) <= 9 * k,
    decreases k,
{
    if n > 0 {
        assert(k > 0);
        assert(crate::digits::pow10(k) == 10 * crate::digits::pow10((k - 1) as nat));
        assert(n / 10 < crate::digits::pow10((k - 1) as nat)) by (nonlinear_arith)
            requires
                n < 10 * crate::digits::pow10((k - 1) as nat),
                n >= 0,
        ;
        lemma_digit_sum_bound(n / 10, (k - 1) as nat);
    }
}

/// The sum of the decimal digits of `target`.
pub fn sum_digits(target: u64) -> (r: u8)
    ensures
        r == digit_sum(target as nat),
{
    let mut sum: u16 = 0;
    let mut cur: u64 = target;
    proof {
        crate::digits::lemma_pow10_twenty();
        lemma_digit_sum_bound(target as nat, 20);
    }
    while cur > 0
        invariant
            sum + digit_sum(cur as nat) == digit_sum(target as nat),
            digit_sum(target as nat) <= 180,
        decreases cur,
    {
        sum = sum + (cur % 10) as u16;
        cur = cur / 10;
    }
    sum as u8
}

} // verus!

//! Decimal digit-vector representations of non-negative integers.
//!
//! `Digits` is a fixed-capacity (20 digit) vector, enough for any `u64`;
//! `BigDigits` is a growable vector used where addition may need to
//! exceed that capacity.  Digits are stored most-significant first.
use vstd::prelude::*;

verus! {

/// Maximum number of digits a fixed-capacity vector can hold.
pub const MAX_DIGITS: usize = 20;

/// The integer value denoted by a most-significant-first digit sequence.
pub open spec fn digits_value(s: Seq<u8>) -> nat
    decreases s.len(),
{
    if s.len() == 0 {
        0
    } else {
        digits_value(s.drop_last()) * 10 + s.last() as nat
    }
}

/// Every element of the sequence is a decimal digit.
pub open spec fn all_digits(s: Seq<u8>) -> bool {
    forall|i: int| 0 <= i < s.len() ==> s[i] < 10
}

/// The canonical (no leading zero, except for zero itself) decimal
/// representation of `n`, most-significant first.
pub open spec fn canonical_digits(n: nat) -> Seq<u8>
    decreases n,
{
    if n < 10 {
        seq![n as u8]
    } else {
        canonical_digits(n / 10).push((n % 10) as u8)
    }
}

/// A sequence reads the same forwards and backwards.
pub open spec fn is_palindrome_seq(s: Seq<u8>) -> bool {
    forall|i: int| 0 <= i < s.len() ==> #[trigger] s[i] == s[s.len() - 1 - i]
}

/// The canonical representation of `n` consists of digits and denotes `n`.
/// Together with the contract of `value`, this is the digit-vector
/// round-trip law: rebuilding the value of `canonical_digits(n)` gives
/// back `n` exactly.
pub proof fn lemma_canonical_digits_value(n: nat)
    ensures
        all_digits(canonical_digits(n)),
        digits_value(canonical_digits(n)) == n,
        canonical_digits(n).len() >= 1,
    decreases n,
{
    if n < 10 {
        let s = canonical_digits(n);
        assert(s.drop_last() =~= Seq::<u8>::empty());
        assert(digits_value(s.drop_last()) == 0);
        assert(s.last() == n as u8);
        assert(digits_value(s) == 0 * 10 + n);
    } else {
        lemma_canonical_digits_value(n / 10);
        let s = canonical_digits(n);
        assert(s.drop_last() =~= canonical_digits(n / 10));
        assert(digits_value(s) == digits_value(canonical_digits(n / 10)) * 10 + (n % 10));
        assert(n == (n / 10) * 10 + (n % 10)) by {
            vstd::arithmetic::div_mod::lemma_fundamental_div_mod(n as int, 10);
        }
        assert(all_digits(s)) by {
            assert(forall|i: int| 0 <= i < s.len() - 1 ==> s[i] == canonical_digits(n / 10)[i]);
        }
    }
}

/// Ten raised to the `k`-th power.
pub open spec fn pow10(k: nat) -> nat
    decreases k,
{
    if k == 0 {
        1
    } else {
        10 * pow10((k - 1) as nat)
    }
}

/// Values below `pow10(k)` have canonical representations of at most `k`
/// digits (for `k >= 1`).
pub proof fn lemma_canonical_digits_len(n: nat, k: nat)
    requires
        k >= 1,
        n < pow10(k),
    ensures
        canonical_digits(n).len() <= k,
    decreases n,
{
    if n >= 10 {
        assert(pow10(k) == 10 * pow10((k - 1) as nat));
        lemma_canonical_digits_len(n / 10, (k - 1) as nat);
    }
}

/// The value of a digit-sequence prefix never exceeds the value of the
/// whole sequence.
pub proof fn lemma_digits_value_prefix(s: Seq<u8>, i: int)
    requires
        0 <= i <= s.len(),
    ensures
        digits_value(s.take(i)) <= digits_value(s),
    decreases s.len() - i,
{
    if i < s.len() {
        lemma_digits_value_prefix(s, i + 1);
        assert(s.take(i + 1).drop_last() =~= s.take(i));
        assert(digits_value(s.take(i + 1)) == digits_value(s.take(i)) * 10 + s.take(i + 1).last() as nat);
    } else {
        assert(s.take(i) =~= s);
    }
}

/// The result of padding `s` on the left with zeroes to length `k`
/// (unchanged if `s` is already long enough).
pub open spec fn pad_spec(s: Seq<u8>, k: nat) -> Seq<u8> {
    if s.len() >= k {
        s
    } else {
        Seq::new((k - s.len()) as nat, |i: int| 0u8) + s
    }
}

/// Padding is idempotent: padding to `k` twice gives the same digits as
/// padding once, and padding to at most the current length is a no-op.
pub proof fn lemma_pad_idempotent(s: Seq<u8>, k: nat)
    ensures
        pad_spec(pad_spec(s, k), k) == pad_spec(s, k),
        s.len() >= k ==> pad_spec(s, k) == s,
{
}

/// A fixed-capacity decimal digit vector, most-significant digit first,
/// holding at most `MAX_DIGITS` digits: enough for any `u64` value.
pub struct Digits {
    len: u8,
    values: Vec<u8>,
}

impl View for Digits {
    type V = Seq<u8>;

    closed spec fn view(&self) -> Seq<u8> {
        self.values@.take(self.len as int)
    }
}

impl Clone for Digits {
    fn clone(&self) -> (r: Self)
        ensures
            r@ == self@,
            r.wf() == self.wf(),
    {
        Digits { len: self.len, values: self.values.clone() }
    }
}

impl Digits {
    /// The structural invariant: a full 20-slot backing store, a length
    /// within capacity, and every stored digit below ten.
    pub closed spec fn wf(&self) -> bool {
        &&& self.values@.len() == MAX_DIGITS
        &&& self.len as int <= MAX_DIGITS
        &&& all_digits(self@)
    }

    /// An empty digit vector.
    pub fn new() -> (r: Digits)
        ensures
            r.wf(),
            r@ == Seq::<u8>::empty(),
    {
        let mut values: Vec<u8> = Vec::new();
        let mut i: usize = 0;
        while i < MAX_DIGITS
            invariant
                i <= MAX_DIGITS,
                values@.len() == i,
            decreases MAX_DIGITS - i,
        {
            values.push(0);
            i += 1;
        }
        let r = Digits { len: 0, values };
        assert(r@ =~= Seq::<u8>::empty());
        r
    }

    /// Build a digit vector from an explicit digit slice.
    pub fn from_digits(digits: &[u8]) -> (r: Digits)
        requires
            digits@.len() <= MAX_DIGITS,
            all_digits(digits@),
        ensures
            r.wf(),
            r@ == digits@,
    {
        let mut r = Digits::new();
        let mut i: usize = 0;
        let n = digits.len();
        while i < n
            invariant
                i <= n,
                n == digits@.len() <= MAX_DIGITS,
                all_digits(digits@),
                r.wf(),
                r@ =~= digits@.take(i as int),
            decreases n - i,
        {
            let d = *vstd::slice::slice_index_get(digits, i);
            r.push(d);
            assert(r@ =~= digits@.take(i + 1));
            i += 1;
        }
        assert(digits@.take(n as int) =~= digits@);
        r
    }

    /// Build the canonical digit representation of `num` by repeated
    /// division by ten; zero maps to the single digit `[0]`.
    pub fn from_value(num: u64) -> (r: Digits)
        ensures
            r.wf(),
            r@ == canonical_digits(num as nat),
    {
        let mut tmp: Vec<u8> = Vec::new();
        let mut cur: u64 = num;
        if cur == 0 {
            tmp.push(0);
            assert(tmp@.reverse() =~= canonical_digits(0));
        }
        while cur > 0
            invariant
                cur == 0 ==> (tmp@.len() > 0 && canonical_digits(num as nat) == tmp@.reverse()),
                cur > 0 ==> canonical_digits(num as nat) == canonical_digits(cur as nat) + tmp@.reverse(),
                tmp@.len() <= 20,
                num > 0 || tmp@.len() > 0,
            decreases cur,
        {
            let ghost old_tmp = tmp@;
            let ghost old_cur = cur as nat;
            let d = (cur % 10) as u8;
            tmp.push(d);
            cur = cur / 10;
            proof {
                assert(tmp@.reverse() =~= seq![d] + old_tmp.reverse());
                vstd::arithmetic::div_mod::lemma_fundamental_div_mod(old_cur as int, 10);
                if cur == 0 {
                    assert(canonical_digits(old_cur) =~= seq![d]);
                    assert(canonical_digits(num as nat) =~= tmp@.reverse());
                } else {
                    assert(canonical_digits(old_cur) =~= canonical_digits(cur as nat).push(d));
                    assert(canonical_digits(cur as nat).push(d) + old_tmp.reverse()
                        =~= canonical_digits(cur as nat) + (seq![d] + old_tmp.reverse()));
                }
                assert(tmp@.len() <= 20) by {
                    lemma_canonical_tmp_len(num as nat, tmp@.len() as nat, cur as nat);
                }
            }
        }
        let mut r = Digits::new();
        proof {
            lemma_canonical_digits_value(num as nat);
        }
        let k = tmp.len();
        let mut i: usize = 0;
        while i < k
            invariant
                i <= k,
                k == tmp@.len() <= 20,
                r.wf(),
                all_digits(tmp@.reverse()),
                canonical_digits(num as nat) == tmp@.reverse(),
                r@ =~= tmp@.reverse().take(i as int),
            decreases k - i,
        {
            let d = tmp[k - 1 - i];
            assert(d == tmp@.reverse()[i as int]);
            r.push(d);
            assert(r@ =~= tmp@.reverse().take(i + 1));
            i += 1;
        }
        assert(tmp@.reverse().take(k as int) =~= tmp@.reverse());
        r
    }

    /// Append a digit at the least-significant end.
    pub fn push(&mut self, digit: u8)
        requires
            old(self).wf(),
            old(self)@.len() < MAX_DIGITS,
            digit < 10,
        ensures
            final(self).wf(),
            final(self)@ == old(self)@.push(digit),
    {
        let idx = self.len as usize;
        self.values[idx] = digit;
        self.len = self.len + 1;
        assert(final(self)@ =~= old(self)@.push(digit));
    }

    /// Overwrite the digit at `index`.
    pub fn insert(&mut self, index: usize, digit: u8)
        requires
            old(self).wf(),
            index < old(self)@.len(),
            digit < 10,
        ensures
            final(self).wf(),
            final(self)@ == old(self)@.update(index as int, digit),
    {
        self.values[index] = digit;
        assert(final(self)@ =~= old(self)@.update(index as int, digit));
    }

    /// The number of digits held.
    pub fn len(&self) -> (r: u8)
        requires
            self.wf(),
        ensures
            r == self@.len(),
    {
        self.len
    }

    /// Left-pad with zeroes so that at least `amount` digits are held;
    /// a no-op when the vector is already at least that long.
    pub fn pad(&mut self, amount: usize)
        requires
            old(self).wf(),
            amount <= MAX_DIGITS,
        ensures
            final(self).wf(),
            final(self)@ == pad_spec(old(self)@, amount as nat),
    {
        let len = self.len as usize;
        if len < amount {
            let padding = amount - len;
            let mut index = len;
            while index > 0
                invariant
                    index <= len,
                    len < amount <= MAX_DIGITS,
                    padding == amount - len,
                    self.values@.len() == MAX_DIGITS,
                    self.len == len,
                    forall|j: int| 0 <= j < index ==> self.values@[j] == old(self)@[j],
                    forall|j: int| index <= j < len ==>
                        self.values@[j + padding] == old(self)@[j],
                decreases index,
            {
                index -= 1;
                let value = self.values[index];
                self.values[index + padding] = value;
            }
            let mut i: usize = 0;
            while i < padding
                invariant
                    i <= padding,
                    len < amount <= MAX_DIGITS,
                    padding == amount - len,
                    self.values@.len() == MAX_DIGITS,
                    self.len == len,
                    forall|j: int| 0 <= j < i ==> self.values@[j] == 0u8,
                    forall|j: int| 0 <= j < len ==>
                        self.values@[j + padding] == old(self)@[j],
                decreases padding - i,
            {
                self.values[i] = 0;
                i += 1;
            }
            self.len = amount as u8;
            assert(final(self)@ =~= pad_spec(old(self)@, amount as nat));
        } else {
            assert(final(self)@ =~= pad_spec(old(self)@, amount as nat));
        }
    }

    /// Consuming variant of `pad`.
    pub fn padded(self, amount: usize) -> (r: Digits)
        requires
            self.wf(),
            amount <= MAX_DIGITS,
        ensures
            r.wf(),
            r@ == pad_spec(self@, amount as nat),
    {
        let mut r = self;
        r.pad(amount);
        r
    }

    /// Whether the digits read the same in both directions.
    pub fn is_palindrome(&self) -> (r: bool)
        requires
            self.wf(),
        ensures
            r == is_palindrome_seq(self@),
    {
        let len = self.len as usize;
        let half = len / 2;
        let mut i: usize = 0;
        while i < half
            invariant
                i <= half,
                half == self@.len() / 2,
                len == self@.len(),
                self.wf(),
                forall|j: int| 0 <= j < i ==> #[trigger] self@[j] == self@[len - 1 - j],
            decreases half - i,
        {
            if self.values[i] != self.values[len - 1 - i] {
                assert(self@[i as int] != self@[len - 1 - i as int]);
                return false;
            }
            i += 1;
        }
        proof {
            assert forall|j: int| 0 <= j < len implies #[trigger] self@[j] == self@[len - 1 - j] by {
                if j < half {
                } else if len - 1 - j < half {
                    assert(self@[len - 1 - j] == self@[len - 1 - (len - 1 - j)]);
                } else {
                    assert(j == len - 1 - j);
                }
            }
        }
        true
    }

    /// Reverse the digit order in place.
    pub fn reverse(&mut self)
        requires
            old(self).wf(),
        ensures
            final(self).wf(),
            final(self)@ == old(self)@.reverse(),
    {
        let len = self.len as usize;
        let half = len / 2;
        let mut i: usize = 0;
        while i < half
            invariant
                i <= half,
                half == len / 2,
                len == self.len,
                self.len == old(self).len,
                self.values@.len() == MAX_DIGITS,
                old(self).wf(),
                forall|j: int| 0 <= j < len && i <= j < len - i ==>
                    self.values@[j] == old(self)@[j],
                forall|j: int| 0 <= j < i ==> self.values@[j] == old(self)@[len - 1 - j],
                forall|j: int| len - i <= j < len ==> self.values@[j] == old(self)@[len - 1 - j],
            decreases half - i,
        {
            let a = self.values[i];
            let b = self.values[len - 1 - i];
            self.values[i] = b;
            self.values[len - 1 - i] = a;
            i += 1;
        }
        assert(final(self)@ =~= old(self)@.reverse());
    }

    /// A copy with the digit order reversed.
    pub fn reversed(self) -> (r: Digits)
        requires
            self.wf(),
        ensures
            r.wf(),
            r@ == self@.reverse(),
    {
        let mut r = self;
        r.reverse();
        r
    }

    /// The integer value denoted by the digits; the caller must know the
    /// value fits in a `u64`.
    pub fn value(&self) -> (r: u64)
        requires
            self.wf(),
            digits_value(self@) <= u64::MAX,
        ensures
            r == digits_value(self@),
    {
        let len = self.len as usize;
        let mut result: u64 = 0;
        let mut i: usize = 0;
        while i < len
            invariant
                i <= len,
                len == self@.len(),
                self.wf(),
                digits_value(self@) <= u64::MAX,
                result == digits_value(self@.take(i as int)),
            decreases len - i,
        {
            let d = self.values[i];
            proof {
                lemma_digits_value_prefix(self@, i + 1);
                assert(self@.take(i + 1).drop_last() =~= self@.take(i as int));
                assert(self@.take(i + 1).last() == self@[i as int]);
            }
            result = result * 10 + (d as u64);
            i += 1;
        }
        assert(self@.take(len as int) =~= self@);
        result
    }

    /// The integer value of the digits, or `None` if it would not fit in
    /// a `u64`.
    pub fn checked_value(&self) -> (r: Option<u64>)
        requires
            self.wf(),
        ensures
            r == if digits_value(self@) <= u64::MAX {
                Some(digits_value(self@) as u64)
            } else {
                None::<u64>
            },
    {
        checked_value_of(vstd::slice::slice_subrange(self.values.as_slice(), 0, self.len as usize))
    }

    /// Read access to the digits as a slice.
    pub fn as_slice(&self) -> (r: &[u8])
        requires
            self.wf(),
        ensures
            r@ == self@,
    {
        vstd::slice::slice_subrange(self.values.as_slice(), 0, self.len as usize)
    }
}

/// Helper for the canonical-digits length bound used while extracting
/// digits: after `k` extractions the remaining value is `num / 10^k`.
proof fn lemma_canonical_tmp_len(num: nat, k: nat, cur: nat)
    requires
        num <= u64::MAX,
        cur == 0 ==> canonical_digits(num).len() == k,
        cur > 0 ==> canonical_digits(num).len() == canonical_digits(cur).len() + k,
    ensures
        k <= 20,
{
    lemma_pow10_twenty();
    lemma_canonical_digits_len(num, 20);
    lemma_canonical_digits_value(cur);
}

/// `pow10(20)` exceeds `u64::MAX`.
pub proof fn lemma_pow10_twenty()
    ensures
        pow10(20) > u64::MAX,
{
    reveal_with_fuel(pow10, 21);
    assert(pow10(20) == 0x56bc75e2d63100000) by {
        reveal_with_fuel(pow10, 21);
    }
}

/// The value of a digit slice, stopping with `None` as soon as the
/// accumulator would leave the `u64` range.
pub fn checked_value_of(digits: &[u8]) -> (r: Option<u64>)
    requires
        all_digits(digits@),
    ensures
        r == if digits_value(digits@) <= u64::MAX {
            Some(digits_value(digits@) as u64)
        } else {
            None::<u64>
        },
{
    let len = digits.len();
    let mut result: u64 = 0;
    let mut i: usize = 0;
    while i < len
        invariant
            i <= len,
            len == digits@.len(),
            all_digits(digits@),
            result == digits_value(digits@.take(i as int)),
        decreases len - i,
    {
        let d = *vstd::slice::slice_index_get(digits, i);
        proof {
            assert(digits@.take(i + 1).drop_last() =~= digits@.take(i as int));
            assert(digits@.take(i + 1).last() == digits@[i as int]);
        }
        let next = match result.checked_mul(10) {
            Some(m) => m,
            None => {
                proof {
                    lemma_digits_value_prefix(digits@, i + 1);
                }
                return None;
            },
        };
        let next = match next.checked_add(d as u64) {
            Some(a) => a,
            None => {
                proof {
                    lemma_digits_value_prefix(digits@, i + 1);
                }
                return None;
            },
        };
        result = next;
        i += 1;
    }
    assert(digits@.take(len as int) =~= digits@);
    Some(result)
}

/// Grade-school addition over least-significant-first digit sequences
/// with an incoming carry.
pub open spec fn add_lsb(a: Seq<u8>, b: Seq<u8>, carry: u8) -> Seq<u8>
    decreases a.len() + b.len(),
{
    if a.len() == 0 && b.len() == 0 {
        if carry == 0 {
            Seq::<u8>::empty()
        } else {
            seq![carry]
        }
    } else {
        let x: int = if a.len() > 0 { a[0] as int } else { 0 };
        let y: int = if b.len() > 0 { b[0] as int } else { 0 };
        let s = x + y + carry;
        let a2 = if a.len() > 0 { a.skip(1) } else { a };
        let b2 = if b.len() > 0 { b.skip(1) } else { b };
        seq![(s % 10) as u8] + add_lsb(a2, b2, (s / 10) as u8)
    }
}

/// Grade-school addition of two most-significant-first digit sequences.
pub open spec fn add_seq(a: Seq<u8>, b: Seq<u8>) -> Seq<u8> {
    add_lsb(a.reverse(), b.reverse(), 0).reverse()
}

/// `s` without its first `i` elements, or empty once `i` passes the end.
pub open spec fn skip_clamped(s: Seq<u8>, i: int) -> Seq<u8> {
    if i <= s.len() {
        s.skip(i)
    } else {
        Seq::<u8>::empty()
    }
}

/// The value of a least-significant-first digit sequence.
pub open spec fn val_lsb(s: Seq<u8>) -> nat
    decreases s.len(),
{
    if s.len() == 0 {
        0
    } else {
        s[0] as nat + 10 * val_lsb(s.skip(1))
    }
}

/// The two digit-value readings agree: the most-significant-first value
/// of `s` is the least-significant-first value of its reverse.
pub proof fn lemma_digits_value_reverse(s: Seq<u8>)
    ensures
        digits_value(s) == val_lsb(s.reverse()),
    decreases s.len(),
{
    if s.len() > 0 {
        lemma_digits_value_reverse(s.drop_last());
        assert(s.reverse()[0] == s.last());
        assert(s.reverse().skip(1) =~= s.drop_last().reverse());
    }
}

/// Digit-wise addition carries correctly: the value of `add_lsb(a, b, c)`
/// is the sum of the values of `a` and `b`, plus the carry.
pub proof fn lemma_add_lsb_value(a: Seq<u8>, b: Seq<u8>, carry: u8)
    requires
        all_digits(a),
        all_digits(b),
        carry <= 1,
    ensures
        all_digits(add_lsb(a, b, carry)),
        val_lsb(add_lsb(a, b, carry)) == val_lsb(a) + val_lsb(b) + carry,
        add_lsb(a, b, carry).len() <= (if a.len() >= b.len() { a.len() } else { b.len() }) + 1,
        a.len() + b.len() > 0 ==> add_lsb(a, b, carry).len() >= 1,
    decreases a.len() + b.len(),
{
    if a.len() == 0 && b.len() == 0 {
        if carry != 0 {
            let r = add_lsb(a, b, carry);
            assert(r == seq![carry]);
            assert(r.skip(1) =~= Seq::<u8>::empty());
            assert(val_lsb(r) == carry as nat + 10 * val_lsb(r.skip(1)));
        }
    } else {
        let x: int = if a.len() > 0 { a[0] as int } else { 0 };
        let y: int = if b.len() > 0 { b[0] as int } else { 0 };
        let s = x + y + carry;
        let a2 = if a.len() > 0 { a.skip(1) } else { a };
        let b2 = if b.len() > 0 { b.skip(1) } else { b };
        assert(all_digits(a2)) by {
            assert(forall|i: int| 0 <= i < a2.len() ==> a2[i] == a[i + 1]);
        }
        assert(all_digits(b2)) by {
            assert(forall|i: int| 0 <= i < b2.len() ==> b2[i] == b[i + 1]);
        }
        let c2 = (s / 10) as u8;
        lemma_add_lsb_value(a2, b2, c2);
        let rest = add_lsb(a2, b2, c2);
        let r = add_lsb(a, b, carry);
        assert(r == seq![(s % 10) as u8] + rest);
        assert(r[0] == (s % 10) as u8);
        assert(r.skip(1) =~= rest);
        assert(val_lsb(r) == (s % 10) as u8 as nat + 10 * val_lsb(rest));
        assert(val_lsb(a) == x + 10 * val_lsb(a2));
        assert(val_lsb(b) == y + 10 * val_lsb(b2));
        assert((s % 10) + 10 * (s / 10) == s) by {
            vstd::arithmetic::div_mod::lemma_fundamental_div_mod(s, 10);
        }
        assert(val_lsb(r) == val_lsb(a) + val_lsb(b) + carry);
        assert(all_digits(r)) by {
            assert(forall|i: int| 1 <= i < r.len() ==> r[i] == rest[i - 1]);
        }
    }
}

/// Addition of digit vectors computes the sum of the values they denote.
pub proof fn lemma_add_value(a: Seq<u8>, b: Seq<u8>)
    requires
        all_digits(a),
        all_digits(b),
    ensures
        all_digits(add_seq(a, b)),
        digits_value(add_seq(a, b)) == digits_value(a) + digits_value(b),
        add_seq(a, b).len() <= (if a.len() >= b.len() { a.len() } else { b.len() }) + 1,
    decreases a.len(),
{
    assert(all_digits(a.reverse()) && all_digits(b.reverse()));
    lemma_add_lsb_value(a.reverse(), b.reverse(), 0);
    let r = add_lsb(a.reverse(), b.reverse(), 0);
    lemma_digits_value_reverse(a);
    lemma_digits_value_reverse(b);
    lemma_digits_value_reverse(r.reverse());
    assert(r.reverse().reverse() =~= r);
    assert(all_digits(add_seq(a, b)));
}

/// A growable decimal digit vector, most-significant digit first, with
/// no fixed capacity.
pub struct BigDigits {
    digits: Vec<u8>,
}

impl View for BigDigits {
    type V = Seq<u8>;

    closed spec fn view(&self) -> Seq<u8> {
        self.digits@
    }
}

impl Clone for BigDigits {
    fn clone(&self) -> (r: Self)
        ensures
            r@ == self@,
    {
        BigDigits { digits: self.digits.clone() }
    }
}

impl BigDigits {
    /// Every held digit is below ten.
    pub open spec fn wf(&self) -> bool {
        all_digits(self@)
    }

    /// Build a growable digit vector from an explicit digit slice.
    pub fn from_digits(digits: &[u8]) -> (r: BigDigits)
        requires
            all_digits(digits@),
        ensures
            r.wf(),
            r@ == digits@,
    {
        let mut v: Vec<u8> = Vec::new();
        let n = digits.len();
        let mut i: usize = 0;
        while i < n
            invariant
                i <= n,
                n == digits@.len(),
                v@ =~= digits@.take(i as int),
            decreases n - i,
        {
            v.push(*vstd::slice::slice_index_get(digits, i));
            assert(v@ =~= digits@.take(i + 1));
            i += 1;
        }
        assert(digits@.take(n as int) =~= digits@);
        BigDigits { digits: v }
    }

    /// Build the canonical digit representation of `value`.
    pub fn from_value(value: u64) -> (r: BigDigits)
        ensures
            r.wf(),
            r@ == canonical_digits(value as nat),
    {
        let fixed = Digits::from_value(value);
        BigDigits::from_fixed(&fixed)
    }

    /// Copy a fixed-capacity digit vector into a growable one.
    pub fn from_fixed(digits: &Digits) -> (r: BigDigits)
        requires
            digits.wf(),
        ensures
            r.wf(),
            r@ == digits@,
    {
        BigDigits::from_digits(digits.as_slice())
    }

    /// Reverse the digit order in place.
    pub fn reverse(&mut self)
        requires
            old(self).wf(),
        ensures
            final(self).wf(),
            final(self)@ == old(self)@.reverse(),
    {
        let r = self.reversed();
        *self = r;
    }

    /// A copy with the digit order reversed.
    pub fn reversed(&self) -> (r: BigDigits)
        requires
            self.wf(),
        ensures
            r.wf(),
            r@ == self@.reverse(),
    {
        let n = self.digits.len();
        let mut v: Vec<u8> = Vec::new();
        let mut i: usize = 0;
        while i < n
            invariant
                i <= n,
                n == self@.len(),
                self.wf(),
                v@ =~= self@.reverse().take(i as int),
            decreases n - i,
        {
            v.push(self.digits[n - 1 - i]);
            assert(v@ =~= self@.reverse().take(i + 1));
            i += 1;
        }
        assert(self@.reverse().take(n as int) =~= self@.reverse());
        BigDigits { digits: v }
    }

    /// The integer value of the digits, or `None` if it would not fit in
    /// a `u64`.
    pub fn checked_value(&self) -> (r: Option<u64>)
        requires
            self.wf(),
        ensures
            r == if digits_value(self@) <= u64::MAX {
                Some(digits_value(self@) as u64)
            } else {
                None::<u64>
            },
    {
        checked_value_of(self.digits.as_slice())
    }

    /// Whether the digits read the same in both directions.
    pub fn is_palindrome(&self) -> (r: bool)
        requires
            self.wf(),
        ensures
            r == is_palindrome_seq(self@),
    {
        is_palindrome(self.digits.as_slice())
    }

    /// Grade-school addition of two digit vectors, least-significant
    /// digits first, with a final carry digit when needed.
    pub fn add(&self, rhs: &BigDigits) -> (r: BigDigits)
        requires
            self.wf(),
            rhs.wf(),
        ensures
            r.wf(),
            r@ == add_seq(self@, rhs@),
    {
        let la = self.digits.len();
        let lb = rhs.digits.len();
        let n = if la >= lb { la } else { lb };
        let ghost ra = self@.reverse();
        let ghost rb = rhs@.reverse();
        let mut tmp: Vec<u8> = Vec::new();
        let mut carry: u8 = 0;
        let mut i: usize = 0;
        proof {
            assert(skip_clamped(ra, 0) =~= ra);
            assert(skip_clamped(rb, 0) =~= rb);
            assert(Seq::<u8>::empty() + add_lsb(ra, rb, 0) =~= add_lsb(ra, rb, 0));
        }
        while i < n
            invariant
                i <= n,
                la == self@.len(),
                lb == rhs@.len(),
                n == (if la >= lb { la } else { lb }),
                self.wf(),
                rhs.wf(),
                ra == self@.reverse(),
                rb == rhs@.reverse(),
                carry <= 1,
                tmp@.len() == i,
                add_lsb(ra, rb, 0) == tmp@ + add_lsb(
                    skip_clamped(ra, i as int),
                    skip_clamped(rb, i as int),
                    carry,
                ),
            decreases n - i,
        {
            let ghost ra_i = skip_clamped(ra, i as int);
            let ghost rb_i = skip_clamped(rb, i as int);
            let x: u8 = if i < la {
                self.digits[la - 1 - i]
            } else {
                0
            };
            let y: u8 = if i < lb {
                rhs.digits[lb - 1 - i]
            } else {
                0
            };
            proof {
                if i < la {
                    assert(ra_i[0] == ra[i as int]);
                    assert(ra[i as int] == self@[la - 1 - i]);
                }
                if i < lb {
                    assert(rb_i[0] == rb[i as int]);
                    assert(rb[i as int] == rhs@[lb - 1 - i]);
                }
            }
            let s = x + y + carry;
            let digit = s % 10;
            let new_carry = s / 10;
            proof {
                let a2 = if ra_i.len() > 0 { ra_i.skip(1) } else { ra_i };
                let b2 = if rb_i.len() > 0 { rb_i.skip(1) } else { rb_i };
                if ra_i.len() > 0 {
                    assert(a2 =~= skip_clamped(ra, i + 1));
                } else {
                    assert(a2 =~= skip_clamped(ra, i + 1));
                }
                if rb_i.len() > 0 {
                    assert(b2 =~= skip_clamped(rb, i + 1));
                } else {
                    assert(b2 =~= skip_clamped(rb, i + 1));
                }
                assert(add_lsb(ra_i, rb_i, carry)
                    =~= seq![digit] + add_lsb(
                    skip_clamped(ra, i + 1),
                    skip_clamped(rb, i + 1),
                    new_carry,
                ));
                assert(tmp@.push(digit) + add_lsb(
                    skip_clamped(ra, i + 1),
                    skip_clamped(rb, i + 1),
                    new_carry,
                ) =~= tmp@ + add_lsb(ra_i, rb_i, carry));
            }
            tmp.push(digit);
            carry = new_carry;
            i += 1;
        }
        proof {
            assert(skip_clamped(ra, n as int) =~= Seq::<u8>::empty());
            assert(skip_clamped(rb, n as int) =~= Seq::<u8>::empty());
        }
        if carry > 0 {
            assert(add_lsb(skip_clamped(ra, n as int), skip_clamped(rb, n as int), carry)
                =~= seq![carry]);
            assert(tmp@.push(carry) =~= tmp@ + seq![carry]);
            tmp.push(carry);
        } else {
            assert(tmp@ + add_lsb(skip_clamped(ra, n as int), skip_clamped(rb, n as int), carry)
                =~= tmp@);
        }
        let sum = BigDigits { digits: tmp };
        proof {
            lemma_add_lsb_value(ra, rb, 0);
        }
        let r = sum.reversed();
        assert(r@ == add_seq(self@, rhs@));
        r
    }

    /// In-place accumulation: add `rhs` into `self`.
    pub fn add_assign(&mut self, rhs: &BigDigits)
        requires
            old(self).wf(),
            rhs.wf(),
        ensures
            final(self).wf(),
            final(self)@ == add_seq(old(self)@, rhs@),
    {
        let r = self.add(rhs);
        *self = r;
    }
}

/// Whether a digit slice reads the same in both directions, comparing
/// the first half with the reversed second half.
pub fn is_palindrome(digits: &[u8]) -> (r: bool)
    ensures
        r == is_palindrome_seq(digits@),
{
    let len = digits.len();
    let half = len / 2;
    let mut i: usize = 0;
    while i < half
        invariant
            i <= half,
            half == digits@.len() / 2,
            len == digits@.len(),
            forall|j: int| 0 <= j < i ==> #[trigger] digits@[j] == digits@[len - 1 - j],
        decreases half - i,
    {
        if *vstd::slice::slice_index_get(digits, i) != *vstd::slice::slice_index_get(
            digits,
            len - 1 - i,
        ) {
            assert(digits@[i as int] != digits@[len - 1 - i as int]);
            return false;
        }
        i += 1;
    }
    proof {
        assert forall|j: int| 0 <= j < len implies #[trigger] digits@[j] == digits@[len - 1 - j] by {
            if j < half {
            } else if len - 1 - j < half {
                assert(digits@[len - 1 - j] == digits@[len - 1 - (len - 1 - j)]);
            } else {
                assert(j == len - 1 - j);
            }
        }
    }
    true
}

} // verus!

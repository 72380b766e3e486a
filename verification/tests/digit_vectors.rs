//! Digit-vector behaviour: round trips, padding, palindromes, addition.
use euler::digits::is_palindrome;
use euler::digits::BigDigits;
use euler::digits::Digits;

#[test]
fn test_palindrome() {
    assert!(is_palindrome(&[1]));
    assert!(is_palindrome(&[7, 3, 3, 7]));
    assert!(!is_palindrome(&[7, 3, 4, 7]));
    assert!(is_palindrome(&[7, 3, 1, 3, 7]));
    assert!(is_palindrome(&[1, 2, 1]));
}

#[test]
fn from_value_round_trip() {
    for &n in &[0u64, 1, 9, 10, 99, 12345, 196, 4994, 10_000_000_019, u64::MAX] {
        let digits = Digits::from_value(n);
        assert_eq!(digits.value(), n);
        assert_eq!(digits.checked_value(), Some(n));
    }
    assert_eq!(Digits::from_value(0).as_slice(), &[0]);
    assert_eq!(Digits::from_value(12345).as_slice(), &[1, 2, 3, 4, 5]);
}

#[test]
fn checked_value_overflow() {
    // Twenty nines exceed any 64-bit value.
    let digits = Digits::from_digits(&[9; 20]);
    assert_eq!(digits.checked_value(), None);
    let big = BigDigits::from_digits(&[9; 25]);
    assert_eq!(big.checked_value(), None);
    // The largest representable value still converts.
    let max = Digits::from_value(u64::MAX);
    assert_eq!(max.checked_value(), Some(u64::MAX));
}

#[test]
fn pad_idempotence() {
    let mut a = Digits::from_value(123);
    a.pad(7);
    assert_eq!(a.as_slice(), &[0, 0, 0, 0, 1, 2, 3]);
    let b = a.clone().padded(7);
    assert_eq!(b.as_slice(), a.as_slice());
    // Padding to a smaller-or-equal length is a no-op.
    let c = a.clone().padded(3);
    assert_eq!(c.as_slice(), a.as_slice());
}

#[test]
fn push_insert_reverse() {
    let mut d = Digits::new();
    d.push(4);
    d.push(7);
    d.push(1);
    assert_eq!(d.as_slice(), &[4, 7, 1]);
    d.insert(1, 9);
    assert_eq!(d.as_slice(), &[4, 9, 1]);
    d.reverse();
    assert_eq!(d.as_slice(), &[1, 9, 4]);
    let r = d.clone().reversed();
    assert_eq!(r.as_slice(), &[4, 9, 1]);
    assert_eq!(d.len(), 3);
}

#[test]
fn addition_carries() {
    let a = BigDigits::from_value(999);
    let b = BigDigits::from_value(1);
    let sum = a.add(&b);
    assert_eq!(sum.checked_value(), Some(1000));
    let x = BigDigits::from_value(123456789);
    let y = BigDigits::from_value(987654321);
    assert_eq!(x.add(&y).checked_value(), Some(1111111110));
    let mut acc = BigDigits::from_value(58);
    acc.add_assign(&acc.reversed());
    assert_eq!(acc.checked_value(), Some(143));
    assert!(!acc.is_palindrome());
    let pal = BigDigits::from_value(121);
    assert!(pal.is_palindrome());
}

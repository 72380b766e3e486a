//! Shared utilities: Cartesian products, digit sums, continued
//! fractions, and the problem context.
use euler::continued_fraction::ContinuedFraction;
use euler::euler_context::EulerContext;
use euler::utils::product;
use euler::utils::sum_digits;

#[test]
fn test_product() {
    assert_eq!(
        product(&[0, 1], 3),
        vec![
            vec![0, 0, 0],
            vec![0, 0, 1],
            vec![0, 1, 0],
            vec![0, 1, 1],
            vec![1, 0, 0],
            vec![1, 0, 1],
            vec![1, 1, 0],
            vec![1, 1, 1],
        ]
    )
}

#[test]
fn digit_sums() {
    assert_eq!(sum_digits(0), 0);
    assert_eq!(sum_digits(7), 7);
    assert_eq!(sum_digits(12345), 15);
    assert_eq!(sum_digits(999), 27);
    assert_eq!(sum_digits(u64::MAX), 1 + 8 + 4 + 4 + 6 + 7 + 4 + 4 + 0 + 7 + 3 + 7 + 0 + 9 + 5 + 5 + 1 + 6 + 1 + 5);
}

#[test]
fn continued_fractions() {
    let _ = ContinuedFraction::new(1, vec![2, 2]);
    let _ = ContinuedFraction::e(20);
    let _ = ContinuedFraction::sqrt2(20);
}

#[test]
fn context_name() {
    let context = EulerContext::new(String::from("poker"));
    assert_eq!(context.name(), "poker");
}

//! Spiral diagonals and the prime-ratio search.
use euler::spiral_primes::corners;
use euler::spiral_primes::SpiralPrimeProblem;

#[test]
fn test_diagonals() {
    assert_eq!(corners().take_until_length(3), vec![3, 5, 7, 9]);
    assert_eq!(corners().take_until_length(5), vec![3, 5, 7, 9, 13, 17, 21, 25]);
    assert_eq!(
        corners().take_until_length(7),
        vec![3, 5, 7, 9, 13, 17, 21, 25, 31, 37, 43, 49]
    );
}

#[test]
fn ratio_not_reached_early() {
    // Within the first few rings the prime ratio stays at or above 10%.
    let problem = SpiralPrimeProblem::default();
    assert_eq!(problem.solve(100), None);
}

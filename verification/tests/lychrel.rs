//! The reverse-and-add palindrome search.
use euler::lychrel_numbers::is_lycrell_number;

#[test]
fn lychrel_numbers_check_examples() {
    assert!(!is_lycrell_number(47, 1));
    assert!(!is_lycrell_number(349, 3));
    assert!(!is_lycrell_number(10677, 53));
    assert!(is_lycrell_number(4994, 50));
    assert!(is_lycrell_number(196, 50));
}

use mcp::domain::wide::{mul_add, product, scale, wide_greater};

#[test]
fn mul_add_keeps_every_bit() {
    assert_eq!(mul_add(3, 4, 5), (0, 17));
    assert_eq!(mul_add(0, u128::MAX, 9), (0, 9));
    assert_eq!(mul_add(u128::MAX, 1, 1), (1, 0));
    assert_eq!(mul_add(u128::MAX, u128::MAX, 0), (u128::MAX - 1, 1));
    assert_eq!(mul_add(u128::MAX, u128::MAX, u128::MAX), (u128::MAX, 0));
    assert_eq!(mul_add(1 << 64, 1 << 64, 0), (1, 0));
    assert_eq!(mul_add((1 << 64) + 3, (1 << 64) + 5, 7), (1, (8 << 64) + 22));
}

#[test]
fn scale_multiplies_a_wide_number() {
    assert_eq!(scale(&vec![], 7), vec![0]);
    assert_eq!(scale(&vec![6], 7), vec![42, 0]);
    assert_eq!(scale(&vec![u128::MAX, u128::MAX], 2), vec![u128::MAX - 1, u128::MAX, 1]);
}

#[test]
fn product_of_four_numbers() {
    assert_eq!(product(2, 3, 4, 5), vec![120, 0, 0, 0]);
    assert_eq!(product(u128::MAX, 2, 1, 1), vec![u128::MAX - 1, 1, 0, 0]);
    assert_eq!(product(1 << 127, 2, 1 << 127, 2), vec![0, 0, 1, 0]);
    assert_eq!(
        product(u128::MAX, u128::MAX, u128::MAX, u128::MAX),
        vec![1, u128::MAX - 3, 5, u128::MAX - 3]
    );
}

#[test]
fn wide_numbers_compare_from_the_highest_digit() {
    assert!(wide_greater(&vec![0, 1], &vec![u128::MAX, 0]));
    assert!(!wide_greater(&vec![u128::MAX, 0], &vec![0, 1]));
    assert!(wide_greater(&vec![2, 5], &vec![1, 5]));
    assert!(!wide_greater(&vec![1, 5], &vec![1, 5]));
    assert!(!wide_greater(&vec![], &vec![]));
}

use aoc::y18_frequency::first_repeat_frequency;

#[test]
fn frequency_examples() {
    assert_eq!(first_repeat_frequency(&vec![1, -1]), Some((0, 1)));
    assert_eq!(first_repeat_frequency(&vec![3, 3, 4, -2, -4]).map(|r| r.0), Some(10));
    assert_eq!(first_repeat_frequency(&vec![-6, 3, 8, 5, -6]).map(|r| r.0), Some(5));
    assert_eq!(first_repeat_frequency(&vec![7, 7, -2, -7, -4]).map(|r| r.0), Some(14));
    assert_eq!(first_repeat_frequency(&vec![1, -2, 3, 1]).map(|r| r.0), Some(2));
}

#[test]
fn frequency_leaving_i32() {
    assert_eq!(first_repeat_frequency(&vec![i32::MAX, 1]), None);
    assert_eq!(first_repeat_frequency(&vec![0]), Some((0, 0)));
}

#[test]
fn changes_are_read() {
    assert_eq!(aoc::y18_frequency::parse_change("+7"), Some(7));
    assert_eq!(aoc::y18_frequency::parse_change("-12"), Some(-12));
    assert_eq!(aoc::y18_frequency::parse_change("3000000000"), None);
    assert_eq!(aoc::y18_frequency::parse_change("x"), None);
}

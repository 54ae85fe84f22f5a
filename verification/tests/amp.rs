use aoc::y19_amp::AmpSettings;
use aoc::y19_computer::IntCodeComputer;

#[test]
fn three_amplifiers_have_six_orders() {
    let settings = AmpSettings::new(3);
    let mut it = settings.iter();
    let mut seen: Vec<Vec<i32>> = Vec::new();
    while let Some(s) = it.next() {
        let mut sorted = s.to_vec();
        sorted.sort();
        assert_eq!(sorted, vec![0, 1, 2]);
        assert!(!seen.contains(&s.to_vec()));
        seen.push(s.to_vec());
    }
    assert_eq!(seen.len(), 6);
    assert!(it.next().is_none());
}

#[test]
fn five_amplifiers_have_all_orders() {
    let settings = AmpSettings::new(5);
    let mut it = settings.iter();
    let mut count = 0;
    let mut seen = std::collections::HashSet::new();
    while let Some(s) = it.next() {
        seen.insert(s.to_vec());
        count += 1;
    }
    assert_eq!(count, 120);
    assert_eq!(seen.len(), 120);
    let _computer = IntCodeComputer::new();
}

#[test]
fn no_amplifier_has_one_empty_order() {
    let settings = AmpSettings::new(0);
    let mut it = settings.iter();
    assert_eq!(it.next(), Some(&[][..]));
    assert_eq!(it.next(), None);
}

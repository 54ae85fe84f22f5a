use aoc::y19_shuffle::{CachedDeckShuffle, DeckShuffle, ShuffleTech};

fn deck_order(deck: &DeckShuffle, n: usize) -> Vec<usize> {
    let mut order = vec![0; n];
    for card in 0..n {
        order[deck.map(card)] = card;
    }
    order
}

#[test]
fn increment_then_two_new_stacks() {
    let techs = vec![ShuffleTech::Increment(7), ShuffleTech::NewStack, ShuffleTech::NewStack];
    let deck = DeckShuffle::new(&techs, 10);
    assert_eq!(deck_order(&deck, 10), vec![0, 3, 6, 9, 2, 5, 8, 1, 4, 7]);
}

#[test]
fn cut_increment_new_stack() {
    let techs = vec![ShuffleTech::Cut(6), ShuffleTech::Increment(7), ShuffleTech::NewStack];
    let deck = DeckShuffle::new(&techs, 10);
    assert_eq!(deck_order(&deck, 10), vec![3, 0, 7, 4, 1, 8, 5, 2, 9, 6]);
    for pos in 0..10 {
        assert_eq!(deck.map(deck.rev_map(pos)), pos);
    }
    assert_eq!(deck.rev_map(0), 3);
}

#[test]
fn longer_example() {
    let techs = vec![
        ShuffleTech::NewStack,
        ShuffleTech::Cut(-2),
        ShuffleTech::Increment(7),
        ShuffleTech::Cut(8),
        ShuffleTech::Cut(-4),
        ShuffleTech::Increment(7),
        ShuffleTech::Cut(3),
        ShuffleTech::Increment(9),
        ShuffleTech::Increment(3),
        ShuffleTech::Cut(-1),
    ];
    let deck = DeckShuffle::new(&techs, 10);
    assert_eq!(deck_order(&deck, 10), vec![9, 2, 5, 8, 1, 4, 7, 0, 3, 6]);
}

#[test]
fn single_techniques() {
    assert_eq!(ShuffleTech::NewStack.map(0, 10), 9);
    assert_eq!(ShuffleTech::Cut(3).map(0, 10), 7);
    assert_eq!(ShuffleTech::Cut(3).map(5, 10), 2);
    assert_eq!(ShuffleTech::Cut(-4).map(0, 10), 4);
    assert_eq!(ShuffleTech::Cut(-4).map(8, 10), 2);
    assert_eq!(ShuffleTech::Cut(13).map(0, 10), 7);
    assert_eq!(ShuffleTech::Increment(3).map(1, 10), 3);
    assert_eq!(ShuffleTech::Increment(3).rev_map(3, 10), 1);
    assert_eq!(ShuffleTech::Cut(3).rev_map(7, 10), 0);
    assert_eq!(ShuffleTech::NewStack.rev_map(9, 10), 0);
    assert_eq!(ShuffleTech::Increment(2).rev_map(4, 10), 2);
}

#[test]
fn ident_append_square() {
    let ident = DeckShuffle::ident(10);
    assert_eq!(ident.ind_factor(), 1);
    assert_eq!(ident.constant(), 0);
    let mut deck = DeckShuffle::new(&vec![ShuffleTech::Increment(7)], 10);
    assert_eq!(deck.ind_factor(), 7);
    deck.square();
    assert_eq!(deck.ind_factor(), 9);
    assert_eq!(deck.map(1), 9);
    let mut d = DeckShuffle::new(&vec![ShuffleTech::Cut(3)], 10);
    d.append(&DeckShuffle::new(&vec![ShuffleTech::NewStack], 10));
    assert_eq!(d.map(0), ShuffleTech::Cut(3).map(ShuffleTech::NewStack.map(0, 10), 10));
}

#[test]
fn combine_keeps_rust_remainder() {
    let mut deck = DeckShuffle::ident(10);
    deck.combine(&ShuffleTech::NewStack);
    assert_eq!(deck.ind_factor(), -1);
    assert_eq!(deck.constant(), -1);
    deck.combine(&ShuffleTech::Increment(3));
    assert_eq!(deck.ind_factor(), -3);
    assert_eq!(deck.constant(), -3);
    deck.combine(&ShuffleTech::Increment(7));
    assert_eq!(deck.ind_factor(), -1);
    assert_eq!(deck.constant(), -1);
}

#[test]
fn cached_deck_runs_back() {
    let n: usize = 2147483647;
    let techs = vec![
        ShuffleTech::Increment(1000),
        ShuffleTech::Cut(3),
        ShuffleTech::Increment(1001),
        ShuffleTech::NewStack,
        ShuffleTech::Increment(3),
        ShuffleTech::Cut(-5),
    ];
    let whole = DeckShuffle::new(&techs, n);
    let mut cached = CachedDeckShuffle::new(&techs, n);
    assert!(cached.rev_ready());
    for x in [0usize, 1, 2, 12345, 1000999, n - 1] {
        let t = cached.map(x);
        assert_eq!(t, whole.map(x));
        assert_eq!(cached.rev_map(t), x);
        assert_eq!(cached.rev_map(t), x);
    }
}

#[test]
fn cached_small_deck_matches_whole() {
    let techs = vec![ShuffleTech::Cut(6), ShuffleTech::Increment(7), ShuffleTech::NewStack];
    let mut cached = CachedDeckShuffle::new(&techs, 10);
    for pos in 0..10 {
        let back = cached.rev_map(pos);
        assert_eq!(cached.map(back), pos);
    }
    assert_eq!(cached.rev_map(0), 3);
}

#[test]
fn repeated_shuffle_is_the_shuffle_many_times() {
    let techs = vec![ShuffleTech::Cut(6), ShuffleTech::Increment(7), ShuffleTech::NewStack, ShuffleTech::Cut(-3)];
    let n = 10007;
    let deck = DeckShuffle::new(&techs, n);
    for count in [0u64, 1, 2, 5, 13] {
        let many = deck.repeat(count);
        for x in [0usize, 1, 2019, n - 1] {
            let mut y = x;
            for _ in 0..count {
                y = deck.map(y);
            }
            assert_eq!(many.map(x), y);
        }
    }
    let big = deck.repeat(101741582076661);
    let back = big.rev_map(2020);
    assert_eq!(big.map(back), 2020);
}

#[test]
fn cached_deck_not_ready_when_factor_shares_a_divisor() {
    // Dealing with increment 2 on a deck of 10 cards is not onto.
    let techs = vec![ShuffleTech::Increment(2)];
    let cached = CachedDeckShuffle::new(&techs, 10);
    assert!(!cached.rev_ready());
    let techs = vec![ShuffleTech::Cut(6), ShuffleTech::Increment(7), ShuffleTech::NewStack];
    assert!(CachedDeckShuffle::new(&techs, 10).rev_ready());
}

#[test]
fn running_back_undoes_running_forward() {
    let techs = vec![ShuffleTech::Increment(7), ShuffleTech::Cut(-3), ShuffleTech::NewStack, ShuffleTech::Increment(9)];
    let n: usize = 10007;
    let deck = DeckShuffle::new(&techs, n);
    for x in [0usize, 1, 2, 2019, 5000, n - 1] {
        assert_eq!(deck.rev_map(deck.map(x)), x);
    }
}

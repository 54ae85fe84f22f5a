use aoc::y18_marbles::{MarbleGame, MarbleList, MarbleNode};

#[test]
fn test_push() {
    let mut list = MarbleList::new();
    list.push(&3);
    list.push(&5);
    list.push(&7);

    assert_eq!(
        list,
        MarbleList {
            head: Some(0),
            tail: Some(2),
            current: Some(2),
            nodes: vec![
                MarbleNode { value: 3, next: 1, prev: 2 },
                MarbleNode { value: 5, next: 2, prev: 0 },
                MarbleNode { value: 7, next: 0, prev: 1 },
            ],
        }
    );
}

#[test]
fn test_insert() {
    let mut list = MarbleList::new();
    list.push(&3);
    list.push(&5);
    list.push(&7);

    let pos = list.back(1).unwrap();
    assert_eq!(pos, 1);

    list.insert_after(pos, &6);

    assert_eq!(
        list,
        MarbleList {
            head: Some(0),
            tail: Some(2),
            current: Some(3),
            nodes: vec![
                MarbleNode { value: 3, next: 1, prev: 2 },
                MarbleNode { value: 5, next: 3, prev: 0 },
                MarbleNode { value: 7, next: 0, prev: 3 },
                MarbleNode { value: 6, next: 2, prev: 1 },
            ],
        }
    );
}

#[test]
fn test_remove() {
    let mut list = MarbleList::new();
    list.push(&3);
    list.push(&5);
    list.push(&7);

    let pos = list.back(1).unwrap();
    assert_eq!(pos, 1);

    list.remove(pos);
    assert_eq!(
        list,
        MarbleList {
            head: Some(0),
            tail: Some(1),
            current: Some(1),
            nodes: vec![
                MarbleNode { value: 3, next: 1, prev: 1 },
                MarbleNode { value: 7, next: 0, prev: 0 },
            ],
        }
    );
}

#[test]
fn marble_list_walks_both_ways() {
    let mut list = MarbleList::new();
    assert!(list.is_empty());
    assert_eq!(list.get_node(3), None);
    list.push(&1);
    list.push(&2);
    list.push(&3);
    assert!(!list.is_empty());
    assert_eq!(list.next(1), Some(0));
    assert_eq!(list.back(1), Some(1));
    assert_eq!(list.get_node(-4), Some(1));
    let nxt = list.next(2).unwrap();
    assert_eq!(list.get(nxt), 2);
}

#[test]
fn marble_game_examples() {
    assert_eq!(MarbleGame { player_n: 9, last_marble_ind: 25 }.simulate().1, 32);
    assert_eq!(MarbleGame { player_n: 10, last_marble_ind: 1618 }.simulate().1, 8317);
    assert_eq!(MarbleGame { player_n: 13, last_marble_ind: 7999 }.simulate().1, 146373);
    assert_eq!(MarbleGame { player_n: 17, last_marble_ind: 1104 }.simulate().1, 2764);
    assert_eq!(MarbleGame { player_n: 21, last_marble_ind: 6111 }.simulate().1, 54718);
    assert_eq!(MarbleGame { player_n: 30, last_marble_ind: 5807 }.simulate().1, 37305);
}

#[test]
fn marble_game_winner_and_ties() {
    assert_eq!(MarbleGame { player_n: 9, last_marble_ind: 25 }.simulate(), (4, 32));
    // Before marble 23 nobody scores: every player ties and the last wins.
    assert_eq!(MarbleGame { player_n: 3, last_marble_ind: 5 }.simulate(), (2, 0));
}

use aoc::y18_box_ids::{find_close_ids, list_com_elems};

fn ids(v: &[&str]) -> Vec<Vec<char>> {
    v.iter().map(|s| s.chars().collect()).collect()
}

#[test]
fn common_elements_in_place() {
    let a: Vec<char> = "fghij".chars().collect();
    let b: Vec<char> = "fguij".chars().collect();
    assert_eq!(list_com_elems(&a, &b), "fgij".chars().collect::<Vec<_>>());
    let c: Vec<char> = "abc".chars().collect();
    assert!(list_com_elems(&a, &c).is_empty());
}

#[test]
fn close_ids_of_example() {
    let list = ids(&["abcde", "fghij", "klmno", "pqrst", "fguij", "axcye", "wvxyz"]);
    let (i, j, common) = find_close_ids(&list).unwrap();
    assert_eq!((i, j), (1, 4));
    assert_eq!(common.iter().collect::<String>(), "fgij");
    assert!(find_close_ids(&ids(&["abc", "xyz", "ab"])).is_none());
}

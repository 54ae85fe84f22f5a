use aoc::y19_reactions::{Chemical, Error, Material, Reaction, ReactionMap};

fn mat(n: u64, name: &str) -> Material {
    Material::new(Chemical::new(name), n)
}

fn reaction(inputs: &[(u64, &str)], out: (u64, &str)) -> Reaction {
    Reaction {
        output: mat(out.0, out.1),
        inputs: inputs.iter().map(|(n, c)| mat(*n, c)).collect(),
    }
}

fn first_example() -> ReactionMap {
    ReactionMap::new(vec![
        reaction(&[(10, "ORE")], (10, "A")),
        reaction(&[(1, "ORE")], (1, "B")),
        reaction(&[(7, "A"), (1, "B")], (1, "C")),
        reaction(&[(7, "A"), (1, "C")], (1, "D")),
        reaction(&[(7, "A"), (1, "D")], (1, "E")),
        reaction(&[(7, "A"), (1, "E")], (1, "FUEL")),
    ])
}

fn second_example() -> ReactionMap {
    ReactionMap::new(vec![
        reaction(&[(9, "ORE")], (2, "A")),
        reaction(&[(8, "ORE")], (3, "B")),
        reaction(&[(7, "ORE")], (5, "C")),
        reaction(&[(3, "A"), (4, "B")], (1, "AB")),
        reaction(&[(5, "B"), (7, "C")], (1, "BC")),
        reaction(&[(4, "C"), (1, "A")], (1, "CA")),
        reaction(&[(2, "AB"), (3, "BC"), (4, "CA")], (1, "FUEL")),
    ])
}

#[test]
fn one_fuel_of_first_example() {
    let map = first_example();
    assert_eq!(map.decompose(&mat(1, "FUEL")).unwrap(), 31);
    let mut left = Vec::new();
    assert_eq!(map.decompose_one_unit(&Chemical::new("FUEL"), &mut left).unwrap(), 31);
    // 28 A were needed and 30 made.
    assert!(left.iter().any(|(c, n)| c.0 == "A" && *n == 2));
}

#[test]
fn two_fuel_of_first_example() {
    assert_eq!(first_example().decompose(&mat(2, "FUEL")).unwrap(), 62);
}

#[test]
fn one_fuel_of_second_example() {
    assert_eq!(second_example().decompose(&mat(1, "FUEL")).unwrap(), 165);
}

#[test]
fn ore_is_ore() {
    assert_eq!(first_example().decompose(&mat(3, "ORE")).unwrap(), 3);
}

#[test]
fn missing_reaction() {
    let map = first_example();
    assert!(map.has(&Chemical::new("FUEL")));
    assert!(!map.has(&Chemical::new("X")));
    assert!(matches!(map.decompose(&mat(1, "X")), Err(Error::MissReaction(c)) if c.0 == "X"));
}

#[test]
fn synthesize_with_little_ore() {
    let map = first_example();
    assert_eq!(map.synthesize(&Chemical::new("FUEL"), 31).unwrap(), (1, 0));
    assert_eq!(map.synthesize(&Chemical::new("FUEL"), 30).unwrap(), (0, 30));
    assert_eq!(map.synthesize(&Chemical::new("FUEL"), 100).unwrap(), (3, 7));
}

#[test]
fn material_parts() {
    let m = mat(7, "A");
    assert_eq!(m.chemical().0, "A");
    assert_eq!(Material::text_pattern(), r"(\d+)\s*(\w+)");
    let r = reaction(&[(1, "B")], (2, "C"));
    assert_eq!(r.output().unit_n, 2);
}

#[test]
fn leftovers_are_used_by_the_next_unit() {
    let map = ReactionMap::new(vec![reaction(&[(10, "ORE")], (2, "FUEL"))]);
    let fuel = Chemical::new("FUEL");
    let mut left: Vec<(Chemical, u64)> = Vec::new();
    assert_eq!(map.decompose_one_unit(&fuel, &mut left).unwrap(), 10);
    assert_eq!(left.len(), 1);
    assert_eq!(left[0].1, 1);
    assert_eq!(map.decompose_one_unit(&fuel, &mut left).unwrap(), 0);
    assert!(left.iter().all(|(_, n)| *n == 0));
    assert_eq!(map.decompose(&mat(2, "FUEL")).unwrap(), 10);
}

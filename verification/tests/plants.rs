use aoc::y18_plants::{GrowRuleMap, PlantSimulator, PotStatus};

fn example_rules() -> GrowRuleMap {
    let grow = [
        "...##", "..#..", ".#...", ".#.#.", ".#.##", ".##..", ".####", "#.#.#", "#.###", "##.#.",
        "##.##", "###..", "###.#", "####.",
    ];
    let mut rules = GrowRuleMap::new();
    for code in 0..32u32 {
        let pattern: String = (0..5).map(|i| if code & (1 << i) != 0 { '#' } else { '.' }).collect();
        let res = if grow.contains(&pattern.as_str()) { '#' } else { '.' };
        assert!(rules.add_rule(&format!("{} => {}", pattern, res)));
    }
    rules
}

#[test]
fn twenty_generations_of_example() {
    let rules = example_rules();
    let mut sim = match PlantSimulator::new("initial state: #..#.#..##......###...###", rules) {
        Some(s) => s,
        None => panic!("initial state should be read"),
    };
    sim.sim_gen(20);
    let offset = sim.ind_offset();
    let sum: i32 = sim
        .cur_pots()
        .iter()
        .enumerate()
        .filter(|(_, p)| **p == PotStatus::Plant)
        .map(|(i, _)| i as i32 + offset)
        .sum();
    assert_eq!(sum, 325);
}

#[test]
fn one_generation_and_string() {
    let rules = example_rules();
    let mut sim = PlantSimulator::new("initial state: #..#.#..##......###...###", rules).unwrap();
    sim.sim_one_gen();
    assert_eq!(sim.ind_offset(), -2);
    assert_eq!(sim.pots_str(), "00100010000100000100100100100");
}

#[test]
fn rules_apply() {
    let mut rules = GrowRuleMap::new();
    assert!(rules.add_rule("xx ..#.. => #"));
    assert!(!rules.add_rule("no rule here"));
    let w = [PotStatus::Empty, PotStatus::Empty, PotStatus::Plant, PotStatus::Empty, PotStatus::Empty];
    assert_eq!(rules.apply(&w), PotStatus::Plant);
    assert!(rules.add_rule("..#.. => ."));
    assert_eq!(rules.apply(&w), PotStatus::Plant);
    let e = [PotStatus::Empty; 5];
    assert_eq!(rules.apply_or(&e, PotStatus::Empty), PotStatus::Empty);
    assert_eq!(PotStatus::from_char('#'), PotStatus::Plant);
    assert_eq!(PotStatus::from_char('.'), PotStatus::Empty);
}

#[test]
fn no_initial_state() {
    let rules = example_rules();
    assert!(PlantSimulator::new("state: #", rules).is_none());
}

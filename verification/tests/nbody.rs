use aoc::y19_nbody::{gcd, lcm, Body, NBodySimulator, Vec3};

fn example() -> Vec<Body> {
    vec![
        Body::with_pos(-1, 0, 2),
        Body::with_pos(2, -10, -7),
        Body::with_pos(4, -8, 8),
        Body::with_pos(3, 5, -1),
    ]
}

#[test]
fn test_gcd() {
    assert_eq!(gcd(7, 0), 7);
    assert_eq!(gcd(0, 7), 7);
    assert_eq!(gcd(8, 12), 4);
    assert_eq!(gcd(2 * 3 * 13 * 23, 7 * 11 * 23 * 47), 23);
}

#[test]
fn test_lcm() {
    assert_eq!(lcm(7, 0), 0);
    assert_eq!(lcm(0, 7), 0);
    assert_eq!(lcm(8, 12), 24);
    assert_eq!(lcm(2 * 3 * 13 * 23, 7 * 11 * 23 * 47), 2 * 3 * 7 * 11 * 13 * 23 * 47);
}

#[test]
fn one_step_of_moons() {
    let mut sim = NBodySimulator::new(example());
    sim.step();
    assert_eq!(sim.body_count(), 4);
    let b0 = sim.nth_body(0);
    assert_eq!(b0.pos, Vec3::new(2, -1, 1));
    assert_eq!(b0.vel, Vec3::new(3, -1, -1));
    let b3 = sim.nth_body(3);
    assert_eq!(b3.pos, Vec3::new(2, 2, 0));
    assert_eq!(b3.vel, Vec3::new(-1, -3, 1));
}

#[test]
fn energy_after_ten_steps() {
    let mut sim = NBodySimulator::new(example());
    for _ in 0..10 {
        sim.step();
    }
    assert_eq!(sim.potential_energy(), 6 + 9 + 10 + 6);
    assert_eq!(sim.total_energy(), 179);
    let b = sim.nth_body(0);
    assert_eq!(b.potential_energy(), 6);
    assert_eq!(b.kinetic_energy(), 6);
    assert_eq!(b.total_energy(), 36);
}

#[test]
fn example_repeats() {
    let sim = NBodySimulator::new(example());
    assert_eq!(sim.cycle_len(), Some(2772));
}

#[test]
fn vector_helpers() {
    let v = Vec3::new(-3, 4, 0);
    assert_eq!(v.abs_sum(), 7);
    assert_eq!((v.get(0), v.get(1), v.get(2)), (-3, 4, 0));
    assert_eq!(Vec3::zeros(), Vec3::new(0, 0, 0));
}

#[test]
fn center_and_velocity_sum() {
    let bodies = vec![
        Body::with_pos(-1, 0, 2),
        Body::with_pos(2, -10, -7),
        Body::with_pos(4, -8, 8),
        Body::with_pos(3, 5, -1),
    ];
    let mut sim = NBodySimulator::new(bodies);
    assert_eq!(sim.center_pos(), Vec3::new(2, -3, 0));
    assert_eq!(sim.vel_sum(), Vec3::new(0, 0, 0));
    for _ in 0..10 {
        sim.step();
    }
    // The pulls between two moons are equal and opposite.
    assert_eq!(sim.vel_sum(), Vec3::new(0, 0, 0));
}

#[test]
fn step_is_checked_before_it_is_taken() {
    let bodies = vec![
        aoc::y19_nbody::Body { pos: aoc::y19_nbody::Vec3::new(0, 0, 0), vel: aoc::y19_nbody::Vec3::new(i32::MAX, 0, 0) },
        aoc::y19_nbody::Body { pos: aoc::y19_nbody::Vec3::new(1, 0, 0), vel: aoc::y19_nbody::Vec3::new(0, 0, 0) },
    ];
    let sim = aoc::y19_nbody::NBodySimulator::new(bodies);
    assert!(!sim.can_step());
    let calm = vec![
        aoc::y19_nbody::Body { pos: aoc::y19_nbody::Vec3::new(0, 0, 0), vel: aoc::y19_nbody::Vec3::new(0, 0, 0) },
    ];
    assert!(aoc::y19_nbody::NBodySimulator::new(calm).can_step());
}

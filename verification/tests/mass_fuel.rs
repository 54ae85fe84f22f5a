use aoc::y19_fuel::calc_mass_fuel;

#[test]
fn test_calc_mass_fuel_zero_mass() {
    assert_eq!(calc_mass_fuel(0), 0)
}

#[test]
fn test_calc_mass_fuel_less_than_6_mass() {
    assert_eq!(calc_mass_fuel(1), 0);
    assert_eq!(calc_mass_fuel(2), 0);
    assert_eq!(calc_mass_fuel(3), 0);
    assert_eq!(calc_mass_fuel(4), 0);
    assert_eq!(calc_mass_fuel(5), 0);
    assert_eq!(calc_mass_fuel(6), 0);
}

#[test]
fn test_calc_mass_fuel_sample_mass() {
    assert_eq!(calc_mass_fuel(12), 2);
    assert_eq!(calc_mass_fuel(14), 2);
    assert_eq!(calc_mass_fuel(1969), 966);
    assert_eq!(calc_mass_fuel(100756), 50346);
}

#[test]
fn masses_are_read() {
    assert_eq!(aoc::y19_fuel::parse_mass("1969").unwrap(), 1969);
    assert_eq!(aoc::y19_fuel::parse_mass("+12").unwrap(), 12);
    assert!(matches!(aoc::y19_fuel::parse_mass("-0"), Err(aoc::y19_fuel::Error::ParseIntError(s)) if s == "-0"));
    assert!(aoc::y19_fuel::parse_mass("4294967296").is_err());
    assert!(aoc::y19_fuel::parse_mass("").is_err());
    assert!(aoc::y19_fuel::parse_mass("12 ").is_err());
}

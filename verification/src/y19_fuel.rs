//! Rocket fuel needed to launch modules of a given mass.

use vstd::prelude::*;
use crate::text::{parse_uint, uint_value};

verus! {

/// Errors met while reading module masses.
#[derive(Debug)]
pub enum Error {
    /// A line that is not an unsigned integer.
    ParseIntError(String),
}

/// Reads the mass of one module: an unsigned 32-bit integer.
pub fn parse_mass(s: &str) -> (res: Result<u32, Error>)
    ensures
        match uint_value(s@) {
            Some(v) => if v <= u32::MAX {
                res == Ok::<u32, Error>(v as u32)
            } else {
                res matches Err(Error::ParseIntError(t)) && t@ == s@
            },
            None => res matches Err(Error::ParseIntError(t)) && t@ == s@,
        },
{
    match parse_uint(s, u32::MAX as u64) {
        Some(v) => Ok(v as u32),
        None => Err(Error::ParseIntError(s.to_string())),
    }
}

/// Fuel needed for a mass on its own: a third of it, rounded down, minus two,
/// or nothing when that is not positive.
pub open spec fn fuel_of(mass: int) -> int {
    if mass / 3 - 2 <= 0 { 0 } else { mass / 3 - 2 }
}

/// Fuel for a mass when the fuel itself needs fuel, until the extra is nothing.
pub open spec fn total_fuel(mass: int) -> int
    decreases mass,
{
    if mass <= 0 || fuel_of(mass) == 0 {
        0
    } else {
        fuel_of(mass) + total_fuel(fuel_of(mass))
    }
}

proof fn lemma_total_fuel_bound(mass: int)
    requires
        mass >= 0,
    ensures
        0 <= total_fuel(mass) <= mass,
    decreases mass,
{
    if mass > 0 && fuel_of(mass) != 0 {
        lemma_total_fuel_bound(fuel_of(mass));
    }
}

/// Fuel for a module of mass `m` on its own.
pub fn mass_fuel(m: u32) -> (res: u32)
    ensures
        res == fuel_of(m as int),
{
    if m / 3 <= 2 { 0 } else { m / 3 - 2 }
}

/// Total fuel for a module of mass `m`, counting the fuel for the fuel.
pub fn calc_mass_fuel(m: u32) -> (res: usize)
    ensures
        res == total_fuel(m as int),
{
    let mut fuel_sum: u64 = 0;
    let mut mass: u64 = m as u64;
    proof {
        lemma_total_fuel_bound(m as int);
    }
    while mass / 3 > 2
        invariant
            fuel_sum + total_fuel(mass as int) == total_fuel(m as int),
            fuel_sum + mass <= m,
        decreases mass,
    {
        let fuel = mass / 3 - 2;
        proof {
            lemma_total_fuel_bound(fuel as int);
        }
        fuel_sum = fuel_sum + fuel;
        mass = fuel;
    }
    fuel_sum as usize
}

} // verus!

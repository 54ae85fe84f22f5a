//! Puzzle solutions for two seasons of a programming advent calendar,
//! written as verified library code.

pub mod y19_fuel;
pub mod y19_intcode;
pub mod y18_fuel;
pub mod y18_box_ids;
pub mod y18_cave;
pub mod y18_army;
pub mod y18_points;
pub mod y18_marbles;
pub mod y18_water;
pub mod y19_eris;
pub mod y19_shuffle;
pub mod text;
pub mod y18_plants;
pub mod y19_asteroids;
pub mod y18_rooms;
pub mod y19_maze;
pub mod y19_nbody;
pub mod y19_reactions;
pub mod y19_vault;
pub mod search;
pub mod y19_fft;
pub mod y19_amp;
pub mod y19_computer;
pub mod y18_frequency;
pub mod y18_lumber;

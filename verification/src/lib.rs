//! Solvers for a set of small daily text puzzles. Each module parses one
//! puzzle's input into its own data and computes the puzzle's numeric
//! answers, with the behaviour of every step stated in its contract.
pub mod day1;
pub mod day10;
pub mod day11;
pub mod day13;
pub mod day2;
pub mod day3;
pub mod day4;
pub mod day5;
pub mod day6;
pub mod day7;
pub mod day8;
pub mod day14;
pub mod day15;
pub mod day16;
pub mod day17;
pub mod parsing;
pub mod sorting;

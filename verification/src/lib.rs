//! Verified solutions to a set of small, independent puzzles.
//!
//! Every module is self-contained: it takes the puzzle text (or values read
//! from it) and computes the answers, with a contract that states what the
//! answer is.

pub mod day01;
pub mod day04;
pub mod day06;
pub mod day07;
pub mod day08;
pub mod day09;
pub mod day10;
pub mod day11;
pub mod day12;
pub mod day13;
pub mod day15;
pub mod day18;
pub mod day2;
pub mod day3;
pub mod day5;
pub mod distinct;
pub mod text;

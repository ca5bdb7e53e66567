//! Daily puzzle solvers over small text inputs.
//!
//! Each `dayNN` module is an independent pipeline: a `parse` function turns
//! the input text into a small data model, and `part1` / `part2` compute the
//! two answers. The centrepiece is `day12`, a shortest-path solver over a
//! height-labeled grid, verified to return the exact minimal path length.

#![verifier::loop_isolation(false)]

pub mod arith;
pub mod text;

pub mod day00;
pub mod day01;
pub mod day01_functional;
pub mod day01_procedural;
pub mod day02;
pub mod day03;
pub mod day04;
pub mod day05;
pub mod day06;
pub mod day06_no_std;
pub mod day07;
pub mod day08;
pub mod day09;
pub mod day10;
pub mod day11;
pub mod day12;
pub mod day13;
pub mod day14;

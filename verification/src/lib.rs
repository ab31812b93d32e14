//! Solutions to a year of programming puzzles: the parsing and the
//! algorithms, each with the properties it was proved to have.
use vstd::prelude::*;

pub mod text;
pub mod helpers;
pub mod day01;
pub mod day02;
pub mod day03;
pub mod day04;
pub mod day05;
pub mod day06;
pub mod day07;
pub mod day08;
pub mod day09;
pub mod day10;
pub mod day11;
pub mod day12;
pub mod day13;
pub mod day14;
pub mod day15;
pub mod day16;
pub mod day17;
pub mod day17_search;
pub mod day18;
pub mod day19;
pub mod day20;
pub mod day21;
pub mod day22;

verus! {

} // verus!

[package]
name = "aoc23"
version = "0.1.0"
edition = "2021"
publish = false

[dependencies]
discrete_range_map = "=0.5.2"

[package]
name = "aoc2023"
version = "0.1.0"
edition = "2021"
publish = false

[dependencies]
aho-corasick = "*"
num = "*"
pathfinding = "*"

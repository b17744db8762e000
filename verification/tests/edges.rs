use aoc2023::day1;
use aoc2023::day11;
use aoc2023::day13;
use aoc2023::day14;
use aoc2023::day15;
use aoc2023::day16;
use aoc2023::day17;
use aoc2023::day2;
use aoc2023::day3;
use aoc2023::day4;
use aoc2023::day5;
use aoc2023::day6;
use aoc2023::day8;

#[test]
fn day1_line_without_digits() {
    assert_eq!(day1::part1("abc"), None);
    assert_eq!(day1::part1("7"), Some(77));
}

#[test]
fn day2_rejects_bad_game() {
    assert!(day2::parse("Game x: 3 blue").is_none());
    assert!(day2::parse("Game 1: 3 purple").is_none());
    assert!(day2::parse("no colon here").is_none());
}

#[test]
fn day3_single_gear() {
    let input = day3::parse("1*1").unwrap();
    assert_eq!(day3::part1(&input), Some(2));
    assert_eq!(day3::part2(&input), Some(1));
}

#[test]
fn day4_copies_past_the_table() {
    let input = day4::parse("Card 1: 1 | 1").unwrap();
    assert_eq!(day4::part1(&input), Some(1));
    assert_eq!(day4::part2(&input), None);
}

#[test]
fn day5_odd_seed_list() {
    let input = day5::parse("seeds: 1 2 3\n\na-to-b map:\n5 6 1").unwrap();
    assert_eq!(day5::part2(&input), None);
}

#[test]
fn day5_rejects_bad_header() {
    assert!(day5::parse("grain: 1 2").is_none());
}

#[test]
fn day6_needs_two_lines() {
    assert!(day6::parse("Time: 5").is_none());
    assert_eq!(day6::part2("Time: 5"), None);
}

#[test]
fn day8_missing_node() {
    let input = day8::parse("RL\n\nAAA = (BBB, BBB)").unwrap();
    assert_eq!(day8::part1(&input), None);
}

#[test]
fn day11_empty_sky() {
    let input = day11::parse("").unwrap();
    assert_eq!(day11::part1(&input), Some(0));
}

#[test]
fn day13_ragged_pattern() {
    let input = day13::parse("##\n#");
    assert_eq!(day13::parse_pattern(&input[0]), None);
    assert_eq!(day13::part1(&input), None);
}

#[test]
fn day14_lone_stone() {
    let input = day14::parse("O.\n..").unwrap();
    assert_eq!(day14::part1(&input), Some(2));
}

#[test]
fn day15_hash_word() {
    // the worked example of the running hash
    let word: Vec<u8> = vec![72, 65, 83, 72];
    assert_eq!(day15::hash(&word), 52);
}

#[test]
fn day15_bad_step() {
    let input = day15::parse("ab");
    assert_eq!(day15::part2(&input), None);
}

#[test]
fn day16_single_cell() {
    let input = day16::parse(".").unwrap();
    assert_eq!(day16::part1(&input), 1);
}

#[test]
fn day16_empty_grid() {
    let input = day16::parse("").unwrap();
    assert_eq!(day16::part1(&input), 0);
}

#[test]
fn day16_single_row() {
    let input = day16::parse("--").unwrap();
    assert_eq!(day16::part2(&input), Some(2));
}

#[test]
fn day17_single_cell() {
    let input = day17::parse("5").unwrap();
    assert_eq!(day17::part1(&input), Some(0));
}

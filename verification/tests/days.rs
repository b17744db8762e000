use aoc2023::day1;
use aoc2023::day10;
use aoc2023::day11;
use aoc2023::day13;
use aoc2023::day14;
use aoc2023::day15;
use aoc2023::day16;
use aoc2023::day17;
use aoc2023::day2;
use aoc2023::day3;
use aoc2023::day4;
use aoc2023::day5;
use aoc2023::day6;
use aoc2023::day7;
use aoc2023::day8;

const DAY1_INPUT_ONE: &'static str = "1abc2
pqr3stu8vwx
a1b2c3d4e5f
treb7uchet";

const DAY1_INPUT_TWO: &'static str = "two1nine
eightwothree
abcone2threexyz
xtwone3four
4nineeightseven2
zoneight234
7pqrstsixteen";

// This evaluates to 83: the two digit words overlap.
const THE_ANNOYING_CASE: &'static str = "eighthree";

#[test]
fn day1() {
    assert_eq!(day1::part1(DAY1_INPUT_ONE), Some(142));
    assert_eq!(day1::part2(DAY1_INPUT_TWO), Some(281));
    assert_eq!(day1::part2(THE_ANNOYING_CASE), Some(83));
}

const DAY2_INPUT: &'static str = "Game 1: 3 blue, 4 red; 1 red, 2 green, 6 blue; 2 green
Game 2: 1 blue, 2 green; 3 green, 4 blue, 1 red; 1 green, 1 blue
Game 3: 8 green, 6 blue, 20 red; 5 blue, 4 red, 13 green; 5 green, 1 red
Game 4: 1 green, 3 red, 6 blue; 3 green, 6 red; 3 green, 15 blue, 14 red
Game 5: 6 red, 1 blue, 3 green; 2 blue, 1 red, 2 green";

#[test]
fn day2_parse() {
    let parsed = day2::parse("Game 1: 3 blue, 4 red; 1 red, 2 green, 6 blue; 2 green").unwrap();
    let expected = vec![day2::GameInfo {
        id: 1,
        distributions: vec![
            day2::GameDistribution {
                red: 4,
                green: 0,
                blue: 3,
            },
            day2::GameDistribution {
                red: 1,
                green: 2,
                blue: 6,
            },
            day2::GameDistribution {
                red: 0,
                green: 2,
                blue: 0,
            },
        ],
    }];
    assert!(parsed == expected);
}

#[test]
fn day2() {
    let input = day2::parse(DAY2_INPUT).unwrap();
    assert_eq!(day2::part1(&input), Some(8));
    assert_eq!(day2::part2(&input), Some(2286));
}

const DAY3_INPUT: &'static str = "467..114..
...*......
..35..633.
......#...
617*......
.....+.58.
..592.....
......755.
...$.*....
.664.598..";

#[test]
fn day3() {
    let input = day3::parse(DAY3_INPUT).unwrap();
    assert_eq!(day3::part1(&input), Some(4361));
    assert_eq!(day3::part2(&input), Some(467835));
}

const DAY4_INPUT: &'static str = "Card 1: 41 48 83 86 17 | 83 86  6 31 17  9 48 53
Card 2: 13 32 20 16 61 | 61 30 68 82 17 32 24 19
Card 3:  1 21 53 59 44 | 69 82 63 72 16 21 14  1
Card 4: 41 92 73 84 69 | 59 84 76 51 58  5 54 83
Card 5: 87 83 26 28 32 | 88 30 70 12 93 22 82 36
Card 6: 31 18 13 56 72 | 74 77 10 23 35 67 36 11";

#[test]
fn day4_parse() {
    let input = day4::parse("Card 1: 41 48 83 86 17 | 83 86  6 31 17  9 48 53").unwrap();
    let expected = vec![day4::Card {
        winning: vec![41, 48, 83, 86, 17],
        have: vec![83, 86, 6, 31, 17, 9, 48, 53],
    }];
    assert!(input == expected);
}

#[test]
fn day4() {
    let input = day4::parse(DAY4_INPUT).unwrap();
    assert_eq!(day4::part1(&input), Some(13));
    assert_eq!(day4::part2(&input), Some(30));
}

const DAY5_INPUT: &'static str = "seeds: 79 14 55 13

seed-to-soil map:
50 98 2
52 50 48

soil-to-fertilizer map:
0 15 37
37 52 2
39 0 15

fertilizer-to-water map:
49 53 8
0 11 42
42 0 7
57 7 4

water-to-light map:
88 18 7
18 25 70

light-to-temperature map:
45 77 23
81 45 19
68 64 13

temperature-to-humidity map:
0 69 1
1 0 69

humidity-to-location map:
60 56 37
56 93 4";

#[test]
fn day5_parse() {
    let input = day5::parse(DAY5_INPUT).unwrap();
    assert_eq!(input.seeds, vec![79, 14, 55, 13]);
    assert_eq!(
        input.maps[0],
        vec![
            day5::AlmanacRange {
                dst: 52,
                src: 50,
                len: 48
            },
            day5::AlmanacRange {
                dst: 50,
                src: 98,
                len: 2
            },
        ]
    );
}

#[test]
fn day5() {
    let input = day5::parse(DAY5_INPUT).unwrap();
    assert_eq!(day5::part1(&input), Some(35));
    assert_eq!(day5::part2(&input), Some(46));
}

const DAY6_INPUT: &'static str = "Time:      7  15   30
Distance:  9  40  200";

#[test]
fn day6() {
    let input = day6::parse(DAY6_INPUT).unwrap();
    assert_eq!(day6::part1(&input), Some(288));
    assert_eq!(day6::part2(DAY6_INPUT), Some(71503));
}

const DAY7_INPUT: &'static str = "32T3K 765
T55J5 684
KK677 28
KTJJT 220
QQQJA 483";

use day7::{Card, CardPartTwo, Hand, HandKind};

#[test]
fn day7_kind() {
    let h = Hand {
        cards: vec![Card::Three, Card::Two, Card::Ten, Card::Three, Card::K],
    };
    assert_eq!(h.kind(), HandKind::OnePair);
    let h = Hand {
        cards: vec![Card::Ten, Card::Five, Card::Five, Card::J, Card::Five],
    };
    assert_eq!(h.kind(), HandKind::ThreeOfAKind);
    let h = Hand {
        cards: vec![Card::K, Card::K, Card::Six, Card::Seven, Card::Seven],
    };
    assert_eq!(h.kind(), HandKind::TwoPair);
    let h = Hand {
        cards: vec![Card::K, Card::Ten, Card::J, Card::J, Card::Ten],
    };
    assert_eq!(h.kind(), HandKind::TwoPair);
    let h = Hand {
        cards: vec![Card::Q, Card::Q, Card::Q, Card::J, Card::A],
    };
    assert_eq!(h.kind(), HandKind::ThreeOfAKind);

    let h = Hand {
        cards: vec![
            CardPartTwo::Three,
            CardPartTwo::Two,
            CardPartTwo::Ten,
            CardPartTwo::Three,
            CardPartTwo::K,
        ],
    };
    assert_eq!(h.kind(), HandKind::OnePair);
    let h = Hand {
        cards: vec![
            CardPartTwo::Ten,
            CardPartTwo::Five,
            CardPartTwo::Five,
            CardPartTwo::J,
            CardPartTwo::Five,
        ],
    };
    assert_eq!(h.kind(), HandKind::FourOfAKind);
    let h = Hand {
        cards: vec![
            CardPartTwo::K,
            CardPartTwo::K,
            CardPartTwo::Six,
            CardPartTwo::Seven,
            CardPartTwo::Seven,
        ],
    };
    assert_eq!(h.kind(), HandKind::TwoPair);
    let h = Hand {
        cards: vec![
            CardPartTwo::K,
            CardPartTwo::Ten,
            CardPartTwo::J,
            CardPartTwo::J,
            CardPartTwo::Ten,
        ],
    };
    assert_eq!(h.kind(), HandKind::FourOfAKind);
    let h = Hand {
        cards: vec![
            CardPartTwo::Q,
            CardPartTwo::Q,
            CardPartTwo::Q,
            CardPartTwo::J,
            CardPartTwo::A,
        ],
    };
    assert_eq!(h.kind(), HandKind::FourOfAKind);
}

#[test]
fn day7() {
    let input = day7::parse(DAY7_INPUT).unwrap();
    assert_eq!(day7::part1(&input), Some(6440));
    assert_eq!(day7::part2(&input), Some(5905));
}

const DAY8_INPUT: &'static str = "RL

AAA = (BBB, CCC)
BBB = (DDD, EEE)
CCC = (ZZZ, GGG)
DDD = (DDD, DDD)
EEE = (EEE, EEE)
GGG = (GGG, GGG)
ZZZ = (ZZZ, ZZZ)";

const DAY8_INPUT_TWO: &'static str = "LLR

AAA = (BBB, BBB)
BBB = (AAA, ZZZ)
ZZZ = (ZZZ, ZZZ)";

const DAY8_INPUT_THREE: &'static str = "LR

11A = (11B, XXX)
11B = (XXX, 11Z)
11Z = (11B, XXX)
22A = (22B, XXX)
22B = (22C, 22C)
22C = (22Z, 22Z)
22Z = (22B, 22B)
XXX = (XXX, XXX)";

#[test]
fn day8() {
    let input = day8::parse(DAY8_INPUT).unwrap();
    let input_two = day8::parse(DAY8_INPUT_TWO).unwrap();
    let input_three = day8::parse(DAY8_INPUT_THREE).unwrap();
    assert_eq!(day8::part1(&input), Some(2));
    assert_eq!(day8::part1(&input_two), Some(6));
    assert_eq!(day8::part2(&input_three), Some(6));
}

const DAY10_SIMPLE: &'static str = ".....
.S-7.
.|.|.
.L-J.
.....";

const DAY10_COMPLEX: &'static str = "..F7.
.FJ|.
SJ.L7
|F--J
LJ...";

const DAY10_PART_TWO_SAMPLE_ONE: &'static str = "...........
.S-------7.
.|F-----7|.
.||.....||.
.||.....||.
.|L-7.F-J|.
.|..|.|..|.
.L--J.L--J.
...........";

const DAY10_PART_TWO_SAMPLE_TWO: &'static str = ".F----7F7F7F7F-7....
.|F--7||||||||FJ....
.||.FJ||||||||L7....
FJL7L7LJLJ||LJ.L-7..
L--J.L7...LJS7F-7L7.
....F-J..F7FJ|L7L7L7
....L7.F7||L7|.L7L7|
.....|FJLJ|FJ|F7|.LJ
....FJL-7.||.||||...
....L---J.LJ.LJLJ...";

#[test]
fn day10() {
    let simple = day10::parse(DAY10_SIMPLE);
    let complex = day10::parse(DAY10_COMPLEX);
    assert_eq!(day10::part1(&simple), Some(4));
    assert_eq!(day10::part1(&complex), Some(8));

    let part_two_sample_one = day10::parse(DAY10_PART_TWO_SAMPLE_ONE);
    assert_eq!(day10::part2(&part_two_sample_one), Some(4));

    let part_two_sample_two = day10::parse(DAY10_PART_TWO_SAMPLE_TWO);
    assert_eq!(day10::part2(&part_two_sample_two), Some(8));
}

const DAY11_INPUT: &'static str = "...#......
.......#..
#.........
..........
......#...
.#........
.........#
..........
.......#..
#...#.....";

#[test]
fn day11() {
    let input = day11::parse(DAY11_INPUT).unwrap();
    assert_eq!(day11::part1(&input), Some(374));

    let expanded = day11::expand(&input, 10).unwrap();
    assert_eq!(day11::distances_sum(&expanded), Some(1030));

    let expanded = day11::expand(&input, 100).unwrap();
    assert_eq!(day11::distances_sum(&expanded), Some(8410));
}

const DAY13_INPUT: &'static str = "#.##..##.
..#.##.#.
##......#
##......#
..#.##.#.
..##..##.
#.#.##.#.

#...##..#
#....#..#
..##..###
#####.##.
#####.##.
..##..###
#....#..#";

#[test]
fn day13() {
    let input = day13::parse(DAY13_INPUT);
    assert_eq!(day13::part1(&input), Some(405));
    assert_eq!(day13::part2(&input), Some(400));
}

#[test]
fn day13_scan() {
    let input = day13::parse(DAY13_INPUT);

    let (lines, cols) = day13::parse_pattern(&input[0]).unwrap();
    assert_eq!(day13::scan_values(&lines), None);
    assert_eq!(day13::scan_values(&cols), Some(5));
    assert_eq!(
        day13::scan(&lines, &cols, false),
        Some(day13::ScanResult::Vertical(5))
    );

    let (lines, cols) = day13::parse_pattern(&input[1]).unwrap();
    assert_eq!(day13::scan_values(&lines), Some(4));
    assert_eq!(day13::scan_values(&cols), None);
    assert_eq!(
        day13::scan(&lines, &cols, false),
        Some(day13::ScanResult::Horizontal(4))
    );

    let (lines, cols) = day13::parse_pattern(&input[0]).unwrap();
    assert_eq!(day13::scan_values_with_smudge(&lines), Some(3));
    assert_eq!(day13::scan_values_with_smudge(&cols), None);
    assert_eq!(
        day13::scan(&lines, &cols, true),
        Some(day13::ScanResult::Horizontal(3))
    );

    let (lines, cols) = day13::parse_pattern(&input[1]).unwrap();
    assert_eq!(day13::scan_values_with_smudge(&lines), Some(1));
    assert_eq!(day13::scan_values_with_smudge(&cols), None);
    assert_eq!(
        day13::scan(&lines, &cols, true),
        Some(day13::ScanResult::Horizontal(1))
    );
}

const DAY14_INPUT: &'static str = "O....#....
O.OO#....#
.....##...
OO.#O....O
.O.....O#.
O.#..O.#.#
..O..#O..O
.......O..
#....###..
#OO..#....";

#[test]
fn day14() {
    let input = day14::parse(DAY14_INPUT).unwrap();
    assert_eq!(day14::part1(&input), Some(136));
    assert_eq!(day14::part2(&input), Some(64));
}

const DAY15_INPUT: &'static str = "rn=1,cm-,qp=3,cm=2,qp-,pc=4,ot=9,ab=5,pc-,pc=6,ot=7";

#[test]
fn day15() {
    let input = day15::parse(DAY15_INPUT);
    assert_eq!(day15::part1(&input), Some(1320));
    assert_eq!(day15::part2(&input), Some(145));
}

const DAY16_INPUT: &'static str = r#".|...\....
|.-.\.....
.....|-...
........|.
..........
.........\
..../.\\..
.-.-/..|..
.|....-|.\
..//.|...."#;

const DAY16_TRICKY: &'static str = r#"\.
..
..
.."#;

#[test]
fn day16() {
    let input = day16::parse(DAY16_INPUT).unwrap();
    assert_eq!(day16::part1(&input), 46);
    assert_eq!(day16::part2(&input), Some(51));

    let tricky = day16::parse(DAY16_TRICKY).unwrap();
    assert_eq!(day16::part1(&tricky), 4);
}

const DAY17_INPUT: &'static str = "2413432311323
3215453535623
3255245654254
3446585845452
4546657867536
1438598798454
4457876987766
3637877979653
4654967986887
4564679986453
1224686865563
2546548887735
4322674655533";

const DAY17_INPUT_PART_TWO: &'static str = "111111111111
999999999991
999999999991
999999999991
999999999991";

#[test]
fn day17() {
    let input = day17::parse(DAY17_INPUT).unwrap();
    assert_eq!(day17::part1(&input), Some(102));
    assert_eq!(day17::part2(&input), Some(94));

    let input_part_two = day17::parse(DAY17_INPUT_PART_TWO).unwrap();
    assert_eq!(day17::part2(&input_part_two), Some(71));
}

use advent::y2025::day_01;
use advent::y2025::day_02;
use advent::y2025::day_03;
use advent::y2025::day_04;
use advent::y2025::day_05;
use advent::y2025::day_06;
use advent::y2025::day_07;
use advent::y2025::day_08;
use advent::y2025::day_09;
use advent::y2025::day_10;

const DAY_01_INPUT: &str = "L68
L30
R48
L5
R60
L55
L1
L99
R14
L82";

#[test]
fn day_01_test_puzzle_1() {
    assert_eq!(day_01::puzzle_1(DAY_01_INPUT), "3");
}

#[test]
fn day_01_test_puzzle_2() {
    assert_eq!(day_01::puzzle_2(DAY_01_INPUT), "6");
}

const DAY_02_INPUT: &str = "11-22,95-115,998-1012,1188511880-1188511890,222220-222224,1698522-1698528,446443-446449,38593856-38593862,565653-565659,824824821-824824827,2121212118-2121212124";

#[test]
fn day_02_test_puzzle_1() {
    assert_eq!(day_02::puzzle_1(DAY_02_INPUT), "1227775554");
}

#[test]
fn day_02_test_puzzle_2() {
    assert_eq!(day_02::puzzle_2(DAY_02_INPUT), "4174379265");
}

const DAY_03_INPUT: &str = "987654321111111
811111111111119
234234234234278
818181911112111";

#[test]
fn day_03_test_puzzle_1() {
    assert_eq!(day_03::puzzle_1(DAY_03_INPUT), "357");
}

#[test]
fn day_03_test_puzzle_2() {
    assert_eq!(day_03::puzzle_2(DAY_03_INPUT), "3121910778619");
}

const DAY_05_INPUT: &str = "3-5
10-14
16-20
12-18

1
5
8
11
17
32";

#[test]
fn day_05_test_puzzle_1() {
    assert_eq!(day_05::puzzle_1(DAY_05_INPUT), "3");
}

#[test]
fn day_05_test_puzzle_2() {
    assert_eq!(day_05::puzzle_2(DAY_05_INPUT), "14");
}

const DAY_07_INPUT: &str = ".......S.......
...............
.......^.......
...............
......^.^......
...............
.....^.^.^.....
...............
....^.^...^....
...............
...^.^...^.^...
...............
..^...^.....^..
...............
.^.^.^.^.^...^.
...............
";

#[test]
fn day_07_test_puzzle_1() {
    assert_eq!(day_07::puzzle_1(DAY_07_INPUT), "21");
}

#[test]
fn day_07_test_puzzle_2() {
    assert_eq!(day_07::puzzle_2(DAY_07_INPUT), "40");
}

const DAY_04_INPUT: &str = "..@@.@@@@.
@@@.@.@.@@
@@@@@.@.@@
@.@@@@..@.
@@.@@@@.@@
.@@@@@@@.@
.@.@.@.@@@
@.@@@.@@@@
.@@@@@@@@.
@.@.@@@.@.";

#[test]
fn day_04_test_puzzle_1() {
    assert_eq!(day_04::puzzle_1(DAY_04_INPUT), "13");
}

#[test]
fn day_04_test_puzzle_2() {
    assert_eq!(day_04::puzzle_2(DAY_04_INPUT), "43");
}

const DAY_06_INPUT: &str = "123 328  51 64 
 45 64  387 23 
  6 98  215 314
*   +   *   +  ";

#[test]
fn day_06_test_puzzle_1() {
    assert_eq!(day_06::puzzle_1(DAY_06_INPUT), "4277556");
}

#[test]
fn day_06_test_puzzle_2() {
    assert_eq!(day_06::puzzle_2(DAY_06_INPUT), "3263827");
}

const DAY_08_INPUT: &str = "162,817,812
57,618,57
906,360,560
592,479,940
352,342,300
466,668,158
542,29,236
431,825,988
739,650,466
52,470,668
216,146,977
819,987,18
117,168,530
805,96,715
346,949,466
970,615,88
941,993,340
862,61,35
984,92,344
425,690,689";

#[test]
fn day_08_test_puzzle_1() {
    assert_eq!(day_08::puzzle_1(DAY_08_INPUT), "40");
}

#[test]
fn day_08_test_puzzle_2() {
    assert_eq!(day_08::puzzle_2(DAY_08_INPUT), "25272");
}

const DAY_09_INPUT: &str = "7,1
11,1
11,7
9,7
9,5
2,5
2,3
7,3";

fn pt(x: i64, y: i64) -> advent::geometry::Point2 {
    advent::geometry::Point2 { x, y }
}

#[test]
fn test_is_inside() {
    let input: Vec<advent::geometry::Point2> = DAY_09_INPUT
        .lines()
        .map(|l| {
            let (x, y) = l.split_once(',').unwrap();
            pt(x.parse().unwrap(), y.parse().unwrap())
        })
        .collect();

    let perimeter = {
        let mut res = input.clone();
        res.push(input.first().unwrap().clone());
        res
    };

    assert!(day_09::is_inside(&pt(11, 1), &perimeter));
    assert!(day_09::is_inside(&pt(10, 2), &perimeter));
    assert!(!day_09::is_inside(&pt(9, 0), &perimeter));
    assert!(day_09::is_inside(&pt(4, 5), &perimeter));
    assert!(!day_09::is_inside(&pt(4, 2), &perimeter));
    assert!(!day_09::is_inside(&pt(3, 7), &perimeter));
    assert!(!day_09::is_inside(&pt(12, 8), &perimeter));
    assert!(day_09::is_inside(&pt(2, 3), &perimeter));
    assert!(!day_09::is_inside(&pt(1, 2), &perimeter));
    assert!(day_09::is_inside(&pt(6, 3), &perimeter));
    assert!(day_09::is_inside(&pt(8, 5), &perimeter));
    for point in input {
        assert!(day_09::is_inside(&point, &perimeter));
    }

    let perimeter2: Vec<advent::geometry::Point2> = DAY_09_INPUT
        .lines()
        .map(|l| {
            let (x, y) = l.split_once(',').unwrap();
            pt(x.parse().unwrap(), y.parse().unwrap())
        })
        .chain(std::iter::once(pt(7, 1)))
        .collect();

    assert!(day_09::is_totally_inside(&pt(9, 5), &pt(2, 3), &perimeter2));
    assert!(day_09::is_totally_inside(&pt(2, 3), &pt(9, 5), &perimeter2));
    assert!(day_09::is_totally_inside(&pt(9, 7), &pt(9, 5), &perimeter2));
    assert!(!day_09::is_totally_inside(&pt(11, 1), &pt(2, 5), &perimeter2));
}

#[test]
fn y2025_day_09_test_puzzle_1() {
    assert_eq!(day_09::puzzle_1(DAY_09_INPUT), "50");
}

#[test]
fn y2025_day_09_test_puzzle_2() {
    assert_eq!(day_09::puzzle_2(DAY_09_INPUT), "24");
}

const DAY_10_INPUT: &str = "[.##.] (3) (1,3) (2) (2,3) (0,2) (0,1) {3,5,4,7}
[...#.] (0,2,3,4) (2,3) (0,4) (0,1,2) (1,2,3,4) {7,5,12,7,2}
[.###.#] (0,1,2,3,4) (0,3,4) (0,1,2,4,5) (1,2) {10,11,11,5,10,5}";

#[test]
fn y2025_day_10_test_puzzle_1() {
    assert_eq!(day_10::puzzle_1(DAY_10_INPUT), "7");
}

#[test]
fn y2025_day_10_test_puzzle_2() {
    assert_eq!(day_10::puzzle_2(DAY_10_INPUT), "33");
}

// A malformed command line is rejected with a zero answer.
#[test]
fn day_01_rejects_malformed() {
    assert_eq!(day_01::puzzle_1("Z99"), "0");
    assert_eq!(day_01::puzzle_2("L"), "0");
}

// An inverted range is rejected with a zero answer.
#[test]
fn day_05_rejects_inverted_range() {
    assert_eq!(day_05::puzzle_1("9-3\n\n5"), "0");
}

// A beam grid without a start marker is rejected with a zero answer.
#[test]
fn day_07_rejects_missing_start() {
    assert_eq!(day_07::puzzle_1("...\n.^."), "0");
    assert_eq!(day_07::puzzle_2("...\n.^."), "0");
}

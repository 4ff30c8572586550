use advent::y2021::day_03;
use advent::y2021::day_05;

const INPUT: &str = "00100
11110
10110
10111
10101
01111
00111
11100
10000
11001
00010
01010";

#[test]
fn y2021_day_03_test_puzzle_1() {
    let result = day_03::puzzle_1(INPUT);

    assert_eq!(result, "198");
}

#[test]
fn y2021_day_03_test_puzzle_2() {
    let result = day_03::puzzle_2(INPUT);

    assert_eq!(result, "230");
}

const DAY_05_INPUT: &str = "0,9 -> 5,9
8,0 -> 0,8
9,4 -> 3,4
2,2 -> 2,1
7,0 -> 7,4
6,4 -> 2,0
0,9 -> 2,9
3,4 -> 1,4
0,0 -> 8,8
5,5 -> 8,2";

#[test]
fn y2021_day_05_test_puzzle_1() {
    assert_eq!(day_05::puzzle_1(DAY_05_INPUT), "5");
}

#[test]
fn y2021_day_05_test_puzzle_2() {
    assert_eq!(day_05::puzzle_2(DAY_05_INPUT), "12");
}

#[test]
fn day_05_test_can_parse_input() {
    let parsed = day_05::parse_input(DAY_05_INPUT).unwrap();
    assert_eq!(
        parsed.first(),
        Some(&advent::geometry::Line2 {
            start: advent::geometry::Point2 { x: 0, y: 9 },
            end: advent::geometry::Point2 { x: 5, y: 9 }
        })
    );
    assert_eq!(parsed.len(), 10);
}

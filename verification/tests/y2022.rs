use advent::y2022::day_08;
use advent::y2022::day_09;
use advent::y2022::day_09::Rope;
use advent::y2022::day_10;
use advent::y2022::day_10::Instruction;
use advent::y2022::day_11;
use advent::y2022::day_12;
use advent::y2022::day_13;
use advent::y2022::day_13::ListElement;
use advent::y2022::day_14;
use advent::y2022::day_15;
use advent::y2022::day_16;

const DAY_10_INPUT: &str = "addx 15
addx -11
addx 6
addx -3
addx 5
addx -1
addx -8
addx 13
addx 4
noop
addx -1
addx 5
addx -1
addx 5
addx -1
addx 5
addx -1
addx 5
addx -1
addx -35
addx 1
addx 24
addx -19
addx 1
addx 16
addx -11
noop
noop
addx 21
addx -15
noop
noop
addx -3
addx 9
addx 1
addx -3
addx 8
addx 1
addx 5
noop
noop
noop
noop
noop
addx -36
noop
addx 1
addx 7
noop
noop
noop
addx 2
addx 6
noop
noop
noop
noop
noop
addx 1
noop
noop
addx 7
addx 1
noop
addx -13
addx 13
addx 7
noop
addx 1
addx -33
noop
noop
noop
addx 2
noop
noop
noop
addx 8
noop
addx -1
addx 2
addx 1
noop
addx 17
addx -9
addx 1
addx 1
addx -3
addx 11
noop
noop
addx 1
noop
addx 1
noop
noop
addx -13
addx -19
addx 1
addx 3
addx 26
addx -30
addx 12
addx -1
addx 3
addx 1
noop
noop
noop
addx -9
addx 18
addx 1
addx 2
noop
noop
addx 9
noop
noop
noop
addx -1
addx 2
addx -37
addx 1
addx 3
noop
addx 15
addx -21
addx 22
addx -6
addx 1
noop
addx 2
addx 1
noop
addx -10
noop
noop
addx 20
addx 1
addx 2
addx 2
addx -6
addx -11
noop
noop
noop";

#[test]
fn test_parse_instruction() {
    let instructions = "noop\naddx 3\naddx -5";
    let instructions = day_10::parse_input(instructions).unwrap();
    assert_eq!(
        instructions,
        vec![
            Instruction::Noop,
            Instruction::Addx(3),
            Instruction::Addx(-5)
        ]
    );
}

#[test]
fn test_get_history() {
    let history = vec![(0, 1), (2, 3), (3, 4), (6, 8)];

    assert_eq!(day_10::complete_history(&history), vec![1, 1, 3, 4, 4, 4, 8]);
}

#[test]
fn test_get_signal_strength() {
    let history = vec![(19, 3), (21, 5), (40, 9), (59, 23)];

    assert_eq!(
        day_10::get_signal_strengths(0, 20, &history),
        vec![3 * 20, 40 * 5]
    );
}

#[test]
fn day_10_test_puzzle_1() {
    assert_eq!(day_10::puzzle_1(DAY_10_INPUT), "13140");
}

const DAY_11_INPUT: &str = "Monkey 0:
  Starting items: 79, 98
  Operation: new = old * 19
  Test: divisible by 23
    If true: throw to monkey 2
    If false: throw to monkey 3

Monkey 1:
  Starting items: 54, 65, 75, 74
  Operation: new = old + 6
  Test: divisible by 19
    If true: throw to monkey 2
    If false: throw to monkey 0

Monkey 2:
  Starting items: 79, 60, 97
  Operation: new = old * old
  Test: divisible by 13
    If true: throw to monkey 1
    If false: throw to monkey 3

Monkey 3:
  Starting items: 74
  Operation: new = old + 3
  Test: divisible by 17
    If true: throw to monkey 0
    If false: throw to monkey 1";

#[test]
fn test_parse_monkey() {
    let input = "Monkey 1:
  Starting items: 54, 65, 75, 74
  Operation: new = old + 6
  Test: divisible by 19
    If true: throw to monkey 2
    If false: throw to monkey 0";

    let monkey = day_11::parse_monkey(input).unwrap();

    assert_eq!(monkey.items, vec![54, 65, 75, 74]);
    assert_eq!(monkey.test_number, 19);
    assert_eq!(monkey.recipient_success, 2);
    assert_eq!(monkey.recipient_failed, 0);
}

#[test]
fn day_11_test_puzzle_1() {
    assert_eq!(day_11::puzzle_1(DAY_11_INPUT), "10605");
}

#[test]
fn day_11_test_puzzle_2() {
    assert_eq!(day_11::puzzle_2(DAY_11_INPUT), "2713310158");
}

const DAY_13_INPUT: &str = "[1,1,3,1,1]
[1,1,5,1,1]

[[1],[2,3,4]]
[[1],4]

[9]
[[8,7,6]]

[[4,4],4,4]
[[4,4],4,4,4]

[7,7,7,7]
[7,7,7]

[]
[3]

[[[]]]
[[]]

[1,[2,[3,[4,[5,6,7]]]],8,9]
[1,[2,[3,[4,[5,6,0]]]],8,9]";

#[test]
fn test_can_parse_list() {
    let input = "[[4,4],4,4]";
    let result = day_13::parse_input_list(input);
    assert_eq!(
        result,
        Some(ListElement::List(vec![
            ListElement::List(vec![ListElement::Number(4), ListElement::Number(4)]),
            ListElement::Number(4),
            ListElement::Number(4)
        ]))
    );

    let input = "[]";
    let result = day_13::parse_input_list(input);
    assert_eq!(result, Some(ListElement::List(vec![])));
}

#[test]
fn day_13_test_can_parse_input() {
    let result = day_13::parse_input(DAY_13_INPUT);

    assert_eq!(result.len(), 8);
}

#[test]
fn test_orderings() {
    let input = "[1,1,3,1,1]\n[1,1,5,1,1]";
    let (a, b) = day_13::parse_input(input).first().unwrap().clone();

    assert!(a < b);

    let input = "[[1],[2,3,4]]\n[[1],4]";
    let (a, b) = day_13::parse_input(input).first().unwrap().clone();

    assert!(a < b);

    let input = "[9]\n[[8,7,6]]";
    let (a, b) = day_13::parse_input(input).first().unwrap().clone();

    assert!(a > b);

    let input = "[[4,4],4,4]\n[[4,4],4,4,4]";
    let (a, b) = day_13::parse_input(input).first().unwrap().clone();

    assert!(a < b);

    let input = "[7,7,7,7]\n[7,7,7]";
    let (a, b) = day_13::parse_input(input).first().unwrap().clone();

    assert!(a > b);

    let input = "[1,[2,[3,[4,[5,6,7]]]],8,9]\n[1,[2,[3,[4,[5,6,0]]]],8,9]";
    let (a, b) = day_13::parse_input(input).first().unwrap().clone();

    assert!(a > b);
}

#[test]
fn day_13_test_puzzle_1() {
    assert_eq!(day_13::puzzle_1(DAY_13_INPUT), "13");
}

#[test]
fn day_13_test_puzzle_2() {
    assert_eq!(day_13::puzzle_2(DAY_13_INPUT), "140");
}

const DAY_14_INPUT: &str = "498,4 -> 498,6 -> 496,6
503,4 -> 502,4 -> 502,9 -> 494,9";

#[test]
fn day_14_test_can_parse_input() {
    let parsed = day_14::parse_input(DAY_14_INPUT).unwrap();
    assert_eq!(parsed.data.iter().flatten().filter(|x| **x).count(), 20);
}

#[test]
fn day_14_test_puzzle_1() {
    assert_eq!(day_14::puzzle_1(DAY_14_INPUT), "24");
}

#[test]
fn day_14_test_puzzle_2() {
    assert_eq!(day_14::puzzle_2(DAY_14_INPUT), "93");
}

const DAY_08_INPUT: &str = "30373
25512
65332
33549
35390";

#[test]
fn test_load_input() {
    let input = "12\n34\n";
    let ouput = day_08::load_input(input);
    assert_eq!(ouput, Ok(vec![vec![1, 2], vec![3, 4]]));
}

#[test]
fn test_is_tree_visible() {
    let forest = day_08::load_input(DAY_08_INPUT).unwrap();

    assert!(day_08::is_tree_visible(&forest, 0, 0));
    assert!(day_08::is_tree_visible(&forest, 1, 1));
    assert!(!day_08::is_tree_visible(&forest, 1, 3));
    assert!(!day_08::is_tree_visible(&forest, 2, 2));
}

#[test]
fn test_get_visible_trees() {
    let input = "123\n416\n123\n";
    let forest = day_08::load_input(input).unwrap();

    let visible_trees = day_08::get_visible_trees(&forest);
    assert_eq!(
        visible_trees,
        vec![
            vec![true, true, true],
            vec![true, false, true],
            vec![true, true, true]
        ]
    );
}

#[test]
fn y2022_day_08_test_puzzle_1() {
    assert_eq!(day_08::puzzle_1(DAY_08_INPUT), "21");
}

#[test]
fn y2022_day_08_test_puzzle_2() {
    assert_eq!(day_08::puzzle_2(DAY_08_INPUT), "8");
}

const DAY_09_INPUT: &str = "R 5
U 8
L 8
D 3
R 17
D 10
L 25
U 20";

#[test]
fn test_move_head_and_tail() {
    let mut rope = Rope {
        knots: vec![
            advent::geometry::Point2 { x: 3, y: 3 },
            advent::geometry::Point2 { x: 2, y: 2 },
        ],
    };
    let tail_pos = rope.move_head(advent::geometry::Point2 { x: 0, y: 1 });
    assert_eq!(tail_pos.len(), 1);
    assert_eq!(
        rope.get_tail().unwrap().clone(),
        advent::geometry::Point2 { x: 3, y: 3 }
    );
}

#[test]
fn day_09_test_parse_input() {
    let input = "R 4\nU 4\n";
    assert_eq!(
        day_09::parse_input(input).unwrap(),
        vec![
            advent::geometry::Point2 { x: 4, y: 0 },
            advent::geometry::Point2 { x: 0, y: 4 }
        ]
    );
}

#[test]
fn day_09_test_puzzle_1() {
    assert_eq!(day_09::puzzle_1(DAY_09_INPUT), "88");
}

#[test]
fn day_09_test_puzzle_2() {
    assert_eq!(day_09::puzzle_2(DAY_09_INPUT), "36");
}

const DAY_12_INPUT: &str = "Sabqponm
abcryxxl
accszExk
acctuvwj
abdefghi";

#[test]
fn day_12_test_puzzle_1() {
    let result = day_12::puzzle_1(DAY_12_INPUT);

    assert_eq!(result, "31");
}

#[test]
fn day_12_test_puzzle_2() {
    let result = day_12::puzzle_2(DAY_12_INPUT);

    assert_eq!(result, "29");
}

const DAY_16_INPUT: &str = "Valve AA has flow rate=0; tunnels lead to valves DD, II, BB
Valve BB has flow rate=13; tunnels lead to valves CC, AA
Valve CC has flow rate=2; tunnels lead to valves DD, BB
Valve DD has flow rate=20; tunnels lead to valves CC, AA, EE
Valve EE has flow rate=3; tunnels lead to valves FF, DD
Valve FF has flow rate=0; tunnels lead to valves EE, GG
Valve GG has flow rate=0; tunnels lead to valves FF, HH
Valve HH has flow rate=22; tunnel leads to valve GG
Valve II has flow rate=0; tunnels lead to valves AA, JJ
Valve JJ has flow rate=21; tunnel leads to valve II";

#[test]
fn day_16_test_parse_input() {
    let parsed = day_16::parse_input(DAY_16_INPUT).unwrap();
    // valve AA: flow 0, tunnels DD, II, BB
    let aa = parsed.paths[0].as_ref().unwrap();
    let dd = 3 * 26 + 3;
    let ii = 8 * 26 + 8;
    let bb = 1 * 26 + 1;
    assert_eq!(aa.0, vec![dd, ii, bb]);
    assert_eq!(aa.1, 0);
}

#[test]
fn day_16_test_puzzle_1() {
    assert_eq!(day_16::puzzle_1(DAY_16_INPUT), "1651");
}

#[test]
fn day_16_test_puzzle_2() {
    assert_eq!(day_16::puzzle_2(DAY_16_INPUT), "1707");
}

#[test]
fn day_12_test_can_parse_input() {
    let input = "Sab\nabc\nacE\n";

    let parsed = day_12::parse_input(input).unwrap();
    assert_eq!(parsed.start, (0, 0));
    assert_eq!(parsed.goal, (2, 2));

    // the goal marker reads as the highest level, `b` as level one
    assert_eq!(parsed.grid[2][2], 25);
    assert_eq!(parsed.grid[1][1], 1);
}

const DAY_15_INPUT: &str = "Sensor at x=2, y=18: closest beacon is at x=-2, y=15
Sensor at x=9, y=16: closest beacon is at x=10, y=16
Sensor at x=13, y=2: closest beacon is at x=15, y=3
Sensor at x=12, y=14: closest beacon is at x=10, y=16
Sensor at x=10, y=20: closest beacon is at x=10, y=16
Sensor at x=14, y=17: closest beacon is at x=10, y=16
Sensor at x=8, y=7: closest beacon is at x=2, y=10
Sensor at x=2, y=0: closest beacon is at x=2, y=10
Sensor at x=0, y=11: closest beacon is at x=2, y=10
Sensor at x=20, y=14: closest beacon is at x=25, y=17
Sensor at x=17, y=20: closest beacon is at x=21, y=22
Sensor at x=16, y=7: closest beacon is at x=15, y=3
Sensor at x=14, y=3: closest beacon is at x=15, y=3
Sensor at x=20, y=1: closest beacon is at x=15, y=3";

#[test]
fn day_15_test_puzzle_1() {
    let row_number = 10;

    let map = day_15::parse_input(DAY_15_INPUT).unwrap();
    let footprint = day_15::get_footprint(&map);
    let result = day_15::get_row(row_number, &map, footprint)
        .iter()
        .filter(|&&state| state == day_15::MapState::Empty)
        .count();

    assert_eq!(result, 26);
}

#[test]
fn day_15_test_puzzle_2() {
    let max_coord = 20;

    let map = day_15::parse_input(DAY_15_INPUT).unwrap();
    let first_empty_position = day_15::get_first_empty_position(max_coord, &map).unwrap();

    let value = first_empty_position.x as i64 * 4_000_000i64 + first_empty_position.y as i64;

    assert_eq!(value, 56000011);
}

// A map character outside the markers and lowercase letters is
// rejected with a zero answer.
#[test]
fn day_12_rejects_malformed() {
    assert_eq!(day_12::puzzle_1("Sa1\nbbE"), "0");
    assert_eq!(day_12::puzzle_2("Sab\nbbc"), "0");
}

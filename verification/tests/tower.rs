use advent::y2022::day_17;
use advent::y2022::day_17::Direction;

const INPUT: &str = ">>><<><>><<<>><>>><<<>>><<<><<<>><>><<>>";

#[test]
fn day_17_test_parse_input() {
    let input = "<><\n";
    let parsed = day_17::parse_input(input);
    assert_eq!(
        parsed,
        vec![Direction::Left, Direction::Right, Direction::Left]
    );
}

#[test]
fn day_17_test_puzzle_1() {
    assert_eq!(day_17::puzzle_1(INPUT), "3068");
}

#[test]
fn day_17_test_puzzle_2() {
    assert_eq!(day_17::puzzle_2(INPUT), "1514285714288");
}

// Walls and floor count as occupied whatever has settled.
#[test]
fn test_walls_and_floor_occupied() {
    let shaft = day_17::Shaft::new();
    assert!(shaft.is_occupied(-1, 5));
    assert!(shaft.is_occupied(7, 0));
    assert!(shaft.is_occupied(3, -1));
    assert!(!shaft.is_occupied(3, 0));
}

// Settling only adds occupancy; what was occupied stays occupied.
#[test]
fn test_settle_monotonic() {
    let mut shaft = day_17::Shaft::new();
    let bar = day_17::piece_for(0);
    shaft.settle(&bar.cells, 0, 0);
    assert!(shaft.is_occupied(0, 0));
    assert!(shaft.is_occupied(3, 0));
    let square = day_17::piece_for(4);
    shaft.settle(&square.cells, 2, 1);
    assert!(shaft.is_occupied(0, 0));
    assert!(shaft.is_occupied(3, 0));
    assert!(shaft.is_occupied(2, 2));
    assert_eq!(shaft.highest_row(), Some(2));
}

// An empty shaft reports its highest occupied row as below the floor,
// and the first piece settles directly on the floor.
#[test]
fn test_empty_shaft_and_first_piece() {
    let shaft = day_17::Shaft::new();
    assert_eq!(shaft.highest_row(), None);
    assert_eq!(shaft.height(), 0);

    let commands = day_17::parse_input(INPUT);
    let after_one = day_17::simulate(&commands, 1);
    // the first piece is the horizontal bar: it rests on the floor
    assert_eq!(after_one.height(), 1);
    assert!(after_one.is_occupied(2, 0));
}

// Re-running the simulation with identical inputs yields identical
// heights.
#[test]
fn test_simulation_idempotent() {
    let first = day_17::puzzle_1(INPUT);
    let second = day_17::puzzle_1(INPUT);
    assert_eq!(first, second);
    let third = day_17::puzzle_2(INPUT);
    let fourth = day_17::puzzle_2(INPUT);
    assert_eq!(third, fourth);
}

// A detected cycle record is sound: simulating `pieces_per_cycle`
// additional pieces from the recorded state reproduces exactly
// `height_per_cycle` additional height and returns the skyline profile
// to the value that detected the cycle.
#[test]
fn test_cycle_record_round_trip() {
    let commands = day_17::parse_input(INPUT);
    let record = day_17::find_cycle(&commands, 5000).expect("the example input cycles");
    assert!(record.start < record.detected_at);
    assert_eq!(
        record.pieces_per_cycle,
        record.detected_at - record.start
    );

    let at_start = day_17::simulate(&commands, record.start);
    let after_cycle = day_17::simulate(&commands, record.start + record.pieces_per_cycle);
    assert_eq!(at_start.height(), record.height_at_start);
    assert_eq!(
        after_cycle.height(),
        record.height_at_start + record.height_per_cycle
    );
    assert_eq!(
        at_start.skyline_profile(day_17::PROFILE_WINDOW),
        after_cycle.skyline_profile(day_17::PROFILE_WINDOW)
    );
}

// The piece catalog cycles with period five.
#[test]
fn test_piece_catalog_cycles() {
    for k in 0..5u64 {
        let a = day_17::piece_for(k);
        let b = day_17::piece_for(k + 5);
        assert_eq!(a.cells, b.cells);
        assert_eq!(a.width, b.width);
        assert_eq!(a.height, b.height);
    }
    let bar = day_17::piece_for(0);
    assert_eq!(bar.width, 4);
    assert_eq!(bar.height, 1);
    let plus = day_17::piece_for(1);
    assert_eq!(plus.cells.len(), 5);
}

// Decimal formatting spot checks.
#[test]
fn test_number_formatting() {
    assert_eq!(advent::numfmt::u64_string(0), "0");
    assert_eq!(advent::numfmt::u64_string(1514285714288), "1514285714288");
    assert_eq!(advent::numfmt::i64_string(-45), "-45");
}

// Byte parsing spot checks.
#[test]
fn test_scan_parsing() {
    assert_eq!(advent::scan::parse_u64(b"3068"), Some(3068));
    assert_eq!(advent::scan::parse_u64(b""), None);
    assert_eq!(advent::scan::parse_u64(b"12a"), None);
    assert_eq!(advent::scan::parse_i64(b"-17"), Some(-17));
    assert_eq!(advent::scan::trim_bytes(b"  ab "), b"ab");
}

// An empty or commandless input is rejected with a zero height.
#[test]
fn test_empty_commands_rejected() {
    assert_eq!(day_17::parse_input("abc"), vec![]);
    assert_eq!(day_17::puzzle_1(""), "0");
    assert_eq!(day_17::puzzle_2("no commands here"), "0");
}

//! Sensors that each report their closest beacon. Within a sensor's
//! beacon distance no other beacon can hide. The first puzzle counts
//! the positions of one row that cannot hold a beacon; the second
//! finds the single uncovered position in a bounded square.

use vstd::prelude::*;

use crate::geometry::Point2;
use crate::numfmt::dec_digits;
use crate::numfmt::i64_string;
use crate::numfmt::int_digits;
use crate::numfmt::u64_string;
use crate::scan::find_byte;
use crate::scan::parse_i64;
use crate::scan::split_bytes;

verus! {

/// One sensor report: its closest beacon and the taxicab distance to
/// it.
pub struct Sensor {
    pub closest_beacon: Point2,
    pub distance: i64,
}

/// What is known about one map position.
#[derive(Debug, PartialEq, Eq, Structural, Clone, Copy)]
pub enum MapState {
    Unknown,
    Empty,
    Beacon,
    SensorHere,
}

/// Every report stays within the working bounds.
pub open spec fn reports_ok(rs: Seq<(Point2, Sensor)>) -> bool {
    forall|i: int|
        0 <= i < rs.len() ==> {
            &&& -10000000 <= (#[trigger] rs[i]).0.x <= 10000000
            &&& -10000000 <= rs[i].0.y <= 10000000
            &&& -10000000 <= rs[i].1.closest_beacon.x <= 10000000
            &&& -10000000 <= rs[i].1.closest_beacon.y <= 10000000
            &&& 0 <= rs[i].1.distance <= 40000000
        }
}

/// Reads `x=..., y=...` starting after the given marker.
fn parse_coord_after(line: &[u8], from: usize) -> (r: Option<(Point2, usize)>)
    requires
        from <= line@.len(),
    ensures
        r matches Some(p) ==> -10000000 <= p.0.x <= 10000000 && -10000000 <= p.0.y <= 10000000
            && p.1 <= line@.len(),
{
    let n = line.len();
    let xeq = match find_byte(line, from, 61) {
        Some(p) => p,
        None => {
            return None;
        },
    };
    let comma = match find_byte(line, xeq, 44) {
        Some(p) => p,
        None => {
            return None;
        },
    };
    let xs = vstd::slice::slice_subrange(line, xeq + 1, comma);
    let yeq = match find_byte(line, comma, 61) {
        Some(p) => p,
        None => {
            return None;
        },
    };
    let yend = match find_byte(line, yeq, 58) {
        Some(p) => p,
        None => n,
    };
    let ys = vstd::slice::slice_subrange(line, yeq + 1, yend);
    let x = match parse_i64(xs) {
        Some(v) if -10000000 <= v && v <= 10000000 => v,
        _ => {
            return None;
        },
    };
    let y = match parse_i64(ys) {
        Some(v) if -10000000 <= v && v <= 10000000 => v,
        _ => {
            return None;
        },
    };
    Some((Point2 { x, y }, yend))
}

/// Reads the sensor reports.
pub fn parse_input(input: &str) -> (r: Option<Vec<(Point2, Sensor)>>)
    ensures
        r matches Some(rs) ==> reports_ok(rs@) && rs@.len() <= 10000,
{
    let lines = split_bytes(input.as_bytes(), 10);
    let mut out: Vec<(Point2, Sensor)> = Vec::new();
    let mut i: usize = 0;
    while i < lines.len()
        invariant
            i <= lines@.len(),
            out@.len() <= i,
            reports_ok(out@),
        decreases lines@.len() - i,
    {
        let line = &lines[i];
        if line.len() > 0 {
            let (sensor, after) = match parse_coord_after(line.as_slice(), 0) {
                Some(p) => p,
                None => {
                    return None;
                },
            };
            let (beacon, _) = match parse_coord_after(line.as_slice(), after) {
                Some(p) => p,
                None => {
                    return None;
                },
            };
            let distance = sensor.distance_1(&beacon);
            out.push((sensor, Sensor { closest_beacon: beacon, distance }));
        }
        i = i + 1;
    }
    if out.len() > 10000 {
        return None;
    }
    Some(out)
}

/// The covered x and y spans of all reports: smallest and largest
/// coordinate a sensor can rule out.
pub fn get_footprint(map: &Vec<(Point2, Sensor)>) -> (r: ((i64, i64), (i64, i64)))
    requires
        reports_ok(map@),
    ensures
        -50000000 <= r.0.0 <= 50000000,
        -50000000 <= r.0.1 <= 50000000,
        r.0.0 <= r.0.1,
{
    if map.len() == 0 {
        return ((0, 0), (0, 0));
    }
    let mut x_min: i64 = 50000000;
    let mut x_max: i64 = -50000000;
    let mut y_min: i64 = 50000000;
    let mut y_max: i64 = -50000000;
    let mut i: usize = 0;
    while i < map.len()
        invariant
            reports_ok(map@),
            i <= map@.len(),
            -50000000 <= x_min <= 50000000,
            -50000000 <= x_max <= 50000000,
            -50000000 <= y_min <= 50000000,
            -50000000 <= y_max <= 50000000,
        decreases map@.len() - i,
    {
        let (pos, sensor) = &map[i];
        let lo_x = pos.x - sensor.distance;
        let hi_x = pos.x + sensor.distance;
        let lo_y = pos.y - sensor.distance;
        let hi_y = pos.y + sensor.distance;
        if lo_x < x_min {
            x_min = lo_x;
        }
        if hi_x > x_max {
            x_max = hi_x;
        }
        if lo_y < y_min {
            y_min = lo_y;
        }
        if hi_y > y_max {
            y_max = hi_y;
        }
        i = i + 1;
    }
    if x_min > x_max {
        return ((0, 0), (0, 0));
    }
    ((x_min, x_max), (y_min, y_max))
}

/// What is known of every position of one row across the footprint.
pub fn get_row(row_number: i64, map: &Vec<(Point2, Sensor)>, footprint: ((i64, i64), (i64, i64)))
    -> (r: Vec<MapState>)
    requires
        reports_ok(map@),
        -50000000 <= footprint.0.0 <= 50000000,
        -50000000 <= footprint.0.1 <= 50000000,
        footprint.0.0 <= footprint.0.1,
        -10000000 <= row_number <= 10000000,
    ensures
        r@.len() <= 100000001,
{
    let min_x = footprint.0.0;
    let max_x = footprint.0.1;
    let width_i = max_x - min_x + 1;
    let width = width_i as usize;
    let mut r: Vec<MapState> = Vec::new();
    let mut k: usize = 0;
    while k < width
        invariant
            k <= width,
            width == width_i,
            width_i <= 100000001,
            r@.len() == k,
        decreases width - k,
    {
        r.push(MapState::Unknown);
        k = k + 1;
    }
    let mut i: usize = 0;
    while i < map.len()
        invariant
            reports_ok(map@),
            i <= map@.len(),
            r@.len() == width,
            width == width_i,
            -50000000 <= min_x <= 50000000,
            -10000000 <= row_number <= 10000000,
        decreases map@.len() - i,
    {
        let (pos, sensor) = &map[i];
        let dy = if pos.y >= row_number {
            pos.y - row_number
        } else {
            row_number - pos.y
        };
        if dy <= sensor.distance {
            let reach = sensor.distance - dy;
            let start = pos.x - reach;
            let stop = pos.x + reach;
            let mut x = start;
            while x <= stop
                invariant
                    start <= x <= stop + 1,
                    -50000000 <= start,
                    stop <= 50000000,
                    r@.len() == width,
                    -50000000 <= min_x <= 50000000,
                decreases stop + 1 - x,
            {
                let ix = x - min_x;
                if 0 <= ix && (ix as usize) < r.len() {
                    r.set(ix as usize, MapState::Empty);
                }
                x = x + 1;
            }
            if pos.y == row_number {
                let ix = pos.x - min_x;
                if 0 <= ix && (ix as usize) < r.len() {
                    r.set(ix as usize, MapState::SensorHere);
                }
            }
            if sensor.closest_beacon.y == row_number {
                let ix = sensor.closest_beacon.x - min_x;
                if 0 <= ix && (ix as usize) < r.len() {
                    r.set(ix as usize, MapState::Beacon);
                }
            }
        }
        i = i + 1;
    }
    r
}

/// The first position inside the bounded square that no sensor
/// covers, scanning row by row.
pub fn get_first_empty_position(subgrid_size: i64, map: &Vec<(Point2, Sensor)>) -> (r: Option<
    Point2,
>)
    requires
        reports_ok(map@),
        0 <= subgrid_size <= 10000000,
    ensures
        r matches Some(p) ==> 0 <= p.x <= 10000001 && 0 <= p.y <= 10000000,
{
    let mut row_number: i64 = 0;
    while row_number <= subgrid_size
        invariant
            reports_ok(map@),
            0 <= subgrid_size <= 10000000,
            0 <= row_number <= subgrid_size + 1,
        decreases subgrid_size + 1 - row_number,
    {
        // the covered x spans of this row, clamped at zero
        let mut ranges: Vec<(i64, i64)> = Vec::new();
        let mut i: usize = 0;
        while i < map.len()
            invariant
                reports_ok(map@),
                i <= map@.len(),
                0 <= row_number <= 10000000,
                forall|k: int|
                    0 <= k < ranges@.len() ==> 0 <= (#[trigger] ranges@[k]).0 <= 50000001 && -50000001
                        <= ranges@[k].1 <= 50000001,
            decreases map@.len() - i,
        {
            let (pos, sensor) = &map[i];
            let dy = if pos.y >= row_number {
                pos.y - row_number
            } else {
                row_number - pos.y
            };
            let reach = sensor.distance - dy;
            let start = pos.x - reach;
            let stop = pos.x + reach;
            let clamped = if start > 0 {
                start
            } else {
                0
            };
            ranges.push((clamped, stop));
            i = i + 1;
        }
        // sort by start
        let mut sorted: Vec<(i64, i64)> = Vec::new();
        let mut a: usize = 0;
        while a < ranges.len()
            invariant
                a <= ranges@.len(),
                forall|k: int|
                    0 <= k < ranges@.len() ==> 0 <= (#[trigger] ranges@[k]).0 <= 50000001
                        && -50000001 <= ranges@[k].1 <= 50000001,
                forall|k: int|
                    0 <= k < sorted@.len() ==> 0 <= (#[trigger] sorted@[k]).0 <= 50000001
                        && -50000001 <= sorted@[k].1 <= 50000001,
            decreases ranges@.len() - a,
        {
            let item = ranges[a];
            let mut pos: usize = 0;
            while pos < sorted.len() && sorted[pos].0 <= item.0
                invariant
                    pos <= sorted@.len(),
                decreases sorted@.len() - pos,
            {
                pos = pos + 1;
            }
            proof {
                assert(ranges@[a as int] == item);
            }
            sorted.insert(pos, item);
            a = a + 1;
        }
        // walk the sorted spans looking for a gap
        let mut covered_until: i64 = -1;
        let mut b: usize = 0;
        while b < sorted.len()
            invariant
                b <= sorted@.len(),
                -1 <= covered_until <= 50000001,
                0 <= row_number <= 10000000,
                0 <= subgrid_size <= 10000000,
                forall|k: int|
                    0 <= k < sorted@.len() ==> 0 <= (#[trigger] sorted@[k]).0 <= 50000001
                        && -50000001 <= sorted@[k].1 <= 50000001,
            decreases sorted@.len() - b,
        {
            let (min, max) = sorted[b];
            if max > subgrid_size {
                break ;
            }
            if min > covered_until + 1 {
                if covered_until + 1 <= subgrid_size {
                    return Some(Point2 { x: covered_until + 1, y: row_number });
                }
                break ;
            }
            if max > covered_until {
                covered_until = max;
            }
            b = b + 1;
        }
        row_number = row_number + 1;
    }
    None
}

/// How many positions of row two million cannot hold a beacon.
pub fn puzzle_1(input: &str) -> (r: String)
    ensures
        exists|v: nat| r@ == dec_digits(v),
{
    let row_number: i64 = 2000000;
    match parse_input(input) {
        None => u64_string(0),
        Some(map) => {
            let footprint = get_footprint(&map);
            let row = get_row(row_number, &map, footprint);
            let mut count: u64 = 0;
            let mut i: usize = 0;
            while i < row.len()
                invariant
                    i <= row@.len(),
                    count <= i,
                decreases row@.len() - i,
            {
                if matches!(row[i], MapState::Empty) {
                    count = count + 1;
                }
                i = i + 1;
            }
            u64_string(count)
        },
    }
}

/// The tuning frequency of the one uncovered position in the bounded
/// square.
pub fn puzzle_2(input: &str) -> (r: String)
    ensures
        exists|v: int| r@ == int_digits(v),
{
    let max_coord: i64 = 4000000;
    match parse_input(input) {
        None => i64_string(0),
        Some(map) => {
            match get_first_empty_position(max_coord, &map) {
                None => i64_string(0),
                Some(p) => {
                    proof {
                        assert(p.x * 4000000 <= 10000001 * 4000000 && p.x * 4000000 >= 0)
                            by (nonlinear_arith)
                            requires
                                0 <= p.x <= 10000001,
                        ;
                    }
                    i64_string(p.x * max_coord + p.y)
                },
            }
        },
    }
}

} // verus!

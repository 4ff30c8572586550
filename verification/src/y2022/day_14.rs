//! Falling sand in a cave of rock segments. Units of sand drop from
//! column 500, sliding down, down-left or down-right until they rest.
//! The first puzzle counts units that settle before one falls past the
//! lowest rock; the second adds a floor and counts units until the
//! source itself is plugged.

use vstd::prelude::*;

use crate::numfmt::dec_digits;
use crate::numfmt::u64_string;
use crate::scan::parse_u64;
use crate::scan::find_byte;
use crate::scan::split_bytes;

verus! {

/// The cave: a dense occupancy grid. Row `y` spans the columns
/// `offset_x ..= offset_x + 2 * bottom_height`, and `bottom_height`
/// is one row below the lowest rock.
pub struct Cave {
    pub bottom_height: usize,
    pub offset_x: usize,
    pub data: Vec<Vec<bool>>,
}

/// The grid has `bottom_height + 1` rows of equal width
/// `2 * bottom_height + 1`, and the source column 500 is inside.
pub open spec fn cave_wf(m: Cave) -> bool {
    &&& m.data@.len() == m.bottom_height + 1
    &&& forall|y: int|
        0 <= y < m.data@.len() ==> (#[trigger] m.data@[y])@.len() == 2 * m.bottom_height + 1
    &&& m.offset_x + m.bottom_height == 500
    &&& 1 <= m.bottom_height <= 400
}

/// Occupancy of the cell at absolute column `x` and depth `y`.
pub open spec fn occ(m: Cave, x: int, y: int) -> bool {
    m.data@[y]@[x - m.offset_x]
}

/// A position the falling unit can reach.
pub open spec fn pos_ok(m: Cave, x: int, y: int) -> bool {
    m.offset_x < x < m.offset_x + 2 * m.bottom_height && 0 <= y <= m.bottom_height
}

impl Cave {
    /// Marks the cell at the absolute position occupied.
    pub fn set_occupied(&mut self, x: usize, y: usize)
        requires
            cave_wf(*old(self)),
            old(self).offset_x <= x <= old(self).offset_x + 2 * old(self).bottom_height,
            y <= old(self).bottom_height,
        ensures
            cave_wf(*final(self)),
            final(self).bottom_height == old(self).bottom_height,
            final(self).offset_x == old(self).offset_x,
            data_eq_except(*final(self), *old(self), x as int, y as int),
    {
        let col = x - self.offset_x;
        let mut row = self.data.remove(y);
        row.set(col, true);
        self.data.insert(y, row);
        proof {
            assert forall|yy: int|
                0 <= yy < self.data@.len() implies (#[trigger] self.data@[yy])@.len() == 2
                * self.bottom_height + 1 by {
                if yy < y {
                } else if yy == y {
                } else {
                }
            }
        }
    }

    /// Occupancy query inside the reachable region.
    pub fn is_occupied(&self, x: usize, y: usize) -> (b: bool)
        requires
            cave_wf(*self),
            self.offset_x <= x <= self.offset_x + 2 * self.bottom_height,
            y <= self.bottom_height,
        ensures
            b == occ(*self, x as int, y as int),
    {
        self.data[y][x - self.offset_x]
    }
}

/// The two grids agree everywhere.
pub open spec fn same_data(m2: Cave, m1: Cave) -> bool {
    forall|yy: int, xx: int|
        0 <= yy < m1.data@.len() && 0 <= xx < (m1.data@[yy])@.len() ==> (#[trigger] (
        m2.data@[yy])@[xx]) == (m1.data@[yy])@[xx]
}

/// The two grids agree except that `(x, y)` is now occupied.
pub open spec fn data_eq_except(m2: Cave, m1: Cave, x: int, y: int) -> bool {
    forall|yy: int, xx: int|
        0 <= yy < m1.data@.len() && 0 <= xx < (m1.data@[yy])@.len() ==> (#[trigger] (
        m2.data@[yy])@[xx]) == if yy == y && xx == x - m1.offset_x {
            true
        } else {
            (m1.data@[yy])@[xx]
        }
}

/// Where a unit at `(x, y)` moves in one step: straight down, then
/// down-left, then down-right, or it stays put.
pub open spec fn fall_step(m: Cave, x: int, y: int) -> (int, int) {
    if !occ(m, x, y + 1) {
        (x, y + 1)
    } else if !occ(m, x - 1, y + 1) {
        (x - 1, y + 1)
    } else if !occ(m, x + 1, y + 1) {
        (x + 1, y + 1)
    } else {
        (x, y)
    }
}

/// One unit poured from `(x, y)`: the cell it settles in (`None` when
/// it falls past the bottom without a floor), and whether pouring is
/// finished afterwards.
pub open spec fn pour_spec(m: Cave, has_floor: bool, x: int, y: int) -> (Option<(int, int)>, bool)
    decreases m.bottom_height - y,
{
    if !(0 <= y < m.bottom_height) {
        (None, true)
    } else {
        let f = fall_step(m, x, y);
        if f == (x, y) {
            (Some((x, y)), has_floor && y < 1)
        } else if has_floor && f.1 == m.bottom_height {
            (Some((x, y)), false)
        } else if !has_floor && f.1 >= m.bottom_height {
            (None, true)
        } else {
            pour_spec(m, has_floor, f.0, f.1)
        }
    }
}

/// Pours one unit of sand from the source at column 500. Returns
/// whether pouring is finished: without a floor, a unit fell past the
/// bottom; with a floor, the source is plugged.
pub fn pour_sand(map: &mut Cave, has_floor: bool) -> (done: bool)
    requires
        cave_wf(*old(map)),
    ensures
        cave_wf(*final(map)),
        final(map).bottom_height == old(map).bottom_height,
        final(map).offset_x == old(map).offset_x,
        ({
            let r = pour_spec(*old(map), has_floor, 500, 0);
            &&& done == r.1
            &&& match r.0 {
                Some(p) => data_eq_except(*final(map), *old(map), p.0, p.1),
                None => same_data(*final(map), *old(map)),
            }
        }),
{
    pour_from(map, has_floor, 500, 0)
}

fn pour_from(map: &mut Cave, has_floor: bool, x: usize, y: usize) -> (done: bool)
    requires
        cave_wf(*old(map)),
        // the unit stays within the cone below the source
        500 - y <= x <= 500 + y,
        y < old(map).bottom_height,
    ensures
        cave_wf(*final(map)),
        final(map).bottom_height == old(map).bottom_height,
        final(map).offset_x == old(map).offset_x,
        ({
            let r = pour_spec(*old(map), has_floor, x as int, y as int);
            &&& done == r.1
            &&& match r.0 {
                Some(p) => data_eq_except(*final(map), *old(map), p.0, p.1),
                None => same_data(*final(map), *old(map)),
            }
        }),
    decreases old(map).bottom_height - y,
{
    let below = map.is_occupied(x, y + 1);
    let left = map.is_occupied(x - 1, y + 1);
    let right = map.is_occupied(x + 1, y + 1);
    let (fx, fy): (usize, usize) = if !below {
        (x, y + 1)
    } else if !left {
        (x - 1, y + 1)
    } else if !right {
        (x + 1, y + 1)
    } else {
        (x, y)
    };
    proof {
        assert(map.offset_x < x < map.offset_x + 2 * map.bottom_height);
        assert((fx as int, fy as int) == fall_step(*map, x as int, y as int));
    }
    if fx == x && fy == y {
        map.set_occupied(x, y);
        return has_floor && y < 1;
    }
    if has_floor && fy == map.bottom_height {
        map.set_occupied(x, y);
        return false;
    }
    if !has_floor && fy >= map.bottom_height {
        return true;
    }
    pour_from(map, has_floor, fx, fy)
}

/// Reads the rock paths and builds the cave grid; `None` when the
/// input is malformed or the cave is too deep for the fixed source
/// column.
pub fn parse_input(input: &str) -> (r: Option<Cave>)
    ensures
        match r {
            Some(m) => cave_wf(m),
            None => true,
        },
{
    let lines = split_bytes(input.as_bytes(), 10);
    // first pass: the paths as coordinate lists, and the deepest row
    let mut paths: Vec<Vec<(usize, usize)>> = Vec::new();
    let mut max_y: usize = 0;
    let mut i: usize = 0;
    while i < lines.len()
        invariant
            0 <= i <= lines@.len(),
            max_y <= 398,
            forall|a: int|
                0 <= a < paths@.len() ==> forall|b: int|
                    0 <= b < (#[trigger] paths@[a])@.len() ==> 100 <= ((
                    #[trigger] paths@[a])@[b]).0 <= 900 && (paths@[a])@[b].1 <= 398,
        decreases lines@.len() - i,
    {
        let line = &lines[i];
        if line.len() > 0 {
            let mut path: Vec<(usize, usize)> = Vec::new();
            let mut pos: usize = 0;
            let n = line.len();
            while pos < n
                invariant
                    n == line@.len(),
                    0 <= pos <= n + 4,
                    max_y <= 398,
                    forall|b: int|
                        0 <= b < path@.len() ==> 100 <= ((#[trigger] path@[b])).0 <= 900
                            && path@[b].1 <= 398,
                decreases n - pos,
            {
                let comma = match find_byte(line.as_slice(), pos, 44) {
                    Some(c) => c,
                    None => {
                        return None;
                    },
                };
                let xs = vstd::slice::slice_subrange(line.as_slice(), pos, comma);
                let seg_end = match find_byte(line.as_slice(), comma, 32) {
                    Some(e) => e,
                    None => n,
                };
                let ys = vstd::slice::slice_subrange(line.as_slice(), comma + 1, seg_end);
                let x = match parse_u64(xs) {
                    Some(v) if 100 <= v && v <= 900 => v as usize,
                    _ => {
                        return None;
                    },
                };
                let y = match parse_u64(ys) {
                    Some(v) if v <= 398 => v as usize,
                    _ => {
                        return None;
                    },
                };
                if y > max_y {
                    max_y = y;
                }
                path.push((x, y));
                // skip the separator arrow between coordinates
                if seg_end == n {
                    pos = n;
                } else {
                    if n - seg_end >= 4 {
                        pos = seg_end + 4;
                    } else {
                        return None;
                    }
                }
            }
            paths.push(path);
        }
        i = i + 1;
    }
    let bottom_height = max_y + 2;
    let offset_x = 500 - bottom_height;
    let width = 2 * bottom_height + 1;
    let mut data: Vec<Vec<bool>> = Vec::new();
    let mut yy: usize = 0;
    while yy <= bottom_height
        invariant
            1 <= bottom_height <= 400,
            data@.len() == yy,
            yy <= bottom_height + 1,
            width == 2 * bottom_height + 1,
            forall|a: int| 0 <= a < data@.len() ==> (#[trigger] data@[a])@.len() == width,
        decreases bottom_height + 1 - yy,
    {
        let mut row: Vec<bool> = Vec::new();
        let mut xx: usize = 0;
        while xx < width
            invariant
                row@.len() == xx,
                xx <= width,
            decreases width - xx,
        {
            row.push(false);
            xx = xx + 1;
        }
        data.push(row);
        yy = yy + 1;
    }
    let mut map = Cave { bottom_height, offset_x, data };
    proof {
        assert(cave_wf(map));
    }
    // second pass: draw the rock segments
    let mut a: usize = 0;
    while a < paths.len()
        invariant
            cave_wf(map),
            map.bottom_height == bottom_height,
            map.offset_x == offset_x,
            0 <= a <= paths@.len(),
            forall|aa: int|
                0 <= aa < paths@.len() ==> forall|b: int|
                    0 <= b < (#[trigger] paths@[aa])@.len() ==> 100 <= ((
                    #[trigger] paths@[aa])@[b]).0 <= 900 && (paths@[aa])@[b].1 <= 398,
        decreases paths@.len() - a,
    {
        let path = &paths[a];
        let mut b: usize = 1;
        while b < path.len()
            invariant
                cave_wf(map),
                map.bottom_height == bottom_height,
                map.offset_x == offset_x,
                1 <= b <= path@.len() || path@.len() == 0,
                forall|bb: int|
                    0 <= bb < path@.len() ==> 100 <= ((#[trigger] path@[bb])).0 <= 900
                        && path@[bb].1 <= 398,
            decreases path@.len() - b,
        {
            let (x0, y0) = path[b - 1];
            let (x1, y1) = path[b];
            if x0 < offset_x || x1 < offset_x || x0 > offset_x + 2 * bottom_height || x1
                > offset_x + 2 * bottom_height || y0 >= bottom_height || y1 >= bottom_height {
                return None;
            }
            if x0 != x1 && y0 == y1 {
                let (lo, hi) = if x0 < x1 {
                    (x0, x1)
                } else {
                    (x1, x0)
                };
                let mut x = lo;
                while x <= hi
                    invariant
                        cave_wf(map),
                        map.bottom_height == bottom_height,
                        map.offset_x == offset_x,
                        offset_x <= lo <= x,
                        x <= hi + 1,
                        hi <= offset_x + 2 * bottom_height,
                        y0 < bottom_height,
                        bottom_height <= 400,
                    decreases hi + 1 - x,
                {
                    map.set_occupied(x, y0);
                    x = x + 1;
                }
            } else if x0 == x1 && y0 != y1 {
                let (lo, hi) = if y0 < y1 {
                    (y0, y1)
                } else {
                    (y1, y0)
                };
                let mut y = lo;
                while y <= hi
                    invariant
                        cave_wf(map),
                        map.bottom_height == bottom_height,
                        map.offset_x == offset_x,
                        lo <= y,
                        y <= hi + 1,
                        hi < bottom_height,
                        offset_x <= x0 <= offset_x + 2 * bottom_height,
                        bottom_height <= 400,
                    decreases hi + 1 - y,
                {
                    map.set_occupied(x0, y);
                    y = y + 1;
                }
            }
            b = b + 1;
        }
        a = a + 1;
    }
    Some(map)
}

/// Counts the units that settle before one falls past the lowest rock.
pub fn puzzle_1(input: &str) -> (r: String)
    ensures
        exists|v: nat| r@ == dec_digits(v),
{
    solve(input, false)
}

/// Counts the units that settle, floor included, until the source is
/// plugged; the plugging unit itself counts.
pub fn puzzle_2(input: &str) -> (r: String)
    ensures
        exists|v: nat| r@ == dec_digits(v),
{
    solve(input, true)
}

fn solve(input: &str, has_floor: bool) -> (r: String)
    ensures
        exists|v: nat| r@ == dec_digits(v),
{
    match parse_input(input) {
        None => u64_string(0),
        Some(mut map) => {
            let mut count: u64 = 0;
            // every settled unit fills a fresh cell, so the grid size
            // bounds the rounds
            let mut fuel: u64 = 400000;
            while fuel > 0
                invariant
                    cave_wf(map),
                    fuel <= 400000,
                    count + fuel <= 400000,
                decreases fuel,
            {
                let done = pour_sand(&mut map, has_floor);
                if done {
                    if has_floor {
                        count = count + 1;
                    }
                    return u64_string(count);
                }
                count = count + 1;
                fuel = fuel - 1;
            }
            u64_string(count)
        },
    }
}

} // verus!

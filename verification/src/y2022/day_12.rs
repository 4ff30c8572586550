//! A height map climbed one step at a time: a move may rise by at
//! most one level. The first puzzle finds the fewest steps from the
//! start to the summit marker; the second finds the fewest steps from
//! any lowest square.

use vstd::prelude::*;

use crate::numfmt::dec_digits;
use crate::numfmt::u64_string;
use crate::scan::split_bytes;
use crate::scan::split_spec;
use vstd::string::StringSliceAdditionalSpecFns;

verus! {

/// The parsed map: heights `0..26`, the start and the goal.
pub struct HeightMap {
    pub grid: Vec<Vec<u8>>,
    pub start: (usize, usize),
    pub goal: (usize, usize),
}

/// The grid is a non-empty rectangle of heights below 26, and the two
/// markers lie inside it.
pub open spec fn height_map_wf(m: HeightMap) -> bool {
    &&& 1 <= m.grid@.len() <= 1000
    &&& (m.grid@[0])@.len() >= 1
    &&& forall|i: int|
        0 <= i < m.grid@.len() ==> 1 <= (#[trigger] m.grid@[i])@.len() == (m.grid@[0])@.len()
            <= 1000
    &&& forall|i: int|
        0 <= i < m.grid@.len() ==> forall|j: int|
            0 <= j < (#[trigger] m.grid@[i])@.len() ==> (#[trigger] (m.grid@[i])@[j]) < 26
    &&& (m.start.0 as int) < m.grid@.len() && (m.start.1 as int) < (m.grid@[0])@.len()
    &&& (m.goal.0 as int) < m.grid@.len() && (m.goal.1 as int) < (m.grid@[0])@.len()
}

/// Whether a map character is readable: a marker or a lowercase
/// letter.
pub open spec fn valid_cell(c: u8) -> bool {
    c == 83 || c == 69 || (97 <= c && c <= 122)
}

/// The height a map character stands for.
pub open spec fn height12(c: u8) -> u8 {
    if c == 83 {
        0u8
    } else if c == 69 {
        25u8
    } else {
        (c - 97) as u8
    }
}

/// Every character of the row is readable.
pub open spec fn row_valid(l: Seq<u8>) -> bool {
    forall|j: int| 0 <= j < l.len() ==> valid_cell(#[trigger] l[j])
}

/// The non-empty lines among the first `k`.
pub open spec fn kept_rows(lines: Seq<Seq<u8>>, k: int) -> Seq<Seq<u8>>
    decreases k,
{
    if k <= 0 {
        Seq::empty()
    } else if lines[k - 1].len() > 0 {
        kept_rows(lines, k - 1).push(lines[k - 1])
    } else {
        kept_rows(lines, k - 1)
    }
}

/// The last index of `c` among the first `k` characters, or `-1`.
pub open spec fn last_in_row(l: Seq<u8>, c: u8, k: int) -> int
    decreases k,
{
    if k <= 0 {
        -1
    } else if l[k - 1] == c {
        k - 1
    } else {
        last_in_row(l, c, k - 1)
    }
}

/// The last row among the first `k` that holds `c`, or `-1`.
pub open spec fn last_row_with(rows: Seq<Seq<u8>>, c: u8, k: int) -> int
    decreases k,
{
    if k <= 0 {
        -1
    } else if last_in_row(rows[k - 1], c, rows[k - 1].len() as int) >= 0 {
        k - 1
    } else {
        last_row_with(rows, c, k - 1)
    }
}

/// The position of the last `c` marker: its row, and its last column
/// within that row.
pub open spec fn mark12(rows: Seq<Seq<u8>>, c: u8) -> (usize, usize) {
    let r = last_row_with(rows, c, rows.len() as int);
    ((r as usize), (last_in_row(rows[r], c, rows[r].len() as int) as usize))
}

/// The rows decoded to heights.
pub open spec fn grid12(rows: Seq<Seq<u8>>) -> Seq<Seq<u8>> {
    rows.map_values(|l: Seq<u8>| l.map_values(|c: u8| height12(c)))
}

/// The non-empty lines make a readable map: every character readable,
/// both markers present, and a rectangle within the working bounds.
pub open spec fn rows_ok(rows: Seq<Seq<u8>>) -> bool {
    &&& forall|i: int| 0 <= i < rows.len() ==> row_valid(#[trigger] rows[i])
    &&& last_row_with(rows, 83, rows.len() as int) >= 0
    &&& last_row_with(rows, 69, rows.len() as int) >= 0
    &&& 1 <= rows.len() <= 1000
    &&& 1 <= rows[0].len() <= 1000
    &&& forall|i: int| 0 <= i < rows.len() ==> (#[trigger] rows[i]).len() == rows[0].len()
}

/// A longer prefix of the lines keeps every earlier kept row.
proof fn lemma_kept_prefix(lines: Seq<Seq<u8>>, k1: int, k2: int)
    requires
        0 <= k1 <= k2 <= lines.len(),
    ensures
        kept_rows(lines, k1).len() <= kept_rows(lines, k2).len(),
        forall|j: int|
            0 <= j < kept_rows(lines, k1).len() ==> #[trigger] kept_rows(lines, k2)[j]
                == kept_rows(lines, k1)[j],
    decreases k2 - k1,
{
    if k1 < k2 {
        lemma_kept_prefix(lines, k1, k2 - 1);
    }
}

/// One more row does not change where `c` was last seen earlier.
proof fn lemma_last_row_push(rows: Seq<Seq<u8>>, l: Seq<u8>, c: u8, k: int)
    requires
        0 <= k <= rows.len(),
    ensures
        last_row_with(rows.push(l), c, k) == last_row_with(rows, c, k),
    decreases k,
{
    if k > 0 {
        assert(rows.push(l)[k - 1] == rows[k - 1]);
        lemma_last_row_push(rows, l, c, k - 1);
    }
}

/// The last index of `c` lies below `k`.
proof fn lemma_last_in_row_bound(l: Seq<u8>, c: u8, k: int)
    requires
        k >= 0,
    ensures
        -1 <= last_in_row(l, c, k) < k,
    decreases k,
{
    if k > 0 {
        lemma_last_in_row_bound(l, c, k - 1);
    }
}

/// The last row holding `c` lies below `k`.
proof fn lemma_last_row_bound(rows: Seq<Seq<u8>>, c: u8, k: int)
    requires
        k >= 0,
    ensures
        -1 <= last_row_with(rows, c, k) < k,
    decreases k,
{
    if k > 0 {
        lemma_last_row_bound(rows, c, k - 1);
    }
}

/// Reads the height map: letters `a..z`, `S` for the start and `E`
/// for the goal. Of several markers the last wins.
pub fn parse_input(input: &str) -> (r: Option<HeightMap>)
    ensures
        ({
            let rows = kept_rows(
                split_spec(input.spec_bytes(), 10),
                split_spec(input.spec_bytes(), 10).len() as int,
            );
            match r {
                Some(m) => {
                    &&& rows_ok(rows)
                    &&& height_map_wf(m)
                    &&& m.grid@.map_values(|l: Vec<u8>| l@) == grid12(rows)
                    &&& m.start == mark12(rows, 83)
                    &&& m.goal == mark12(rows, 69)
                },
                None => !rows_ok(rows),
            }
        }),
{
    let lines = split_bytes(input.as_bytes(), 10);
    let ghost glines = split_spec(input.spec_bytes(), 10);
    let ghost all = kept_rows(glines, glines.len() as int);
    let mut grid: Vec<Vec<u8>> = Vec::new();
    let mut start: (usize, usize) = (0, 0);
    let mut goal: (usize, usize) = (0, 0);
    let mut have_start = false;
    let mut have_goal = false;
    let mut i: usize = 0;
    while i < lines.len()
        invariant
            glines == split_spec(input.spec_bytes(), 10),
            all == kept_rows(glines, glines.len() as int),
            lines@.len() == glines.len(),
            forall|a: int| 0 <= a < glines.len() ==> (#[trigger] lines@[a])@ == glines[a],
            i <= glines.len(),
            grid@.len() == kept_rows(glines, i as int).len(),
            grid@.map_values(|l: Vec<u8>| l@) == grid12(kept_rows(glines, i as int)),
            forall|a: int|
                0 <= a < kept_rows(glines, i as int).len() ==> row_valid(
                    #[trigger] kept_rows(glines, i as int)[a],
                ),
            forall|a: int|
                0 <= a < grid@.len() ==> forall|b: int|
                    0 <= b < (#[trigger] grid@[a])@.len() ==> (#[trigger] (grid@[a])@[b]) < 26,
            have_start == (last_row_with(
                kept_rows(glines, i as int),
                83,
                kept_rows(glines, i as int).len() as int,
            ) >= 0),
            have_start ==> ({
                let kept = kept_rows(glines, i as int);
                let sr = last_row_with(kept, 83, kept.len() as int);
                &&& start.0 as int == sr
                &&& start.1 as int == last_in_row(kept[sr], 83, kept[sr].len() as int)
            }),
            have_goal == (last_row_with(
                kept_rows(glines, i as int),
                69,
                kept_rows(glines, i as int).len() as int,
            ) >= 0),
            have_goal ==> ({
                let kept = kept_rows(glines, i as int);
                let gr = last_row_with(kept, 69, kept.len() as int);
                &&& goal.0 as int == gr
                &&& goal.1 as int == last_in_row(kept[gr], 69, kept[gr].len() as int)
            }),
        decreases glines.len() - i,
    {
        let line = &lines[i];
        proof {
            assert((lines@[i as int])@ == glines[i as int]);
        }
        let ghost prev_kept = kept_rows(glines, i as int);
        if line.len() > 0 {
            let mut row: Vec<u8> = Vec::new();
            let y = grid.len();
            let mut j: usize = 0;
            let mut row_start: (bool, usize) = (false, 0);
            let mut row_goal: (bool, usize) = (false, 0);
            while j < line.len()
                invariant
                    glines == split_spec(input.spec_bytes(), 10),
                    all == kept_rows(glines, glines.len() as int),
                    i < glines.len(),
                    prev_kept == kept_rows(glines, i as int),
                    line@ == glines[i as int],
                    j <= line@.len(),
                    row@.len() == j,
                    forall|b: int|
                        0 <= b < j ==> #[trigger] row@[b] == height12(line@[b]),
                    forall|b: int| 0 <= b < j ==> valid_cell(#[trigger] line@[b]),
                    forall|b: int| 0 <= b < row@.len() ==> (#[trigger] row@[b]) < 26,
                    row_start.0 == (last_in_row(line@, 83, j as int) >= 0),
                    row_start.0 ==> row_start.1 as int == last_in_row(line@, 83, j as int),
                    row_goal.0 == (last_in_row(line@, 69, j as int) >= 0),
                    row_goal.0 ==> row_goal.1 as int == last_in_row(line@, 69, j as int),
                decreases line@.len() - j,
            {
                let c = line[j];
                if c == 83 {
                    row_start = (true, j);
                    row.push(0);
                } else if c == 69 {
                    row_goal = (true, j);
                    row.push(25);
                } else if c >= 97 && c <= 122 {
                    row.push(c - 97);
                } else {
                    proof {
                        let kc = prev_kept.len() as int;
                        assert(kept_rows(glines, i + 1) =~= prev_kept.push(glines[i as int]));
                        lemma_kept_prefix(glines, i + 1, glines.len() as int);
                        assert(all[kc] == glines[i as int]);
                        assert(!valid_cell(glines[i as int][j as int]));
                        assert(!row_valid(all[kc]));
                    }
                    return None;
                }
                j = j + 1;
            }
            if row_start.0 {
                start = (y, row_start.1);
                have_start = true;
            }
            if row_goal.0 {
                goal = (y, row_goal.1);
                have_goal = true;
            }
            let ghost prev_grid = grid@;
            let ghost grow = row@;
            grid.push(row);
            proof {
                assert(row_valid(glines[i as int]));
                assert(kept_rows(glines, i + 1) =~= prev_kept.push(glines[i as int]));
                lemma_last_row_push(prev_kept, glines[i as int], 83, prev_kept.len() as int);
                lemma_last_row_push(prev_kept, glines[i as int], 69, prev_kept.len() as int);
                lemma_last_row_bound(prev_kept, 83, prev_kept.len() as int);
                lemma_last_row_bound(prev_kept, 69, prev_kept.len() as int);
                let kept2 = kept_rows(glines, i + 1);
                assert forall|a: int| 0 <= a < grid@.len() implies (#[trigger] grid@[a])@
                    =~= grid12(kept2)[a] by {
                    if a < prev_kept.len() {
                        assert(grid@[a] == prev_grid[a]);
                        assert(prev_grid.map_values(|l: Vec<u8>| l@)[a] == (prev_grid[a])@);
                        assert(grid12(prev_kept)[a] == prev_kept[a].map_values(
                            |c: u8| height12(c),
                        ));
                        assert(kept2[a] == prev_kept[a]);
                        assert(grid12(kept2)[a] == kept2[a].map_values(|c: u8| height12(c)));
                    } else {
                        assert(grid@[a]@ == grow);
                        assert(kept2[a] == glines[i as int]);
                        assert(grid12(kept2)[a] == kept2[a].map_values(|c: u8| height12(c)));
                        assert forall|b: int| 0 <= b < grow.len() implies #[trigger] grow[b]
                            == grid12(kept2)[a][b] by {
                            assert(grow[b] == height12(glines[i as int][b]));
                        }
                        assert(grow =~= grid12(kept2)[a]);
                    }
                }
                assert(grid@.map_values(|l: Vec<u8>| l@) =~~= grid12(kept2));
            }
        } else {
            proof {
                assert(kept_rows(glines, i + 1) =~= prev_kept);
            }
        }
        i = i + 1;
    }
    proof {
        assert(kept_rows(glines, glines.len() as int) == all);
    }
    if !have_start || !have_goal {
        return None;
    }
    if grid.len() < 1 || grid.len() > 1000 {
        return None;
    }
    let width = grid[0].len();
    proof {
        assert(grid@.map_values(|l: Vec<u8>| l@)[0] == grid12(all)[0]);
        assert((grid@[0])@.len() == all[0].len());
    }
    if width < 1 || width > 1000 {
        return None;
    }
    let mut k: usize = 0;
    while k < grid.len()
        invariant
            glines == split_spec(input.spec_bytes(), 10),
            all == kept_rows(glines, glines.len() as int),
            k <= grid@.len(),
            grid@.len() == all.len(),
            1 <= grid@.len() <= 1000,
            grid@.map_values(|l: Vec<u8>| l@) == grid12(all),
            width == all[0].len(),
            forall|a: int| 0 <= a < k ==> (#[trigger] all[a]).len() == width,
        decreases grid@.len() - k,
    {
        proof {
            assert(grid@.map_values(|l: Vec<u8>| l@)[k as int] == grid12(all)[k as int]);
            assert((grid@[k as int])@.len() == all[k as int].len());
        }
        if grid[k].len() != width {
            proof {
                assert(all[k as int].len() != all[0].len());
                assert(!rows_ok(all));
            }
            return None;
        }
        k = k + 1;
    }
    proof {
        lemma_last_row_bound(all, 83, all.len() as int);
        lemma_last_row_bound(all, 69, all.len() as int);
        let sr = last_row_with(all, 83, all.len() as int);
        let gr = last_row_with(all, 69, all.len() as int);
        lemma_last_in_row_bound(all[sr], 83, all[sr].len() as int);
        lemma_last_in_row_bound(all[gr], 69, all[gr].len() as int);
        assert(rows_ok(all));
    }
    let m = HeightMap { grid, start, goal };
    if m.start.0 >= m.grid.len() || m.start.1 >= width || m.goal.0 >= m.grid.len() || m.goal.1
        >= width {
        proof {
            assert(false);
        }
        return None;
    }
    proof {
        assert(m.grid@.map_values(|l: Vec<u8>| l@)[m.start.0 as int].len() == width);
        assert(height_map_wf(m)) by {
            assert(forall|a: int|
                0 <= a < m.grid@.len() ==> (#[trigger] m.grid@[a])@.len() == (
                m.grid@.map_values(|l: Vec<u8>| l@)[a]).len() == width);
        }
    }
    Some(m)
}

/// One neighbour visit of the wave search: the cell is marked with
/// the next wave and enqueued when it rises at most one level above
/// `h` and is unvisited.
pub open spec fn visit(
    grid: Seq<Seq<u8>>,
    d: Seq<Seq<u64>>,
    nx: Seq<(usize, usize)>,
    h: u8,
    x: int,
    y: int,
    wave: u64,
) -> (Seq<Seq<u64>>, Seq<(usize, usize)>) {
    let nh = grid[x][y];
    if (nh <= h || nh == h + 1) && d[x][y] == 1000001 {
        (d.update(x, d[x].update(y, (wave + 1) as u64)), nx.push(((x as usize), (y as usize))))
    } else {
        (d, nx)
    }
}

/// The four neighbour visits of one frontier cell, in scan order.
pub open spec fn visit_cell(
    grid: Seq<Seq<u8>>,
    d: Seq<Seq<u64>>,
    nx: Seq<(usize, usize)>,
    x: usize,
    y: usize,
    wave: u64,
) -> (Seq<Seq<u64>>, Seq<(usize, usize)>) {
    let rows = grid.len() as int;
    let cols = grid[0].len() as int;
    let h = grid[x as int][y as int];
    let s1 = if x > 0 {
        visit(grid, d, nx, h, x - 1, y as int, wave)
    } else {
        (d, nx)
    };
    let s2 = if x + 1 < rows {
        visit(grid, s1.0, s1.1, h, x + 1, y as int, wave)
    } else {
        s1
    };
    let s3 = if y > 0 {
        visit(grid, s2.0, s2.1, h, x as int, y - 1, wave)
    } else {
        s2
    };
    if y + 1 < cols {
        visit(grid, s3.0, s3.1, h, x as int, y + 1, wave)
    } else {
        s3
    }
}

/// The frontier cells before `f`, expanded in order.
pub open spec fn expand(
    grid: Seq<Seq<u8>>,
    d: Seq<Seq<u64>>,
    frontier: Seq<(usize, usize)>,
    f: int,
    nx: Seq<(usize, usize)>,
    wave: u64,
) -> (Seq<Seq<u64>>, Seq<(usize, usize)>)
    decreases f,
{
    if f <= 0 {
        (d, nx)
    } else {
        let p = expand(grid, d, frontier, f - 1, nx, wave);
        visit_cell(grid, p.0, p.1, frontier[f - 1].0, frontier[f - 1].1, wave)
    }
}

/// Whether the goal stands on the frontier.
pub open spec fn on_frontier(frontier: Seq<(usize, usize)>, goal: (usize, usize)) -> bool {
    exists|k: int| 0 <= k < frontier.len() && frontier[k] == goal
}

/// The wave search from `wave` on: the wave at which the goal first
/// stands on the frontier, or zero when the frontier empties or the
/// waves run out.
pub open spec fn waves(
    grid: Seq<Seq<u8>>,
    goal: (usize, usize),
    d: Seq<Seq<u64>>,
    frontier: Seq<(usize, usize)>,
    wave: u64,
) -> u64
    decreases 1000000 - wave,
{
    if wave >= 1000000 {
        0
    } else if frontier.len() == 0 {
        0
    } else if on_frontier(frontier, goal) {
        wave
    } else {
        let e = expand(
            grid,
            d,
            frontier,
            frontier.len() as int,
            Seq::<(usize, usize)>::empty(),
            wave,
        );
        waves(grid, goal, e.0, e.1, (wave + 1) as u64)
    }
}

/// The starting distances: zero on the sources, unvisited elsewhere.
pub open spec fn start_dist(
    grid: Seq<Seq<u8>>,
    start: (usize, usize),
    from_all_lowest: bool,
) -> Seq<Seq<u64>> {
    Seq::new(
        grid.len(),
        |i: int|
            Seq::new(
                grid[0].len(),
                |j: int|
                    if (from_all_lowest && grid[i][j] == 0) || (!from_all_lowest && i
                        == start.0 && j == start.1) {
                        0u64
                    } else {
                        1000001u64
                    },
            ),
    )
}

/// The lowest squares of row `x` before column `y`, in scan order.
pub open spec fn row_sources(grid: Seq<Seq<u8>>, x: int, y: int) -> Seq<(usize, usize)>
    decreases y,
{
    if y <= 0 {
        Seq::empty()
    } else if grid[x][y - 1] == 0 {
        row_sources(grid, x, y - 1).push(((x as usize), ((y - 1) as usize)))
    } else {
        row_sources(grid, x, y - 1)
    }
}

/// The lowest squares of the first `x` rows, in scan order.
pub open spec fn grid_sources(grid: Seq<Seq<u8>>, x: int) -> Seq<(usize, usize)>
    decreases x,
{
    if x <= 0 {
        Seq::empty()
    } else {
        grid_sources(grid, x - 1) + row_sources(grid, x - 1, grid[0].len() as int)
    }
}

/// The starting frontier: every lowest square in scan order, or the
/// start marker alone.
pub open spec fn start_frontier(
    grid: Seq<Seq<u8>>,
    start: (usize, usize),
    from_all_lowest: bool,
) -> Seq<(usize, usize)> {
    if from_all_lowest {
        grid_sources(grid, grid.len() as int)
    } else {
        seq![(start.0, start.1)]
    }
}

/// The wave search's answer over the whole map.
pub open spec fn search_spec(
    grid: Seq<Seq<u8>>,
    start: (usize, usize),
    goal: (usize, usize),
    from_all_lowest: bool,
) -> u64 {
    waves(
        grid,
        goal,
        start_dist(grid, start, from_all_lowest),
        start_frontier(grid, start, from_all_lowest),
        0,
    )
}

/// The fewest climbing steps from a set of sources to the goal, or
/// zero when the goal cannot be reached.
fn shortest_from(m: &HeightMap, from_all_lowest: bool) -> (r: u64)
    requires
        height_map_wf(*m),
    ensures
        r == search_spec(
            m.grid@.map_values(|row: Vec<u8>| row@),
            m.start,
            m.goal,
            from_all_lowest,
        ),
        r <= 1000000,
{
    let ghost grid = m.grid@.map_values(|r: Vec<u8>| r@);
    let rows = m.grid.len();
    let cols = m.grid[0].len();
    // distances, `1000001` meaning unvisited
    let mut dist: Vec<Vec<u64>> = Vec::new();
    let mut a: usize = 0;
    while a < rows
        invariant
            rows == m.grid@.len(),
            a <= rows,
            dist@.len() == a,
            forall|i: int| 0 <= i < a ==> (#[trigger] dist@[i])@.len() == cols,
            forall|i: int|
                0 <= i < a ==> forall|j: int|
                    0 <= j < (#[trigger] dist@[i])@.len() ==> (#[trigger] (dist@[i])@[j])
                        == 1000001,
        decreases rows - a,
    {
        let mut row: Vec<u64> = Vec::new();
        let mut b: usize = 0;
        while b < cols
            invariant
                b <= cols,
                row@.len() == b,
                forall|j: int| 0 <= j < row@.len() ==> (#[trigger] row@[j]) == 1000001,
            decreases cols - b,
        {
            row.push(1000001);
            b = b + 1;
        }
        dist.push(row);
        a = a + 1;
    }
    // the search frontier
    let mut frontier: Vec<(usize, usize)> = Vec::new();
    if from_all_lowest {
        let mut x: usize = 0;
        while x < rows
            invariant
                height_map_wf(*m),
                grid == m.grid@.map_values(|r: Vec<u8>| r@),
                rows == m.grid@.len(),
                cols == (m.grid@[0])@.len(),
                x <= rows,
                dist@.len() == rows,
                forall|i: int| 0 <= i < rows ==> (#[trigger] dist@[i])@.len() == cols,
                forall|i: int|
                    0 <= i < rows ==> forall|j: int|
                        0 <= j < (#[trigger] dist@[i])@.len() ==> (#[trigger] (dist@[i])@[j])
                            == (if i < x && grid[i][j] == 0 {
                            0u64
                        } else {
                            1000001u64
                        }),
                frontier@ == grid_sources(grid, x as int),
                forall|k: int|
                    0 <= k < frontier@.len() ==> ((#[trigger] frontier@[k]).0 as int) < rows
                        && (frontier@[k].1 as int) < cols,
            decreases rows - x,
        {
            let mut y: usize = 0;
            proof {
                assert(frontier@ =~= grid_sources(grid, x as int) + row_sources(
                    grid,
                    x as int,
                    0,
                ));
            }
            while y < cols
                invariant
                    height_map_wf(*m),
                    grid == m.grid@.map_values(|r: Vec<u8>| r@),
                    rows == m.grid@.len(),
                    cols == (m.grid@[0])@.len(),
                    x < rows,
                    y <= cols,
                    dist@.len() == rows,
                    forall|i: int| 0 <= i < rows ==> (#[trigger] dist@[i])@.len() == cols,
                    forall|i: int|
                        0 <= i < rows ==> forall|j: int|
                            0 <= j < (#[trigger] dist@[i])@.len() ==> (#[trigger] (
                            dist@[i])@[j]) == (if (i < x || (i == x && j < y)) && grid[i][j]
                                == 0 {
                                0u64
                            } else {
                                1000001u64
                            }),
                    frontier@ == grid_sources(grid, x as int) + row_sources(
                        grid,
                        x as int,
                        y as int,
                    ),
                    forall|k: int|
                        0 <= k < frontier@.len() ==> ((#[trigger] frontier@[k]).0 as int)
                            < rows && (frontier@[k].1 as int) < cols,
                decreases cols - y,
            {
                if m.grid[x][y] == 0 {
                    frontier.push((x, y));
                    set_dist(&mut dist, x, y, 0);
                }
                proof {
                    assert(frontier@ =~= grid_sources(grid, x as int) + row_sources(
                        grid,
                        x as int,
                        y + 1,
                    ));
                }
                y = y + 1;
            }
            proof {
                assert(grid_sources(grid, x + 1) =~= grid_sources(grid, x as int)
                    + row_sources(grid, x as int, cols as int));
            }
            x = x + 1;
        }
    } else {
        frontier.push((m.start.0, m.start.1));
        set_dist(&mut dist, m.start.0, m.start.1, 0);
    }
    proof {
        assert(dist@.map_values(|r: Vec<u64>| r@) =~~= start_dist(grid, m.start, from_all_lowest));
        assert(frontier@ =~= start_frontier(grid, m.start, from_all_lowest));
    }
    // breadth-first waves
    let mut wave: u64 = 0;
    while wave < 1000000
        invariant
            height_map_wf(*m),
            grid == m.grid@.map_values(|r: Vec<u8>| r@),
            rows == m.grid@.len(),
            cols == (m.grid@[0])@.len(),
            dist@.len() == rows,
            forall|i: int| 0 <= i < rows ==> (#[trigger] dist@[i])@.len() == cols,
            forall|i: int|
                0 <= i < rows ==> forall|j: int|
                    0 <= j < (#[trigger] dist@[i])@.len() ==> (#[trigger] (dist@[i])@[j])
                        <= 1000001,
            forall|k: int|
                0 <= k < frontier@.len() ==> ((#[trigger] frontier@[k]).0 as int) < rows && (
                frontier@[k].1 as int) < cols,
            wave <= 1000000,
            search_spec(grid, m.start, m.goal, from_all_lowest) == waves(
                grid,
                m.goal,
                dist@.map_values(|r: Vec<u64>| r@),
                frontier@,
                wave,
            ),
        decreases 1000000 - wave,
    {
        let ghost d_head = dist@.map_values(|r: Vec<u64>| r@);
        let ghost f_head = frontier@;
        if frontier.len() == 0 {
            return 0;
        }
        let mut next: Vec<(usize, usize)> = Vec::new();
        let mut f: usize = 0;
        while f < frontier.len()
            invariant
                height_map_wf(*m),
                grid == m.grid@.map_values(|r: Vec<u8>| r@),
                rows == m.grid@.len(),
                cols == (m.grid@[0])@.len(),
                dist@.len() == rows,
                forall|i: int| 0 <= i < rows ==> (#[trigger] dist@[i])@.len() == cols,
                forall|i: int|
                    0 <= i < rows ==> forall|j: int|
                        0 <= j < (#[trigger] dist@[i])@.len() ==> (#[trigger] (dist@[i])@[j])
                            <= 1000001,
                f_head == frontier@,
                forall|k: int|
                    0 <= k < frontier@.len() ==> ((#[trigger] frontier@[k]).0 as int) < rows
                        && (frontier@[k].1 as int) < cols,
                forall|k: int|
                    0 <= k < next@.len() ==> ((#[trigger] next@[k]).0 as int) < rows && (
                    next@[k].1 as int) < cols,
                f <= frontier@.len(),
                wave < 1000000,
                forall|k: int| 0 <= k < f ==> #[trigger] f_head[k] != m.goal,
                search_spec(grid, m.start, m.goal, from_all_lowest) == waves(
                    grid,
                    m.goal,
                    d_head,
                    f_head,
                    wave,
                ),
                (dist@.map_values(|r: Vec<u64>| r@), next@) == expand(
                    grid,
                    d_head,
                    f_head,
                    f as int,
                    Seq::<(usize, usize)>::empty(),
                    wave,
                ),
            decreases frontier@.len() - f,
        {
            let (x, y) = frontier[f];
            if x == m.goal.0 && y == m.goal.1 {
                proof {
                    assert(f_head[f as int] == m.goal);
                    assert(on_frontier(f_head, m.goal));
                    assert(waves(grid, m.goal, d_head, f_head, wave) == wave);
                }
                return wave;
            }
            proof {
                assert(f_head[f as int] != m.goal);
            }
            let ghost p = expand(
                grid,
                d_head,
                f_head,
                f as int,
                Seq::<(usize, usize)>::empty(),
                wave,
            );
            let h = m.grid[x][y];
            // the four neighbours, rising at most one level
            if x > 0 {
                try_step(m, &mut dist, &mut next, h, x - 1, y, wave);
            }
            if x + 1 < rows {
                try_step(m, &mut dist, &mut next, h, x + 1, y, wave);
            }
            if y > 0 {
                try_step(m, &mut dist, &mut next, h, x, y - 1, wave);
            }
            if y + 1 < cols {
                try_step(m, &mut dist, &mut next, h, x, y + 1, wave);
            }
            proof {
                assert((dist@.map_values(|r: Vec<u64>| r@), next@) == visit_cell(
                    grid,
                    p.0,
                    p.1,
                    x,
                    y,
                    wave,
                ));
                assert((dist@.map_values(|r: Vec<u64>| r@), next@) == expand(
                    grid,
                    d_head,
                    f_head,
                    f + 1,
                    Seq::<(usize, usize)>::empty(),
                    wave,
                ));
            }
            f = f + 1;
        }
        proof {
            assert(!on_frontier(f_head, m.goal));
            assert(waves(grid, m.goal, d_head, f_head, wave) == waves(
                grid,
                m.goal,
                dist@.map_values(|r: Vec<u64>| r@),
                next@,
                (wave + 1) as u64,
            ));
        }
        frontier = next;
        wave = wave + 1;
    }
    0
}

/// Writes one distance cell.
fn set_dist(dist: &mut Vec<Vec<u64>>, x: usize, y: usize, v: u64)
    requires
        (x as int) < old(dist)@.len(),
        (y as int) < (old(dist)@[x as int])@.len(),
        v <= 1000001,
    ensures
        final(dist)@.len() == old(dist)@.len(),
        forall|i: int|
            0 <= i < final(dist)@.len() ==> (#[trigger] final(dist)@[i])@.len() == (
            old(dist)@[i])@.len(),
        forall|i: int|
            0 <= i < final(dist)@.len() ==> forall|j: int|
                0 <= j < (#[trigger] final(dist)@[i])@.len()
                    ==> (#[trigger] (final(dist)@[i])@[j]) == (if i == x && j == y {
                    v
                } else {
                    (old(dist)@[i])@[j]
                }),
{
    let mut row = dist.remove(x);
    row.set(y, v);
    dist.insert(x, row);
}

/// Visits a neighbour when it is climbable and unvisited.
fn try_step(
    m: &HeightMap,
    dist: &mut Vec<Vec<u64>>,
    next: &mut Vec<(usize, usize)>,
    h: u8,
    x: usize,
    y: usize,
    wave: u64,
)
    requires
        height_map_wf(*m),
        (x as int) < m.grid@.len(),
        (y as int) < (m.grid@[0])@.len(),
        old(dist)@.len() == m.grid@.len(),
        forall|i: int|
            0 <= i < old(dist)@.len() ==> (#[trigger] old(dist)@[i])@.len() == (
            m.grid@[0])@.len(),
        forall|i: int|
            0 <= i < old(dist)@.len() ==> forall|j: int|
                0 <= j < (#[trigger] old(dist)@[i])@.len()
                    ==> (#[trigger] (old(dist)@[i])@[j]) <= 1000001,
        forall|k: int|
            0 <= k < old(next)@.len() ==> ((#[trigger] old(next)@[k]).0 as int) < m.grid@.len()
                && (old(next)@[k].1 as int) < (m.grid@[0])@.len(),
        wave < 1000000,
    ensures
        final(dist)@.len() == old(dist)@.len(),
        forall|i: int|
            0 <= i < final(dist)@.len() ==> (#[trigger] final(dist)@[i])@.len() == (
            m.grid@[0])@.len(),
        forall|i: int|
            0 <= i < final(dist)@.len() ==> forall|j: int|
                0 <= j < (#[trigger] final(dist)@[i])@.len()
                    ==> (#[trigger] (final(dist)@[i])@[j]) <= 1000001,
        forall|k: int|
            0 <= k < final(next)@.len() ==> ((#[trigger] final(next)@[k]).0 as int)
                < m.grid@.len() && (final(next)@[k].1 as int) < (m.grid@[0])@.len(),
        (final(dist)@.map_values(|r: Vec<u64>| r@), final(next)@) == visit(
            m.grid@.map_values(|r: Vec<u8>| r@),
            old(dist)@.map_values(|r: Vec<u64>| r@),
            old(next)@,
            h,
            x as int,
            y as int,
            wave,
        ),
{
    let ghost grid = m.grid@.map_values(|r: Vec<u8>| r@);
    let ghost d0 = dist@.map_values(|r: Vec<u64>| r@);
    let ghost n0 = next@;
    let nh = m.grid[x][y];
    proof {
        assert(nh == grid[x as int][y as int]);
        assert(d0[x as int][y as int] == (dist@[x as int])@[y as int]);
    }
    // climbable: rises at most one level
    if nh <= h || nh == h + 1 {
        if dist[x][y] == 1000001 {
            set_dist(dist, x, y, wave + 1);
            next.push((x, y));
            proof {
                assert(dist@.map_values(|r: Vec<u64>| r@) =~~= d0.update(
                    x as int,
                    d0[x as int].update(y as int, (wave + 1) as u64),
                ));
            }
        }
    }
}

/// The fewest steps from the start marker to the summit.
pub fn puzzle_1(input: &str) -> (r: String)
    ensures
        ({
            let rows = kept_rows(
                split_spec(input.spec_bytes(), 10),
                split_spec(input.spec_bytes(), 10).len() as int,
            );
            &&& rows_ok(rows) ==> r@ == dec_digits(
                search_spec(grid12(rows), mark12(rows, 83), mark12(rows, 69), false) as nat,
            )
            &&& !rows_ok(rows) ==> r@ == dec_digits(0)
        }),
{
    match parse_input(input) {
        None => u64_string(0),
        Some(m) => u64_string(shortest_from(&m, false)),
    }
}

/// The fewest steps from any lowest square to the summit.
pub fn puzzle_2(input: &str) -> (r: String)
    ensures
        ({
            let rows = kept_rows(
                split_spec(input.spec_bytes(), 10),
                split_spec(input.spec_bytes(), 10).len() as int,
            );
            &&& rows_ok(rows) ==> r@ == dec_digits(
                search_spec(grid12(rows), mark12(rows, 83), mark12(rows, 69), true) as nat,
            )
            &&& !rows_ok(rows) ==> r@ == dec_digits(0)
        }),
{
    match parse_input(input) {
        None => u64_string(0),
        Some(m) => u64_string(shortest_from(&m, true)),
    }
}

} // verus!

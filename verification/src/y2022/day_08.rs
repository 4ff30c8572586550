//! A square grid of tree heights. A tree is visible when some cardinal
//! direction holds no tree at least as tall before the edge; a tree's
//! scenic score multiplies, over the four directions, how many trees
//! it can see before its view is blocked.

use vstd::prelude::*;

use crate::numfmt::dec_digits;
use crate::numfmt::u64_string;
use crate::scan::split_bytes;
use crate::scan::split_spec;
use vstd::string::StringSliceAdditionalSpecFns;

verus! {

/// A direction of sight, named for where the viewer stands.
#[derive(Debug, PartialEq, Eq, Structural, Clone, Copy)]
pub enum Side {
    North,
    West,
    South,
    East,
}

/// The grid is a non-empty square of digits.
pub open spec fn grid_wf(g: Seq<Seq<u8>>) -> bool {
    &&& 1 <= g.len() <= 1000
    &&& forall|i: int| 0 <= i < g.len() ==> (#[trigger] g[i]).len() == g.len()
    &&& forall|i: int, j: int| 0 <= i < g.len() && 0 <= j < g.len() ==> #[trigger] g[i][j] < 10
}

/// The tree at `(x, y)` is visible from the given side: every tree
/// between it and that edge is strictly lower.
pub open spec fn visible_from(g: Seq<Seq<u8>>, side: Side, x: int, y: int) -> bool {
    match side {
        Side::North => forall|r: int| 0 <= r < x ==> #[trigger] g[r][y] < g[x][y],
        Side::South => forall|r: int| x < r < g.len() ==> #[trigger] g[r][y] < g[x][y],
        Side::West => forall|c: int| 0 <= c < y ==> #[trigger] g[x][c] < g[x][y],
        Side::East => forall|c: int| y < c < g.len() ==> #[trigger] g[x][c] < g[x][y],
    }
}

/// The digit rows of the non-empty lines.
pub open spec fn grid_of(lines: Seq<Seq<u8>>) -> Seq<Seq<u8>>
    decreases lines.len(),
{
    if lines.len() == 0 {
        Seq::empty()
    } else {
        grid_of(lines.drop_last()) + (if lines.last().len() == 0 {
            Seq::<Seq<u8>>::empty()
        } else {
            seq![lines.last().map_values(|c: u8| (c - 48) as u8)]
        })
    }
}

/// The input draws a well-formed grid: digit characters only, and the
/// non-empty lines form a square of side at most a thousand.
pub open spec fn grid_ok(s: Seq<u8>) -> bool {
    let lines = split_spec(s, 10);
    let g = grid_of(lines);
    &&& forall|i: int|
        0 <= i < lines.len() ==> ((#[trigger] lines[i]).len() == 0 || forall|j: int|
            0 <= j < lines[i].len() ==> 48 <= #[trigger] lines[i][j] <= 57)
    &&& 1 <= g.len() <= 1000
    &&& forall|i: int| 0 <= i < g.len() ==> (#[trigger] g[i]).len() == g.len()
}

/// The tree is visible from some side.
pub open spec fn visible_cell(m: Seq<Seq<u8>>, i: int, j: int) -> bool {
    ||| visible_from(m, Side::North, i, j)
    ||| visible_from(m, Side::West, i, j)
    ||| visible_from(m, Side::South, i, j)
    ||| visible_from(m, Side::East, i, j)
}

/// How many of the first `k` trees of row `i` are visible.
pub open spec fn visible_in_row(m: Seq<Seq<u8>>, i: int, k: int) -> int
    decreases k,
{
    if k <= 0 {
        0
    } else {
        visible_in_row(m, i, k - 1) + (if visible_cell(m, i, k - 1) {
            1int
        } else {
            0int
        })
    }
}

/// How many trees of the first `k` rows are visible.
pub open spec fn visible_total(m: Seq<Seq<u8>>, k: int) -> int
    decreases k,
{
    if k <= 0 {
        0
    } else {
        visible_total(m, k - 1) + visible_in_row(m, k - 1, m.len() as int)
    }
}

/// Reads the tree grid; the error is a unit, as a malformed grid
/// carries no further information.
pub fn load_input(input: &str) -> (r: Result<Vec<Vec<u8>>, ()>)
    ensures
        r matches Ok(g) ==> grid_ok(input.spec_bytes()) && g@.map_values(|row: Vec<u8>| row@)
            == grid_of(split_spec(input.spec_bytes(), 10)) && grid_wf(
            g@.map_values(|row: Vec<u8>| row@),
        ),
        r is Err ==> !grid_ok(input.spec_bytes()),
{
    let lines = split_bytes(input.as_bytes(), 10);
    let ghost glines = split_spec(input.spec_bytes(), 10);
    let mut g: Vec<Vec<u8>> = Vec::new();
    let mut i: usize = 0;
    proof {
        assert(g@.map_values(|row: Vec<u8>| row@) =~= grid_of(glines.take(0)));
    }
    while i < lines.len()
        invariant
            glines == split_spec(input.spec_bytes(), 10),
            lines@.len() == glines.len(),
            forall|a: int| 0 <= a < glines.len() ==> (#[trigger] lines@[a])@ == glines[a],
            i <= glines.len(),
            forall|a: int|
                0 <= a < i ==> ((#[trigger] glines[a]).len() == 0 || forall|j: int|
                    0 <= j < glines[a].len() ==> 48 <= #[trigger] glines[a][j] <= 57),
            g@.map_values(|row: Vec<u8>| row@) == grid_of(glines.take(i as int)),
            forall|a: int|
                0 <= a < g@.len() ==> forall|b: int|
                    0 <= b < (#[trigger] g@[a])@.len() ==> (#[trigger] (g@[a])@[b]) < 10,
        decreases glines.len() - i,
    {
        let line = &lines[i];
        proof {
            assert((lines@[i as int])@ == glines[i as int]);
            assert(glines.take(i + 1).drop_last() =~= glines.take(i as int));
        }
        if line.len() > 0 {
            let mut row: Vec<u8> = Vec::new();
            let mut j: usize = 0;
            while j < line.len()
                invariant
                    glines == split_spec(input.spec_bytes(), 10),
                    0 <= i < glines.len(),
                    line@ == glines[i as int],
                    j <= line@.len(),
                    row@.len() == j,
                    forall|b: int| 0 <= b < j ==> 48 <= #[trigger] line@[b] <= 57,
                    forall|b: int|
                        0 <= b < j ==> (#[trigger] row@[b]) == (line@[b] - 48) as u8
                            && row@[b] < 10,
                decreases line@.len() - j,
            {
                let c = line[j];
                if c < 48 || c > 57 {
                    proof {
                        assert(!grid_ok(input.spec_bytes())) by {
                            assert((split_spec(input.spec_bytes(), 10)[i as int]).len() != 0
                                && !(48 <= split_spec(input.spec_bytes(), 10)[i as int][j as int]
                                <= 57));
                        }
                    }
                    return Err(());
                }
                row.push(c - 48);
                j = j + 1;
            }
            proof {
                assert(row@ =~= glines[i as int].map_values(|c: u8| (c - 48) as u8));
            }
            g.push(row);
            proof {
                assert(g@.map_values(|row2: Vec<u8>| row2@) =~= grid_of(glines.take(i + 1)));
            }
        } else {
            proof {
                assert(g@.map_values(|row2: Vec<u8>| row2@) =~= grid_of(glines.take(i + 1)));
            }
        }
        i = i + 1;
    }
    proof {
        assert(glines.take(glines.len() as int) =~= glines);
    }
    // the grid must be a non-empty square
    if g.len() < 1 || g.len() > 1000 {
        return Err(());
    }
    let n = g.len();
    let mut k: usize = 0;
    while k < n
        invariant
            glines == split_spec(input.spec_bytes(), 10),
            g@.map_values(|row: Vec<u8>| row@) == grid_of(glines),
            n == g@.len(),
            1 <= n <= 1000,
            k <= n,
            forall|a: int| 0 <= a < glines.len() ==> ((#[trigger] glines[a]).len() == 0
                || forall|j: int|
                0 <= j < glines[a].len() ==> 48 <= #[trigger] glines[a][j] <= 57),
            forall|a: int| 0 <= a < k ==> (#[trigger] g@[a])@.len() == n,
            forall|a: int|
                0 <= a < g@.len() ==> forall|b: int|
                    0 <= b < (#[trigger] g@[a])@.len() ==> (#[trigger] (g@[a])@[b]) < 10,
        decreases n - k,
    {
        if g[k].len() != n {
            proof {
                let gm = grid_of(split_spec(input.spec_bytes(), 10));
                assert(gm[k as int].len() != gm.len());
            }
            return Err(());
        }
        k = k + 1;
    }
    proof {
        let m = g@.map_values(|row: Vec<u8>| row@);
        assert(grid_wf(m)) by {
            assert(forall|a: int| 0 <= a < m.len() ==> (#[trigger] m[a]).len() == m.len());
            assert forall|a: int, b: int|
                0 <= a < m.len() && 0 <= b < m.len() implies #[trigger] m[a][b] < 10 by {
                assert((g@[a])@[b] < 10);
            }
        }
        assert(grid_ok(input.spec_bytes())) by {
            let gm = grid_of(split_spec(input.spec_bytes(), 10));
            assert(forall|a: int| 0 <= a < gm.len() ==> (#[trigger] gm[a]).len() == gm.len());
        }
    }
    Ok(g)
}

/// Whether the tree is visible from the given side.
pub fn is_visible_from_side(forest: &Vec<Vec<u8>>, side: Side, x: usize, y: usize) -> (r: bool)
    requires
        grid_wf(forest@.map_values(|row: Vec<u8>| row@)),
        x < forest@.len(),
        y < forest@.len(),
    ensures
        r == visible_from(forest@.map_values(|row: Vec<u8>| row@), side, x as int, y as int),
{
    let ghost m = forest@.map_values(|row: Vec<u8>| row@);
    proof {
        assert(forall|i: int| 0 <= i < forest@.len() ==> (#[trigger] forest@[i])@ == m[i]);
    }
    let n = forest.len();
    let h = forest[x][y];
    proof {
        assert(m[x as int][y as int] == h);
    }
    match side {
        Side::North => {
            let mut r: usize = 0;
            while r < x
                invariant
                    side == Side::North,
                    m == forest@.map_values(|row: Vec<u8>| row@),
                    forall|i: int|
                        0 <= i < forest@.len() ==> (#[trigger] forest@[i])@ == m[i],
                    grid_wf(m),
                    x < m.len(),
                    y < m.len(),
                    r <= x,
                    h == m[x as int][y as int],
                    forall|k: int| 0 <= k < r ==> #[trigger] m[k][y as int] < h,
                decreases x - r,
            {
                if forest[r][y] >= h {
                    proof {
                        assert(m[r as int][y as int] >= h);
                    }
                    return false;
                }
                r = r + 1;
            }
            true
        },
        Side::South => {
            let mut r: usize = x + 1;
            while r < n
                invariant
                    side == Side::South,
                    m == forest@.map_values(|row: Vec<u8>| row@),
                    forall|i: int|
                        0 <= i < forest@.len() ==> (#[trigger] forest@[i])@ == m[i],
                    grid_wf(m),
                    n == m.len(),
                    x < m.len(),
                    y < m.len(),
                    x < r,
                    r <= n,
                    h == m[x as int][y as int],
                    forall|k: int| x < k < r ==> #[trigger] m[k][y as int] < h,
                decreases n - r,
            {
                if forest[r][y] >= h {
                    proof {
                        assert(m[r as int][y as int] >= h);
                    }
                    return false;
                }
                r = r + 1;
            }
            true
        },
        Side::West => {
            let mut c: usize = 0;
            while c < y
                invariant
                    side == Side::West,
                    m == forest@.map_values(|row: Vec<u8>| row@),
                    forall|i: int|
                        0 <= i < forest@.len() ==> (#[trigger] forest@[i])@ == m[i],
                    grid_wf(m),
                    x < m.len(),
                    y < m.len(),
                    c <= y,
                    h == m[x as int][y as int],
                    forall|k: int| 0 <= k < c ==> #[trigger] m[x as int][k] < h,
                decreases y - c,
            {
                if forest[x][c] >= h {
                    proof {
                        assert(m[x as int][c as int] >= h);
                    }
                    return false;
                }
                c = c + 1;
            }
            true
        },
        Side::East => {
            let mut c: usize = y + 1;
            while c < n
                invariant
                    side == Side::East,
                    m == forest@.map_values(|row: Vec<u8>| row@),
                    forall|i: int|
                        0 <= i < forest@.len() ==> (#[trigger] forest@[i])@ == m[i],
                    grid_wf(m),
                    n == m.len(),
                    x < m.len(),
                    y < m.len(),
                    y < c,
                    c <= n,
                    h == m[x as int][y as int],
                    forall|k: int| y < k < c ==> #[trigger] m[x as int][k] < h,
                decreases n - c,
            {
                if forest[x][c] >= h {
                    proof {
                        assert(m[x as int][c as int] >= h);
                    }
                    return false;
                }
                c = c + 1;
            }
            true
        },
    }
}

/// Whether the tree is visible from any side.
pub fn is_tree_visible(forest: &Vec<Vec<u8>>, x: usize, y: usize) -> (r: bool)
    requires
        grid_wf(forest@.map_values(|row: Vec<u8>| row@)),
        x < forest@.len(),
        y < forest@.len(),
    ensures
        r == {
            let m = forest@.map_values(|row: Vec<u8>| row@);
            visible_from(m, Side::North, x as int, y as int) || visible_from(
                m,
                Side::West,
                x as int,
                y as int,
            ) || visible_from(m, Side::South, x as int, y as int) || visible_from(
                m,
                Side::East,
                x as int,
                y as int,
            )
        },
{
    is_visible_from_side(forest, Side::North, x, y) || is_visible_from_side(
        forest,
        Side::West,
        x,
        y,
    ) || is_visible_from_side(forest, Side::South, x, y) || is_visible_from_side(
        forest,
        Side::East,
        x,
        y,
    )
}

/// The visibility map: one flag per tree.
pub fn get_visible_trees(input: &Vec<Vec<u8>>) -> (r: Vec<Vec<bool>>)
    requires
        grid_wf(input@.map_values(|row: Vec<u8>| row@)),
    ensures
        r@.len() == input@.len(),
        forall|i: int| 0 <= i < r@.len() ==> (#[trigger] r@[i])@.len() == input@.len(),
        forall|i: int, j: int|
            0 <= i < r@.len() && 0 <= j < r@.len() ==> (#[trigger] (r@[i])@[j]) == {
                let m = input@.map_values(|row: Vec<u8>| row@);
                visible_from(m, Side::North, i, j) || visible_from(m, Side::West, i, j)
                    || visible_from(m, Side::South, i, j) || visible_from(m, Side::East, i, j)
            },
{
    let ghost m = input@.map_values(|row: Vec<u8>| row@);
    let n = input.len();
    let mut r: Vec<Vec<bool>> = Vec::new();
    let mut i: usize = 0;
    while i < n
        invariant
            m == input@.map_values(|row: Vec<u8>| row@),
            grid_wf(m),
            n == input@.len(),
            i <= n,
            r@.len() == i,
            forall|a: int| 0 <= a < i ==> (#[trigger] r@[a])@.len() == n,
            forall|a: int, b: int|
                0 <= a < i && 0 <= b < n ==> (#[trigger] (r@[a])@[b]) == (visible_from(
                    m,
                    Side::North,
                    a,
                    b,
                ) || visible_from(m, Side::West, a, b) || visible_from(m, Side::South, a, b)
                    || visible_from(m, Side::East, a, b)),
        decreases n - i,
    {
        let mut row: Vec<bool> = Vec::new();
        let mut j: usize = 0;
        while j < n
            invariant
                m == input@.map_values(|row2: Vec<u8>| row2@),
                grid_wf(m),
                n == input@.len(),
                i < n,
                j <= n,
                row@.len() == j,
                forall|b: int|
                    0 <= b < j ==> (#[trigger] row@[b]) == (visible_from(
                        m,
                        Side::North,
                        i as int,
                        b,
                    ) || visible_from(m, Side::West, i as int, b) || visible_from(
                        m,
                        Side::South,
                        i as int,
                        b,
                    ) || visible_from(m, Side::East, i as int, b)),
            decreases n - j,
        {
            row.push(is_tree_visible(input, i, j));
            j = j + 1;
        }
        r.push(row);
        i = i + 1;
    }
    r
}

/// Counts the visible trees.
pub fn puzzle_1(input: &str) -> (r: String)
    ensures
        ({
            let m = grid_of(split_spec(input.spec_bytes(), 10));
            &&& grid_ok(input.spec_bytes()) ==> r@ == dec_digits(
                visible_total(m, m.len() as int) as nat,
            )
            &&& !grid_ok(input.spec_bytes()) ==> r@ == dec_digits(0)
        }),
{
    match load_input(input) {
        Err(_) => u64_string(0),
        Ok(forest) => {
            let ghost m = forest@.map_values(|row: Vec<u8>| row@);
            let visible = get_visible_trees(&forest);
            let n = visible.len();
            let mut total: u64 = 0;
            let mut i: usize = 0;
            while i < n
                invariant
                    m == forest@.map_values(|row: Vec<u8>| row@),
                    grid_wf(m),
                    n == visible@.len(),
                    n == m.len(),
                    forall|a: int| 0 <= a < n ==> (#[trigger] visible@[a])@.len() == n,
                    forall|a: int, b: int|
                        0 <= a < n && 0 <= b < n ==> (#[trigger] (visible@[a])@[b])
                            == visible_cell(m, a, b),
                    i <= n,
                    total == visible_total(m, i as int),
                    total <= 1000 * (i as int),
                decreases n - i,
            {
                let row = &visible[i];
                let mut j: usize = 0;
                let mut row_count: u64 = 0;
                while j < row.len()
                    invariant
                        m == forest@.map_values(|row2: Vec<u8>| row2@),
                        row@ == (visible@[i as int])@,
                        i < n,
                        n == visible@.len(),
                        row@.len() == n,
                        forall|b: int|
                            0 <= b < n ==> (#[trigger] row@[b]) == visible_cell(m, i as int, b),
                        j <= n,
                        row_count == visible_in_row(m, i as int, j as int),
                        row_count <= j,
                    decreases row@.len() - j,
                {
                    if row[j] {
                        row_count = row_count + 1;
                    }
                    j = j + 1;
                }
                total = total + row_count;
                i = i + 1;
            }
            u64_string(total)
        },
    }
}

/// The viewing distance towards the given side: how many trees are/// The viewing distance towards the given side: how many trees are
/// seen before one at least as tall blocks the view, scanning from
/// distance `k` outward.
pub open spec fn view_scan(g: Seq<Seq<u8>>, side: Side, x: int, y: int, k: int) -> int
    decreases (match side {
        Side::North => x - k,
        Side::West => y - k,
        Side::South => g.len() - x - k,
        Side::East => g.len() - y - k,
    }),
{
    match side {
        Side::North => if k >= x {
            x
        } else if g[x - k][y] >= g[x][y] {
            k
        } else {
            view_scan(g, side, x, y, k + 1)
        },
        Side::West => if k >= y {
            y
        } else if g[x][y - k] >= g[x][y] {
            k
        } else {
            view_scan(g, side, x, y, k + 1)
        },
        Side::South => if k >= g.len() - 1 - x {
            g.len() - 1 - x
        } else if g[x + k][y] >= g[x][y] {
            k
        } else {
            view_scan(g, side, x, y, k + 1)
        },
        Side::East => if k >= g.len() - 1 - y {
            g.len() - 1 - y
        } else if g[x][y + k] >= g[x][y] {
            k
        } else {
            view_scan(g, side, x, y, k + 1)
        },
    }
}

/// The viewing distance towards the given side.
pub open spec fn view_len(g: Seq<Seq<u8>>, side: Side, x: int, y: int) -> int {
    view_scan(g, side, x, y, 1)
}

/// How far the tree at `(x, y)` sees towards the given side before a
/// tree at least as tall blocks the view.
pub fn get_visibility_length(forest: &Vec<Vec<u8>>, side: Side, x: usize, y: usize) -> (r: u64)
    requires
        grid_wf(forest@.map_values(|row: Vec<u8>| row@)),
        x < forest@.len(),
        y < forest@.len(),
    ensures
        r <= forest@.len(),
        ({
            let m = forest@.map_values(|row: Vec<u8>| row@);
            r == (match side {
                Side::North => if x == 0 {
                    0int
                } else {
                    view_len(m, side, x as int, y as int)
                },
                Side::West => if y == 0 {
                    0int
                } else {
                    view_len(m, side, x as int, y as int)
                },
                Side::South => if x == forest@.len() - 1 {
                    0int
                } else {
                    view_len(m, side, x as int, y as int)
                },
                Side::East => if y == forest@.len() - 1 {
                    0int
                } else {
                    view_len(m, side, x as int, y as int)
                },
            })
        }),
{
    let ghost m = forest@.map_values(|row: Vec<u8>| row@);
    proof {
        assert(forall|i: int| 0 <= i < forest@.len() ==> (#[trigger] forest@[i])@ == m[i]);
    }
    let n = forest.len();
    let h = forest[x][y];
    proof {
        assert(m[x as int][y as int] == h);
    }
    match side {
        Side::North => {
            if x == 0 {
                return 0;
            }
            let mut d: u64 = 1;
            while d < x as u64 && forest[x - (d as usize)][y] < h
                invariant
                    side == Side::North,
                    m == forest@.map_values(|row: Vec<u8>| row@),
                    forall|i: int|
                        0 <= i < forest@.len() ==> (#[trigger] forest@[i])@ == m[i],
                    grid_wf(m),
                    0 < x < m.len(),
                    y < m.len(),
                    h == m[x as int][y as int],
                    1 <= d <= x as u64,
                    view_scan(m, side, x as int, y as int, 1) == view_scan(
                        m,
                        side,
                        x as int,
                        y as int,
                        d as int,
                    ),
                decreases x - d,
            {
                d = d + 1;
            }
            proof {
                assert(view_scan(m, side, x as int, y as int, d as int) == d);
            }
            d
        },
        Side::South => {
            if x == n - 1 {
                return 0;
            }
            let limit = (n - 1 - x) as u64;
            let mut d: u64 = 1;
            while d < limit && forest[x + (d as usize)][y] < h
                invariant
                    side == Side::South,
                    m == forest@.map_values(|row: Vec<u8>| row@),
                    forall|i: int|
                        0 <= i < forest@.len() ==> (#[trigger] forest@[i])@ == m[i],
                    grid_wf(m),
                    x < m.len() - 1,
                    y < m.len(),
                    limit == m.len() - 1 - x,
                    h == m[x as int][y as int],
                    1 <= d <= limit,
                    view_scan(m, side, x as int, y as int, 1) == view_scan(
                        m,
                        side,
                        x as int,
                        y as int,
                        d as int,
                    ),
                decreases limit - d,
            {
                d = d + 1;
            }
            proof {
                assert(view_scan(m, side, x as int, y as int, d as int) == d);
            }
            d
        },
        Side::West => {
            if y == 0 {
                return 0;
            }
            let mut d: u64 = 1;
            while d < y as u64 && forest[x][y - (d as usize)] < h
                invariant
                    side == Side::West,
                    m == forest@.map_values(|row: Vec<u8>| row@),
                    forall|i: int|
                        0 <= i < forest@.len() ==> (#[trigger] forest@[i])@ == m[i],
                    grid_wf(m),
                    x < m.len(),
                    0 < y < m.len(),
                    h == m[x as int][y as int],
                    1 <= d <= y as u64,
                    view_scan(m, side, x as int, y as int, 1) == view_scan(
                        m,
                        side,
                        x as int,
                        y as int,
                        d as int,
                    ),
                decreases y - d,
            {
                d = d + 1;
            }
            proof {
                assert(view_scan(m, side, x as int, y as int, d as int) == d);
            }
            d
        },
        Side::East => {
            if y == n - 1 {
                return 0;
            }
            let limit = (n - 1 - y) as u64;
            let mut d: u64 = 1;
            while d < limit && forest[x][y + (d as usize)] < h
                invariant
                    side == Side::East,
                    m == forest@.map_values(|row: Vec<u8>| row@),
                    forall|i: int|
                        0 <= i < forest@.len() ==> (#[trigger] forest@[i])@ == m[i],
                    grid_wf(m),
                    x < m.len(),
                    y < m.len() - 1,
                    limit == m.len() - 1 - y,
                    h == m[x as int][y as int],
                    1 <= d <= limit,
                    view_scan(m, side, x as int, y as int, 1) == view_scan(
                        m,
                        side,
                        x as int,
                        y as int,
                        d as int,
                    ),
                decreases limit - d,
            {
                d = d + 1;
            }
            proof {
                assert(view_scan(m, side, x as int, y as int, d as int) == d);
            }
            d
        },
    }
}

/// The viewing distance counted for the score: zero on the edge
/// facing the side, the view length otherwise.
pub open spec fn dir_view(m: Seq<Seq<u8>>, side: Side, i: int, j: int) -> int {
    match side {
        Side::North => if i == 0 {
            0int
        } else {
            view_len(m, side, i, j)
        },
        Side::West => if j == 0 {
            0int
        } else {
            view_len(m, side, i, j)
        },
        Side::South => if i == m.len() - 1 {
            0int
        } else {
            view_len(m, side, i, j)
        },
        Side::East => if j == m.len() - 1 {
            0int
        } else {
            view_len(m, side, i, j)
        },
    }
}

/// The scenic score of one tree: its four viewing distances
/// multiplied.
pub open spec fn score(m: Seq<Seq<u8>>, i: int, j: int) -> int {
    ((dir_view(m, Side::North, i, j) * dir_view(m, Side::West, i, j)) * dir_view(
        m,
        Side::South,
        i,
        j,
    )) * dir_view(m, Side::East, i, j)
}

/// The best score among the first `k` trees of row `i`.
pub open spec fn row_best(m: Seq<Seq<u8>>, i: int, k: int) -> int
    decreases k,
{
    if k <= 0 {
        0
    } else {
        let b = row_best(m, i, k - 1);
        if score(m, i, k - 1) > b {
            score(m, i, k - 1)
        } else {
            b
        }
    }
}

/// The best score among the first `k` rows.
pub open spec fn best_score(m: Seq<Seq<u8>>, k: int) -> int
    decreases k,
{
    if k <= 0 {
        0
    } else {
        let b = best_score(m, k - 1);
        let rb = row_best(m, k - 1, m.len() as int);
        if rb > b {
            rb
        } else {
            b
        }
    }
}

/// The scenic scores: the four view lengths multiplied, per tree.
pub fn get_visibility_scores(input: &Vec<Vec<u8>>) -> (r: Vec<Vec<u64>>)
    requires
        grid_wf(input@.map_values(|row: Vec<u8>| row@)),
    ensures
        ({
            let m = input@.map_values(|row: Vec<u8>| row@);
            &&& r@.len() == m.len()
            &&& forall|i: int| 0 <= i < r@.len() ==> (#[trigger] r@[i])@.len() == m.len()
            &&& forall|i: int, j: int|
                0 <= i < m.len() && 0 <= j < m.len() ==> (#[trigger] (r@[i])@[j]) as int
                    == score(m, i, j)
        }),
{
    let ghost m = input@.map_values(|row: Vec<u8>| row@);
    let n = input.len();
    let mut r: Vec<Vec<u64>> = Vec::new();
    let mut i: usize = 0;
    while i < n
        invariant
            m == input@.map_values(|row: Vec<u8>| row@),
            grid_wf(m),
            n == m.len(),
            i <= n,
            r@.len() == i,
            forall|a: int| 0 <= a < i ==> (#[trigger] r@[a])@.len() == n,
            forall|a: int, b: int|
                0 <= a < i && 0 <= b < n ==> (#[trigger] (r@[a])@[b]) as int == score(m, a, b),
        decreases n - i,
    {
        let mut row: Vec<u64> = Vec::new();
        let mut j: usize = 0;
        while j < n
            invariant
                m == input@.map_values(|row2: Vec<u8>| row2@),
                grid_wf(m),
                n == m.len(),
                i < n,
                j <= n,
                row@.len() == j,
                forall|b: int| 0 <= b < j ==> (#[trigger] row@[b]) as int == score(m, i as int, b),
            decreases n - j,
        {
            let a = get_visibility_length(input, Side::North, i, j);
            let b = get_visibility_length(input, Side::West, i, j);
            let c = get_visibility_length(input, Side::South, i, j);
            let d = get_visibility_length(input, Side::East, i, j);
            proof {
                assert(a as int == dir_view(m, Side::North, i as int, j as int));
                assert(b as int == dir_view(m, Side::West, i as int, j as int));
                assert(c as int == dir_view(m, Side::South, i as int, j as int));
                assert(d as int == dir_view(m, Side::East, i as int, j as int));
                assert(a * b <= 1000000) by (nonlinear_arith)
                    requires
                        0 <= a <= 1000,
                        0 <= b <= 1000,
                ;
                assert((a * b) * c <= 1000000000) by (nonlinear_arith)
                    requires
                        0 <= a * b <= 1000000,
                        0 <= c <= 1000,
                ;
                assert(((a * b) * c) * d <= 1000000000000) by (nonlinear_arith)
                    requires
                        0 <= (a * b) * c <= 1000000000,
                        0 <= d <= 1000,
                ;
            }
            row.push(((a * b) * c) * d);
            j = j + 1;
        }
        r.push(row);
        i = i + 1;
    }
    r
}

/// The best scenic score in the grid.
pub fn puzzle_2(input: &str) -> (r: String)
    ensures
        ({
            let m = grid_of(split_spec(input.spec_bytes(), 10));
            &&& grid_ok(input.spec_bytes()) ==> r@ == dec_digits(
                best_score(m, m.len() as int) as nat,
            )
            &&& !grid_ok(input.spec_bytes()) ==> r@ == dec_digits(0)
        }),
{
    match load_input(input) {
        Err(_) => u64_string(0),
        Ok(forest) => {
            let ghost m = forest@.map_values(|row: Vec<u8>| row@);
            let scores = get_visibility_scores(&forest);
            let n = scores.len();
            let mut best: u64 = 0;
            let mut i: usize = 0;
            proof {
                lemma_best_score_nonneg(m, 0);
            }
            while i < n
                invariant
                    m == forest@.map_values(|row: Vec<u8>| row@),
                    n == scores@.len(),
                    n == m.len(),
                    forall|a: int| 0 <= a < n ==> (#[trigger] scores@[a])@.len() == n,
                    forall|a: int, b: int|
                        0 <= a < n && 0 <= b < n ==> (#[trigger] (scores@[a])@[b]) as int
                            == score(m, a, b),
                    i <= n,
                    best as int == best_score(m, i as int),
                decreases n - i,
            {
                let row = &scores[i];
                let mut j: usize = 0;
                let ghost entry_best = best as int;
                while j < row.len()
                    invariant
                        m == forest@.map_values(|row2: Vec<u8>| row2@),
                        row@ == (scores@[i as int])@,
                        i < n,
                        n == scores@.len(),
                        n == m.len(),
                        row@.len() == n,
                        forall|b: int|
                            0 <= b < n ==> (#[trigger] row@[b]) as int == score(m, i as int, b),
                        j <= n,
                        entry_best == best_score(m, i as int),
                        best as int == (if row_best(m, i as int, j as int) > entry_best {
                            row_best(m, i as int, j as int)
                        } else {
                            entry_best
                        }),
                    decreases row@.len() - j,
                {
                    if row[j] > best {
                        best = row[j];
                    }
                    j = j + 1;
                }
                i = i + 1;
            }
            u64_string(best)
        },
    }
}

/// The running best never goes negative.
proof fn lemma_best_score_nonneg(m: Seq<Seq<u8>>, k: int)
    ensures
        best_score(m, k) >= 0,
    decreases (if k >= 0 {
        k
    } else {
        0int
    }),
{
    if k > 0 {
        lemma_best_score_nonneg(m, k - 1);
    }
}

} // verus!

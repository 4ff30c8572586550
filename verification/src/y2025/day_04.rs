//! A grid of crates marked `@`. A crate is reachable while fewer than
//! four of its eight neighbours are present. The first puzzle counts
//! the reachable crates; the second removes reachable crates in waves
//! until none is left and counts every removal.

use vstd::prelude::*;

use crate::numfmt::dec_digits;
use crate::numfmt::u64_string;
use crate::scan::split_bytes;
use crate::scan::split_spec;
use vstd::string::StringSliceAdditionalSpecFns;

verus! {

/// Whether the point set holds `(x, y)`.
pub open spec fn has_point(pts: Seq<(i64, i64)>, x: int, y: int) -> bool {
    exists|i: int| 0 <= i < pts.len() && #[trigger] pts[i] == (x as i64, y as i64)
}

/// How many of the eight neighbours of `(x, y)` are present.
pub open spec fn neighbour_count(pts: Seq<(i64, i64)>, x: int, y: int) -> int {
    (if has_point(pts, x - 1, y) {
        1int
    } else {
        0int
    }) + (if has_point(pts, x + 1, y) {
        1int
    } else {
        0int
    }) + (if has_point(pts, x, y - 1) {
        1int
    } else {
        0int
    }) + (if has_point(pts, x, y + 1) {
        1int
    } else {
        0int
    }) + (if has_point(pts, x - 1, y - 1) {
        1int
    } else {
        0int
    }) + (if has_point(pts, x - 1, y + 1) {
        1int
    } else {
        0int
    }) + (if has_point(pts, x + 1, y - 1) {
        1int
    } else {
        0int
    }) + (if has_point(pts, x + 1, y + 1) {
        1int
    } else {
        0int
    })
}

fn contains_point(pts: &Vec<(i64, i64)>, x: i64, y: i64) -> (r: bool)
    ensures
        r == has_point(pts@, x as int, y as int),
{
    let mut i: usize = 0;
    while i < pts.len()
        invariant
            0 <= i <= pts@.len(),
            forall|j: int| 0 <= j < i ==> #[trigger] pts@[j] != (x, y),
        decreases pts@.len() - i,
    {
        let (px, py) = pts[i];
        if px == x && py == y {
            proof {
                assert(pts@[i as int] == (x, y));
            }
            return true;
        }
        i = i + 1;
    }
    false
}

/// Whether at least `limit` of the eight neighbours are present.
fn has_enough_neighbours(x: i64, y: i64, pts: &Vec<(i64, i64)>, limit: u64) -> (r: bool)
    requires
        -1000000 <= x <= 1000000,
        -1000000 <= y <= 1000000,
    ensures
        r == (neighbour_count(pts@, x as int, y as int) >= limit),
{
    let mut count: u64 = 0;
    if contains_point(pts, x - 1, y) {
        count = count + 1;
    }
    if contains_point(pts, x + 1, y) {
        count = count + 1;
    }
    if contains_point(pts, x, y - 1) {
        count = count + 1;
    }
    if contains_point(pts, x, y + 1) {
        count = count + 1;
    }
    if contains_point(pts, x - 1, y - 1) {
        count = count + 1;
    }
    if contains_point(pts, x - 1, y + 1) {
        count = count + 1;
    }
    if contains_point(pts, x + 1, y - 1) {
        count = count + 1;
    }
    if contains_point(pts, x + 1, y + 1) {
        count = count + 1;
    }
    count >= limit
}

/// How many of the first `k` points have fewer than four neighbours.
pub open spec fn low_count(pts: Seq<(i64, i64)>, k: int) -> int
    decreases k,
{
    if k <= 0 {
        0
    } else {
        low_count(pts, k - 1) + (if neighbour_count(pts, pts[k - 1].0 as int, pts[k - 1].1 as int)
            < 4 {
            1int
        } else {
            0int
        })
    }
}

/// The crate positions of the first `k` characters of row `y`.
pub open spec fn row_points(l: Seq<u8>, y: int, k: int) -> Seq<(i64, i64)>
    decreases k,
{
    if k <= 0 {
        Seq::empty()
    } else {
        row_points(l, y, k - 1) + (if l[k - 1] == 64 {
            seq![((k - 1) as i64, y as i64)]
        } else {
            Seq::<(i64, i64)>::empty()
        })
    }
}

/// The crate positions of the first `k` rows.
pub open spec fn grid_points(lines: Seq<Seq<u8>>, k: int) -> Seq<(i64, i64)>
    decreases k,
{
    if k <= 0 {
        Seq::empty()
    } else {
        grid_points(lines, k - 1) + row_points(lines[k - 1], k - 1, lines[k - 1].len() as int)
    }
}

/// The grid fits the working bounds.
pub open spec fn grid_fits(s: Seq<u8>) -> bool {
    let lines = split_spec(s, 10);
    &&& lines.len() <= 1000000
    &&& forall|i: int| 0 <= i < lines.len() ==> (#[trigger] lines[i]).len() <= 1000000
}

/// The waves of removals: reachable crates leave together until none
/// is reachable; the count saturates to zero past the working bounds.
pub open spec fn kept_of(pts: Seq<(i64, i64)>, k: int) -> Seq<(i64, i64)>
    decreases k,
{
    if k <= 0 {
        Seq::empty()
    } else {
        kept_of(pts, k - 1) + (if neighbour_count(pts, pts[k - 1].0 as int, pts[k - 1].1 as int)
            >= 4 {
            seq![pts[k - 1]]
        } else {
            Seq::<(i64, i64)>::empty()
        })
    }
}

/// The total removals over the waves, `total` already banked; zero
/// when a wave outgrows the counting bounds.
pub open spec fn peel_total(pts: Seq<(i64, i64)>, total: int) -> int
    decreases pts.len(),
{
    let kept = kept_of(pts, pts.len() as int);
    if kept.len() >= pts.len() {
        total
    } else {
        let removed = pts.len() - kept.len();
        if removed > 100000000 || total > 100000000 - removed {
            0
        } else {
            peel_total(kept, total + removed)
        }
    }
}

/// A wave keeps at most as many crates as it saw.
proof fn lemma_kept_len(pts: Seq<(i64, i64)>, k: int)
    requires
        0 <= k <= pts.len(),
    ensures
        kept_of(pts, k).len() <= k,
    decreases k,
{
    if k > 0 {
        lemma_kept_len(pts, k - 1);
    }
}

/// Reads the crate positions: column and row of every `@`.
fn load_input(input: &[u8]) -> (r: Option<Vec<(i64, i64)>>)
    ensures
        match r {
            Some(pts) => grid_fits(input@) && pts@ == grid_points(
                split_spec(input@, 10),
                split_spec(input@, 10).len() as int,
            ) && forall|i: int|
                0 <= i < pts@.len() ==> 0 <= (#[trigger] pts@[i]).0 <= 1000000 && 0 <= pts@[i].1
                    <= 1000000,
            None => !grid_fits(input@),
        },
{
    let lines = split_bytes(input, 10);
    let ghost glines = split_spec(input@, 10);
    let mut pts: Vec<(i64, i64)> = Vec::new();
    let mut i: usize = 0;
    if lines.len() > 1000000 {
        return None;
    }
    proof {
        assert(pts@ =~= grid_points(glines, 0));
    }
    while i < lines.len()
        invariant
            glines == split_spec(input@, 10),
            lines@.len() == glines.len(),
            forall|a: int| 0 <= a < glines.len() ==> (#[trigger] lines@[a])@ == glines[a],
            glines.len() <= 1000000,
            i <= glines.len(),
            forall|a: int| 0 <= a < i ==> (#[trigger] glines[a]).len() <= 1000000,
            pts@ == grid_points(glines, i as int),
            forall|j: int|
                0 <= j < pts@.len() ==> 0 <= (#[trigger] pts@[j]).0 <= 1000000 && 0 <= pts@[j].1
                    <= 1000000,
        decreases glines.len() - i,
    {
        let line = &lines[i];
        proof {
            assert((lines@[i as int])@ == glines[i as int]);
        }
        if line.len() > 1000000 {
            return None;
        }
        let mut j: usize = 0;
        proof {
            assert(row_points(glines[i as int], i as int, 0) =~= Seq::<(i64, i64)>::empty());
        }
        while j < line.len()
            invariant
                glines == split_spec(input@, 10),
                0 <= i < glines.len() <= 1000000,
                line@ == glines[i as int],
                j <= line@.len() <= 1000000,
                pts@ == grid_points(glines, i as int) + row_points(
                    glines[i as int],
                    i as int,
                    j as int,
                ),
                forall|k: int|
                    0 <= k < pts@.len() ==> 0 <= (#[trigger] pts@[k]).0 <= 1000000 && 0
                        <= pts@[k].1 <= 1000000,
            decreases line@.len() - j,
        {
            if line[j] == 64 {
                pts.push((j as i64, i as i64));
                proof {
                    assert(pts@ =~= grid_points(glines, i as int) + row_points(
                        glines[i as int],
                        i as int,
                        j + 1,
                    ));
                }
            } else {
                proof {
                    assert(pts@ =~= grid_points(glines, i as int) + row_points(
                        glines[i as int],
                        i as int,
                        j + 1,
                    ));
                }
            }
            j = j + 1;
        }
        proof {
            assert(pts@ =~= grid_points(glines, i + 1));
        }
        i = i + 1;
    }
    Some(pts)
}

/// Counts the crates with fewer than four present neighbours.
pub fn puzzle_1(input: &str) -> (r: String)
    ensures
        ({
            let pts = grid_points(
                split_spec(input.spec_bytes(), 10),
                split_spec(input.spec_bytes(), 10).len() as int,
            );
            &&& grid_fits(input.spec_bytes()) ==> r@ == dec_digits(
                low_count(pts, pts.len() as int) as nat,
            )
            &&& !grid_fits(input.spec_bytes()) ==> r@ == dec_digits(0)
        }),
{
    match load_input(input.as_bytes()) {
        None => u64_string(0),
        Some(pts) => {
            let mut count: u64 = 0;
            let mut i: usize = 0;
            while i < pts.len()
                invariant
                    0 <= i <= pts@.len(),
                    forall|j: int|
                        0 <= j < pts@.len() ==> 0 <= (#[trigger] pts@[j]).0 <= 1000000 && 0
                            <= pts@[j].1 <= 1000000,
                    count == low_count(pts@, i as int),
                    count <= i,
                decreases pts@.len() - i,
            {
                let (x, y) = pts[i];
                if !has_enough_neighbours(x, y, &pts, 4) {
                    count = count + 1;
                }
                proof {
                    assert(pts@[i as int] == (x, y));
                }
                i = i + 1;
            }
            u64_string(count)
        },
    }
}

/// Removes reachable crates in waves until none is reachable, and
/// counts every removal.
pub fn puzzle_2(input: &str) -> (r: String)
    ensures
        ({
            let pts = grid_points(
                split_spec(input.spec_bytes(), 10),
                split_spec(input.spec_bytes(), 10).len() as int,
            );
            &&& grid_fits(input.spec_bytes()) ==> r@ == dec_digits(peel_total(pts, 0) as nat)
            &&& !grid_fits(input.spec_bytes()) ==> r@ == dec_digits(0)
        }),
{
    match load_input(input.as_bytes()) {
        None => u64_string(0),
        Some(pts) => {
            let ghost pts0 = pts@;
            let mut pts = pts;
            let mut total: u64 = 0;
            loop
                invariant_except_break
                    grid_fits(input.spec_bytes()),
                    pts0 == grid_points(
                        split_spec(input.spec_bytes(), 10),
                        split_spec(input.spec_bytes(), 10).len() as int,
                    ),
                    forall|j: int|
                        0 <= j < pts@.len() ==> 0 <= (#[trigger] pts@[j]).0 <= 1000000 && 0
                            <= pts@[j].1 <= 1000000,
                    total <= 100000000,
                    peel_total(pts0, 0) == peel_total(pts@, total as int),
                ensures
                    peel_total(pts0, 0) == total,
                decreases pts@.len(),
            {
                let ghost cur = pts@;
                // one wave: split into reachable and kept crates
                let mut kept: Vec<(i64, i64)> = Vec::new();
                let mut removed: u64 = 0;
                let mut i: usize = 0;
                proof {
                    assert(kept@ =~= kept_of(cur, 0));
                }
                while i < pts.len()
                    invariant
                        cur == pts@,
                        0 <= i <= cur.len(),
                        forall|j: int|
                            0 <= j < cur.len() ==> 0 <= (#[trigger] cur[j]).0 <= 1000000 && 0
                                <= cur[j].1 <= 1000000,
                        forall|j: int|
                            0 <= j < kept@.len() ==> 0 <= (#[trigger] kept@[j]).0 <= 1000000
                                && 0 <= kept@[j].1 <= 1000000,
                        kept@ == kept_of(cur, i as int),
                        kept@.len() + removed == i,
                    decreases cur.len() - i,
                {
                    let (x, y) = pts[i];
                    proof {
                        assert(cur[i as int] == (x, y));
                    }
                    if has_enough_neighbours(x, y, &pts, 4) {
                        kept.push((x, y));
                        proof {
                            assert(kept@ =~= kept_of(cur, i + 1));
                        }
                    } else {
                        removed = removed + 1;
                        proof {
                            assert(kept@ =~= kept_of(cur, i + 1));
                        }
                    }
                    i = i + 1;
                }
                if removed == 0 {
                    proof {
                        assert(kept_of(cur, cur.len() as int).len() >= cur.len());
                        assert(peel_total(cur, total as int) == total);
                    }
                    break ;
                }
                proof {
                    lemma_kept_len(cur, cur.len() as int);
                    assert(kept@.len() < cur.len());
                }
                if removed > 100000000 || total > 100000000 - removed {
                    proof {
                        assert(peel_total(cur, total as int) == 0);
                    }
                    return u64_string(0);
                }
                proof {
                    assert(peel_total(cur, total as int) == peel_total(
                        kept@,
                        total as int + removed as int,
                    ));
                }
                total = total + removed;
                pts = kept;
            }
            u64_string(total)
        },
    }
}

} // verus!

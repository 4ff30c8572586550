//! Hydrothermal vent lines on a grid. The puzzles count the grid
//! points covered by at least two lines: first over the axis-aligned
//! lines only, then over all lines including the diagonals.

use vstd::prelude::*;

use crate::geometry::Line2;
use crate::geometry::Point2;
use crate::numfmt::dec_digits;
use crate::numfmt::u64_string;
use crate::scan::find_byte;
use crate::scan::parse_u64;
use crate::scan::split_bytes;
use crate::scan::split_spec;
use crate::scan::first_sep;
use crate::scan::is_numeral;
use crate::scan::dec_val;
use crate::geometry::points_spec;
use crate::geometry::Vector2;
use vstd::string::StringSliceAdditionalSpecFns;

verus! {

/// The coordinate pair a `x,y` text describes.
pub open spec fn point_of(l: Seq<u8>) -> Option<Point2> {
    let c = first_sep(l, 44);
    if c < l.len() && is_numeral(l.take(c)) && dec_val(l.take(c)) <= 1000000 && is_numeral(
        l.skip(c + 1),
    ) && dec_val(l.skip(c + 1)) <= 1000000 {
        Some(Point2 { x: dec_val(l.take(c)) as i64, y: dec_val(l.skip(c + 1)) as i64 })
    } else {
        None
    }
}

/// The segment a `x1,y1 -> x2,y2` line describes.
pub open spec fn line_of(l: Seq<u8>) -> Option<Line2> {
    let a = first_sep(l, 32);
    if a < l.len() && l.len() - a >= 4 && point_of(l.take(a)) is Some && point_of(
        l.skip(a + 4),
    ) is Some {
        Some(Line2 { start: point_of(l.take(a))->Some_0, end: point_of(l.skip(a + 4))->Some_0 })
    } else {
        None
    }
}

/// The segments of the non-empty lines.
pub open spec fn vents_of(lines: Seq<Seq<u8>>) -> Seq<Line2>
    decreases lines.len(),
{
    if lines.len() == 0 {
        Seq::empty()
    } else {
        vents_of(lines.drop_last()) + (if lines.last().len() == 0 {
            Seq::<Line2>::empty()
        } else {
            match line_of(lines.last()) {
                Some(l) => seq![l],
                None => Seq::<Line2>::empty(),
            }
        })
    }
}

/// Every non-empty line is a segment, and the list fits the driver.
pub open spec fn vents_ok(s: Seq<u8>) -> bool {
    let lines = split_spec(s, 10);
    &&& forall|i: int|
        0 <= i < lines.len() ==> ((#[trigger] lines[i]).len() == 0 || line_of(lines[i]) is Some)
    &&& vents_of(lines).len() <= 10000
}

/// The grid-aligned segments, in order.
pub open spec fn aligned_of(ls: Seq<Line2>) -> Seq<Line2>
    decreases ls.len(),
{
    if ls.len() == 0 {
        Seq::empty()
    } else {
        aligned_of(ls.drop_last()) + (if ls.last().start.x == ls.last().end.x
            || ls.last().start.y == ls.last().end.y {
            seq![ls.last()]
        } else {
            Seq::<Line2>::empty()
        })
    }
}

/// Every covered point of the first `k` segments, in order.
pub open spec fn all_points(ls: Seq<Line2>, k: int) -> Seq<Point2>
    decreases k,
{
    if k <= 0 {
        Seq::empty()
    } else {
        all_points(ls, k - 1) + points_spec(ls[k - 1])
    }
}

/// How many of the first `k` gathered points appear there for the
/// first time and again later: the points covered more than once.
pub open spec fn overlap_count(pts: Seq<Point2>, k: int) -> int
    decreases k,
{
    if k <= 0 {
        0
    } else {
        overlap_count(pts, k - 1) + (if !(exists|j: int|
            0 <= j < k - 1 && #[trigger] pts[j] == pts[k - 1]) && (exists|j: int|
            k - 1 < j < pts.len() && #[trigger] pts[j] == pts[k - 1]) {
            1int
        } else {
            0int
        })
    }
}

/// What both puzzles answer over a segment list: the overlap count of
/// the gathered points, zero when the gathered points outgrow the
/// counting bounds.
pub open spec fn overlap_answer(ls: Seq<Line2>, r: Seq<char>) -> bool {
    let pts = all_points(ls, ls.len() as int);
    if pts.len() > 2000000 {
        r == dec_digits(0)
    } else {
        r == dec_digits(overlap_count(pts, pts.len() as int) as nat)
    }
}

/// Reads the vent lines: one `x1,y1 -> x2,y2` per non-empty line.
pub fn parse_input(input: &str) -> (r: Option<Vec<Line2>>)
    ensures
        match r {
            Some(ls) => vents_ok(input.spec_bytes()) && ls@ == vents_of(
                split_spec(input.spec_bytes(), 10),
            ) && ls@.len() <= 10000 && lines_in_bounds(ls@),
            None => !vents_ok(input.spec_bytes()),
        },
{
    parse_lines(input.as_bytes())
}

/// Every endpoint within the walking bounds.
pub open spec fn lines_in_bounds(ls: Seq<Line2>) -> bool {
    forall|i: int|
        0 <= i < ls.len() ==> {
            &&& 0 <= (#[trigger] ls[i]).start.x <= 1000000
            &&& 0 <= ls[i].start.y <= 1000000
            &&& 0 <= ls[i].end.x <= 1000000
            &&& 0 <= ls[i].end.y <= 1000000
        }
}

fn parse_lines(input: &[u8]) -> (r: Option<Vec<Line2>>)
    ensures
        match r {
            Some(ls) => vents_ok(input@) && ls@ == vents_of(split_spec(input@, 10))
                && ls@.len() <= 10000 && lines_in_bounds(ls@),
            None => !vents_ok(input@),
        },
{
    let lines = split_bytes(input, 10);
    let ghost glines = split_spec(input@, 10);
    let mut out: Vec<Line2> = Vec::new();
    let mut i: usize = 0;
    proof {
        assert(out@ =~= vents_of(glines.take(0)));
    }
    while i < lines.len()
        invariant
            glines == split_spec(input@, 10),
            lines@.len() == glines.len(),
            forall|a: int| 0 <= a < glines.len() ==> (#[trigger] lines@[a])@ == glines[a],
            i <= glines.len(),
            forall|a: int|
                0 <= a < i ==> ((#[trigger] glines[a]).len() == 0 || line_of(
                    glines[a],
                ) is Some),
            out@ == vents_of(glines.take(i as int)),
            lines_in_bounds(out@),
        decreases glines.len() - i,
    {
        let line = &lines[i];
        proof {
            assert((lines@[i as int])@ == glines[i as int]);
            assert(glines.take(i + 1).drop_last() =~= glines.take(i as int));
        }
        if line.len() > 0 {
            // the two coordinate pairs around the arrow
            let arrow = match find_byte(line.as_slice(), 0, 32) {
                Some(a) => a,
                None => {
                    proof {
                        crate::scan::lemma_first_sep(glines[i as int], 32);
                        if first_sep(glines[i as int], 32) < glines[i as int].len() {
                            assert(glines[i as int][first_sep(glines[i as int], 32)] == 32);
                        }
                        assert(line_of(glines[i as int]) is None);
                    }
                    return None;
                },
            };
            proof {
                crate::scan::lemma_first_sep(glines[i as int], 32);
                assert(first_sep(glines[i as int], 32) == arrow) by {
                    if first_sep(glines[i as int], 32) < arrow {
                        assert(glines[i as int][first_sep(glines[i as int], 32)] == 32);
                    }
                }
            }
            if line.len() - arrow < 4 {
                proof {
                    assert(line_of(glines[i as int]) is None);
                }
                return None;
            }
            let a_str = vstd::slice::slice_subrange(line.as_slice(), 0, arrow);
            let b_str = vstd::slice::slice_subrange(line.as_slice(), arrow + 4, line.len());
            proof {
                assert(a_str@ =~= glines[i as int].take(arrow as int));
                assert(b_str@ =~= glines[i as int].skip(arrow + 4));
            }
            let start = match parse_point(a_str) {
                Some(p) => p,
                None => {
                    proof {
                        assert(line_of(glines[i as int]) is None);
                    }
                    return None;
                },
            };
            let end = match parse_point(b_str) {
                Some(p) => p,
                None => {
                    proof {
                        assert(line_of(glines[i as int]) is None);
                    }
                    return None;
                },
            };
            out.push(Line2 { start, end });
            proof {
                assert(line_of(glines[i as int]) == Some(Line2 { start, end }));
                assert(out@ =~= vents_of(glines.take(i + 1)));
            }
        } else {
            proof {
                assert(out@ =~= vents_of(glines.take(i + 1)));
            }
        }
        i = i + 1;
    }
    proof {
        assert(glines.take(glines.len() as int) =~= glines);
    }
    if out.len() > 10000 {
        return None;
    }
    Some(out)
}

/// One `x,y` coordinate pair.
fn parse_point(s: &[u8]) -> (r: Option<Point2>)
    ensures
        match r {
            Some(p) => point_of(s@) == Some(p) && 0 <= p.x <= 1000000 && 0 <= p.y <= 1000000,
            None => point_of(s@) is None,
        },
{
    let n = s.len();
    let comma = match find_byte(s, 0, 44) {
        Some(c) => c,
        None => {
            proof {
                crate::scan::lemma_first_sep(s@, 44);
                if first_sep(s@, 44) < s@.len() {
                    assert(s@[first_sep(s@, 44)] == 44);
                }
            }
            return None;
        },
    };
    proof {
        crate::scan::lemma_first_sep(s@, 44);
        assert(first_sep(s@, 44) == comma) by {
            if first_sep(s@, 44) < comma {
                assert(s@[first_sep(s@, 44)] == 44);
            }
        }
    }
    let xs = vstd::slice::slice_subrange(s, 0, comma);
    let ys = vstd::slice::slice_subrange(s, comma + 1, n);
    proof {
        assert(xs@ =~= s@.take(comma as int));
        assert(ys@ =~= s@.skip(comma + 1));
    }
    let px = parse_u64(xs);
    let x = match px {
        Some(v) => {
            if v > 1000000 {
                return None;
            }
            v
        },
        None => {
            proof {
                if is_numeral(s@.take(comma as int)) && dec_val(s@.take(comma as int))
                    <= 1000000 {
                    assert(dec_val(s@.take(comma as int)) <= u64::MAX);
                }
            }
            return None;
        },
    };
    let py = parse_u64(ys);
    let y = match py {
        Some(v) => {
            if v > 1000000 {
                return None;
            }
            v
        },
        None => {
            proof {
                if is_numeral(s@.skip(comma + 1)) && dec_val(s@.skip(comma + 1)) <= 1000000 {
                    assert(dec_val(s@.skip(comma + 1)) <= u64::MAX);
                }
            }
            return None;
        },
    };
    Some(Point2 { x: x as i64, y: y as i64 })
}

/// A walk records at most `fuel` points.
proof fn lemma_walk_len(p: Point2, step: Vector2, end: Point2, fuel: int)
    ensures
        crate::geometry::walk_spec(p, step, end, fuel).len() <= (if fuel >= 0 {
            fuel
        } else {
            0int
        }),
    decreases fuel,
{
    if fuel > 0 {
        lemma_walk_len(
            Point2 { x: (p.x + step.x) as i64, y: (p.y + step.y) as i64 },
            step,
            end,
            fuel - 1,
        );
    }
}

/// How many grid points are covered by two or more of the given lines.
fn count_overlaps(input: &Vec<Line2>) -> (r: String)
    requires
        input@.len() <= 10000,
        lines_in_bounds(input@),
    ensures
        overlap_answer(input@, r@),
{
    // gather every covered point of every line
    let mut pts: Vec<Point2> = Vec::new();
    let mut i: usize = 0;
    proof {
        assert(pts@ =~= all_points(input@, 0));
    }
    while i < input.len()
        invariant
            i <= input@.len(),
            input@.len() <= 10000,
            lines_in_bounds(input@),
            pts@ == all_points(input@, i as int),
            pts@.len() <= 4000001 * (i as int),
        decreases input@.len() - i,
    {
        let line = &input[i];
        let mut line_pts = line.points();
        proof {
            if !(crate::geometry::step_spec(input@[i as int]).x == 0
                && crate::geometry::step_spec(input@[i as int]).y == 0) {
                lemma_walk_len(
                    input@[i as int].start,
                    crate::geometry::step_spec(input@[i as int]),
                    input@[i as int].end,
                    4000001,
                );
            }
            assert(line_pts@.len() <= 4000001);
        }
        pts.append(&mut line_pts);
        proof {
            assert(pts@ =~= all_points(input@, i + 1));
        }
        i = i + 1;
    }
    if pts.len() > 2000000 {
        return u64_string(0);
    }
    // a point counts when it is the first of its kind and repeats
    let ghost gpts = pts@;
    let mut count: u64 = 0;
    let mut a: usize = 0;
    while a < pts.len()
        invariant
            gpts == pts@,
            a <= gpts.len(),
            gpts.len() <= 2000000,
            count == overlap_count(gpts, a as int),
            count <= a,
        decreases gpts.len() - a,
    {
        let p = pts[a];
        let mut earlier = false;
        let mut b: usize = 0;
        while b < a
            invariant
                gpts == pts@,
                b <= a,
                a < gpts.len(),
                p == gpts[a as int],
                earlier == exists|j: int| 0 <= j < b && #[trigger] gpts[j] == gpts[a as int],
            decreases a - b,
        {
            let q = pts[b];
            if q.x == p.x && q.y == p.y {
                proof {
                    assert(gpts[b as int] == gpts[a as int]);
                }
                earlier = true;
            }
            proof {
                if !earlier {
                    assert(gpts[b as int] != gpts[a as int] || earlier);
                }
            }
            b = b + 1;
        }
        if !earlier {
            let mut later = false;
            let mut c: usize = a + 1;
            while c < pts.len()
                invariant
                    gpts == pts@,
                    a < c || c == a + 1,
                    c <= gpts.len(),
                    a < gpts.len(),
                    p == gpts[a as int],
                    later == exists|j: int|
                        a < j < c && #[trigger] gpts[j] == gpts[a as int],
                decreases gpts.len() - c,
            {
                let q = pts[c];
                if q.x == p.x && q.y == p.y {
                    proof {
                        assert(gpts[c as int] == gpts[a as int]);
                    }
                    later = true;
                }
                proof {
                    if !later {
                        assert(gpts[c as int] != gpts[a as int] || later);
                    }
                }
                c = c + 1;
            }
            if later {
                count = count + 1;
            }
        }
        a = a + 1;
    }
    u64_string(count)
}

/// Counts the points where at least two axis-aligned lines overlap.
pub fn puzzle_1(input: &str) -> (r: String)
    ensures
        !vents_ok(input.spec_bytes()) ==> r@ == dec_digits(0),
        vents_ok(input.spec_bytes()) ==> overlap_answer(
            aligned_of(vents_of(split_spec(input.spec_bytes(), 10))),
            r@,
        ),
{
    match parse_lines(input.as_bytes()) {
        None => u64_string(0),
        Some(all) => {
            let mut grid_aligned: Vec<Line2> = Vec::new();
            let mut i: usize = 0;
            proof {
                assert(grid_aligned@ =~= aligned_of(all@.take(0)));
            }
            while i < all.len()
                invariant
                    i <= all@.len(),
                    all@.len() <= 10000,
                    lines_in_bounds(all@),
                    grid_aligned@ == aligned_of(all@.take(i as int)),
                    grid_aligned@.len() <= i,
                    lines_in_bounds(grid_aligned@),
                decreases all@.len() - i,
            {
                proof {
                    assert(all@.take(i + 1).drop_last() =~= all@.take(i as int));
                    assert(all@.take(i + 1).last() == all@[i as int]);
                }
                let l = all[i];
                if l.start.x == l.end.x || l.start.y == l.end.y {
                    grid_aligned.push(l);
                    proof {
                        assert(grid_aligned@ =~= aligned_of(all@.take(i + 1)));
                    }
                } else {
                    proof {
                        assert(grid_aligned@ =~= aligned_of(all@.take(i + 1)));
                    }
                }
                i = i + 1;
            }
            proof {
                assert(all@.take(all@.len() as int) =~= all@);
            }
            count_overlaps(&grid_aligned)
        },
    }
}

/// Counts the points where at least two lines overlap, diagonals
/// included.
pub fn puzzle_2(input: &str) -> (r: String)
    ensures
        !vents_ok(input.spec_bytes()) ==> r@ == dec_digits(0),
        vents_ok(input.spec_bytes()) ==> overlap_answer(
            vents_of(split_spec(input.spec_bytes(), 10)),
            r@,
        ),
{
    match parse_lines(input.as_bytes()) {
        None => u64_string(0),
        Some(all) => count_overlaps(&all),
    }
}

} // verus!

//! The corners of a rectilinear polygon. The first puzzle finds the
//! largest rectangle spanned by two corners; the second finds the
//! largest such rectangle lying entirely inside the polygon, testing
//! each rectangle's perimeter point by point with a winding count.

use vstd::prelude::*;

use crate::geometry::Line2;
use crate::geometry::Point2;
use crate::numfmt::dec_digits;
use crate::numfmt::u64_string;
use crate::scan::find_byte;
use crate::scan::parse_i64;
use crate::scan::split_bytes;

verus! {

/// The spanned rectangle's area, counting both boundary columns and
/// rows.
pub open spec fn area_spec(a: Point2, b: Point2) -> int {
    (crate::geometry::abs_diff(a.x as int, b.x as int) + 1) * (crate::geometry::abs_diff(
        a.y as int,
        b.y as int,
    ) + 1)
}

/// The rectangle area spanned by two corners.
pub fn area(lhs: &Point2, rhs: &Point2) -> (r: u64)
    requires
        -1000000 <= lhs.x <= 1000000,
        -1000000 <= lhs.y <= 1000000,
        -1000000 <= rhs.x <= 1000000,
        -1000000 <= rhs.y <= 1000000,
    ensures
        r as int == area_spec(*lhs, *rhs),
{
    let dx = if lhs.x >= rhs.x {
        lhs.x - rhs.x
    } else {
        rhs.x - lhs.x
    };
    let dy = if lhs.y >= rhs.y {
        lhs.y - rhs.y
    } else {
        rhs.y - lhs.y
    };
    proof {
        assert((dx + 1) * (dy + 1) <= 2000001 * 2000001) by (nonlinear_arith)
            requires
                0 <= dx <= 2000000,
                0 <= dy <= 2000000,
        ;
        assert((dx + 1) * (dy + 1) >= 1) by (nonlinear_arith)
            requires
                dx >= 0,
                dy >= 0,
        ;
    }
    ((dx + 1) as u64) * ((dy + 1) as u64)
}

/// The winding scan over the first `k` polygon edges: whether the
/// point was found on an edge, and the crossing count so far.
pub open spec fn winding_scan(p: Point2, ml: Seq<Point2>, k: int) -> (bool, int)
    decreases k,
{
    if k <= 0 || k >= ml.len() {
        (false, 0)
    } else {
        let prev = winding_scan(p, ml, k - 1);
        if prev.0 {
            prev
        } else {
            let a = ml[k - 1];
            let b = ml[k];
            let is_horizontal = a.y == b.y;
            if a.x < p.x && !is_horizontal {
                prev
            } else {
                let same_y = (if a.y <= b.y {
                    a.y <= p.y && p.y <= b.y
                } else {
                    b.y <= p.y && p.y <= a.y
                });
                let same_x = (if a.x <= b.x {
                    a.x <= p.x && p.x <= b.x
                } else {
                    b.x <= p.x && p.x <= a.x
                });
                if same_y && same_x {
                    (true, prev.1)
                } else if same_y && !is_horizontal {
                    (false, prev.1 + 1)
                } else {
                    prev
                }
            }
        }
    }
}

/// Whether the point lies inside the closed polygon: on an edge, or
/// with an odd crossing count.
pub open spec fn inside_spec(p: Point2, ml: Seq<Point2>) -> bool {
    let s = winding_scan(p, ml, ml.len() - 1);
    s.0 || s.1 % 2 == 1
}

/// Whether `point` lies inside the polygon drawn by `multiline`,
/// which must repeat its first corner at the end.
pub fn is_inside(point: &Point2, multiline: &Vec<Point2>) -> (r: bool)
    ensures
        r == inside_spec(*point, multiline@),
{
    let mut wn: u64 = 0;
    let mut k: usize = 1;
    if multiline.len() == 0 {
        proof {
            assert(winding_scan(*point, multiline@, multiline@.len() - 1) == (false, 0int));
        }
        return false;
    }
    while k < multiline.len()
        invariant
            1 <= k <= multiline@.len() || multiline@.len() == 0,
            multiline@.len() >= 1,
            winding_scan(*point, multiline@, k - 1) == (false, wn as int),
            wn < k,
        decreases multiline@.len() - k,
    {
        let a = multiline[k - 1];
        let b = multiline[k];
        let is_horizontal = a.y == b.y;
        if !(a.x < point.x && !is_horizontal) {
            let same_y = if a.y <= b.y {
                a.y <= point.y && point.y <= b.y
            } else {
                b.y <= point.y && point.y <= a.y
            };
            let same_x = if a.x <= b.x {
                a.x <= point.x && point.x <= b.x
            } else {
                b.x <= point.x && point.x <= a.x
            };
            if same_y && same_x {
                proof {
                    assert(winding_scan(*point, multiline@, k as int) == (true, wn as int));
                    lemma_scan_sticky(*point, multiline@, k as int, multiline@.len() - 1);
                }
                return true;
            }
            if same_y && !is_horizontal {
                wn = wn + 1;
            }
        }
        k = k + 1;
    }
    proof {
        assert(winding_scan(*point, multiline@, multiline@.len() - 1) == (false, wn as int));
    }
    wn % 2 == 1
}

/// Once an edge holds the point, the scan keeps reporting it.
proof fn lemma_scan_sticky(p: Point2, ml: Seq<Point2>, k: int, n: int)
    requires
        0 <= k <= n < ml.len(),
        winding_scan(p, ml, k).0,
    ensures
        winding_scan(p, ml, n).0,
    decreases n - k,
{
    if k < n {
        lemma_scan_sticky(p, ml, k + 1, n);
    }
}

/// Whether the whole rectangle spanned by the two corners lies inside
/// the polygon, tested along its perimeter.
pub fn is_totally_inside(point_a: &Point2, point_b: &Point2, multiline: &Vec<Point2>) -> (r:
    bool)
    requires
        -1000000 <= point_a.x <= 1000000,
        -1000000 <= point_a.y <= 1000000,
        -1000000 <= point_b.x <= 1000000,
        -1000000 <= point_b.y <= 1000000,
{
    let perimeter: [Line2; 4] = [
        Line2 {
            start: Point2 { x: point_a.x, y: point_a.y },
            end: Point2 { x: point_a.x, y: point_b.y },
        },
        Line2 {
            start: Point2 { x: point_a.x, y: point_b.y },
            end: Point2 { x: point_b.x, y: point_b.y },
        },
        Line2 {
            start: Point2 { x: point_b.x, y: point_b.y },
            end: Point2 { x: point_b.x, y: point_a.y },
        },
        Line2 {
            start: Point2 { x: point_b.x, y: point_a.y },
            end: Point2 { x: point_a.x, y: point_a.y },
        },
    ];
    let mut s: usize = 0;
    while s < 4
        invariant
            s <= 4,
            forall|i: int|
                0 <= i < 4 ==> {
                    &&& -1000000 <= (#[trigger] perimeter@[i]).start.x <= 1000000
                    &&& -1000000 <= perimeter@[i].start.y <= 1000000
                    &&& -1000000 <= perimeter@[i].end.x <= 1000000
                    &&& -1000000 <= perimeter@[i].end.y <= 1000000
                },
        decreases 4 - s,
    {
        let pts = perimeter[s].points();
        let mut j: usize = 0;
        while j < pts.len()
            invariant
                j <= pts@.len(),
            decreases pts@.len() - j,
        {
            if !is_inside(&pts[j], multiline) {
                return false;
            }
            j = j + 1;
        }
        s = s + 1;
    }
    true
}

/// Reads the polygon corners, one `x,y` per line.
fn load_input(input: &[u8]) -> (r: Option<Vec<Point2>>)
    ensures
        r matches Some(ps) ==> ps@.len() <= 10000 && forall|i: int|
            0 <= i < ps@.len() ==> -1000000 <= (#[trigger] ps@[i]).x <= 1000000 && -1000000
                <= ps@[i].y <= 1000000,
{
    let lines = split_bytes(input, 10);
    let mut out: Vec<Point2> = Vec::new();
    let mut i: usize = 0;
    while i < lines.len()
        invariant
            i <= lines@.len(),
            out@.len() <= i,
            forall|j: int|
                0 <= j < out@.len() ==> -1000000 <= (#[trigger] out@[j]).x <= 1000000
                    && -1000000 <= out@[j].y <= 1000000,
        decreases lines@.len() - i,
    {
        let line = &lines[i];
        if line.len() > 0 {
            let n = line.len();
            let comma = match find_byte(line.as_slice(), 0, 44) {
                Some(c) => c,
                None => {
                    return None;
                },
            };
            let xs = vstd::slice::slice_subrange(line.as_slice(), 0, comma);
            let ys = vstd::slice::slice_subrange(line.as_slice(), comma + 1, n);
            let x = match parse_i64(xs) {
                Some(v) if -1000000 <= v && v <= 1000000 => v,
                _ => {
                    return None;
                },
            };
            let y = match parse_i64(ys) {
                Some(v) if -1000000 <= v && v <= 1000000 => v,
                _ => {
                    return None;
                },
            };
            out.push(Point2 { x, y });
        }
        i = i + 1;
    }
    if out.len() > 10000 {
        return None;
    }
    Some(out)
}

/// The largest rectangle area spanned by any two corners.
pub fn puzzle_1(input: &str) -> (r: String)
    ensures
        exists|v: nat| r@ == dec_digits(v),
{
    match load_input(input.as_bytes()) {
        None => u64_string(0),
        Some(points) => {
            let mut best: u64 = 0;
            let mut i: usize = 0;
            while i < points.len()
                invariant
                    i <= points@.len(),
                    forall|j: int|
                        0 <= j < points@.len() ==> -1000000 <= (#[trigger] points@[j]).x
                            <= 1000000 && -1000000 <= points@[j].y <= 1000000,
                decreases points@.len() - i,
            {
                let mut j: usize = 0;
                while j < points.len()
                    invariant
                        i < points@.len(),
                        j <= points@.len(),
                        forall|k: int|
                            0 <= k < points@.len() ==> -1000000 <= (#[trigger] points@[k]).x
                                <= 1000000 && -1000000 <= points@[k].y <= 1000000,
                    decreases points@.len() - j,
                {
                    let v = area(&points[i], &points[j]);
                    if v > best {
                        best = v;
                    }
                    j = j + 1;
                }
                i = i + 1;
            }
            u64_string(best)
        },
    }
}

/// The largest rectangle area spanned by two corners and lying wholly
/// inside the polygon.
pub fn puzzle_2(input: &str) -> (r: String)
    ensures
        exists|v: nat| r@ == dec_digits(v),
{
    match load_input(input.as_bytes()) {
        None => u64_string(0),
        Some(points) => {
            if points.len() == 0 {
                return u64_string(0);
            }
            // the closed perimeter repeats the first corner
            let mut perimeter: Vec<Point2> = Vec::new();
            let mut c: usize = 0;
            while c < points.len()
                invariant
                    c <= points@.len(),
                    perimeter@.len() == c,
                decreases points@.len() - c,
            {
                perimeter.push(points[c]);
                c = c + 1;
            }
            perimeter.push(points[0]);
            let mut best: u64 = 0;
            let mut i: usize = 0;
            while i < points.len()
                invariant
                    i <= points@.len(),
                    forall|j: int|
                        0 <= j < points@.len() ==> -1000000 <= (#[trigger] points@[j]).x
                            <= 1000000 && -1000000 <= points@[j].y <= 1000000,
                decreases points@.len() - i,
            {
                let mut j: usize = 0;
                while j < points.len()
                    invariant
                        i < points@.len(),
                        j <= points@.len(),
                        forall|k: int|
                            0 <= k < points@.len() ==> -1000000 <= (#[trigger] points@[k]).x
                                <= 1000000 && -1000000 <= points@[k].y <= 1000000,
                    decreases points@.len() - j,
                {
                    let a = points[i];
                    let b = points[j];
                    let v = area(&a, &b);
                    if v > best && is_totally_inside(&a, &b, &perimeter) {
                        best = v;
                    }
                    j = j + 1;
                }
                i = i + 1;
            }
            u64_string(best)
        },
    }
}

} // verus!

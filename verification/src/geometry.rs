//! Plane geometry on integer coordinates: points, vectors and line
//! segments walked point by point.

use vstd::prelude::*;

verus! {

/// The absolute difference of two integers.
pub open spec fn abs_diff(a: int, b: int) -> int {
    if a >= b {
        a - b
    } else {
        b - a
    }
}

/// A point (or vector) in the integer plane.
#[derive(Debug, PartialEq, Eq, Structural, Clone, Copy)]
pub struct Point2 {
    pub x: i64,
    pub y: i64,
}

/// A vector in the integer plane.
pub type Vector2 = Point2;

impl Point2 {
    /// The unit vector along the x axis.
    pub fn unit_x() -> (r: Point2)
        ensures
            r.x == 1 && r.y == 0,
    {
        Point2 { x: 1, y: 0 }
    }

    /// The unit vector along the y axis.
    pub fn unit_y() -> (r: Point2)
        ensures
            r.x == 0 && r.y == 1,
    {
        Point2 { x: 0, y: 1 }
    }

    /// The taxicab norm.
    pub fn norm_1(&self) -> (r: i64)
        requires
            -1000000000 <= self.x <= 1000000000,
            -1000000000 <= self.y <= 1000000000,
        ensures
            r == abs_diff(self.x as int, 0) + abs_diff(self.y as int, 0),
    {
        let ax = if self.x >= 0 {
            self.x
        } else {
            -self.x
        };
        let ay = if self.y >= 0 {
            self.y
        } else {
            -self.y
        };
        ax + ay
    }

    /// The taxicab distance to `rhs`.
    pub fn distance_1(&self, rhs: &Point2) -> (r: i64)
        requires
            -1000000000 <= self.x <= 1000000000,
            -1000000000 <= self.y <= 1000000000,
            -1000000000 <= rhs.x <= 1000000000,
            -1000000000 <= rhs.y <= 1000000000,
        ensures
            r == abs_diff(self.x as int, rhs.x as int) + abs_diff(self.y as int, rhs.y as int),
    {
        let dx = if self.x >= rhs.x {
            self.x - rhs.x
        } else {
            rhs.x - self.x
        };
        let dy = if self.y >= rhs.y {
            self.y - rhs.y
        } else {
            rhs.y - self.y
        };
        dx + dy
    }
}

/// A line segment between two points.
#[derive(Debug, PartialEq, Eq, Structural, Clone, Copy)]
pub struct Line2 {
    pub start: Point2,
    pub end: Point2,
}

/// The greatest common divisor, by euclidean reduction.
pub open spec fn gcd_spec(a: int, b: int) -> int
    decreases (if b >= 0 {
        b
    } else {
        0int
    }),
{
    if b <= 0 {
        a
    } else {
        gcd_spec(b, a % b)
    }
}

/// The greatest common divisor of two magnitudes.
fn gcd_u64(a: u64, b: u64) -> (r: u64)
    ensures
        r as int == gcd_spec(a as int, b as int),
        (a >= 1 || b >= 1) ==> r >= 1,
    decreases b,
{
    if b == 0 {
        a
    } else {
        gcd_u64(b, a % b)
    }
}

impl Line2 {
    /// The taxicab length between the endpoints.
    pub fn length_1(&self) -> (r: i64)
        requires
            -1000000000 <= self.start.x <= 1000000000,
            -1000000000 <= self.start.y <= 1000000000,
            -1000000000 <= self.end.x <= 1000000000,
            -1000000000 <= self.end.y <= 1000000000,
    {
        self.start.distance_1(&self.end)
    }

    /// The unit step from start towards end: axis steps for grid
    /// aligned segments, the reduced direction otherwise.
    pub fn step(&self) -> (r: Vector2)
        requires
            -1000000 <= self.start.x <= 1000000,
            -1000000 <= self.start.y <= 1000000,
            -1000000 <= self.end.x <= 1000000,
            -1000000 <= self.end.y <= 1000000,
        ensures
            -2000000 <= r.x <= 2000000,
            -2000000 <= r.y <= 2000000,
            r == step_spec(*self),
    {
        let dx = self.end.x - self.start.x;
        let dy = self.end.y - self.start.y;
        if dx == 0 || dy == 0 {
            let sx: i64 = if dx > 0 {
                1
            } else if dx < 0 {
                -1
            } else {
                0
            };
            let sy: i64 = if dy > 0 {
                1
            } else if dy < 0 {
                -1
            } else {
                0
            };
            Point2 { x: sx, y: sy }
        } else {
            let ax: u64 = if dx >= 0 {
                dx as u64
            } else {
                (-dx) as u64
            };
            let ay: u64 = if dy >= 0 {
                dy as u64
            } else {
                (-dy) as u64
            };
            let g = gcd_u64(ax, ay);
            let qx = ax / g;
            let qy = ay / g;
            proof {
                vstd::arithmetic::div_mod::lemma_fundamental_div_mod(ax as int, g as int);
                vstd::arithmetic::div_mod::lemma_fundamental_div_mod(ay as int, g as int);
                assert(qx <= ax && qy <= ay) by (nonlinear_arith)
                    requires
                        g >= 1,
                        ax as int == (g as int) * (qx as int) + (ax as int) % (g as int),
                        ay as int == (g as int) * (qy as int) + (ay as int) % (g as int),
                        0 <= (ax as int) % (g as int),
                        0 <= (ay as int) % (g as int),
                        qx >= 0,
                        qy >= 0,
                ;
            }
            let x: i64 = if dx >= 0 {
                qx as i64
            } else {
                -(qx as i64)
            };
            let y: i64 = if dy >= 0 {
                qy as i64
            } else {
                -(qy as i64)
            };
            Point2 { x, y }
        }
    }

    /// The points of the segment from start to end inclusive, walking
    /// by the unit step. A segment whose step does not land exactly on
    /// the end yields the points up to the last one before it.
    pub fn points(&self) -> (r: Vec<Point2>)
        requires
            -1000000 <= self.start.x <= 1000000,
            -1000000 <= self.start.y <= 1000000,
            -1000000 <= self.end.x <= 1000000,
            -1000000 <= self.end.y <= 1000000,
        ensures
            r@ == points_spec(*self),
            forall|i: int|
                0 <= i < r@.len() ==> -5000000 <= (#[trigger] r@[i]).x <= 5000000 && -5000000
                    <= r@[i].y <= 5000000,
    {
        let step = self.step();
        let mut r: Vec<Point2> = Vec::new();
        if step.x == 0 && step.y == 0 {
            proof {
                assert(r@ =~= points_spec(*self));
            }
            return r;
        }
        let mut p = self.start;
        let mut fuel: u64 = 4000001;
        while fuel > 0
            invariant
                step == step_spec(*self),
                -2000000 <= step.x <= 2000000,
                -2000000 <= step.y <= 2000000,
                -5000000 <= p.x <= 5000000,
                -5000000 <= p.y <= 5000000,
                -1000000 <= self.end.x <= 1000000,
                -1000000 <= self.end.y <= 1000000,
                fuel <= 4000001,
                points_spec(*self) == r@ + walk_spec(p, step, self.end, fuel as int),
                forall|i: int|
                    0 <= i < r@.len() ==> -5000000 <= (#[trigger] r@[i]).x <= 5000000
                        && -5000000 <= r@[i].y <= 5000000,
            decreases fuel,
        {
            r.push(p);
            if p.x == self.end.x && p.y == self.end.y {
                proof {
                    assert(points_spec(*self) =~= r@);
                }
                return r;
            }
            if p.x + step.x > 5000000 || p.x + step.x < -5000000 || p.y + step.y > 5000000
                || p.y + step.y < -5000000 {
                proof {
                    assert(points_spec(*self) =~= r@);
                }
                return r;
            }
            proof {
                assert(points_spec(*self) =~= (r@ + walk_spec(
                    Point2 { x: (p.x + step.x) as i64, y: (p.y + step.y) as i64 },
                    step,
                    self.end,
                    fuel as int - 1,
                )));
            }
            p = Point2 { x: p.x + step.x, y: p.y + step.y };
            fuel = fuel - 1;
        }
        proof {
            assert(points_spec(*self) =~= r@);
        }
        r
    }
}

/// The unit step of a segment: axis signs for grid aligned segments,
/// the direction reduced by the greatest common divisor otherwise.
pub open spec fn step_spec(l: Line2) -> Vector2 {
    let dx = l.end.x - l.start.x;
    let dy = l.end.y - l.start.y;
    if dx == 0 || dy == 0 {
        Point2 {
            x: (if dx > 0 {
                1int
            } else if dx < 0 {
                -1int
            } else {
                0int
            }) as i64,
            y: (if dy > 0 {
                1int
            } else if dy < 0 {
                -1int
            } else {
                0int
            }) as i64,
        }
    } else {
        let ax = if dx >= 0 {
            dx
        } else {
            -dx
        };
        let ay = if dy >= 0 {
            dy
        } else {
            -dy
        };
        let g = gcd_spec(ax, ay);
        let qx = ax / g;
        let qy = ay / g;
        Point2 {
            x: (if dx >= 0 {
                qx
            } else {
                -qx
            }) as i64,
            y: (if dy >= 0 {
                qy
            } else {
                -qy
            }) as i64,
        }
    }
}

/// The walked points from `p` towards `end` by `step`, each step
/// bounded, ending at `end`, at the walking bounds, or when the fuel
/// runs out.
pub open spec fn walk_spec(p: Point2, step: Vector2, end: Point2, fuel: int) -> Seq<Point2>
    decreases fuel,
{
    if fuel <= 0 {
        Seq::empty()
    } else {
        seq![p] + (if p.x == end.x && p.y == end.y {
            Seq::<Point2>::empty()
        } else if p.x + step.x > 5000000 || p.x + step.x < -5000000 || p.y + step.y > 5000000
            || p.y + step.y < -5000000 {
            Seq::<Point2>::empty()
        } else {
            walk_spec(
                Point2 { x: (p.x + step.x) as i64, y: (p.y + step.y) as i64 },
                step,
                end,
                fuel - 1,
            )
        })
    }
}

/// The points of a segment: empty when it is a single repeated point,
/// the walk from its start otherwise.
pub open spec fn points_spec(l: Line2) -> Seq<Point2> {
    let s = step_spec(l);
    if s.x == 0 && s.y == 0 {
        Seq::empty()
    } else {
        walk_spec(l.start, s, l.end, 4000001)
    }
}

} // verus!

//! A rope of knots on a grid. The head follows the commands one step
//! at a time and every knot is pulled after its predecessor whenever
//! it falls more than one step behind. The puzzles count the distinct
//! positions the tail visits, for a rope of two and of ten knots.

use vstd::prelude::*;

use crate::geometry::Point2;
use crate::geometry::Vector2;
use crate::numfmt::dec_digits;
use crate::numfmt::u64_string;
use crate::scan::find_byte;
use crate::scan::parse_u64;
use crate::scan::split_bytes;
use crate::scan::split_spec;
use crate::scan::is_numeral;
use crate::scan::dec_val;
use vstd::string::StringSliceAdditionalSpecFns;

verus! {

/// Every knot stays within the playing bounds.
pub open spec fn knots_ok(ks: Seq<Point2>) -> bool {
    forall|i: int|
        0 <= i < ks.len() ==> -1000000000000 <= (#[trigger] ks[i]).x <= 1000000000000
            && -1000000000000 <= ks[i].y <= 1000000000000
}

/// The rope: the head first, the tail last.
pub struct Rope {
    pub knots: Vec<Point2>,
}

impl Rope {
    /// A rope of `knots` knots, all at the starting position.
    pub fn new(knots: usize, starting_pos: Point2) -> (r: Rope)
        requires
            knots <= 100,
        ensures
            r.knots@.len() == knots,
            forall|i: int| 0 <= i < r.knots@.len() ==> #[trigger] r.knots@[i] == starting_pos,
    {
        let mut ks: Vec<Point2> = Vec::new();
        let mut i: usize = 0;
        while i < knots
            invariant
                i <= knots,
                ks@.len() == i,
                forall|j: int| 0 <= j < i ==> #[trigger] ks@[j] == starting_pos,
            decreases knots - i,
        {
            ks.push(starting_pos);
            i = i + 1;
        }
        Rope { knots: ks }
    }

    /// The tail knot, if the rope has any knot.
    pub fn get_tail(&self) -> (r: Option<&Point2>)
        ensures
            match r {
                Some(p) => self.knots@.len() > 0 && *p == self.knots@[self.knots@.len() - 1],
                None => self.knots@.len() == 0,
            },
    {
        if self.knots.len() == 0 {
            None
        } else {
            Some(&self.knots[self.knots.len() - 1])
        }
    }

    /// Moves the head along `vector` one unit at a time, dragging the
    /// rest of the rope; returns the positions the tail visited, in
    /// order, one for each step in which the tail actually moved.
    pub fn move_head(&mut self, vector: Vector2) -> (tail_moves: Vec<Point2>)
        requires
            knots_ok(old(self).knots@),
            -1000000 <= vector.x <= 1000000,
            -1000000 <= vector.y <= 1000000,
        ensures
            final(self).knots@.len() == old(self).knots@.len(),
            forall|i: int|
                0 <= i < final(self).knots@.len() ==> -1001000000000
                    <= (#[trigger] final(self).knots@[i]).x <= 1001000000000
                    && -1001000000000 <= final(self).knots@[i].y <= 1001000000000,
            ({
                let d = abs_i(vector.x as int) + abs_i(vector.y as int);
                let sx = if d == 0 {
                    0int
                } else {
                    tdiv(vector.x as int, d)
                };
                let sy = if d == 0 {
                    0int
                } else {
                    tdiv(vector.y as int, d)
                };
                let r = run_steps(old(self).knots@, sx, sy, d);
                &&& old(self).knots@.len() == 0 ==> final(self).knots@ == old(self).knots@
                    && tail_moves@ == Seq::<Point2>::empty()
                &&& old(self).knots@.len() > 0 ==> final(self).knots@ == r.0 && tail_moves@
                    == r.1
            }),
    {
        let mut tail_moves: Vec<Point2> = Vec::new();
        let ax = if vector.x >= 0 {
            vector.x
        } else {
            -vector.x
        };
        let ay = if vector.y >= 0 {
            vector.y
        } else {
            -vector.y
        };
        let distance = ax + ay;
        if distance == 0 || self.knots.len() == 0 {
            proof {
                assert(forall|i: int|
                    0 <= i < self.knots@.len() ==> -1001000000000 <= (
                    #[trigger] self.knots@[i]).x <= 1001000000000 && -1001000000000
                        <= self.knots@[i].y <= 1001000000000);
                if self.knots@.len() > 0 {
                    assert(run_steps(
                        self.knots@,
                        0int,
                        0int,
                        0int,
                    ) == (self.knots@, Seq::<Point2>::empty()));
                }
                assert(tail_moves@ =~= Seq::<Point2>::empty());
            }
            return tail_moves;
        }
        let sx = vector.x / distance;
        let sy = vector.y / distance;
        proof {
            assert(sx as int == tdiv(vector.x as int, distance as int));
            assert(sy as int == tdiv(vector.y as int, distance as int));
            // the full walk never drifts further than the vector itself
            lemma_step_bound(vector.x as int, distance as int);
            lemma_step_bound(vector.y as int, distance as int);
        }
        let n = self.knots.len();
        let ghost orig = self.knots@;
        let ghost gsx = sx as int;
        let ghost gsy = sy as int;
        let ghost gd = distance as int;
        let mut step: i64 = 0;
        while step < distance
            invariant
                self.knots@.len() == n,
                n == orig.len(),
                n >= 1,
                0 <= step <= distance,
                distance == gd,
                0 < gd <= 2000000,
                sx as int == gsx,
                sy as int == gsy,
                -1000000 <= gsx <= 1000000,
                -1000000 <= gsy <= 1000000,
                -1000000 <= gd * gsx <= 1000000,
                -1000000 <= gd * gsy <= 1000000,
                knots_ok(orig),
                self.knots@[0].x as int == orig[0].x + step * gsx,
                self.knots@[0].y as int == orig[0].y + step * gsy,
                forall|i: int|
                    0 <= i < self.knots@.len() ==> -1001000000000 <= (
                    #[trigger] self.knots@[i]).x <= 1001000000000 && -1001000000000
                        <= self.knots@[i].y <= 1001000000000,
                run_steps(orig, gsx, gsy, gd).0 == run_steps(
                    self.knots@,
                    gsx,
                    gsy,
                    gd - step,
                ).0,
                run_steps(orig, gsx, gsy, gd).1 == tail_moves@ + run_steps(
                    self.knots@,
                    gsx,
                    gsy,
                    gd - step,
                ).1,
            decreases distance - step,
        {
            let ghost pre_step = self.knots@;
            let ghost pre_tails = tail_moves@;
            proof {
                assert(-1000000 <= (step + 1) * gsx <= 1000000) by (nonlinear_arith)
                    requires
                        0 <= step + 1 <= gd,
                        -1000000 <= gd * gsx <= 1000000,
                ;
                assert(-1000000 <= (step + 1) * gsy <= 1000000) by (nonlinear_arith)
                    requires
                        0 <= step + 1 <= gd,
                        -1000000 <= gd * gsy <= 1000000,
                ;
                assert((step + 1) * gsx == step * gsx + gsx) by (nonlinear_arith);
                assert((step + 1) * gsy == step * gsy + gsy) by (nonlinear_arith);
                assert(-1000000 <= step * gsx <= 1000000) by (nonlinear_arith)
                    requires
                        0 <= step <= gd,
                        -1000000 <= gd * gsx <= 1000000,
                ;
                assert(-1000000 <= step * gsy <= 1000000) by (nonlinear_arith)
                    requires
                        0 <= step <= gd,
                        -1000000 <= gd * gsy <= 1000000,
                ;
            }
            let head = self.knots[0];
            let moved = Point2 { x: head.x + sx, y: head.y + sy };
            let mut old_head = self.knots.remove(0);
            old_head = moved;
            self.knots.insert(0, old_head);
            let ghost base = self.knots@;
            proof {
                assert(base =~= pre_step.update(
                    0,
                    Point2 {
                        x: (pre_step[0].x + gsx) as i64,
                        y: (pre_step[0].y + gsy) as i64,
                    },
                ));
            }
            let mut id: usize = 1;
            while id < n
                invariant
                    self.knots@.len() == n,
                    n >= 1,
                    1 <= id <= n,
                    base.len() == n,
                    pre_step.len() == n,
                    self.knots@[0] == base[0],
                    forall|i: int|
                        0 <= i < self.knots@.len() ==> -1001000000000 <= (
                        #[trigger] self.knots@[i]).x <= 1001000000000 && -1001000000000
                            <= self.knots@[i].y <= 1001000000000,
                    settle_chain(base, 1) == settle_chain(self.knots@, id as int),
                    tail_moves@ == pre_tails + tail_delta(pre_step, self.knots@),
                    id <= n - 1 ==> self.knots@[n - 1] == pre_step[n - 1] && tail_moves@
                        == pre_tails,
                decreases n - id,
            {
                let ghost pre_iter = self.knots@;
                let last_knot = self.knots[id - 1];
                let cur = self.knots[id];
                let dx = last_knot.x - cur.x;
                let dy = last_knot.y - cur.y;
                let adx = if dx >= 0 {
                    dx
                } else {
                    -dx
                };
                let ady = if dy >= 0 {
                    dy
                } else {
                    -dy
                };
                let m = if adx >= ady {
                    adx
                } else {
                    ady
                };
                if m > 1 {
                    let ux: i64 = if dx > 0 {
                        1
                    } else if dx < 0 {
                        -1
                    } else {
                        0
                    };
                    let uy: i64 = if dy > 0 {
                        1
                    } else if dy < 0 {
                        -1
                    } else {
                        0
                    };
                    let mut knot = self.knots.remove(id);
                    knot = Point2 { x: knot.x + ux, y: knot.y + uy };
                    proof {
                        // the follower steps towards its predecessor,
                        // so it stays within both knots' bounds
                        assert(knot == follow(last_knot, cur));
                        assert(knot != cur);
                    }
                    self.knots.insert(id, knot);
                    proof {
                        assert(self.knots@ =~= pre_iter.update(
                            id as int,
                            follow(pre_iter[id - 1], pre_iter[id as int]),
                        ));
                        assert(settle_chain(pre_iter, id as int) == settle_chain(
                            self.knots@,
                            id + 1,
                        ));
                    }
                    if id == n - 1 {
                        tail_moves.push(knot);
                        proof {
                            assert(cur == pre_step[n - 1]);
                            assert(tail_delta(pre_step, self.knots@) =~= seq![knot]);
                            assert(tail_moves@ =~= pre_tails + tail_delta(
                                pre_step,
                                self.knots@,
                            ));
                        }
                    } else {
                        proof {
                            assert(self.knots@[n - 1] == pre_step[n - 1]);
                            assert(tail_delta(pre_step, self.knots@) =~= Seq::<
                                Point2,
                            >::empty());
                            assert(tail_moves@ =~= pre_tails + tail_delta(
                                pre_step,
                                self.knots@,
                            ));
                        }
                    }
                } else {
                    proof {
                        assert(follow(last_knot, cur) == cur);
                        assert(pre_iter.update(id as int, follow(pre_iter[id - 1], pre_iter[id as int]))
                            =~= pre_iter);
                        assert(settle_chain(pre_iter, id as int) == settle_chain(
                            pre_iter,
                            id + 1,
                        ));
                    }
                }
                id = id + 1;
            }
            proof {
                assert(settle_chain(self.knots@, n as int) == self.knots@);
                assert(self.knots@ == head_step(pre_step, gsx, gsy));
                assert(run_steps(pre_step, gsx, gsy, gd - step) == (
                    run_steps(self.knots@, gsx, gsy, gd - step - 1).0,
                    tail_delta(pre_step, self.knots@) + run_steps(
                        self.knots@,
                        gsx,
                        gsy,
                        gd - step - 1,
                    ).1,
                ));
                assert(run_steps(orig, gsx, gsy, gd).1 =~= tail_moves@ + run_steps(
                    self.knots@,
                    gsx,
                    gsy,
                    gd - step - 1,
                ).1);
            }
            step = step + 1;
        }
        proof {
            assert(run_steps(self.knots@, gsx, gsy, 0) == (
                self.knots@,
                Seq::<Point2>::empty(),
            ));
            assert(run_steps(orig, gsx, gsy, gd).1 =~= tail_moves@);
        }
        tail_moves
    }
}

/// The magnitude of an integer.
pub open spec fn abs_i(v: int) -> int {
    if v >= 0 {
        v
    } else {
        -v
    }
}

/// The quotient rounded towards zero, as machine division computes it.
pub open spec fn tdiv(a: int, d: int) -> int {
    if a >= 0 {
        a / d
    } else {
        -((-a) / d)
    }
}

/// The whole walk of `d` unit steps of `tdiv(v, d)` each stays within
/// the magnitude of `v`.
proof fn lemma_step_bound(v: int, d: int)
    requires
        d >= 1,
        -1000000 <= v <= 1000000,
    ensures
        -1000000 <= d * tdiv(v, d) <= 1000000,
{
    if v >= 0 {
        vstd::arithmetic::div_mod::lemma_fundamental_div_mod(v, d);
        vstd::arithmetic::div_mod::lemma_mod_bound(v, d);
        assert(d * tdiv(v, d) == v - v % d);
    } else {
        vstd::arithmetic::div_mod::lemma_fundamental_div_mod(-v, d);
        vstd::arithmetic::div_mod::lemma_mod_bound(-v, d);
        let q = (-v) / d;
        assert(d * q == -v - (-v) % d);
        assert(d * tdiv(v, d) == -(d * q)) by (nonlinear_arith)
            requires
                tdiv(v, d) == -q,
        ;
    }
}

/// The sign of an integer.
pub open spec fn sign(v: int) -> int {
    if v > 0 {
        1
    } else if v < 0 {
        -1
    } else {
        0
    }
}

/// Where a follower knot ends up behind its predecessor: it stays put
/// while adjacent (including diagonally), and otherwise steps one
/// towards the predecessor on each axis that differs.
pub open spec fn follow(prev: Point2, cur: Point2) -> Point2 {
    let dx = prev.x - cur.x;
    let dy = prev.y - cur.y;
    if abs_i(dx) <= 1 && abs_i(dy) <= 1 {
        cur
    } else {
        Point2 { x: (cur.x + sign(dx)) as i64, y: (cur.y + sign(dy)) as i64 }
    }
}

/// The rope after the knots from `id` on have chased their
/// predecessors, one after the other.
pub open spec fn settle_chain(ks: Seq<Point2>, id: int) -> Seq<Point2>
    decreases ks.len() - id,
{
    if id <= 0 || id >= ks.len() {
        ks
    } else {
        settle_chain(ks.update(id, follow(ks[id - 1], ks[id])), id + 1)
    }
}

/// One head step: the head advances by `(sx, sy)` and the chain
/// follows.
pub open spec fn head_step(ks: Seq<Point2>, sx: int, sy: int) -> Seq<Point2> {
    settle_chain(
        ks.update(0, Point2 { x: (ks[0].x + sx) as i64, y: (ks[0].y + sy) as i64 }),
        1,
    )
}

/// The tail position recorded for one step: the new tail, when the
/// rope has a tail behind the head and it moved.
pub open spec fn tail_delta(pre: Seq<Point2>, cur: Seq<Point2>) -> Seq<Point2> {
    if pre.len() >= 2 && cur[pre.len() - 1] != pre[pre.len() - 1] {
        seq![cur[pre.len() - 1]]
    } else {
        Seq::empty()
    }
}

/// The rope walked `steps` head steps: the final knots, and the tail
/// positions recorded along the way.
pub open spec fn run_steps(ks: Seq<Point2>, sx: int, sy: int, steps: int) -> (
    Seq<Point2>,
    Seq<Point2>,
)
    decreases steps,
{
    if steps <= 0 {
        (ks, Seq::empty())
    } else {
        let ks1 = head_step(ks, sx, sy);
        let rest = run_steps(ks1, sx, sy, steps - 1);
        (rest.0, tail_delta(ks, ks1) + rest.1)
    }
}

/// The unit direction of a command letter.
pub open spec fn dir_of(b: u8) -> Option<(int, int)> {
    if b == 85 {
        Some((0int, 1int))
    } else if b == 68 {
        Some((0int, -1int))
    } else if b == 82 {
        Some((1int, 0int))
    } else if b == 76 {
        Some((-1int, 0int))
    } else {
        None
    }
}

/// The movement a command line describes: a direction letter, one
/// space, and a distance of at most a million.
pub open spec fn line_move(l: Seq<u8>) -> Option<(int, int)> {
    if l.len() >= 3 && l[1] == 32 && dir_of(l[0]) is Some && is_numeral(l.skip(2)) && dec_val(
        l.skip(2),
    ) <= 1000000 {
        let d = dir_of(l[0])->Some_0;
        let v = dec_val(l.skip(2)) as int;
        Some((d.0 * v, d.1 * v))
    } else {
        None
    }
}

/// The movements of the non-empty lines.
pub open spec fn moves_of(lines: Seq<Seq<u8>>) -> Seq<(int, int)>
    decreases lines.len(),
{
    if lines.len() == 0 {
        Seq::empty()
    } else {
        moves_of(lines.drop_last()) + (if lines.last().len() == 0 {
            Seq::<(int, int)>::empty()
        } else {
            match line_move(lines.last()) {
                Some(v) => seq![v],
                None => Seq::<(int, int)>::empty(),
            }
        })
    }
}

/// Every non-empty line is a command, and the list fits the driver.
pub open spec fn moves_ok(s: Seq<u8>) -> bool {
    let lines = split_spec(s, 10);
    &&& forall|i: int|
        0 <= i < lines.len() ==> ((#[trigger] lines[i]).len() == 0 || line_move(
            lines[i],
        ) is Some)
    &&& moves_of(lines).len() <= 1000000
}

/// A rope of `k` knots at the origin.
pub open spec fn rope_start(k: int) -> Seq<Point2> {
    Seq::new(k as nat, |_i: int| Point2 { x: 0, y: 0 })
}

/// The rope driven through the first `k` commands: before each, the
/// knots are checked against the working bounds; `None` once a check
/// fails.
pub open spec fn run_moves(ks: Seq<Point2>, mv: Seq<(int, int)>, k: int) -> Option<
    (Seq<Point2>, Seq<Point2>),
>
    decreases k,
{
    if k <= 0 {
        Some((ks, Seq::empty()))
    } else {
        match run_moves(ks, mv, k - 1) {
            None => None,
            Some(prev) => {
                if !knots_ok(prev.0) {
                    None
                } else {
                    let v = mv[k - 1];
                    let d = abs_i(v.0) + abs_i(v.1);
                    let sx = if d == 0 {
                        0int
                    } else {
                        tdiv(v.0, d)
                    };
                    let sy = if d == 0 {
                        0int
                    } else {
                        tdiv(v.1, d)
                    };
                    let r = run_steps(prev.0, sx, sy, d);
                    Some((r.0, prev.1 + r.1))
                }
            },
        }
    }
}

/// A failed check poisons every longer run.
proof fn lemma_run_moves_dead(ks: Seq<Point2>, mv: Seq<(int, int)>, k: int, n: int)
    requires
        0 <= k <= n,
        run_moves(ks, mv, k) is None,
    ensures
        run_moves(ks, mv, n) is None,
    decreases n - k,
{
    if k < n {
        lemma_run_moves_dead(ks, mv, k + 1, n);
    }
}

/// How many of the first `k` positions appear there for the first
/// time.
pub open spec fn distinct_count(pts: Seq<Point2>, k: int) -> int
    decreases k,
{
    if k <= 0 {
        0
    } else {
        distinct_count(pts, k - 1) + (if exists|j: int|
            0 <= j < k - 1 && #[trigger] pts[j] == pts[k - 1] {
            0int
        } else {
            1int
        })
    }
}

/// One movement command: a direction letter and a distance.
fn parse_direction(value: u8) -> (r: Option<Point2>)
    ensures
        match r {
            Some(p) => -1 <= p.x <= 1 && -1 <= p.y <= 1 && dir_of(value) == Some(
                (p.x as int, p.y as int),
            ),
            None => dir_of(value) is None,
        },
{
    if value == 85 {
        Some(Point2 { x: 0, y: 1 })
    } else if value == 68 {
        Some(Point2 { x: 0, y: -1 })
    } else if value == 82 {
        Some(Point2 { x: 1, y: 0 })
    } else if value == 76 {
        Some(Point2 { x: -1, y: 0 })
    } else {
        None
    }
}

/// Reads the movement commands, one direction and distance per line.
pub fn parse_input(input: &str) -> (r: Option<Vec<Vector2>>)
    ensures
        match r {
            Some(v) => moves_ok(input.spec_bytes()) && v@.map_values(
                |p: Point2| (p.x as int, p.y as int),
            ) == moves_of(split_spec(input.spec_bytes(), 10)) && v@.len() <= 1000000 && forall|
                i: int,
            |
                0 <= i < v@.len() ==> -1000000 <= (#[trigger] v@[i]).x <= 1000000 && -1000000
                    <= v@[i].y <= 1000000,
            None => !moves_ok(input.spec_bytes()),
        },
{
    let lines = split_bytes(input.as_bytes(), 10);
    let ghost glines = split_spec(input.spec_bytes(), 10);
    let mut out: Vec<Vector2> = Vec::new();
    let mut i: usize = 0;
    proof {
        assert(out@.map_values(|p: Point2| (p.x as int, p.y as int)) =~= moves_of(
            glines.take(0),
        ));
    }
    while i < lines.len()
        invariant
            glines == split_spec(input.spec_bytes(), 10),
            lines@.len() == glines.len(),
            forall|a: int| 0 <= a < glines.len() ==> (#[trigger] lines@[a])@ == glines[a],
            i <= glines.len(),
            forall|a: int|
                0 <= a < i ==> ((#[trigger] glines[a]).len() == 0 || line_move(
                    glines[a],
                ) is Some),
            out@.map_values(|p: Point2| (p.x as int, p.y as int)) == moves_of(
                glines.take(i as int),
            ),
            forall|j: int|
                0 <= j < out@.len() ==> -1000000 <= (#[trigger] out@[j]).x <= 1000000
                    && -1000000 <= out@[j].y <= 1000000,
        decreases glines.len() - i,
    {
        let line = &lines[i];
        proof {
            assert((lines@[i as int])@ == glines[i as int]);
            assert(glines.take(i + 1).drop_last() =~= glines.take(i as int));
        }
        if line.len() > 0 {
            let sp = match find_byte(line.as_slice(), 0, 32) {
                Some(p) => p,
                None => {
                    proof {
                        assert(line_move(glines[i as int]) is None);
                    }
                    return None;
                },
            };
            if sp != 1 {
                proof {
                    assert(line_move(glines[i as int]) is None) by {
                        if sp == 0 {
                            assert(glines[i as int][0] == 32);
                        } else {
                            assert(glines[i as int][1] != 32);
                        }
                    }
                }
                return None;
            }
            let dir = match parse_direction(line[0]) {
                Some(d) => d,
                None => {
                    proof {
                        assert(line_move(glines[i as int]) is None);
                    }
                    return None;
                },
            };
            let dist_b = vstd::slice::slice_subrange(line.as_slice(), 2, line.len());
            proof {
                assert(dist_b@ =~= glines[i as int].skip(2));
            }
            let parsed_dist = parse_u64(dist_b);
            let dist: i64 = match parsed_dist {
                Some(v) => {
                    if v > 1000000 {
                        proof {
                            assert(line_move(glines[i as int]) is None);
                        }
                        return None;
                    }
                    v as i64
                },
                None => {
                    proof {
                        assert(line_move(glines[i as int]) is None) by {
                            if is_numeral(glines[i as int].skip(2)) && dec_val(
                                glines[i as int].skip(2),
                            ) <= 1000000 {
                                assert(dec_val(glines[i as int].skip(2)) <= u64::MAX);
                            }
                        }
                    }
                    return None;
                },
            };
            let vx: i64 = if dir.x == 1 {
                dist
            } else if dir.x == -1 {
                -dist
            } else {
                0
            };
            let vy: i64 = if dir.y == 1 {
                dist
            } else if dir.y == -1 {
                -dist
            } else {
                0
            };
            out.push(Point2 { x: vx, y: vy });
            proof {
                assert(dir_of(glines[i as int][0]) == Some((dir.x as int, dir.y as int)));
                assert(vx as int == (dir.x as int) * (dist as int) && vy as int == (
                dir.y as int) * (dist as int)) by (nonlinear_arith)
                    requires
                        -1 <= dir.x <= 1,
                        -1 <= dir.y <= 1,
                        vx as int == (if dir.x == 1 {
                            dist as int
                        } else if dir.x == -1 {
                            -(dist as int)
                        } else {
                            0int
                        }),
                        vy as int == (if dir.y == 1 {
                            dist as int
                        } else if dir.y == -1 {
                            -(dist as int)
                        } else {
                            0int
                        }),
                ;
                assert(line_move(glines[i as int]) == Some((vx as int, vy as int)));
                assert(out@.map_values(|p: Point2| (p.x as int, p.y as int)) =~= moves_of(
                    glines.take(i + 1),
                ));
            }
        } else {
            proof {
                assert(out@.map_values(|p: Point2| (p.x as int, p.y as int)) =~= moves_of(
                    glines.take(i + 1),
                ));
            }
        }
        i = i + 1;
    }
    proof {
        assert(glines.take(glines.len() as int) =~= glines);
    }
    if out.len() > 1000000 {
        return None;
    }
    Some(out)
}

/// Runs the rope and counts the distinct tail positions, the starting
/// tail position included; a rope that drifts past the working bounds
/// reports zero.
fn count_tail_positions(mouvements: &Vec<Vector2>, rope: &mut Rope) -> (r: String)
    requires
        knots_ok(old(rope).knots@),
        old(rope).knots@.len() >= 1,
        mouvements@.len() <= 1000000,
        forall|i: int|
            0 <= i < mouvements@.len() ==> -1000000 <= (#[trigger] mouvements@[i]).x <= 1000000
                && -1000000 <= mouvements@[i].y <= 1000000,
    ensures
        ({
            let mv = mouvements@.map_values(|p: Point2| (p.x as int, p.y as int));
            let start_tail = old(rope).knots@[old(rope).knots@.len() - 1];
            match run_moves(old(rope).knots@, mv, mv.len() as int) {
                None => r@ == dec_digits(0),
                Some(res) => {
                    let pts = seq![start_tail] + res.1;
                    if pts.len() > 2000000 {
                        r@ == dec_digits(0)
                    } else {
                        r@ == dec_digits(distinct_count(pts, pts.len() as int) as nat)
                    }
                },
            }
        }),
{
    let ghost mv = mouvements@.map_values(|p: Point2| (p.x as int, p.y as int));
    let ghost orig = rope.knots@;
    let mut positions: Vec<Point2> = Vec::new();
    match rope.get_tail() {
        Some(p) => {
            let first = *p;
            positions.push(first);
        },
        None => {
            // the rope is known non-empty
            proof {
                assert(false);
            }
            return u64_string(0);
        },
    }
    let mut i: usize = 0;
    proof {
        assert(positions@ =~= seq![orig[orig.len() - 1]] + Seq::<Point2>::empty());
    }
    while i < mouvements.len()
        invariant
            mv == mouvements@.map_values(|p: Point2| (p.x as int, p.y as int)),
            mv.len() == mouvements@.len() <= 1000000,
            forall|j: int|
                0 <= j < mouvements@.len() ==> -1000000 <= (#[trigger] mouvements@[j]).x
                    <= 1000000 && -1000000 <= mouvements@[j].y <= 1000000,
            orig == old(rope).knots@,
            orig.len() >= 1,
            i <= mv.len(),
            positions@.len() >= 1,
            run_moves(orig, mv, i as int) == Some(
                (rope.knots@, positions@.skip(1)),
            ),
            positions@[0] == orig[orig.len() - 1],
            rope.knots@.len() == orig.len(),
        decreases mv.len() - i,
    {
        if !check_knots(&rope.knots) {
            proof {
                assert(run_moves(orig, mv, i + 1) is None);
                lemma_run_moves_dead(orig, mv, i + 1, mv.len() as int);
            }
            return u64_string(0);
        }
        let ghost pre_knots = rope.knots@;
        let ghost pre_positions = positions@;
        let v = mouvements[i];
        let mut tail = rope.move_head(v);
        proof {
            assert(mv[i as int] == (v.x as int, v.y as int));
        }
        positions.append(&mut tail);
        proof {
            assert(positions@.skip(1) =~= pre_positions.skip(1) + (positions@.skip(
                pre_positions.len() as int,
            )));
            assert(run_moves(orig, mv, i + 1) == Some((rope.knots@, positions@.skip(1))));
        }
        i = i + 1;
    }
    if positions.len() > 2000000 {
        return u64_string(0);
    }
    // count the distinct positions
    let ghost pts = positions@;
    let mut count: u64 = 0;
    let mut a: usize = 0;
    while a < positions.len()
        invariant
            pts == positions@,
            a <= pts.len(),
            pts.len() <= 2000000,
            count == distinct_count(pts, a as int),
            count <= a,
        decreases pts.len() - a,
    {
        let p = positions[a];
        let mut earlier = false;
        let mut b: usize = 0;
        while b < a
            invariant
                pts == positions@,
                b <= a,
                a < pts.len(),
                p == pts[a as int],
                earlier == exists|j: int| 0 <= j < b && #[trigger] pts[j] == pts[a as int],
            decreases a - b,
        {
            let q = positions[b];
            if q.x == p.x && q.y == p.y {
                proof {
                    assert(pts[b as int] == pts[a as int]);
                }
                earlier = true;
            }
            proof {
                if !earlier {
                    assert(forall|j: int| 0 <= j < b ==> #[trigger] pts[j] != pts[a as int]);
                    assert(pts[b as int] != pts[a as int] || earlier);
                }
            }
            b = b + 1;
        }
        if !earlier {
            count = count + 1;
        }
        a = a + 1;
    }
    proof {
        let mv2 = mouvements@.map_values(|p2: Point2| (p2.x as int, p2.y as int));
        assert(run_moves(orig, mv2, mv2.len() as int) matches Some(res) && pts =~= seq![
            orig[orig.len() - 1],
        ] + res.1);
    }
    u64_string(count)
}

/// Whether every knot lies within the bounds the mover requires.
fn check_knots(ks: &Vec<Point2>) -> (r: bool)
    ensures
        r == knots_ok(ks@),
{
    let mut i: usize = 0;
    while i < ks.len()
        invariant
            i <= ks@.len(),
            forall|j: int|
                0 <= j < i ==> -1000000000000 <= (#[trigger] ks@[j]).x <= 1000000000000
                    && -1000000000000 <= ks@[j].y <= 1000000000000,
        decreases ks@.len() - i,
    {
        let p = ks[i];
        if p.x > 1000000000000 || p.x < -1000000000000 || p.y > 1000000000000 || p.y
            < -1000000000000 {
            return false;
        }
        i = i + 1;
    }
    true
}

/// The distinct tail positions of a two-knot rope.
pub fn puzzle_1(input: &str) -> (r: String)
    ensures
        rope_answer(input.spec_bytes(), 2, r@),
{
    match parse_input(input) {
        None => u64_string(0),
        Some(mouvements) => {
            let mut rope = Rope::new(2, Point2 { x: 0, y: 0 });
            proof {
                assert(rope.knots@ =~= rope_start(2));
            }
            count_tail_positions(&mouvements, &mut rope)
        },
    }
}

/// The distinct tail positions of a ten-knot rope.
pub fn puzzle_2(input: &str) -> (r: String)
    ensures
        rope_answer(input.spec_bytes(), 10, r@),
{
    match parse_input(input) {
        None => u64_string(0),
        Some(mouvements) => {
            let mut rope = Rope::new(10, Point2 { x: 0, y: 0 });
            proof {
                assert(rope.knots@ =~= rope_start(10));
            }
            count_tail_positions(&mouvements, &mut rope)
        },
    }
}

/// What the puzzles answer for a rope of `k` knots: the count of
/// distinct tail positions over the whole driven run, zero for
/// rejected input or a rope past the working bounds.
pub open spec fn rope_answer(s: Seq<u8>, k: int, r: Seq<char>) -> bool {
    let mv = moves_of(split_spec(s, 10));
    if !moves_ok(s) {
        r == dec_digits(0)
    } else {
        match run_moves(rope_start(k), mv, mv.len() as int) {
            None => r == dec_digits(0),
            Some(res) => {
                let pts = seq![rope_start(k)[k - 1]] + res.1;
                if pts.len() > 2000000 {
                    r == dec_digits(0)
                } else {
                    r == dec_digits(distinct_count(pts, pts.len() as int) as nat)
                }
            },
        }
    }
}

} // verus!

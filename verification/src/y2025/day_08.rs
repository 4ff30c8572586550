//! Stations in space, joined shortest-distance-first into groups. The
//! first puzzle joins a fixed number of closest pairs and multiplies
//! the three largest group sizes; the second keeps joining until one
//! group holds every station and reports the pair that completed it.

use vstd::prelude::*;

use crate::numfmt::dec_digits;
use crate::numfmt::u64_string;
use crate::scan::parse_u64;
use crate::scan::split_bytes;

verus! {

/// One station position.
#[derive(Debug, PartialEq, Eq, Structural, Clone, Copy)]
pub struct Position {
    pub x: u64,
    pub y: u64,
    pub z: u64,
}

/// The absolute difference.
pub open spec fn adiff(a: int, b: int) -> int {
    if a >= b {
        a - b
    } else {
        b - a
    }
}

/// The squared euclidean distance.
pub open spec fn dist_sq(a: Position, b: Position) -> int {
    adiff(a.x as int, b.x as int) * adiff(a.x as int, b.x as int) + adiff(
        a.y as int,
        b.y as int,
    ) * adiff(a.y as int, b.y as int) + adiff(a.z as int, b.z as int) * adiff(
        a.z as int,
        b.z as int,
    )
}

/// The squared distance between two stations.
pub fn distance_sq(lhs: &Position, rhs: &Position) -> (r: u64)
    requires
        lhs.x <= 1000000 && lhs.y <= 1000000 && lhs.z <= 1000000,
        rhs.x <= 1000000 && rhs.y <= 1000000 && rhs.z <= 1000000,
    ensures
        r as int == dist_sq(*lhs, *rhs),
{
    let dx = if lhs.x >= rhs.x {
        lhs.x - rhs.x
    } else {
        rhs.x - lhs.x
    };
    let dy = if lhs.y >= rhs.y {
        lhs.y - rhs.y
    } else {
        rhs.y - lhs.y
    };
    let dz = if lhs.z >= rhs.z {
        lhs.z - rhs.z
    } else {
        rhs.z - lhs.z
    };
    proof {
        assert(dx * dx <= 1000000000000 && dy * dy <= 1000000000000 && dz * dz
            <= 1000000000000) by (nonlinear_arith)
            requires
                0 <= dx <= 1000000,
                0 <= dy <= 1000000,
                0 <= dz <= 1000000,
        ;
    }
    dx * dx + dy * dy + dz * dz
}

/// Reads the station positions.
fn load_input(input: &[u8]) -> (r: Option<Vec<Position>>)
    ensures
        r matches Some(ps) ==> ps@.len() <= 60000 && forall|i: int|
            0 <= i < ps@.len() ==> (#[trigger] ps@[i]).x <= 1000000 && ps@[i].y <= 1000000
                && ps@[i].z <= 1000000,
{
    let lines = split_bytes(input, 10);
    let mut ps: Vec<Position> = Vec::new();
    let mut i: usize = 0;
    while i < lines.len()
        invariant
            i <= lines@.len(),
            ps@.len() <= i,
            forall|j: int|
                0 <= j < ps@.len() ==> (#[trigger] ps@[j]).x <= 1000000 && ps@[j].y <= 1000000
                    && ps@[j].z <= 1000000,
        decreases lines@.len() - i,
    {
        let line = &lines[i];
        if line.len() > 0 {
            let parts = split_bytes(line.as_slice(), 44);
            if parts.len() != 3 {
                return None;
            }
            let x = match parse_u64(parts[0].as_slice()) {
                Some(v) if v <= 1000000 => v,
                _ => {
                    return None;
                },
            };
            let y = match parse_u64(parts[1].as_slice()) {
                Some(v) if v <= 1000000 => v,
                _ => {
                    return None;
                },
            };
            let z = match parse_u64(parts[2].as_slice()) {
                Some(v) if v <= 1000000 => v,
                _ => {
                    return None;
                },
            };
            ps.push(Position { x, y, z });
        }
        i = i + 1;
    }
    if ps.len() > 60000 {
        return None;
    }
    Some(ps)
}

/// All pairs of station indices with their squared distance, the
/// second index below the first.
fn get_distances(positions: &Vec<Position>) -> (r: Vec<((u16, u16), u64)>)
    requires
        positions@.len() <= 60000,
        forall|i: int|
            0 <= i < positions@.len() ==> (#[trigger] positions@[i]).x <= 1000000
                && positions@[i].y <= 1000000 && positions@[i].z <= 1000000,
    ensures
        forall|k: int|
            0 <= k < r@.len() ==> ((#[trigger] r@[k]).0.0 as int) < positions@.len() && (
            r@[k].0.1 as int) < positions@.len(),
{
    let n = positions.len();
    let mut r: Vec<((u16, u16), u64)> = Vec::new();
    let mut iy: usize = 0;
    while iy < n
        invariant
            n == positions@.len(),
            n <= 60000,
            forall|i: int|
                0 <= i < positions@.len() ==> (#[trigger] positions@[i]).x <= 1000000
                    && positions@[i].y <= 1000000 && positions@[i].z <= 1000000,
            iy <= n,
            forall|k: int|
                0 <= k < r@.len() ==> ((#[trigger] r@[k]).0.0 as int) < n && (r@[k].0.1 as int)
                    < n,
        decreases n - iy,
    {
        let mut ix: usize = iy + 1;
        while ix < n
            invariant
                n == positions@.len(),
                n <= 60000,
                forall|i: int|
                    0 <= i < positions@.len() ==> (#[trigger] positions@[i]).x <= 1000000
                        && positions@[i].y <= 1000000 && positions@[i].z <= 1000000,
                iy < ix || ix == iy + 1,
                iy < n,
                ix <= n,
                forall|k: int|
                    0 <= k < r@.len() ==> ((#[trigger] r@[k]).0.0 as int) < n && (
                    r@[k].0.1 as int) < n,
            decreases n - ix,
        {
            let d = distance_sq(&positions[ix], &positions[iy]);
            r.push(((ix as u16, iy as u16), d));
            ix = ix + 1;
        }
        iy = iy + 1;
    }
    r
}

/// Sorts the pairs by distance, keeping the pair order among equals,
/// and keeping every pair's indices within the original bound.
fn sort_by_distance(pairs: &mut Vec<((u16, u16), u64)>, n: usize)
    requires
        forall|k: int|
            0 <= k < old(pairs)@.len() ==> ((#[trigger] old(pairs)@[k]).0.0 as int) < n && (
            old(pairs)@[k].0.1 as int) < n,
    ensures
        final(pairs)@.len() == old(pairs)@.len(),
        forall|k: int|
            0 <= k < final(pairs)@.len() ==> ((#[trigger] final(pairs)@[k]).0.0 as int) < n && (
            final(pairs)@[k].0.1 as int) < n,
{
    let mut sorted: Vec<((u16, u16), u64)> = Vec::new();
    let mut i: usize = 0;
    let ghost orig = pairs@;
    while i < pairs.len()
        invariant
            orig == pairs@,
            forall|k: int|
                0 <= k < orig.len() ==> ((#[trigger] orig[k]).0.0 as int) < n && (
                orig[k].0.1 as int) < n,
            i <= pairs@.len(),
            sorted@.len() == i,
            forall|k: int|
                0 <= k < sorted@.len() ==> ((#[trigger] sorted@[k]).0.0 as int) < n && (
                sorted@[k].0.1 as int) < n,
        decreases pairs@.len() - i,
    {
        let item = pairs[i];
        let mut pos: usize = 0;
        while pos < sorted.len() && sorted[pos].1 <= item.1
            invariant
                pos <= sorted@.len(),
            decreases sorted@.len() - pos,
        {
            pos = pos + 1;
        }
        proof {
            assert(pairs@[i as int] == item);
        }
        sorted.insert(pos, item);
        i = i + 1;
    }
    *pairs = sorted;
}

/// Whether the group holds the station index.
fn group_contains(group: &Vec<u16>, v: u16) -> (r: bool)
    ensures
        r == exists|i: int| 0 <= i < group@.len() && #[trigger] group@[i] == v,
{
    let mut i: usize = 0;
    while i < group.len()
        invariant
            i <= group@.len(),
            forall|j: int| 0 <= j < i ==> #[trigger] group@[j] != v,
        decreases group@.len() - i,
    {
        if group[i] == v {
            return true;
        }
        i = i + 1;
    }
    false
}

/// Joins a connected pair into the groups: merges the two groups when
/// the endpoints lie in different ones, then records both endpoints in
/// the group holding either.
pub fn add_to_groups(groups: &mut Vec<Vec<u16>>, c: (u16, u16)) {
    // the groups holding each endpoint
    let mut g0: usize = 0;
    let mut has0 = false;
    let mut i: usize = 0;
    while i < groups.len()
        invariant
            i <= groups@.len(),
            has0 ==> g0 < groups@.len(),
        decreases groups@.len() - i,
    {
        if !has0 && group_contains(&groups[i], c.0) {
            g0 = i;
            has0 = true;
        }
        i = i + 1;
    }
    let mut g1: usize = 0;
    let mut has1 = false;
    let mut j: usize = 0;
    while j < groups.len()
        invariant
            j <= groups@.len(),
            has1 ==> g1 < groups@.len(),
        decreases groups@.len() - j,
    {
        if !has1 && group_contains(&groups[j], c.1) {
            g1 = j;
            has1 = true;
        }
        j = j + 1;
    }
    if has0 && has1 && g0 != g1 {
        // merge the second group into the first
        let moved = groups.remove(g1);
        let target = if g1 < g0 {
            g0 - 1
        } else {
            g0
        };
        let mut k: usize = 0;
        while k < moved.len()
            invariant
                k <= moved@.len(),
                target < groups@.len(),
            decreases moved@.len() - k,
        {
            let v = moved[k];
            let present = group_contains(&groups[target], v);
            if !present {
                let mut grp = groups.remove(target);
                grp.push(v);
                groups.insert(target, grp);
            }
            k = k + 1;
        }
    }
    // record both endpoints in the group holding either
    let mut dest: usize = 0;
    let mut found = false;
    let mut m: usize = 0;
    while m < groups.len()
        invariant
            m <= groups@.len(),
            found ==> dest < groups@.len(),
        decreases groups@.len() - m,
    {
        if !found && (group_contains(&groups[m], c.0) || group_contains(&groups[m], c.1)) {
            dest = m;
            found = true;
        }
        m = m + 1;
    }
    if !found {
        groups.push(Vec::new());
        dest = groups.len() - 1;
    }
    let mut grp = groups.remove(dest);
    if !group_contains(&grp, c.0) {
        grp.push(c.0);
    }
    if !group_contains(&grp, c.1) {
        grp.push(c.1);
    }
    groups.insert(dest, grp);
}

/// Joins the closest pairs and multiplies the three largest group
/// sizes.
pub fn puzzle_1(input: &str) -> (r: String)
    ensures
        exists|v: nat| r@ == dec_digits(v),
{
    match load_input(input.as_bytes()) {
        None => u64_string(0),
        Some(positions) => {
            let is_test = positions.len() == 20;
            let mut distances = get_distances(&positions);
            let pair_count: usize = if is_test {
                10
            } else {
                1000
            };
            sort_by_distance(&mut distances, positions.len());
            let mut groups: Vec<Vec<u16>> = Vec::new();
            let mut i: usize = 0;
            while i < distances.len() && i < pair_count
                invariant
                    i <= distances@.len(),
                decreases distances@.len() - i,
            {
                add_to_groups(&mut groups, distances[i].0);
                i = i + 1;
            }
            let mut sizes: Vec<u64> = Vec::new();
            let mut k: usize = 0;
            while k < groups.len()
                invariant
                    k <= groups@.len(),
                decreases groups@.len() - k,
            {
                let len = groups[k].len();
                if len > 1000000 {
                    return u64_string(0);
                }
                sizes.push(len as u64);
                k = k + 1;
            }
            // the three largest sizes, or all of them when fewer
            let mut a: u64 = 0;
            let mut b: u64 = 0;
            let mut c: u64 = 0;
            let mut s: usize = 0;
            while s < sizes.len()
                invariant
                    s <= sizes@.len(),
                    a <= 1000000 && b <= 1000000 && c <= 1000000,
                decreases sizes@.len() - s,
            {
                let v = sizes[s];
                if v <= 1000000 {
                    if v > a {
                        c = b;
                        b = a;
                        a = v;
                    } else if v > b {
                        c = b;
                        b = v;
                    } else if v > c {
                        c = v;
                    }
                }
                s = s + 1;
            }
            let bb = if sizes.len() >= 2 {
                b
            } else {
                1
            };
            let cc = if sizes.len() >= 3 {
                c
            } else {
                1
            };
            proof {
                assert(a * bb <= 1000000000000) by (nonlinear_arith)
                    requires
                        0 <= a <= 1000000,
                        0 <= bb <= 1000000,
                ;
                assert(a * bb * cc <= 1000000000000000000) by (nonlinear_arith)
                    requires
                        0 <= a * bb <= 1000000000000,
                        0 <= cc <= 1000000,
                ;
            }
            u64_string(a * bb * cc)

        },
    }
}

/// Joins pairs until one group holds every station; the answer
/// multiplies the x coordinates of the completing pair.
pub fn puzzle_2(input: &str) -> (r: String)
    ensures
        exists|v: nat| r@ == dec_digits(v),
{
    match load_input(input.as_bytes()) {
        None => u64_string(0),
        Some(positions) => {
            let n = positions.len();
            let mut distances = get_distances(&positions);
            sort_by_distance(&mut distances, positions.len());
            let mut groups: Vec<Vec<u16>> = Vec::new();
            let mut winner: (u16, u16) = (0, 0);
            let mut complete = false;
            let mut i: usize = 0;
            while i < distances.len() && !complete
                invariant
                    i <= distances@.len(),
                    n == positions@.len(),
                    n <= 60000,
                    forall|p: int|
                        0 <= p < positions@.len() ==> (#[trigger] positions@[p]).x <= 1000000
                            && positions@[p].y <= 1000000 && positions@[p].z <= 1000000,
                    forall|k: int|
                        0 <= k < distances@.len() ==> ((#[trigger] distances@[k]).0.0 as int) < n
                            && (distances@[k].0.1 as int) < n,
                    complete ==> (winner.0 as int) < n && (winner.1 as int) < n,
                decreases distances@.len() - i,
            {
                let c = distances[i].0;
                add_to_groups(&mut groups, c);
                if groups.len() > 0 && groups[0].len() == n {
                    winner = c;
                    complete = true;
                }
                i = i + 1;
            }
            if !complete {
                return u64_string(0);
            }
            let px = positions[winner.0 as usize].x;
            let qx = positions[winner.1 as usize].x;
            proof {
                assert(px * qx <= 1000000000000) by (nonlinear_arith)
                    requires
                        0 <= px <= 1000000,
                        0 <= qx <= 1000000,
                ;
            }
            u64_string(px * qx)
        },
    }
}

} // verus!

//! A beam falls from a start column through rows of splitters. A
//! splitter ends the ray hitting it and emits rays to its two
//! neighbour columns. The first puzzle counts split events; the second
//! counts, per column, how many distinct paths arrive at the bottom.

use vstd::prelude::*;

use crate::numfmt::dec_digits;
use crate::numfmt::u64_string;
use crate::scan::split_bytes;
use crate::scan::split_spec;
use vstd::string::StringSliceAdditionalSpecFns;

verus! {

/// Whether column `c` holds a splitter in this row.
pub open spec fn is_splitter(spl: Seq<bool>, c: int) -> bool {
    0 <= c < spl.len() && spl[c]
}

/// The ray counts after one row of splitters: a column keeps its rays
/// unless it holds a splitter, and receives the rays split from its
/// two neighbours.
pub open spec fn row_next(counts: Seq<int>, spl: Seq<bool>, c: int) -> int {
    (if is_splitter(spl, c) {
        0int
    } else {
        counts[c]
    }) + (if 0 <= c - 1 < counts.len() && is_splitter(spl, c - 1) {
        counts[c - 1]
    } else {
        0int
    }) + (if 0 <= c + 1 < counts.len() && is_splitter(spl, c + 1) {
        counts[c + 1]
    } else {
        0int
    })
}

/// Applies one row of splitters to the per-column ray counts. A
/// splitter on the boundary columns is rejected.
fn step_row(counts: &Vec<u64>, spl: &Vec<bool>) -> (r: Option<Vec<u64>>)
    requires
        counts@.len() == spl@.len(),
        forall|c: int| 0 <= c < counts@.len() ==> #[trigger] counts@[c] <= 0x10000000000,
    ensures
        match r {
            Some(v) => {
                &&& v@.len() == counts@.len()
                &&& forall|c: int|
                    0 <= c < v@.len() ==> #[trigger] v@[c] as int == row_next(
                        counts@.map_values(|x: u64| x as int),
                        spl@,
                        c,
                    )
                &&& !(counts@.len() > 0 && (spl@[0] || spl@[counts@.len() - 1]))
            },
            None => counts@.len() > 0 && (spl@[0] || spl@[counts@.len() - 1]),
        },
{
    let n = counts.len();
    if n > 0 && (spl[0] || spl[n - 1]) {
        return None;
    }
    let ghost gm = counts@.map_values(|x: u64| x as int);
    let mut out: Vec<u64> = Vec::new();
    let mut c: usize = 0;
    while c < n
        invariant
            n == counts@.len(),
            n == spl@.len(),
            gm == counts@.map_values(|x: u64| x as int),
            forall|j: int| 0 <= j < n ==> #[trigger] counts@[j] <= 0x10000000000,
            n > 0 ==> !spl@[0] && !spl@[n - 1],
            0 <= c <= n,
            out@.len() == c,
            forall|j: int| 0 <= j < c ==> #[trigger] out@[j] as int == row_next(gm, spl@, j),
        decreases n - c,
    {
        let keep: u64 = if spl[c] {
            0
        } else {
            counts[c]
        };
        let from_left: u64 = if c >= 1 && spl[c - 1] {
            counts[c - 1]
        } else {
            0
        };
        let from_right: u64 = if c + 1 < n && spl[c + 1] {
            counts[c + 1]
        } else {
            0
        };
        proof {
            assert(gm[c as int] == counts@[c as int] as int);
        }
        out.push(keep + from_left + from_right);
        c = c + 1;
    }
    Some(out)
}

/// How many rays are split by this row.
pub open spec fn split_count(counts: Seq<int>, spl: Seq<bool>, k: int) -> int
    decreases k,
{
    if k <= 0 {
        0
    } else {
        split_count(counts, spl, k - 1) + (if is_splitter(spl, k - 1) {
            counts[k - 1]
        } else {
            0int
        })
    }
}

/// Counts the rays hitting splitters in this row.
fn count_splits(counts: &Vec<u64>, spl: &Vec<bool>) -> (r: u64)
    requires
        counts@.len() == spl@.len(),
        forall|c: int| 0 <= c < counts@.len() ==> #[trigger] counts@[c] <= 0x10000000000,
        counts@.len() <= 1000000,
    ensures
        r as int == split_count(counts@.map_values(|x: u64| x as int), spl@, counts@.len() as int),
{
    let ghost gm = counts@.map_values(|x: u64| x as int);
    let mut total: u64 = 0;
    let mut c: usize = 0;
    while c < counts.len()
        invariant
            counts@.len() == spl@.len(),
            counts@.len() <= 1000000,
            gm == counts@.map_values(|x: u64| x as int),
            forall|j: int| 0 <= j < counts@.len() ==> #[trigger] counts@[j] <= 0x10000000000,
            0 <= c <= counts@.len(),
            total as int == split_count(gm, spl@, c as int),
            total <= 0x10000000000 * (c as int),
        decreases counts@.len() - c,
    {
        proof {
            assert(gm[c as int] == counts@[c as int] as int);
        }
        if spl[c] {
            total = total + counts[c];
        }
        c = c + 1;
    }
    total
}


/// The ray presence after one row of splitters, for the first puzzle:
/// merged rays count once.
pub open spec fn row_next_bool(rays: Seq<bool>, spl: Seq<bool>, c: int) -> bool {
    ||| (0 <= c < rays.len() && rays[c] && !is_splitter(spl, c))
    ||| (0 <= c - 1 < rays.len() && rays[c - 1] && is_splitter(spl, c - 1))
    ||| (0 <= c + 1 < rays.len() && rays[c + 1] && is_splitter(spl, c + 1))
}

/// How many present rays hit a splitter in this row.
pub open spec fn split_events(rays: Seq<bool>, spl: Seq<bool>, k: int) -> int
    decreases k,
{
    if k <= 0 {
        0
    } else {
        split_events(rays, spl, k - 1) + (if 0 <= k - 1 < rays.len() && rays[k - 1]
            && is_splitter(spl, k - 1) {
            1int
        } else {
            0int
        })
    }
}

/// Applies one row of splitters to the ray presences. A splitter on a
/// boundary column is rejected.
fn step_row_bool(rays: &Vec<bool>, spl: &Vec<bool>) -> (r: Option<(Vec<bool>, u64)>)
    requires
        rays@.len() == spl@.len(),
        rays@.len() <= 1000000,
    ensures
        match r {
            Some(v) => {
                &&& v.0@.len() == rays@.len()
                &&& forall|c: int|
                    0 <= c < v.0@.len() ==> #[trigger] v.0@[c] == row_next_bool(rays@, spl@, c)
                &&& v.1 as int == split_events(rays@, spl@, rays@.len() as int)
                &&& !(rays@.len() > 0 && (spl@[0] || spl@[rays@.len() - 1]))
            },
            None => rays@.len() > 0 && (spl@[0] || spl@[rays@.len() - 1]),
        },
{
    let n = rays.len();
    if n > 0 && (spl[0] || spl[n - 1]) {
        return None;
    }
    let mut out: Vec<bool> = Vec::new();
    let mut events: u64 = 0;
    let mut c: usize = 0;
    while c < n
        invariant
            n == rays@.len(),
            n == spl@.len(),
            n <= 1000000,
            n > 0 ==> !spl@[0] && !spl@[n - 1],
            0 <= c <= n,
            out@.len() == c,
            forall|j: int| 0 <= j < c ==> #[trigger] out@[j] == row_next_bool(rays@, spl@, j),
            events as int == split_events(rays@, spl@, c as int),
            events <= c,
        decreases n - c,
    {
        let keep = rays[c] && !spl[c];
        let from_left = c >= 1 && rays[c - 1] && spl[c - 1];
        let from_right = c + 1 < n && rays[c + 1] && spl[c + 1];
        if rays[c] && spl[c] {
            events = events + 1;
        }
        out.push(keep || from_left || from_right);
        c = c + 1;
    }
    Some((out, events))
}

/// The last position of `b` among the first `k` bytes, or `-1`.
pub open spec fn last_pos(l: Seq<u8>, b: u8, k: int) -> int
    decreases k,
{
    if k <= 0 {
        -1
    } else if l[k - 1] == b {
        k - 1
    } else {
        last_pos(l, b, k - 1)
    }
}

/// The splitter rows of the lines after the first, empty lines
/// skipped.
pub open spec fn splitter_rows(lines: Seq<Seq<u8>>, k: int) -> Seq<Seq<bool>>
    decreases k,
{
    if k <= 1 {
        Seq::empty()
    } else {
        splitter_rows(lines, k - 1) + (if lines[k - 1].len() == 0 {
            Seq::<Seq<bool>>::empty()
        } else {
            seq![lines[k - 1].map_values(|c: u8| c == 94)]
        })
    }
}

/// The input draws a beam chamber: a first line holding the start
/// marker, and equally wide splitter rows below it.
pub open spec fn beam_ok(s: Seq<u8>) -> bool {
    let lines = split_spec(s, 10);
    &&& lines.len() >= 1
    &&& 1 <= lines[0].len() <= 1000000
    &&& last_pos(lines[0], 83, lines[0].len() as int) >= 0
    &&& forall|i: int|
        1 <= i < lines.len() ==> ((#[trigger] lines[i]).len() == 0 || lines[i].len()
            == lines[0].len())
}

/// The start column: the last `S` of the first line.
pub open spec fn beam_start(s: Seq<u8>) -> int {
    last_pos(split_spec(s, 10)[0], 83, split_spec(s, 10)[0].len() as int)
}

/// One ray present at the start column.
pub open spec fn init_rays(width: int, start: int) -> Seq<bool> {
    Seq::new(width as nat, |j: int| j == start)
}

/// One path counted at the start column.
pub open spec fn init_counts(width: int, start: int) -> Seq<int> {
    Seq::new(
        width as nat,
        |j: int|
            if j == start {
                1int
            } else {
                0int
            },
    )
}

/// The first puzzle's descent from row `i` on: split events
/// accumulate; a boundary splitter or an event total past the
/// counting bounds yields zero.
pub open spec fn beam_events(rays: Seq<bool>, rows: Seq<Seq<bool>>, i: int, total: int) -> int
    decreases rows.len() - i,
{
    if i < 0 || i >= rows.len() {
        total
    } else {
        let spl = rows[i];
        if rays.len() > 0 && (spl[0] || spl[rays.len() - 1]) {
            0
        } else {
            let ev = split_events(rays, spl, rays.len() as int);
            if total >= 1000000000000000 {
                0
            } else {
                beam_events(
                    Seq::new(rays.len(), |c: int| row_next_bool(rays, spl, c)),
                    rows,
                    i + 1,
                    total + ev,
                )
            }
        }
    }
}

/// The second puzzle's descent from row `i` on: per-column path
/// counts; `None` on a boundary splitter or a count past the working
/// bounds.
pub open spec fn beam_counts(counts: Seq<int>, rows: Seq<Seq<bool>>, i: int) -> Option<Seq<int>>
    decreases rows.len() - i,
{
    if i < 0 || i >= rows.len() {
        Some(counts)
    } else {
        let spl = rows[i];
        if counts.len() > 0 && (spl[0] || spl[counts.len() - 1]) {
            None
        } else {
            let nxt = Seq::new(counts.len(), |c: int| row_next(counts, spl, c));
            if exists|c: int| 0 <= c < nxt.len() && #[trigger] nxt[c] > 0x10000000000 {
                None
            } else {
                beam_counts(nxt, rows, i + 1)
            }
        }
    }
}

/// The summed path counts of the first `k` columns.
pub open spec fn sum_counts(s: Seq<int>, k: int) -> int
    decreases k,
{
    if k <= 0 {
        0
    } else {
        sum_counts(s, k - 1) + s[k - 1]
    }
}

/// Reads the start column and the splitter rows. The first line holds
/// `S` at the start column; every following line marks splitters with
/// `^`.
fn load_input(input: &[u8]) -> (r: Option<(usize, Vec<Vec<bool>>, usize)>)
    ensures
        match r {
            Some((start, rows, width)) => {
                &&& beam_ok(input@)
                &&& start as int == beam_start(input@)
                &&& width as int == split_spec(input@, 10)[0].len()
                &&& start < width && width <= 1000000
                &&& rows@.map_values(|row: Vec<bool>| row@) == splitter_rows(
                    split_spec(input@, 10),
                    split_spec(input@, 10).len() as int,
                )
                &&& forall|i: int| 0 <= i < rows@.len() ==> (#[trigger] rows@[i])@.len() == width
            },
            None => !beam_ok(input@),
        },
{
    let lines = split_bytes(input, 10);
    let ghost glines = split_spec(input@, 10);
    if lines.len() == 0 {
        return None;
    }
    let first = &lines[0];
    proof {
        assert((lines@[0])@ == glines[0]);
    }
    let width = first.len();
    if width == 0 || width > 1000000 {
        return None;
    }
    let mut start: usize = 0;
    let mut found = false;
    let mut j: usize = 0;
    proof {
        assert(last_pos(glines[0], 83, 0) == -1);
    }
    while j < width
        invariant
            glines == split_spec(input@, 10),
            glines.len() >= 1,
            first@ == glines[0],
            width == first@.len(),
            j <= width,
            found ==> start < width && last_pos(glines[0], 83, j as int) == start,
            !found ==> last_pos(glines[0], 83, j as int) == -1,
        decreases width - j,
    {
        if first[j] == 83 {
            start = j;
            found = true;
        }
        j = j + 1;
    }
    if !found {
        return None;
    }
    let mut rows: Vec<Vec<bool>> = Vec::new();
    let mut i: usize = 1;
    proof {
        assert(rows@.map_values(|row: Vec<bool>| row@) =~= splitter_rows(glines, 1));
    }
    while i < lines.len()
        invariant
            glines == split_spec(input@, 10),
            lines@.len() == glines.len(),
            forall|a: int| 0 <= a < glines.len() ==> (#[trigger] lines@[a])@ == glines[a],
            1 <= i <= glines.len(),
            width == glines[0].len(),
            forall|a: int|
                1 <= a < i ==> ((#[trigger] glines[a]).len() == 0 || glines[a].len() == width),
            rows@.map_values(|row: Vec<bool>| row@) == splitter_rows(glines, i as int),
            forall|a: int| 0 <= a < rows@.len() ==> (#[trigger] rows@[a])@.len() == width,
        decreases glines.len() - i,
    {
        let line = &lines[i];
        proof {
            assert((lines@[i as int])@ == glines[i as int]);
        }
        if line.len() > 0 {
            if line.len() != width {
                return None;
            }
            let mut row: Vec<bool> = Vec::new();
            let mut k: usize = 0;
            while k < width
                invariant
                    width == line@.len(),
                    k <= width,
                    row@.len() == k,
                    forall|b: int| 0 <= b < k ==> #[trigger] row@[b] == (line@[b] == 94),
                decreases width - k,
            {
                row.push(line[k] == 94);
                k = k + 1;
            }
            proof {
                assert(row@ =~= glines[i as int].map_values(|c: u8| c == 94));
            }
            rows.push(row);
            proof {
                assert(rows@.map_values(|row2: Vec<bool>| row2@) =~= splitter_rows(
                    glines,
                    i + 1,
                ));
            }
        } else {
            proof {
                assert(rows@.map_values(|row2: Vec<bool>| row2@) =~= splitter_rows(
                    glines,
                    i + 1,
                ));
            }
        }
        i = i + 1;
    }
    Some((start, rows, width))
}

/// Counts every split event over the whole descent: a ray hitting a
/// splitter is one event, however many merged paths it carries.
pub fn puzzle_1(input: &str) -> (r: String)
    ensures
        ({
            let lines = split_spec(input.spec_bytes(), 10);
            &&& beam_ok(input.spec_bytes()) ==> r@ == dec_digits(
                beam_events(
                    init_rays(lines[0].len() as int, beam_start(input.spec_bytes())),
                    splitter_rows(lines, lines.len() as int),
                    0,
                    0,
                ) as nat,
            )
            &&& !beam_ok(input.spec_bytes()) ==> r@ == dec_digits(0)
        }),
{
    match load_input(input.as_bytes()) {
        None => u64_string(0),
        Some((start, rows, width)) => {
            let ghost grows = rows@.map_values(|row: Vec<bool>| row@);
            let mut rays: Vec<bool> = Vec::new();
            let mut j: usize = 0;
            while j < width
                invariant
                    j <= width,
                    rays@.len() == j,
                    forall|b: int| 0 <= b < j ==> #[trigger] rays@[b] == (b == start),
                decreases width - j,
            {
                rays.push(j == start);
                j = j + 1;
            }
            proof {
                assert(rays@ =~= init_rays(width as int, start as int));
            }
            let mut total: u64 = 0;
            let mut i: usize = 0;
            while i < rows.len()
                invariant
                    beam_ok(input.spec_bytes()),
                    start as int == beam_start(input.spec_bytes()),
                    width as int == split_spec(input.spec_bytes(), 10)[0].len(),
                    grows == splitter_rows(
                        split_spec(input.spec_bytes(), 10),
                        split_spec(input.spec_bytes(), 10).len() as int,
                    ),
                    grows == rows@.map_values(|row: Vec<bool>| row@),
                    rays@.len() == width,
                    0 < width <= 1000000,
                    start < width,
                    i <= rows@.len(),
                    forall|a: int| 0 <= a < rows@.len() ==> (#[trigger] rows@[a])@.len() == width,
                    total <= 1000001000000000,
                    beam_events(
                        init_rays(width as int, start as int),
                        grows,
                        0,
                        0,
                    ) == beam_events(rays@, grows, i as int, total as int),
                decreases rows@.len() - i,
            {
                let spl = &rows[i];
                proof {
                    assert((rows@[i as int])@ == grows[i as int]);
                }
                match step_row_bool(&rays, spl) {
                    None => {
                        return u64_string(0);
                    },
                    Some((next, events)) => {
                        proof {
                            lemma_split_events_le(rays@, spl@, rays@.len() as int);
                            assert(next@ =~= Seq::new(
                                rays@.len(),
                                |c: int| row_next_bool(rays@, spl@, c),
                            ));
                        }
                        if total >= 1000000000000000 {
                            return u64_string(0);
                        }
                        total = total + events;
                        rays = next;
                    },
                }
                i = i + 1;
            }
            u64_string(total)
        },
    }
}

/// A row's events cannot outnumber its columns.
proof fn lemma_split_events_le(rays: Seq<bool>, spl: Seq<bool>, k: int)
    ensures
        split_events(rays, spl, k) <= (if k >= 0 {
            k
        } else {
            0int
        }),
        split_events(rays, spl, k) >= 0,
    decreases k,
{
    if k > 0 {
        lemma_split_events_le(rays, spl, k - 1);
    }
}

/// Sums the per-column path counts after the whole descent.
pub fn puzzle_2(input: &str) -> (r: String)
    ensures
        ({
            let lines = split_spec(input.spec_bytes(), 10);
            let run = beam_counts(
                init_counts(lines[0].len() as int, beam_start(input.spec_bytes())),
                splitter_rows(lines, lines.len() as int),
                0,
            );
            &&& (beam_ok(input.spec_bytes()) && run matches Some(fin)) ==> r@ == dec_digits(
                sum_counts(run->Some_0, run->Some_0.len() as int) as nat,
            )
            &&& (beam_ok(input.spec_bytes()) && run is None) ==> r@ == dec_digits(0)
            &&& !beam_ok(input.spec_bytes()) ==> r@ == dec_digits(0)
        }),
{
    match load_input(input.as_bytes()) {
        None => u64_string(0),
        Some((start, rows, width)) => {
            let ghost grows = rows@.map_values(|row: Vec<bool>| row@);
            let mut counts: Vec<u64> = Vec::new();
            let mut j: usize = 0;
            while j < width
                invariant
                    j <= width,
                    counts@.len() == j,
                    forall|b: int|
                        0 <= b < j ==> #[trigger] counts@[b] == (if b == start {
                            1u64
                        } else {
                            0u64
                        }),
                decreases width - j,
            {
                counts.push(if j == start {
                    1
                } else {
                    0
                });
                j = j + 1;
            }
            proof {
                assert(counts@.map_values(|x: u64| x as int) =~= init_counts(
                    width as int,
                    start as int,
                ));
            }
            let mut i: usize = 0;
            while i < rows.len()
                invariant
                    beam_ok(input.spec_bytes()),
                    start as int == beam_start(input.spec_bytes()),
                    width as int == split_spec(input.spec_bytes(), 10)[0].len(),
                    grows == splitter_rows(
                        split_spec(input.spec_bytes(), 10),
                        split_spec(input.spec_bytes(), 10).len() as int,
                    ),
                    grows == rows@.map_values(|row: Vec<bool>| row@),
                    counts@.len() == width,
                    0 < width <= 1000000,
                    start < width,
                    i <= rows@.len(),
                    forall|a: int| 0 <= a < rows@.len() ==> (#[trigger] rows@[a])@.len() == width,
                    forall|c: int|
                        0 <= c < counts@.len() ==> #[trigger] counts@[c] <= 0x10000000000,
                    beam_counts(init_counts(width as int, start as int), grows, 0)
                        == beam_counts(
                        counts@.map_values(|x: u64| x as int),
                        grows,
                        i as int,
                    ),
                decreases rows@.len() - i,
            {
                let spl = &rows[i];
                proof {
                    assert((rows@[i as int])@ == grows[i as int]);
                }
                match step_row(&counts, spl) {
                    None => {
                        return u64_string(0);
                    },
                    Some(next) => {
                        let ghost gm = counts@.map_values(|x: u64| x as int);
                        let ghost nxt_spec = Seq::new(
                            gm.len(),
                            |c: int| row_next(gm, spl@, c),
                        );
                        proof {
                            assert(next@.map_values(|x: u64| x as int) =~= nxt_spec);
                        }
                        // reject any count past the working bounds
                        let mut over = false;
                        let mut c: usize = 0;
                        while c < next.len()
                            invariant
                                c <= next@.len(),
                                nxt_spec == next@.map_values(|x: u64| x as int),
                                over == exists|b: int|
                                    0 <= b < c && #[trigger] nxt_spec[b] > 0x10000000000,
                            decreases next@.len() - c,
                        {
                            if next[c] > 0x10000000000 {
                                proof {
                                    assert(nxt_spec[c as int] > 0x10000000000);
                                }
                                over = true;
                            }
                            c = c + 1;
                        }
                        if over {
                            return u64_string(0);
                        }
                        proof {
                            assert forall|c2: int| 0 <= c2 < next@.len() implies #[trigger] next@[c2]
                                <= 0x10000000000 by {
                                assert(next@[c2] as int == nxt_spec[c2]);
                            }
                        }
                        counts = next;
                    },
                }
                i = i + 1;
            }
            let mut total: u64 = 0;
            let mut c: usize = 0;
            let ghost fin = counts@.map_values(|x: u64| x as int);
            proof {
                assert(sum_counts(fin, 0) == 0);
            }
            while c < counts.len()
                invariant
                    fin == counts@.map_values(|x: u64| x as int),
                    c <= fin.len(),
                    fin.len() <= 1000000,
                    forall|b: int| 0 <= b < fin.len() ==> 0 <= #[trigger] fin[b] <= 0x10000000000,
                    total as int == sum_counts(fin, c as int),
                    total <= 0x10000000000 * (c as int),
                decreases fin.len() - c,
            {
                proof {
                    assert(fin[c as int] == counts@[c as int] as int);
                }
                total = total + counts[c];
                c = c + 1;
            }
            u64_string(total)
        },
    }
}

} // verus!

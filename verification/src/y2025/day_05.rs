//! Inclusive identifier ranges and a list of identifiers. The first
//! puzzle counts identifiers that fall in some range; the second
//! measures how many identifiers are covered by the ranges at all,
//! which is what merging every chain of overlapping ranges and summing
//! the widths of the outermost ones comes to.

use vstd::prelude::*;

use crate::numfmt::dec_digits;
use crate::numfmt::u64_string;
use crate::scan::dec_val;
use crate::scan::find_byte;
use crate::scan::is_numeral;
use crate::scan::parse_u64;
use crate::scan::split_spec;
use crate::scan::split_bytes;
use vstd::string::StringSliceAdditionalSpecFns;

verus! {

/// Whether some range of `ranges` contains `x`.
pub open spec fn covered(ranges: Seq<(int, int)>, x: int) -> bool {
    exists|i: int| 0 <= i < ranges.len() && (#[trigger] ranges[i]).0 <= x <= ranges[i].1
}

/// How many of `ing` are covered by some range.
pub open spec fn count_in(ranges: Seq<(int, int)>, ing: Seq<int>) -> int
    decreases ing.len(),
{
    if ing.len() == 0 {
        0
    } else {
        count_in(ranges, ing.drop_last()) + if covered(ranges, ing.last()) {
            1int
        } else {
            0int
        }
    }
}

/// How many integers in `[lo, lo + len)` are covered by some range.
pub open spec fn count_covered(ranges: Seq<(int, int)>, lo: int, len: int) -> int
    decreases len,
{
    if len <= 0 {
        0
    } else {
        (if covered(ranges, lo) {
            1int
        } else {
            0int
        }) + count_covered(ranges, lo + 1, len - 1)
    }
}


/// The parser state after the first `k` lines: whether still in the
/// range block, the ranges read, and the identifiers read. `None` when
/// a line was malformed, a range inverted or too large, or a block
/// overlong.
pub open spec fn parse_state(lines: Seq<Seq<u8>>, k: int) -> Option<(bool, Seq<(int, int)>, Seq<int>)>
    decreases k,
{
    if k <= 0 {
        Some((true, Seq::empty(), Seq::empty()))
    } else {
        match parse_state(lines, k - 1) {
            None => None,
            Some(st) => {
                let l = lines[k - 1];
                if l.len() == 0 {
                    Some((false, st.1, st.2))
                } else if st.0 {
                    if st.1.len() >= 100000 {
                        None
                    } else {
                        let d = crate::scan::first_sep(l, 45);
                        if d < l.len() && is_numeral(l.take(d)) && is_numeral(l.skip(d + 1))
                            && dec_val(l.take(d)) <= dec_val(l.skip(d + 1)) && dec_val(
                            l.skip(d + 1),
                        ) <= 100000000000 {
                            Some(
                                (
                                    true,
                                    st.1.push(
                                        (
                                            dec_val(l.take(d)) as int,
                                            dec_val(l.skip(d + 1)) as int,
                                        ),
                                    ),
                                    st.2,
                                ),
                            )
                        } else {
                            None
                        }
                    }
                } else {
                    if st.2.len() >= 1000000 {
                        None
                    } else if is_numeral(l) && dec_val(l) <= u64::MAX {
                        Some((st.0, st.1, st.2.push(dec_val(l) as int)))
                    } else {
                        None
                    }
                }
            },
        }
    }
}

/// The parsed blocks of the whole input, or `None` when it is rejected.
pub open spec fn parsed(s: Seq<u8>) -> Option<(Seq<(int, int)>, Seq<int>)> {
    match parse_state(split_spec(s, 10), split_spec(s, 10).len() as int) {
        None => None,
        Some(st) => Some((st.1, st.2)),
    }
}

/// The least range start.
pub open spec fn gmin(ranges: Seq<(int, int)>) -> int
    decreases ranges.len(),
{
    if ranges.len() == 0 {
        0
    } else if ranges.len() == 1 {
        ranges[0].0
    } else if gmin(ranges.drop_last()) <= ranges.last().0 {
        gmin(ranges.drop_last())
    } else {
        ranges.last().0
    }
}

/// The greatest range end.
pub open spec fn gmax(ranges: Seq<(int, int)>) -> int
    decreases ranges.len(),
{
    if ranges.len() == 0 {
        0
    } else if ranges.len() == 1 {
        ranges[0].1
    } else if gmax(ranges.drop_last()) >= ranges.last().1 {
        gmax(ranges.drop_last())
    } else {
        ranges.last().1
    }
}

/// The parsed input: the ranges before the first blank line and the
/// identifiers after it.
pub struct PantryInput {
    pub ranges: Vec<(u64, u64)>,
    pub ingredients: Vec<u64>,
}

pub open spec fn ranges_model(v: Seq<(u64, u64)>) -> Seq<(int, int)> {
    v.map_values(|p: (u64, u64)| (p.0 as int, p.1 as int))
}

/// Reads the two blocks. `None` when a line is malformed, a range is
/// inverted, or a value does not fit the counting bounds.
fn load_input(input: &[u8]) -> (r: Option<PantryInput>)
    ensures
        match r {
            Some(v) => {
                &&& parsed(input@) == Some(
                    (ranges_model(v.ranges@), v.ingredients@.map_values(|x: u64| x as int)),
                )
                &&& forall|i: int|
                    0 <= i < v.ranges@.len() ==> (#[trigger] v.ranges@[i]).0 <= v.ranges@[i].1
                        && v.ranges@[i].1 <= 100000000000
                &&& v.ranges@.len() <= 100000
                &&& v.ingredients@.len() <= 1000000
            },
            None => parsed(input@) is None,
        },
{
    let lines = split_bytes(input, 10);
    let ghost glines = split_spec(input@, 10);
    let mut ranges: Vec<(u64, u64)> = Vec::new();
    let mut ingredients: Vec<u64> = Vec::new();
    let mut i: usize = 0;
    let mut in_ranges = true;
    while i < lines.len()
        invariant
            glines == split_spec(input@, 10),
            lines@.len() == glines.len(),
            forall|j: int| 0 <= j < glines.len() ==> (#[trigger] lines@[j])@ == glines[j],
            0 <= i <= glines.len(),
            parse_state(glines, i as int) == Some(
                (
                    in_ranges,
                    ranges_model(ranges@),
                    ingredients@.map_values(|x: u64| x as int),
                ),
            ),
            forall|j: int|
                0 <= j < ranges@.len() ==> (#[trigger] ranges@[j]).0 <= ranges@[j].1
                    && ranges@[j].1 <= 100000000000,
            ranges@.len() <= 100000,
            ingredients@.len() <= 1000000,
        decreases glines.len() - i,
    {
        let line = &lines[i];
        proof {
            assert((lines@[i as int])@ == glines[i as int]);
            lemma_parse_dead(glines, i + 1, glines.len() as int);
        }
        if line.len() == 0 {
            in_ranges = false;
            proof {
                assert(parse_state(glines, i + 1) == Some(
                    (
                        in_ranges,
                        ranges_model(ranges@),
                        ingredients@.map_values(|x: u64| x as int),
                    ),
                ));
            }
        } else if in_ranges {
            if ranges.len() == 100000 {
                proof {
                    assert(parse_state(glines, i + 1) is None);
                }
                return None;
            }
            match find_byte(line.as_slice(), 0, 45) {
                None => {
                    proof {
                        assert(crate::scan::first_sep(glines[i as int], 45) == glines[i as int].len())
                            by {
                            crate::scan::lemma_first_sep(glines[i as int], 45);
                            if crate::scan::first_sep(glines[i as int], 45) < glines[i as int].len() {
                                assert(glines[i as int][crate::scan::first_sep(glines[i as int], 45)]
                                    == 45);
                            }
                        }
                        assert(parse_state(glines, i + 1) is None);
                    }
                    return None;
                },
                Some(d) => {
                    proof {
                        assert(crate::scan::first_sep(glines[i as int], 45) == d) by {
                            crate::scan::lemma_first_sep(glines[i as int], 45);
                            if crate::scan::first_sep(glines[i as int], 45) < d {
                                assert(glines[i as int][crate::scan::first_sep(glines[i as int], 45)]
                                    == 45);
                            }
                        }
                    }
                    let lo_part = vstd::slice::slice_subrange(line.as_slice(), 0, d);
                    let hi_part = vstd::slice::slice_subrange(line.as_slice(), d + 1, line.len());
                    proof {
                        assert(lo_part@ =~= glines[i as int].take(d as int));
                        assert(hi_part@ =~= glines[i as int].skip(d + 1));
                    }
                    let plo = parse_u64(lo_part);
                    let phi = parse_u64(hi_part);
                    match (plo, phi) {
                        (Some(lo), Some(hi)) => {
                            if lo > hi || hi > 100000000000 {
                                proof {
                                    assert(parse_state(glines, i + 1) is None);
                                }
                                return None;
                            }
                            ranges.push((lo, hi));
                            proof {
                                assert(ranges_model(ranges@) =~= ranges_model(
                                    ranges@.drop_last(),
                                ).push((lo as int, hi as int)));
                                assert(parse_state(glines, i + 1) == Some(
                                    (
                                        in_ranges,
                                        ranges_model(ranges@),
                                        ingredients@.map_values(|x: u64| x as int),
                                    ),
                                ));
                            }
                        },
                        _ => {
                            proof {
                                assert(parse_state(glines, i + 1) is None) by {
                                    if plo is None {
                                        if is_numeral(glines[i as int].take(d as int)) && dec_val(
                                            glines[i as int].take(d as int),
                                        ) <= dec_val(glines[i as int].skip(d + 1)) && dec_val(
                                            glines[i as int].skip(d + 1),
                                        ) <= 100000000000 {
                                            assert(dec_val(glines[i as int].take(d as int))
                                                <= 100000000000);
                                        }
                                    }
                                }
                            }
                            return None;
                        },
                    }
                },
            }
        } else {
            if ingredients.len() == 1000000 {
                proof {
                    assert(parse_state(glines, i + 1) is None);
                }
                return None;
            }
            let pv = parse_u64(line.as_slice());
            match pv {
                None => {
                    proof {
                        assert(parse_state(glines, i + 1) is None);
                    }
                    return None;
                },
                Some(v) => {
                    ingredients.push(v);
                    proof {
                        assert(ingredients@.map_values(|x: u64| x as int)
                            =~= ingredients@.drop_last().map_values(|x: u64| x as int).push(
                            v as int,
                        ));
                        assert(parse_state(glines, i + 1) == Some(
                            (
                                in_ranges,
                                ranges_model(ranges@),
                                ingredients@.map_values(|x: u64| x as int),
                            ),
                        ));
                    }
                },
            }
        }
        i = i + 1;
    }
    Some(PantryInput { ranges, ingredients })
}

/// A rejected prefix rejects the whole input.
proof fn lemma_parse_dead(lines: Seq<Seq<u8>>, k: int, n: int)
    requires
        0 <= k <= n <= lines.len(),
    ensures
        parse_state(lines, k) is None ==> parse_state(lines, n) is None,
    decreases n - k,
{
    if k < n {
        lemma_parse_dead(lines, k + 1, n);
    }
}

/// Whether some stored range contains `x`.
fn in_some_range(ranges: &Vec<(u64, u64)>, x: u64) -> (r: bool)
    ensures
        r == covered(ranges_model(ranges@), x as int),
{
    let mut i: usize = 0;
    while i < ranges.len()
        invariant
            0 <= i <= ranges@.len(),
            forall|j: int|
                0 <= j < i ==> !((#[trigger] ranges_model(ranges@)[j]).0 <= x as int
                    <= ranges_model(ranges@)[j].1),
        decreases ranges@.len() - i,
    {
        let (lo, hi) = ranges[i];
        if lo <= x && x <= hi {
            proof {
                assert((ranges_model(ranges@)[i as int]).0 <= x as int <= ranges_model(
                    ranges@,
                )[i as int].1);
            }
            return true;
        }
        proof {
            assert(ranges_model(ranges@)[i as int] == (ranges@[i as int].0 as int, ranges@[i as int].1 as int));
        }
        i = i + 1;
    }
    false
}

/// Counts the listed identifiers that fall inside at least one range.
pub fn puzzle_1(input: &str) -> (r: String)
    ensures
        match parsed(input.spec_bytes()) {
            Some(p) => r@ == dec_digits(count_in(p.0, p.1) as nat),
            None => r@ == dec_digits(0),
        },
{
    match load_input(input.as_bytes()) {
        None => u64_string(0),
        Some(data) => {
            let ghost rm = ranges_model(data.ranges@);
            let ghost gi = data.ingredients@.map_values(|x: u64| x as int);
            let mut count: u64 = 0;
            let mut i: usize = 0;
            proof {
                assert(count_in(rm, gi.take(0)) == 0);
            }
            while i < data.ingredients.len()
                invariant
                    rm == ranges_model(data.ranges@),
                    gi == data.ingredients@.map_values(|x: u64| x as int),
                    0 <= i <= gi.len(),
                    gi.len() <= 1000000,
                    count == count_in(rm, gi.take(i as int)),
                    count <= i,
                decreases gi.len() - i,
            {
                proof {
                    assert(gi.take(i + 1).drop_last() =~= gi.take(i as int));
                    assert(gi.take(i + 1).last() == gi[i as int]);
                }
                if in_some_range(&data.ranges, data.ingredients[i]) {
                    count = count + 1;
                }
                i = i + 1;
            }
            proof {
                assert(gi.take(gi.len() as int) =~= gi);
            }
            u64_string(count)
        },
    }
}

/// Counts every identifier that at least one range covers: the summed
/// width of the outermost ranges once overlapping ranges are merged.
/// Inputs whose ranges span more than ten million identifiers are
/// rejected with a zero answer.
pub fn puzzle_2(input: &str) -> (r: String)
    ensures
        match parsed(input.spec_bytes()) {
            Some(p) => {
                &&& (p.0.len() > 0 && gmax(p.0) - gmin(p.0) <= 10000000) ==> r@ == dec_digits(
                    count_covered(p.0, gmin(p.0), gmax(p.0) - gmin(p.0) + 1) as nat,
                )
                &&& !(p.0.len() > 0 && gmax(p.0) - gmin(p.0) <= 10000000) ==> r@ == dec_digits(0)
            },
            None => r@ == dec_digits(0),
        },
{
    match load_input(input.as_bytes()) {
        None => u64_string(0),
        Some(data) => {
            if data.ranges.len() == 0 {
                return u64_string(0);
            }
            let ghost rm = ranges_model(data.ranges@);
            // the covered region lies within the extreme bounds
            let mut lo: u64 = data.ranges[0].0;
            let mut hi: u64 = data.ranges[0].1;
            let mut i: usize = 1;
            proof {
                assert(rm.take(1) =~= seq![rm[0]]);
                assert(rm[0] == (data.ranges@[0].0 as int, data.ranges@[0].1 as int));
            }
            while i < data.ranges.len()
                invariant
                    rm == ranges_model(data.ranges@),
                    1 <= i <= rm.len(),
                    forall|j: int|
                        0 <= j < rm.len() ==> (#[trigger] rm[j]).0 <= rm[j].1 && rm[j].1
                            <= 100000000000,
                    lo as int == gmin(rm.take(i as int)),
                    hi as int == gmax(rm.take(i as int)),
                    lo <= hi,
                    hi <= 100000000000,
                decreases rm.len() - i,
            {
                let (a, b) = data.ranges[i];
                proof {
                    assert(rm[i as int] == (data.ranges@[i as int].0 as int, data.ranges@[i as int].1 as int));
                    assert(rm.take(i + 1).drop_last() =~= rm.take(i as int));
                    assert(rm.take(i + 1).last() == rm[i as int]);
                }
                if a < lo {
                    lo = a;
                }
                if b > hi {
                    hi = b;
                }
                i = i + 1;
            }
            proof {
                assert(rm.take(rm.len() as int) =~= rm);
            }
            if hi - lo > 10000000 {
                return u64_string(0);
            }
            let mut count: u64 = 0;
            let mut x: u64 = lo;
            proof {
                assert(count_covered(rm, lo as int, 0) == 0);
            }
            while x <= hi
                invariant
                    rm == ranges_model(data.ranges@),
                    lo <= x <= hi + 1,
                    hi - lo <= 10000000,
                    hi < u64::MAX,
                    count == count_covered(rm, lo as int, x - lo),
                    count <= x - lo,
                decreases hi + 1 - x,
            {
                proof {
                    lemma_count_covered_step(rm, lo as int, x - lo);
                }
                if in_some_range(&data.ranges, x) {
                    count = count + 1;
                }
                x = x + 1;
            }
            u64_string(count)
        },
    }
}

/// Unfolds the covered count by one from the far end.
proof fn lemma_count_covered_step(ranges: Seq<(int, int)>, lo: int, k: int)
    requires
        k >= 0,
    ensures
        count_covered(ranges, lo, k + 1) == count_covered(ranges, lo, k) + (if covered(
            ranges,
            lo + k,
        ) {
            1int
        } else {
            0int
        }),
    decreases k,
{
    if k > 0 {
        lemma_count_covered_step(ranges, lo + 1, k - 1);
    } else {
        assert(count_covered(ranges, lo, 0) == 0);
        assert(count_covered(ranges, lo + 1, 0) == 0);
    }
}

} // verus!

//! Identifier ranges whose numbers are screened for repeated digit
//! patterns: an identifier is invalid when its decimal digits are one
//! block repeated (twice for the first puzzle, any number of times for
//! the second). The answers sum the invalid identifiers.

use vstd::prelude::*;

use crate::numfmt::dec_digits;
use crate::numfmt::u64_string;
use crate::scan::dec_val;
use crate::scan::find_byte;
use crate::scan::first_sep;
use crate::scan::is_numeral;
use crate::scan::parse_u64;
use crate::scan::split_spec;
use crate::scan::split_bytes;
use crate::scan::trim_bytes;
use crate::scan::trim_spec;
use vstd::string::StringSliceAdditionalSpecFns;

verus! {

/// The decimal digits of `n`, most significant first.
pub open spec fn dig(n: nat) -> Seq<int>
    decreases n,
{
    if n < 10 {
        seq![n as int]
    } else {
        dig(n / 10).push((n % 10) as int)
    }
}

/// `s` repeats with period `p`.
pub open spec fn periodic(s: Seq<int>, p: int) -> bool {
    forall|j: int| p <= j < s.len() ==> #[trigger] s[j] == s[j - p]
}

/// Valid for the first screen: an odd number of digits, or the two
/// halves differ.
pub open spec fn valid_half(n: nat) -> bool {
    dig(n).len() % 2 == 1 || !periodic(dig(n), dig(n).len() as int / 2)
}

/// Valid for the second screen: no proper divisor of the digit count
/// is a period.
pub open spec fn valid_any(n: nat) -> bool {
    forall|p: int|
        1 <= p < dig(n).len() && dig(n).len() as int % p == 0 ==> !periodic(dig(n), p)
}

/// The digits of `n` as bytes, most significant first.
fn digits_of(n: u64) -> (r: Vec<u8>)
    ensures
        r@.map_values(|d: u8| d as int) == dig(n as nat),
        r@.len() >= 1,
    decreases n,
{
    if n < 10 {
        let mut r: Vec<u8> = Vec::new();
        r.push(n as u8);
        proof {
            assert(r@.map_values(|d: u8| d as int) =~= dig(n as nat));
        }
        r
    } else {
        let mut r = digits_of(n / 10);
        r.push((n % 10) as u8);
        proof {
            assert(r@.map_values(|d: u8| d as int) =~= dig(n as nat));
        }
        r
    }
}

/// Whether `s` repeats with period `p`.
fn check_periodic(s: &Vec<u8>, p: usize) -> (r: bool)
    requires
        p >= 1,
    ensures
        r == periodic(s@.map_values(|d: u8| d as int), p as int),
{
    let ghost m = s@.map_values(|d: u8| d as int);
    let mut j: usize = p;
    if s.len() <= p {
        return true;
    }
    while j < s.len()
        invariant
            m == s@.map_values(|d: u8| d as int),
            p >= 1,
            p <= j <= s@.len(),
            forall|k: int| p <= k < j ==> #[trigger] m[k] == m[k - p],
        decreases s@.len() - j,
    {
        if s[j] != s[j - p] {
            proof {
                assert(m[j as int] != m[j as int - p]);
            }
            return false;
        }
        j = j + 1;
    }
    true
}

/// Whether `number` passes the two-block screen.
pub fn is_valid_1(number: i64) -> (r: bool)
    requires
        number >= 0,
    ensures
        r == valid_half(number as nat),
{
    let d = digits_of(number as u64);
    if d.len() % 2 == 1 {
        return true;
    }
    let half = d.len() / 2;
    let p = check_periodic(&d, half);
    proof {
        assert(half as int == dig(number as nat).len() as int / 2);
    }
    !p
}

/// Whether `number` passes the any-block screen.
pub fn is_valid_n(number: i64) -> (r: bool)
    requires
        number >= 0,
    ensures
        r == valid_any(number as nat),
{
    let d = digits_of(number as u64);
    let ghost m = d@.map_values(|x: u8| x as int);
    let mut p: usize = 1;
    while p < d.len()
        invariant
            m == d@.map_values(|x: u8| x as int),
            m == dig(number as nat),
            1 <= p <= m.len(),
            forall|q: int| 1 <= q < p && m.len() as int % q == 0 ==> !periodic(m, q),
        decreases m.len() - p,
    {
        if d.len() % p == 0 {
            if check_periodic(&d, p) {
                proof {
                    assert(periodic(m, p as int) && m.len() as int % (p as int) == 0);
                }
                return false;
            }
        }
        p = p + 1;
    }
    true
}

/// The sum of identifiers in `[lo, lo + len)` that fail the two-block
/// screen.
pub open spec fn bad_half_sum(lo: int, len: int) -> int
    decreases len,
{
    if len <= 0 {
        0
    } else {
        (if lo >= 0 && !valid_half(lo as nat) {
            lo
        } else {
            0int
        }) + bad_half_sum(lo + 1, len - 1)
    }
}

/// The sum of identifiers in `[lo, lo + len)` that fail the any-block
/// screen.
pub open spec fn bad_any_sum(lo: int, len: int) -> int
    decreases len,
{
    if len <= 0 {
        0
    } else {
        (if lo >= 0 && !valid_any(lo as nat) {
            lo
        } else {
            0int
        }) + bad_any_sum(lo + 1, len - 1)
    }
}

/// The ranges of the input: comma-separated `lo-hi` pairs, each within
/// the driver's bounds.
pub open spec fn pairs_ok(s: Seq<u8>) -> bool {
    let parts = split_spec(trim_spec(s), 44);
    parts.len() <= 100 && forall|i: int|
        0 <= i < parts.len() ==> {
            let l = #[trigger] parts[i];
            let d = first_sep(l, 45);
            &&& d < l.len()
            &&& is_numeral(l.take(d))
            &&& is_numeral(l.skip(d + 1))
            &&& dec_val(l.take(d)) <= dec_val(l.skip(d + 1))
            &&& dec_val(l.skip(d + 1)) <= 10000000000
            &&& dec_val(l.skip(d + 1)) - dec_val(l.take(d)) <= 1000000
        }
}

/// The `(lo, hi)` pairs of the input.
pub open spec fn pairs_of(parts: Seq<Seq<u8>>) -> Seq<(int, int)> {
    parts.map_values(
        |l: Seq<u8>|
            (
                dec_val(l.take(first_sep(l, 45))) as int,
                dec_val(l.skip(first_sep(l, 45) + 1)) as int,
            ),
    )
}

/// The summed invalid identifiers over all ranges under the two-block
/// screen (`half` true) or the any-block screen.
pub open spec fn total_bad(pairs: Seq<(int, int)>, half: bool) -> int
    decreases pairs.len(),
{
    if pairs.len() == 0 {
        0
    } else {
        total_bad(pairs.drop_last(), half) + (if half {
            bad_half_sum(pairs.last().0, pairs.last().1 - pairs.last().0 + 1)
        } else {
            bad_any_sum(pairs.last().0, pairs.last().1 - pairs.last().0 + 1)
        })
    }
}

fn load_input(input: &[u8]) -> (r: Option<Vec<(u64, u64)>>)
    ensures
        match r {
            Some(v) => pairs_ok(input@) && v@.map_values(|p: (u64, u64)| (p.0 as int, p.1 as int))
                == pairs_of(split_spec(trim_spec(input@), 44)) && v@.len() <= 100 && forall|
                i: int,
            |
                0 <= i < v@.len() ==> (#[trigger] v@[i]).0 <= v@[i].1 && v@[i].1 <= 10000000000
                    && v@[i].1 - v@[i].0 <= 1000000,
            None => !pairs_ok(input@),
        },
{
    let trimmed = trim_bytes(input);
    let parts = split_bytes(trimmed, 45 - 1);
    let ghost gparts = split_spec(trim_spec(input@), 44);
    let mut out: Vec<(u64, u64)> = Vec::new();
    let mut i: usize = 0;
    if parts.len() > 100 {
        return None;
    }
    while i < parts.len()
        invariant
            gparts == split_spec(trim_spec(input@), 44),
            parts@.len() == gparts.len(),
            gparts.len() <= 100,
            forall|j: int| 0 <= j < gparts.len() ==> (#[trigger] parts@[j])@ == gparts[j],
            0 <= i <= gparts.len(),
            out@.len() == i,
            forall|j: int|
                0 <= j < i ==> {
                    let l = #[trigger] gparts[j];
                    let d = first_sep(l, 45);
                    &&& d < l.len()
                    &&& is_numeral(l.take(d))
                    &&& is_numeral(l.skip(d + 1))
                    &&& dec_val(l.take(d)) <= dec_val(l.skip(d + 1))
                    &&& dec_val(l.skip(d + 1)) <= 10000000000
                    &&& dec_val(l.skip(d + 1)) - dec_val(l.take(d)) <= 1000000
                },
            forall|j: int|
                0 <= j < i ==> #[trigger] out@[j] == (
                    (dec_val(gparts[j].take(first_sep(gparts[j], 45))) as u64),
                    (dec_val(gparts[j].skip(first_sep(gparts[j], 45) + 1)) as u64),
                ),
            forall|j: int|
                0 <= j < out@.len() ==> (#[trigger] out@[j]).0 <= out@[j].1 && out@[j].1
                    <= 10000000000 && out@[j].1 - out@[j].0 <= 1000000,
        decreases gparts.len() - i,
    {
        let part = &parts[i];
        proof {
            assert((parts@[i as int])@ == gparts[i as int]);
        }
        match find_byte(part.as_slice(), 0, 45) {
            None => {
                proof {
                    crate::scan::lemma_first_sep(gparts[i as int], 45);
                    if first_sep(gparts[i as int], 45) < gparts[i as int].len() {
                        assert(gparts[i as int][first_sep(gparts[i as int], 45)] == 45);
                    }
                }
                return None;
            },
            Some(d) => {
                proof {
                    crate::scan::lemma_first_sep(gparts[i as int], 45);
                    assert(first_sep(gparts[i as int], 45) == d) by {
                        if first_sep(gparts[i as int], 45) < d {
                            assert(gparts[i as int][first_sep(gparts[i as int], 45)] == 45);
                        }
                    }
                }
                let lo_part = vstd::slice::slice_subrange(part.as_slice(), 0, d);
                let hi_part = vstd::slice::slice_subrange(part.as_slice(), d + 1, part.len());
                proof {
                    assert(lo_part@ =~= gparts[i as int].take(d as int));
                    assert(hi_part@ =~= gparts[i as int].skip(d + 1));
                }
                let plo = parse_u64(lo_part);
                let phi = parse_u64(hi_part);
                match (plo, phi) {
                    (Some(lo), Some(hi)) => {
                        if lo > hi || hi > 10000000000 || hi - lo > 1000000 {
                            return None;
                        }
                        out.push((lo, hi));
                    },
                    _ => {
                        proof {
                            if is_numeral(gparts[i as int].take(d as int)) && is_numeral(
                                gparts[i as int].skip(d + 1),
                            ) && dec_val(gparts[i as int].skip(d + 1)) <= 10000000000 && dec_val(
                                gparts[i as int].take(d as int),
                            ) <= dec_val(gparts[i as int].skip(d + 1)) {
                                assert(dec_val(gparts[i as int].take(d as int)) <= 10000000000);
                            }
                        }
                        return None;
                    },
                }
            },
        }
        i = i + 1;
    }
    proof {
        assert(out@.map_values(|p: (u64, u64)| (p.0 as int, p.1 as int)) =~= pairs_of(gparts));
    }
    Some(out)
}

/// Sums the invalid identifiers under the chosen screen.
fn solve(input: &[u8], half: bool) -> (r: String)
    ensures
        pairs_ok(input@) ==> r@ == dec_digits(
            total_bad(pairs_of(split_spec(trim_spec(input@), 44)), half) as nat,
        ),
        !pairs_ok(input@) ==> r@ == dec_digits(0),
{
    match load_input(input) {
        None => u64_string(0),
        Some(pairs) => {
            let ghost gp = pairs@.map_values(|p: (u64, u64)| (p.0 as int, p.1 as int));
            let mut sum: u64 = 0;
            let mut i: usize = 0;
            proof {
                assert(total_bad(gp.take(0), half) == 0);
            }
            while i < pairs.len()
                invariant
                    gp == pairs@.map_values(|p: (u64, u64)| (p.0 as int, p.1 as int)),
                    0 <= i <= gp.len(),
                    gp.len() <= 100,
                    forall|j: int|
                        0 <= j < gp.len() ==> 0 <= (#[trigger] gp[j]).0 <= gp[j].1 && gp[j].1
                            <= 10000000000 && gp[j].1 - gp[j].0 <= 1000000,
                    sum == total_bad(gp.take(i as int), half),
                    sum <= 10010000000000000 * i,
                decreases gp.len() - i,
            {
                let (lo, hi) = pairs[i];
                proof {
                    assert(gp[i as int] == (pairs@[i as int].0 as int, pairs@[i as int].1 as int));
                    assert(gp.take(i + 1).drop_last() =~= gp.take(i as int));
                    assert(gp.take(i + 1).last() == gp[i as int]);
                }
                let mut x: u64 = lo;
                let mut part: u64 = 0;
                proof {
                    if half {
                        assert(bad_half_sum(lo as int, 0) == 0);
                    } else {
                        assert(bad_any_sum(lo as int, 0) == 0);
                    }
                }
                while x <= hi
                    invariant
                        lo <= x <= hi + 1,
                        hi <= 10000000000,
                        hi - lo <= 1000000,
                        part == (if half {
                            bad_half_sum(lo as int, x - lo)
                        } else {
                            bad_any_sum(lo as int, x - lo)
                        }),
                        part <= 10000000000 * (x - lo),
                    decreases hi + 1 - x,
                {
                    proof {
                        if half {
                            lemma_bad_half_step(lo as int, x - lo);
                        } else {
                            lemma_bad_any_step(lo as int, x - lo);
                        }
                    }
                    let ok = if half {
                        is_valid_1(x as i64)
                    } else {
                        is_valid_n(x as i64)
                    };
                    if !ok {
                        part = part + x;
                    }
                    x = x + 1;
                }
                sum = sum + part;
                i = i + 1;
            }
            proof {
                assert(gp.take(gp.len() as int) =~= gp);
            }
            u64_string(sum)
        },
    }
}

proof fn lemma_bad_half_step(lo: int, k: int)
    requires
        k >= 0,
    ensures
        bad_half_sum(lo, k + 1) == bad_half_sum(lo, k) + (if lo + k >= 0 && !valid_half(
            (lo + k) as nat,
        ) {
            lo + k
        } else {
            0int
        }),
    decreases k,
{
    if k > 0 {
        lemma_bad_half_step(lo + 1, k - 1);
    } else {
        assert(bad_half_sum(lo, 0) == 0);
        assert(bad_half_sum(lo + 1, 0) == 0);
    }
}

proof fn lemma_bad_any_step(lo: int, k: int)
    requires
        k >= 0,
    ensures
        bad_any_sum(lo, k + 1) == bad_any_sum(lo, k) + (if lo + k >= 0 && !valid_any(
            (lo + k) as nat,
        ) {
            lo + k
        } else {
            0int
        }),
    decreases k,
{
    if k > 0 {
        lemma_bad_any_step(lo + 1, k - 1);
    } else {
        assert(bad_any_sum(lo, 0) == 0);
        assert(bad_any_sum(lo + 1, 0) == 0);
    }
}

/// Sums identifiers made of one digit block repeated twice.
pub fn puzzle_1(input: &str) -> (r: String)
    ensures
        pairs_ok(input.spec_bytes()) ==> r@ == dec_digits(
            total_bad(pairs_of(split_spec(trim_spec(input.spec_bytes()), 44)), true) as nat,
        ),
        !pairs_ok(input.spec_bytes()) ==> r@ == dec_digits(0),
{
    solve(input.as_bytes(), true)
}

/// Sums identifiers made of one digit block repeated any number of
/// times.
pub fn puzzle_2(input: &str) -> (r: String)
    ensures
        pairs_ok(input.spec_bytes()) ==> r@ == dec_digits(
            total_bad(pairs_of(split_spec(trim_spec(input.spec_bytes()), 44)), false) as nat,
        ),
        !pairs_ok(input.spec_bytes()) ==> r@ == dec_digits(0),
{
    solve(input.as_bytes(), false)
}

} // verus!

//! A dial that starts at 50 and is turned left or right by a list of
//! commands. The first puzzle counts how often the dial stops on a
//! multiple of 100; the second counts every multiple of 100 the dial
//! sweeps past, wrapping the dial position after each command.

use vstd::prelude::*;

use crate::numfmt::dec_digits;
use crate::numfmt::u64_string;
use crate::scan::all_digits;
use crate::scan::dec_val;
use crate::scan::split_spec;
use crate::scan::split_bytes;
use crate::scan::parse_u64;
use vstd::string::StringSliceAdditionalSpecFns;

verus! {

/// A line is a direction letter (`L` or `R`) followed by a distance
/// small enough for the dial arithmetic.
pub open spec fn line_ok(l: Seq<u8>) -> bool {
    l.len() >= 2 && (l[0] == 76 || l[0] == 82) && all_digits(l.skip(1)) && dec_val(l.skip(1))
        <= 32767
}

/// The signed turn of a command line: negative for `L`, positive for `R`.
pub open spec fn line_val(l: Seq<u8>) -> int {
    if l[0] == 76 {
        -(dec_val(l.skip(1)) as int)
    } else {
        dec_val(l.skip(1)) as int
    }
}

/// Every non-empty line of the input is a well-formed command.
pub open spec fn input_ok(s: Seq<u8>) -> bool {
    forall|i: int|
        0 <= i < split_spec(s, 10).len() ==> ((#[trigger] split_spec(s, 10)[i]).len() == 0
            || line_ok(split_spec(s, 10)[i]))
}

/// The signed turns of the input, empty lines skipped.
pub open spec fn turns_of(lines: Seq<Seq<u8>>) -> Seq<int>
    decreases lines.len(),
{
    if lines.len() == 0 {
        Seq::empty()
    } else {
        turns_of(lines.drop_last()) + (if lines.last().len() == 0 {
            Seq::<int>::empty()
        } else {
            seq![line_val(lines.last())]
        })
    }
}

/// Dial position and stop count after the first `k` turns.
pub open spec fn stops_state(turns: Seq<int>, k: int) -> (int, int)
    decreases k,
{
    if k <= 0 {
        (50, 0)
    } else {
        let s = stops_state(turns, k - 1);
        let dial = s.0 + turns[k - 1];
        (dial, s.1 + if dial % 100 == 0 { 1int } else { 0int })
    }
}

/// How many multiples of 100 lie in `[a, a + len)`.
pub open spec fn mult_count(a: int, len: int) -> int
    decreases len,
{
    if len <= 0 {
        0
    } else {
        (if a % 100 == 0 { 1int } else { 0int }) + mult_count(a + 1, len - 1)
    }
}

/// The truncated remainder used by machine division.
pub open spec fn trunc_mod(a: int, m: int) -> int {
    if a >= 0 {
        a % m
    } else {
        -((-a) % m)
    }
}

/// Dial position and sweep count after the first `k` turns: every
/// multiple of 100 passed over counts, and the dial wraps to its
/// remainder after each command.
pub open spec fn sweeps_state(turns: Seq<int>, k: int) -> (int, int)
    decreases k,
{
    if k <= 0 {
        (50, 0)
    } else {
        let s = sweeps_state(turns, k - 1);
        let t = turns[k - 1];
        let passed = if t > 0 {
            mult_count(s.0 + 1, t)
        } else {
            mult_count(s.0 + t, -t)
        };
        (trunc_mod(s.0 + t, 100), s.1 + passed)
    }
}

/// Reads the command list; `None` when some non-empty line is not a
/// well-formed command.
fn load_input(input: &[u8]) -> (r: Option<Vec<i64>>)
    ensures
        match r {
            Some(v) => input_ok(input@) && v@.map_values(|x: i64| x as int) == turns_of(
                split_spec(input@, 10),
            ) && forall|j: int| 0 <= j < v@.len() ==> -32767 <= #[trigger] v@[j] <= 32767,
            None => !input_ok(input@),
        },
{
    let lines = split_bytes(input, 10);
    let ghost glines = split_spec(input@, 10);
    let mut out: Vec<i64> = Vec::new();
    let mut i: usize = 0;
    proof {
        assert(turns_of(glines.take(0)) =~= Seq::<int>::empty());
        assert(out@.map_values(|x: i64| x as int) =~= Seq::<int>::empty());
    }
    while i < lines.len()
        invariant
            glines == split_spec(input@, 10),
            lines@.len() == glines.len(),
            forall|j: int| 0 <= j < glines.len() ==> (#[trigger] lines@[j])@ == glines[j],
            0 <= i <= glines.len(),
            forall|j: int|
                0 <= j < i ==> ((#[trigger] glines[j]).len() == 0 || line_ok(glines[j])),
            out@.map_values(|x: i64| x as int) == turns_of(glines.take(i as int)),
            forall|j: int| 0 <= j < out@.len() ==> -32767 <= #[trigger] out@[j] <= 32767,
        decreases glines.len() - i,
    {
        let line = &lines[i];
        proof {
            assert(glines.take(i + 1).drop_last() =~= glines.take(i as int));
            assert((lines@[i as int])@ == glines[i as int]);
        }
        if line.len() > 0 {
            if line.len() < 2 {
                proof {
                    assert(!line_ok(glines[i as int]));
                    assert(!input_ok(input@)) by {
                        assert((split_spec(input@, 10)[i as int]).len() != 0 && !line_ok(
                            split_spec(input@, 10)[i as int],
                        ));
                    }
                }
                return None;
            }
            let head = line[0];
            if head != 76 && head != 82 {
                proof {
                    assert(!line_ok(glines[i as int]));
                    assert(!input_ok(input@)) by {
                        assert((split_spec(input@, 10)[i as int]).len() != 0 && !line_ok(
                            split_spec(input@, 10)[i as int],
                        ));
                    }
                }
                return None;
            }
            let rest = vstd::slice::slice_subrange(line.as_slice(), 1, line.len());
            proof {
                assert(rest@ =~= line@.skip(1));
            }
            let parsed_num = parse_u64(rest);
            match parsed_num {
                Some(v) => {
                    if v > 32767 {
                        proof {
                            assert(!line_ok(glines[i as int]));
                        }
                        return None;
                    }
                    let t: i64 = if head == 76 {
                        -(v as i64)
                    } else {
                        v as i64
                    };
                    out.push(t);
                    proof {
                        assert(line_ok(glines[i as int]));
                        assert(out@.map_values(|x: i64| x as int) =~= turns_of(
                            glines.take(i + 1),
                        ));
                    }
                },
                None => {
                    proof {
                        assert(!line_ok(glines[i as int])) by {
                            if line_ok(glines[i as int]) {
                                assert(dec_val(glines[i as int].skip(1)) <= 32767);
                            }
                        }
                    }
                    return None;
                },
            }
        } else {
            proof {
                assert(out@.map_values(|x: i64| x as int) =~= turns_of(glines.take(i + 1)));
            }
        }
        i = i + 1;
    }
    proof {
        assert(glines.take(glines.len() as int) =~= glines);
    }
    Some(out)
}

/// How often the dial stops exactly on a multiple of 100.
pub fn puzzle_1(input: &str) -> (r: String)
    ensures
        ({
            let turns = turns_of(split_spec(input.spec_bytes(), 10));
            &&& (input_ok(input.spec_bytes()) && turns.len() <= 1000000000) ==> r@ == dec_digits(
                stops_state(turns, turns.len() as int).1 as nat,
            )
            &&& !(input_ok(input.spec_bytes()) && turns.len() <= 1000000000) ==> r@ == dec_digits(
                0,
            )
        }),
{
    let parsed = load_input(input.as_bytes());
    match parsed {
        None => u64_string(0),
        Some(turns) => {
            if turns.len() > 1000000000 {
                return u64_string(0);
            }
            let ghost gt = turns@.map_values(|x: i64| x as int);
            let mut dial: i64 = 50;
            let mut count: u64 = 0;
            let mut i: usize = 0;
            while i < turns.len()
                invariant
                    0 <= i <= turns@.len(),
                    turns@.len() <= 1000000000,
                    gt == turns@.map_values(|x: i64| x as int),
                    forall|j: int| 0 <= j < gt.len() ==> -32767 <= #[trigger] gt[j] <= 32767,
                    dial == stops_state(gt, i as int).0,
                    count == stops_state(gt, i as int).1,
                    -50 - 32767 * (i as int) <= dial <= 50 + 32767 * (i as int),
                    count <= i,
                decreases turns@.len() - i,
            {
                proof {
                    assert(gt[i as int] == turns@[i as int] as int);
                }
                dial = dial + turns[i];
                if dial % 100 == 0 {
                    count = count + 1;
                }
                i = i + 1;
            }
            u64_string(count)
        },
    }
}

/// How many multiples of 100 the dial sweeps past in total.
pub fn puzzle_2(input: &str) -> (r: String)
    ensures
        ({
            let turns = turns_of(split_spec(input.spec_bytes(), 10));
            &&& (input_ok(input.spec_bytes()) && turns.len() <= 1000000000) ==> r@ == dec_digits(
                sweeps_state(turns, turns.len() as int).1 as nat,
            )
            &&& !(input_ok(input.spec_bytes()) && turns.len() <= 1000000000) ==> r@ == dec_digits(
                0,
            )
        }),
{
    let parsed = load_input(input.as_bytes());
    match parsed {
        None => u64_string(0),
        Some(turns) => {
            if turns.len() > 1000000000 {
                return u64_string(0);
            }
            let ghost gt = turns@.map_values(|x: i64| x as int);
            let mut dial: i64 = 50;
            let mut count: u64 = 0;
            let mut i: usize = 0;
            while i < turns.len()
                invariant
                    0 <= i <= turns@.len(),
                    turns@.len() <= 1000000000,
                    gt == turns@.map_values(|x: i64| x as int),
                    forall|j: int| 0 <= j < gt.len() ==> -32767 <= #[trigger] gt[j] <= 32767,
                    dial == sweeps_state(gt, i as int).0,
                    count == sweeps_state(gt, i as int).1,
                    -100 < dial < 100 || (i == 0 && dial == 50),
                    count <= 32767 * (i as int),
                decreases turns@.len() - i,
            {
                let t = turns[i];
                proof {
                    assert(gt[i as int] == turns@[i as int] as int);
                }
                let (start, steps): (i64, i64) = if t > 0 {
                    (dial + 1, t)
                } else {
                    (dial + t, -t)
                };
                let mut passed: u64 = 0;
                let mut k: i64 = 0;
                while k < steps
                    invariant
                        0 <= k <= steps,
                        0 <= steps <= 32767,
                        -33000 <= start <= 33000,
                        passed == mult_count(start as int, k as int) && passed <= k,
                    decreases steps - k,
                {
                    proof {
                        lemma_mult_count_step(start as int, k as int);
                    }
                    if (start + k) % 100 == 0 {
                        passed = passed + 1;
                    }
                    k = k + 1;
                }
                proof {
                    lemma_mult_count_prefix_zero(start as int);
                }
                dial = (dial + t) % 100;
                count = count + passed;
                i = i + 1;
            }
            u64_string(count)
        },
    }
}

/// Unfolds one step of the multiple count from the front.
proof fn lemma_mult_count_step(a: int, k: int)
    requires
        k >= 0,
    ensures
        mult_count(a, k + 1) == mult_count(a, k) + (if (a + k) % 100 == 0 {
            1int
        } else {
            0int
        }),
    decreases k,
{
    if k > 0 {
        lemma_mult_count_step(a + 1, k - 1);
        assert(mult_count(a, k + 1) == (if a % 100 == 0 {
            1int
        } else {
            0int
        }) + mult_count(a + 1, k));
        assert(mult_count(a, k) == (if a % 100 == 0 {
            1int
        } else {
            0int
        }) + mult_count(a + 1, k - 1));
    } else {
        assert(mult_count(a + 1, 0) == 0);
        assert(mult_count(a, 0) == 0);
    }
}

proof fn lemma_mult_count_prefix_zero(a: int)
    ensures
        mult_count(a, 0) == 0,
{
}

} // verus!

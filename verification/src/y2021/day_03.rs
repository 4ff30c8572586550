//! Binary diagnostic report. The first puzzle combines the most and
//! least common bit of each column into two rates and multiplies them;
//! the second repeatedly filters the report on the most (or least)
//! common bit from the highest column down until one number remains.

use vstd::prelude::*;

use crate::numfmt::dec_digits;
use crate::numfmt::u64_string;
use crate::scan::find_byte;
use crate::scan::split_spec;
use crate::scan::split_bytes;
use vstd::string::StringSliceAdditionalSpecFns;

verus! {

/// Bit `k` of `n`.
pub open spec fn bit_of(n: u16, k: u16) -> u16 {
    (n >> k) & 1
}

/// The value of a string of `0` and `1` characters.
pub open spec fn bin_val(s: Seq<u8>) -> nat
    decreases s.len(),
{
    if s.len() == 0 {
        0
    } else {
        bin_val(s.drop_last()) * 2 + (s.last() - 48) as nat
    }
}

/// `s` is a non-empty string of at most 16 binary digits.
pub open spec fn bin_ok(s: Seq<u8>) -> bool {
    1 <= s.len() <= 16 && forall|i: int| 0 <= i < s.len() ==> (#[trigger] s[i] == 48 || s[i] == 49)
}

/// How many of `nums` have bit `k` equal to `b`.
pub open spec fn cnt_bit(nums: Seq<u16>, k: u16, b: u16) -> int
    decreases nums.len(),
{
    if nums.len() == 0 {
        0
    } else {
        cnt_bit(nums.drop_last(), k, b) + if bit_of(nums.last(), k) == b {
            1int
        } else {
            0int
        }
    }
}

/// The most common value of bit `k`, ties resolved to one.
pub open spec fn most_common(nums: Seq<u16>, k: u16) -> u16 {
    if cnt_bit(nums, k, 0) > cnt_bit(nums, k, 1) {
        0
    } else {
        1
    }
}

/// The numbers whose bit `k` equals `b`.
pub open spec fn keep_bit(nums: Seq<u16>, k: u16, b: u16) -> Seq<u16>
    decreases nums.len(),
{
    if nums.len() == 0 {
        Seq::empty()
    } else {
        keep_bit(nums.drop_last(), k, b) + (if bit_of(nums.last(), k) == b {
            seq![nums.last()]
        } else {
            Seq::<u16>::empty()
        })
    }
}

/// One filtering round on bit `k`: keep the most (or least) common bit
/// value, unless only one number is left.
pub open spec fn refine_step(nums: Seq<u16>, k: u16, most: bool) -> Seq<u16> {
    if nums.len() == 1 {
        nums
    } else if most {
        keep_bit(nums, k, most_common(nums, k))
    } else {
        keep_bit(nums, k, (most_common(nums, k) ^ 1) as u16)
    }
}

/// The report after filtering on bits `len-1 .. len-steps`.
pub open spec fn refined(nums: Seq<u16>, len: int, steps: int, most: bool) -> Seq<u16>
    decreases steps,
{
    if steps <= 0 {
        nums
    } else {
        refine_step(refined(nums, len, steps - 1, most), (len - steps) as u16, most)
    }
}

/// Every power of two up to the sixteenth.
pub open spec fn pow2_16(k: int) -> int
    decreases k,
{
    if k <= 0 {
        1
    } else {
        2 * pow2_16(k - 1)
    }
}

/// The rate built from the chosen bit of each column.
pub open spec fn rate(nums: Seq<u16>, len: int, most: bool) -> int
    decreases len,
{
    if len <= 0 {
        0
    } else {
        rate(nums, len - 1, most) + (if most {
            most_common(nums, (len - 1) as u16) as int
        } else {
            (most_common(nums, (len - 1) as u16) ^ 1) as int
        }) * pow2_16(len - 1)
    }
}

/// The parsed report: the column count and the numbers, or `None` when
/// the input is rejected.
pub open spec fn report_of(s: Seq<u8>) -> Option<(int, Seq<u16>)> {
    let lines = split_spec(s, 10);
    if lines.len() >= 1 && 1 <= lines[0].len() <= 16 && lines.len() <= 1000000 && (forall|i: int|
        0 <= i < lines.len() ==> ((#[trigger] lines[i]).len() == 0 || bin_ok(lines[i]))) {
        Some((lines[0].len() as int, nums_of(lines)))
    } else {
        None
    }
}

/// The values of the non-empty lines.
pub open spec fn nums_of(lines: Seq<Seq<u8>>) -> Seq<u16>
    decreases lines.len(),
{
    if lines.len() == 0 {
        Seq::empty()
    } else {
        nums_of(lines.drop_last()) + (if lines.last().len() == 0 {
            Seq::<u16>::empty()
        } else {
            seq![bin_val(lines.last()) as u16]
        })
    }
}

/// A binary numeral is below two to its length.
proof fn lemma_bin_val_pow(s: Seq<u8>)
    requires
        forall|i: int| 0 <= i < s.len() ==> (#[trigger] s[i] == 48 || s[i] == 49),
    ensures
        bin_val(s) < pow2_16(s.len() as int),
        s.len() <= 16 ==> bin_val(s) < 65536,
        s.len() <= 15 ==> bin_val(s) < 32768,
    decreases s.len(),
{
    if s.len() > 0 {
        lemma_bin_val_pow(s.drop_last());
    } else {
        assert(pow2_16(0) == 1);
    }
    assert(pow2_16(16) == 65536) by {
        reveal_with_fuel(pow2_16, 18);
    }
    assert(pow2_16(15) == 32768) by {
        reveal_with_fuel(pow2_16, 18);
    }
    if s.len() <= 16 {
        lemma_pow2_16_mono(s.len() as int, 16);
    }
    if s.len() <= 15 {
        lemma_pow2_16_mono(s.len() as int, 15);
    }
}

proof fn lemma_pow2_16_mono(a: int, b: int)
    requires
        a <= b,
    ensures
        pow2_16(a) <= pow2_16(b),
        pow2_16(a) >= 1,
    decreases b - a + (if b >= 0 {
        b
    } else {
        0int
    }),
{
    if a < b {
        lemma_pow2_16_mono(a, b - 1);
    } else if a > 0 {
        lemma_pow2_16_mono(a - 1, a - 1);
    }
}

/// Reads the report.
fn parse_input(input: &[u8]) -> (r: Option<(u16, Vec<u16>)>)
    ensures
        match r {
            Some((len, nums)) => report_of(input@) == Some((len as int, nums@)),
            None => report_of(input@) is None,
        },
{
    let lines = split_bytes(input, 10);
    let ghost glines = split_spec(input@, 10);
    if lines.len() == 0 || lines.len() > 1000000 {
        return None;
    }
    let width = lines[0].len();
    if width < 1 || width > 16 {
        return None;
    }
    let mut nums: Vec<u16> = Vec::new();
    let mut i: usize = 0;
    proof {
        assert(nums_of(glines.take(0)) =~= Seq::<u16>::empty());
    }
    while i < lines.len()
        invariant
            glines == split_spec(input@, 10),
            lines@.len() == glines.len(),
            forall|j: int| 0 <= j < glines.len() ==> (#[trigger] lines@[j])@ == glines[j],
            0 <= i <= glines.len(),
            forall|j: int|
                0 <= j < i ==> ((#[trigger] glines[j]).len() == 0 || bin_ok(glines[j])),
            nums@ == nums_of(glines.take(i as int)),
        decreases glines.len() - i,
    {
        let line = &lines[i];
        proof {
            assert((lines@[i as int])@ == glines[i as int]);
            assert(glines.take(i + 1).drop_last() =~= glines.take(i as int));
        }
        if line.len() > 0 {
            if line.len() > 16 {
                return None;
            }
            let mut v: u16 = 0;
            let mut j: usize = 0;
            proof {
                assert(bin_val(line@.take(0)) == 0);
            }
            while j < line.len()
                invariant
                    glines == split_spec(input@, 10),
                    0 <= i < glines.len(),
                    line@ == glines[i as int],
                    0 <= j <= line@.len() <= 16,
                    forall|jj: int| 0 <= jj < j ==> (#[trigger] line@[jj] == 48 || line@[jj] == 49),
                    v as nat == bin_val(line@.take(j as int)),
                decreases line@.len() - j,
            {
                let c = line[j];
                if c != 48 && c != 49 {
                    proof {
                        assert(!bin_ok(glines[i as int]));
                    }
                    return None;
                }
                proof {
                    assert(line@.take(j + 1).drop_last() =~= line@.take(j as int));
                    assert(line@.take(j + 1).last() == line@[j as int]);
                    assert forall|jj: int|
                        0 <= jj < j + 1 implies (#[trigger] line@.take(j + 1)[jj] == 48 || line@.take(
                        j + 1,
                    )[jj] == 49) by {}
                    lemma_bin_val_pow(line@.take(j as int));
                    lemma_bin_val_pow(line@.take(j + 1));
                }
                v = v * 2 + ((c - 48) as u16);
                j = j + 1;
            }
            proof {
                assert(line@.take(line@.len() as int) =~= line@);
                assert(bin_ok(glines[i as int]));
            }
            nums.push(v);
            proof {
                assert(nums@ =~= nums_of(glines.take(i + 1)));
            }
        } else {
            proof {
                assert(nums@ =~= nums_of(glines.take(i + 1)));
            }
        }
        i = i + 1;
    }
    proof {
        assert(glines.take(glines.len() as int) =~= glines);
    }
    Some((width as u16, nums))
}

/// The most common value of bit `k`, ties resolved to one.
fn get_most_common_nth_bit(bits: &Vec<u16>, k: u16) -> (r: u16)
    requires
        k < 16,
    ensures
        r == most_common(bits@, k),
{
    let mut zeros: u64 = 0;
    let mut ones: u64 = 0;
    let mut i: usize = 0;
    proof {
        assert(cnt_bit(bits@.take(0), k, 0) == 0);
        assert(cnt_bit(bits@.take(0), k, 1) == 0);
    }
    while i < bits.len()
        invariant
            0 <= i <= bits@.len(),
            k < 16,
            zeros == cnt_bit(bits@.take(i as int), k, 0),
            ones == cnt_bit(bits@.take(i as int), k, 1),
            zeros <= i,
            ones <= i,
        decreases bits@.len() - i,
    {
        proof {
            assert(bits@.take(i + 1).drop_last() =~= bits@.take(i as int));
            assert(bits@.take(i + 1).last() == bits@[i as int]);
        }
        let bv = bits[i];
        let b = (bv >> k) & 1;
        proof {
            assert(b == bit_of(bits@[i as int], k));
            assert(((bv >> k) & 1) == 0 || ((bv >> k) & 1) == 1) by (bit_vector);
        }
        if b == 0 {
            zeros = zeros + 1;
        } else {
            ones = ones + 1;
        }
        i = i + 1;
    }
    proof {
        assert(bits@.take(bits@.len() as int) =~= bits@);
    }
    if zeros > ones {
        0
    } else {
        1
    }
}

/// The least common value of bit `k`.
fn get_least_common_nth_bit(bits: &Vec<u16>, k: u16) -> (r: u16)
    requires
        k < 16,
    ensures
        r == (most_common(bits@, k) ^ 1),
{
    get_most_common_nth_bit(bits, k) ^ 1
}

/// The numbers whose bit `k` has value `b`, or the list unchanged when
/// only one number remains.
fn filter_on_bit(bits: &Vec<u16>, k: u16, b: u16) -> (r: Vec<u16>)
    requires
        k < 16,
    ensures
        bits@.len() == 1 ==> r@ == bits@,
        bits@.len() != 1 ==> r@ == keep_bit(bits@, k, b),
{
    if bits.len() == 1 {
        let mut r: Vec<u16> = Vec::new();
        r.push(bits[0]);
        proof {
            assert(r@ =~= bits@);
        }
        return r;
    }
    let mut r: Vec<u16> = Vec::new();
    let mut i: usize = 0;
    proof {
        assert(keep_bit(bits@.take(0), k, b) =~= Seq::<u16>::empty());
    }
    while i < bits.len()
        invariant
            0 <= i <= bits@.len(),
            k < 16,
            r@ == keep_bit(bits@.take(i as int), k, b),
        decreases bits@.len() - i,
    {
        proof {
            assert(bits@.take(i + 1).drop_last() =~= bits@.take(i as int));
            assert(bits@.take(i + 1).last() == bits@[i as int]);
        }
        let v = bits[i];
        if ((v >> k) & 1) == b {
            r.push(v);
            proof {
                assert(r@ =~= keep_bit(bits@.take(i + 1), k, b));
            }
        } else {
            proof {
                assert(r@ =~= keep_bit(bits@.take(i + 1), k, b));
            }
        }
        i = i + 1;
    }
    proof {
        assert(bits@.take(bits@.len() as int) =~= bits@);
    }
    r
}

/// The filtering rounds of the second puzzle, from the highest column
/// down.
fn refine_all(nums: &Vec<u16>, len: u16, most: bool) -> (r: Vec<u16>)
    requires
        len <= 16,
    ensures
        r@ == refined(nums@, len as int, len as int, most),
{
    let mut cur: Vec<u16> = Vec::new();
    let mut i: usize = 0;
    while i < nums.len()
        invariant
            0 <= i <= nums@.len(),
            cur@ == nums@.take(i as int),
        decreases nums@.len() - i,
    {
        proof {
            assert(nums@.take(i + 1).drop_last() =~= nums@.take(i as int));
        }
        cur.push(nums[i]);
        proof {
            assert(cur@ =~= nums@.take(i + 1));
        }
        i = i + 1;
    }
    proof {
        assert(nums@.take(nums@.len() as int) =~= nums@);
    }
    let mut step: u16 = 0;
    while step < len
        invariant
            0 <= step <= len <= 16,
            cur@ == refined(nums@, len as int, step as int, most),
        decreases len - step,
    {
        let k = len - 1 - step;
        let b = if most {
            get_most_common_nth_bit(&cur, k)
        } else {
            get_least_common_nth_bit(&cur, k)
        };
        let next = filter_on_bit(&cur, k, b);
        proof {
            assert(next@ == refine_step(cur@, k, most));
            assert(refined(nums@, len as int, step as int + 1, most) == refine_step(
                refined(nums@, len as int, step as int, most),
                (len as int - (step as int + 1)) as u16,
                most,
            ));
        }
        cur = next;
        step = step + 1;
    }
    cur
}

/// The product of the two column-consensus rates.
pub fn puzzle_1(input: &str) -> (r: String)
    ensures
        match report_of(input.spec_bytes()) {
            Some(rep) => r@ == dec_digits(
                (rate(rep.1, rep.0, true) * rate(rep.1, rep.0, false)) as nat,
            ),
            None => r@ == dec_digits(0),
        },
{
    match parse_input(input.as_bytes()) {
        None => u64_string(0),
        Some((len, nums)) => {
            let mut gamma: u64 = 0;
            let mut epsilon: u64 = 0;
            let mut i: u16 = 0;
            let mut p: u64 = 1;
            proof {
                assert(pow2_16(0) == 1);
            }
            while i < len
                invariant
                    0 <= i <= len <= 16,
                    gamma == rate(nums@, i as int, true),
                    epsilon == rate(nums@, i as int, false),
                    p == pow2_16(i as int),
                    p <= 65536,
                    gamma < p,
                    epsilon < p,
                decreases len - i,
            {
                proof {
                    lemma_pow2_16_mono(i as int + 1, 16);
                    lemma_pow2_16_mono(i as int, 15);
                    assert(pow2_16(16) == 65536) by {
                        reveal_with_fuel(pow2_16, 18);
                    }
                    assert(pow2_16(15) == 32768) by {
                        reveal_with_fuel(pow2_16, 18);
                    }
                }
                let m = get_most_common_nth_bit(&nums, i);
                let l = get_least_common_nth_bit(&nums, i);
                proof {
                    assert(m == 0 || m == 1);
                    assert((m ^ 1) == 1 - m) by (bit_vector)
                        requires
                            m == 0 || m == 1,
                    ;
                }
                let madd: u64 = if m == 1 {
                    p
                } else {
                    0
                };
                let ladd: u64 = if l == 1 {
                    p
                } else {
                    0
                };
                proof {
                    assert(madd as int == (if most_common(nums@, i) == 1 {
                        1int
                    } else {
                        0int
                    }) * pow2_16(i as int));
                    assert(ladd as int == ((most_common(nums@, i) ^ 1) as int) * pow2_16(
                        i as int,
                    ));
                }
                gamma = gamma + madd;
                epsilon = epsilon + ladd;
                p = p * 2;
                i = i + 1;
            }
            proof {
                assert(gamma * epsilon < 65536 * 65536) by (nonlinear_arith)
                    requires
                        0 <= gamma < 65536,
                        0 <= epsilon < 65536,
                ;
            }
            u64_string(gamma * epsilon)
        },
    }
}

/// The product of the two filtered ratings.
pub fn puzzle_2(input: &str) -> (r: String)
    ensures
        match report_of(input.spec_bytes()) {
            Some(rep) => {
                let oo = refined(rep.1, rep.0, rep.0, true);
                let coo = refined(rep.1, rep.0, rep.0, false);
                &&& (oo.len() > 0 && coo.len() > 0) ==> r@ == dec_digits(
                    (oo[0] * coo[0]) as nat,
                )
                &&& !(oo.len() > 0 && coo.len() > 0) ==> r@ == dec_digits(0)
            },
            None => r@ == dec_digits(0),
        },
{
    match parse_input(input.as_bytes()) {
        None => u64_string(0),
        Some((len, nums)) => {
            let oo = refine_all(&nums, len, true);
            let coo = refine_all(&nums, len, false);
            if oo.len() == 0 || coo.len() == 0 {
                return u64_string(0);
            }
            let a = oo[0];
            let b = coo[0];
            proof {
                assert((a as int) * (b as int) <= 65535 * 65535) by (nonlinear_arith)
                    requires
                        0 <= a <= 65535,
                        0 <= b <= 65535,
                ;
            }
            u64_string((a as u64) * (b as u64))
        },
    }
}

} // verus!

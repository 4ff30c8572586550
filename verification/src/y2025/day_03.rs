//! Battery banks written as digit strings. From each bank a fixed
//! number of batteries is chosen left to right so that the resulting
//! digit string is the largest possible; the answers sum those values.

use vstd::prelude::*;

use crate::numfmt::dec_digits;
use crate::numfmt::u64_string;
use crate::scan::first_sep;
use crate::scan::lemma_first_sep;
use crate::scan::pow10;
use crate::scan::split_spec;
use crate::scan::split_bytes;
use vstd::string::StringSliceAdditionalSpecFns;

verus! {

/// The largest element of `s`, or `-1` when `s` is empty.
pub open spec fn w_max(s: Seq<u8>) -> int
    decreases s.len(),
{
    if s.len() == 0 {
        -1
    } else if w_max(s.drop_last()) >= s.last() {
        w_max(s.drop_last())
    } else {
        s.last() as int
    }
}

/// The maximum of a non-empty sequence is attained and dominates.
proof fn lemma_w_max(s: Seq<u8>)
    requires
        s.len() > 0,
    ensures
        exists|i: int| 0 <= i < s.len() && #[trigger] s[i] == w_max(s),
        forall|i: int| 0 <= i < s.len() ==> #[trigger] s[i] <= w_max(s),
        0 <= w_max(s) <= 255,
    decreases s.len(),
{
    if s.len() > 1 {
        lemma_w_max(s.drop_last());
        if w_max(s.drop_last()) >= s.last() {
            let i = choose|i: int|
                0 <= i < s.drop_last().len() && #[trigger] s.drop_last()[i] == w_max(
                    s.drop_last(),
                );
            assert(s[i] == w_max(s));
        } else {
            assert(s[s.len() - 1] == w_max(s));
        }
        assert forall|i: int| 0 <= i < s.len() implies #[trigger] s[i] <= w_max(s) by {
            if i < s.len() - 1 {
                assert(s.drop_last()[i] == s[i]);
            }
        }
    } else {
        assert(s.drop_last().len() == 0);
        assert(w_max(s.drop_last()) == -1);
        assert(s[0] == s.last());
        assert(s[0] == w_max(s));
    }
}

/// The greedy choice: at each step the largest digit that still leaves
/// enough digits for the remaining picks, taken at its first
/// occurrence; `acc` accumulates the decimal value.
pub open spec fn greedy_from(bank: Seq<u8>, start: int, k: int, acc: int) -> int
    decreases k,
{
    if k <= 0 || !(0 <= start <= bank.len() - k) {
        acc
    } else {
        let w = bank.subrange(start, bank.len() - (k - 1));
        let d = w_max(w);
        let p = first_sep(w, d as u8);
        greedy_from(bank, start + p + 1, k - 1, acc * 10 + d)
    }
}

/// The largest joltage obtainable from `bank` with `batteries` picks.
pub fn largest_joltage(bank: &Vec<u8>, batteries: usize) -> (r: u64)
    requires
        bank@.len() >= batteries,
        batteries <= 12,
        forall|i: int| 0 <= i < bank@.len() ==> #[trigger] bank@[i] < 10,
    ensures
        r == greedy_from(bank@, 0, batteries as int, 0),
{
    let mut start: usize = 0;
    let mut k: usize = batteries;
    let mut acc: u64 = 0;
    while k > 0
        invariant
            0 <= k <= batteries <= 12,
            0 <= start <= bank@.len() - k,
            forall|i: int| 0 <= i < bank@.len() ==> #[trigger] bank@[i] < 10,
            acc < pow10((batteries - k) as nat),
            greedy_from(bank@, 0, batteries as int, 0) == greedy_from(
                bank@,
                start as int,
                k as int,
                acc as int,
            ),
        decreases k,
    {
        let stop = bank.len() - (k - 1);
        let ghost w = bank@.subrange(start as int, stop as int);
        proof {
            assert(w.len() > 0);
            lemma_w_max(w);
            lemma_first_sep(w, w_max(w) as u8);
        }
        // find the largest digit in the window and its first position
        let mut best: u8 = bank[start];
        let mut j: usize = start + 1;
        proof {
            assert(w.take(1) =~= seq![bank@[start as int]]);
            assert(w.take(1).drop_last() =~= Seq::<u8>::empty());
            assert(w_max(Seq::<u8>::empty()) == -1);
            assert(w_max(w.take(1)) == bank@[start as int]);
        }
        while j < stop
            invariant
                start < j <= stop <= bank@.len(),
                w == bank@.subrange(start as int, stop as int),
                forall|i: int| 0 <= i < bank@.len() ==> #[trigger] bank@[i] < 10,
                best as int == w_max(w.take(j - start)),
            decreases stop - j,
        {
            proof {
                assert(w.take(j - start + 1).drop_last() =~= w.take(j - start));
                assert(w.take(j - start + 1).last() == bank@[j as int]);
            }
            let b = bank[j];
            if b > best {
                best = b;
            }
            j = j + 1;
        }
        proof {
            assert(w.take(stop - start) =~= w);
        }
        let mut pos: usize = start;
        while pos < stop && bank[pos] != best
            invariant
                start <= pos <= stop <= bank@.len(),
                w == bank@.subrange(start as int, stop as int),
                best as int == w_max(w),
                forall|i: int| 0 <= i < pos - start ==> w[i] != best,
            decreases stop - pos,
        {
            pos = pos + 1;
        }
        proof {
            lemma_w_max(w);
            lemma_first_sep(w, best);
            assert(pos - start < w.len()) by {
                let iw = choose|i: int| 0 <= i < w.len() && #[trigger] w[i] == w_max(w);
                if pos == stop {
                    assert(w[iw] != best);
                }
            }
            assert(w[pos - start] == best);
            assert(first_sep(w, best) == pos - start) by {
                if first_sep(w, best) < pos - start {
                    assert(w[first_sep(w, best)] != best);
                }
            }
            assert(pow10((batteries - k) as nat) * 10 == pow10((batteries - (k - 1)) as nat));
            lemma_pow10_mono((batteries - k) as nat, 11nat);
            assert(pow10(11) == 100000000000) by {
                reveal_with_fuel(crate::scan::pow10, 13);
            }
        }
        acc = acc * 10 + (best as u64);
        start = pos + 1;
        k = k - 1;
    }
    acc
}

/// An in-order battery choice: `k` strictly increasing positions of
/// the bank, all at or after `start`.
pub open spec fn choice_ok(bank: Seq<u8>, start: int, c: Seq<int>) -> bool {
    &&& forall|i: int| 0 <= i < c.len() ==> start <= #[trigger] c[i] < bank.len()
    &&& forall|i: int| 0 <= i < c.len() - 1 ==> #[trigger] c[i] < c[i + 1]
}

/// The joltage of a choice: its digits read in order.
pub open spec fn choice_val(bank: Seq<u8>, c: Seq<int>) -> int
    decreases c.len(),
{
    if c.len() == 0 {
        0
    } else {
        (bank[c[0]] as int) * pow10((c.len() - 1) as nat) + choice_val(bank, c.skip(1))
    }
}

/// A choice's positions spread out: the `i`-th is at least `i` past
/// the first.
proof fn lemma_choice_spread(bank: Seq<u8>, start: int, c: Seq<int>, i: int)
    requires
        choice_ok(bank, start, c),
        0 <= i < c.len(),
    ensures
        c[i] >= c[0] + i,
    decreases i,
{
    if i > 0 {
        lemma_choice_spread(bank, start, c, i - 1);
    }
}

/// A choice of `k` digits is worth less than ten to the `k`.
proof fn lemma_choice_val_bound(bank: Seq<u8>, c: Seq<int>)
    requires
        forall|i: int| 0 <= i < bank.len() ==> #[trigger] bank[i] < 10,
        forall|i: int| 0 <= i < c.len() ==> 0 <= #[trigger] c[i] < bank.len(),
    ensures
        0 <= choice_val(bank, c) < pow10(c.len()),
    decreases c.len(),
{
    if c.len() == 0 {
        assert(pow10(0) == 1);
    } else {
        assert(forall|i: int|
            0 <= i < c.skip(1).len() ==> 0 <= #[trigger] c.skip(1)[i] < bank.len());
        lemma_choice_val_bound(bank, c.skip(1));
        lemma_pow10_pos((c.len() - 1) as nat);
        assert(pow10(c.len()) == 10 * pow10((c.len() - 1) as nat));
        assert((bank[c[0]] as int) * pow10((c.len() - 1) as nat) <= 9 * pow10(
            (c.len() - 1) as nat,
        ) && (bank[c[0]] as int) * pow10((c.len() - 1) as nat) >= 0) by (nonlinear_arith)
            requires
                0 <= bank[c[0]] as int <= 9,
                pow10((c.len() - 1) as nat) >= 1,
        ;
    }
}

/// The accumulator shifts out of the greedy recursion.
proof fn lemma_greedy_acc(bank: Seq<u8>, start: int, k: int, acc: int)
    requires
        k >= 0,
        k > 0 ==> 0 <= start <= bank.len() - k,
    ensures
        greedy_from(bank, start, k, acc) == acc * pow10(k as nat) + greedy_from(
            bank,
            start,
            k,
            0,
        ),
    decreases k,
{
    if k == 0 {
        assert(pow10(0) == 1);
        assert(acc * pow10(0) == acc) by (nonlinear_arith)
            requires
                pow10(0) == 1,
        ;
    } else {
        let w = bank.subrange(start, bank.len() - (k - 1));
        let d = w_max(w);
        let p = first_sep(w, d as u8);
        lemma_w_max(w);
        lemma_first_sep(w, d as u8);
        assert(p < w.len()) by {
            let iw = choose|i: int| 0 <= i < w.len() && #[trigger] w[i] == w_max(w);
            if p == w.len() {
                assert(w[iw] != d as u8);
            }
        }
        assert(0 <= start + p + 1 <= bank.len() - (k - 1));
        lemma_greedy_acc(bank, start + p + 1, k - 1, acc * 10 + d);
        lemma_greedy_acc(bank, start + p + 1, k - 1, d);
        assert(greedy_from(bank, start, k, acc) == greedy_from(
            bank,
            start + p + 1,
            k - 1,
            acc * 10 + d,
        ));
        assert(greedy_from(bank, start, k, 0) == greedy_from(bank, start + p + 1, k - 1, d));
        assert(pow10(k as nat) == 10 * pow10((k - 1) as nat));
        assert((acc * 10 + d) * pow10((k - 1) as nat) == acc * pow10(k as nat) + d * pow10(
            (k - 1) as nat,
        )) by (nonlinear_arith)
            requires
                pow10(k as nat) == 10 * pow10((k - 1) as nat),
        ;
        assert(greedy_from(bank, start, k, acc) == acc * pow10(k as nat) + greedy_from(
            bank,
            start,
            k,
            0,
        ));
    }
}

/// Maximality of the greedy choice: no in-order selection of
/// `batteries` digits beats `largest_joltage`'s value.
#[verifier::rlimit(80)]
pub proof fn lemma_greedy_is_largest(bank: Seq<u8>, start: int, k: int, c: Seq<int>)
    requires
        forall|i: int| 0 <= i < bank.len() ==> #[trigger] bank[i] < 10,
        0 <= start,
        choice_ok(bank, start, c),
        c.len() == k,
    ensures
        choice_val(bank, c) <= greedy_from(bank, start, k, 0),
    decreases k,
{
    if k <= 0 {
        return ;
    }
    // the window is non-empty because the choice fits after `start`
    lemma_choice_spread(bank, start, c, k - 1);
    assert(c[k - 1] >= c[0] + (k - 1));
    assert(start <= bank.len() - k);
    let w = bank.subrange(start, bank.len() - (k - 1));
    let d = w_max(w);
    let p = first_sep(w, d as u8);
    lemma_w_max(w);
    lemma_first_sep(w, d as u8);
    assert(d < 10) by {
        let iw = choose|i: int| 0 <= i < w.len() && #[trigger] w[i] == w_max(w);
        assert(w[iw] == bank[start + iw]);
    }
    assert(p < w.len()) by {
        let iw = choose|i: int| 0 <= i < w.len() && #[trigger] w[i] == w_max(w);
        if p == w.len() {
            assert(w[iw] != d as u8);
        }
    }
    assert(greedy_from(bank, start, k, 0) == d * pow10((k - 1) as nat) + greedy_from(
        bank,
        start + p + 1,
        k - 1,
        0,
    )) by {
        lemma_greedy_acc(bank, start + p + 1, k - 1, d);
    }
    let c0 = c[0];
    let rest = c.skip(1);
    assert(rest.len() == k - 1);
    // the first pick sits inside the window, so its digit is at most d
    assert(c0 <= bank.len() - k);
    assert(w[c0 - start] == bank[c0]);
    assert((bank[c0] as int) <= d);
    assert(forall|i: int| 0 <= i < rest.len() ==> 0 <= #[trigger] rest[i] < bank.len());
    lemma_choice_val_bound(bank, rest);
    lemma_greedy_bound(bank, start + p + 1, k - 1, 0);
    lemma_pow10_pos((k - 1) as nat);
    if (bank[c0] as int) < d {
        // strictly smaller lead digit loses whatever follows
        assert((bank[c0] as int) * pow10((k - 1) as nat) + pow10((k - 1) as nat) <= d * pow10(
            (k - 1) as nat,
        )) by (nonlinear_arith)
            requires
                (bank[c0] as int) + 1 <= d,
                pow10((k - 1) as nat) >= 1,
        ;
        assert(choice_val(bank, c) <= greedy_from(bank, start, k, 0));
    } else {
        // equal lead digit: the rest starts past the first maximum
        assert(w[c0 - start] == d as u8);
        assert(c0 - start >= p) by {
            if c0 - start < p {
                assert(w[c0 - start] != d as u8);
            }
        }
        assert forall|i: int|
            0 <= i < rest.len() implies start + p + 1 <= #[trigger] rest[i] < bank.len() by {
            assert(rest[i] == c[i + 1]);
            lemma_choice_spread(bank, start, c, i + 1);
        }
        assert forall|i: int| 0 <= i < rest.len() - 1 implies #[trigger] rest[i] < rest[i
            + 1] by {
            assert(rest[i] == c[i + 1] && rest[i + 1] == c[i + 2]);
        }
        assert(choice_ok(bank, start + p + 1, rest));
        lemma_greedy_is_largest(bank, start + p + 1, k - 1, rest);
        assert(choice_val(bank, c) <= greedy_from(bank, start, k, 0));
    }
}

/// Every non-empty line consists of digit characters and is long
/// enough for `b` picks.
pub open spec fn banks_ok(s: Seq<u8>, b: int) -> bool {
    forall|i: int|
        0 <= i < split_spec(s, 10).len() ==> ((#[trigger] split_spec(s, 10)[i]).len() == 0 || (
        split_spec(s, 10)[i].len() >= b && forall|j: int|
            0 <= j < split_spec(s, 10)[i].len() ==> 48 <= #[trigger] split_spec(s, 10)[i][j]
                <= 57))
}

/// The digit values of the non-empty lines.
pub open spec fn banks_of(lines: Seq<Seq<u8>>) -> Seq<Seq<u8>>
    decreases lines.len(),
{
    if lines.len() == 0 {
        Seq::empty()
    } else {
        banks_of(lines.drop_last()) + (if lines.last().len() == 0 {
            Seq::<Seq<u8>>::empty()
        } else {
            seq![lines.last().map_values(|c: u8| (c - 48) as u8)]
        })
    }
}

/// The summed greedy joltage of all banks.
pub open spec fn total_joltage(banks: Seq<Seq<u8>>, b: int) -> int
    decreases banks.len(),
{
    if banks.len() == 0 {
        0
    } else {
        total_joltage(banks.drop_last(), b) + greedy_from(banks.last(), 0, b, 0)
    }
}

fn solve(input: &[u8], batteries: usize) -> (r: String)
    requires
        1 <= batteries <= 12,
    ensures
        ({
            let banks = banks_of(split_spec(input@, 10));
            &&& (banks_ok(input@, batteries as int) && banks.len() <= 1000000) ==> r@
                == dec_digits(total_joltage(banks, batteries as int) as nat)
            &&& !(banks_ok(input@, batteries as int) && banks.len() <= 1000000) ==> r@
                == dec_digits(0)
        }),
{
    let lines = split_bytes(input, 10);
    let ghost glines = split_spec(input@, 10);
    let ghost banks = banks_of(glines);
    let mut sum: u64 = 0;
    let mut count: u64 = 0;
    let mut i: usize = 0;
    proof {
        assert(banks_of(glines.take(0)) =~= Seq::<Seq<u8>>::empty());
    }
    while i < lines.len()
        invariant
            glines == split_spec(input@, 10),
            banks == banks_of(glines),
            lines@.len() == glines.len(),
            forall|j: int| 0 <= j < glines.len() ==> (#[trigger] lines@[j])@ == glines[j],
            0 <= i <= glines.len(),
            1 <= batteries <= 12,
            forall|j: int|
                0 <= j < i ==> ((#[trigger] glines[j]).len() == 0 || (glines[j].len()
                    >= batteries && forall|jj: int|
                    0 <= jj < glines[j].len() ==> 48 <= #[trigger] glines[j][jj] <= 57)),
            count == banks_of(glines.take(i as int)).len(),
            count <= 1000000,
            sum == total_joltage(banks_of(glines.take(i as int)), batteries as int),
            sum <= 1000000000000 * count,
        decreases glines.len() - i,
    {
        let line = &lines[i];
        proof {
            assert(glines.take(i + 1).drop_last() =~= glines.take(i as int));
            assert((lines@[i as int])@ == glines[i as int]);
        }
        if line.len() > 0 {
            if line.len() < batteries {
                proof {
                    assert(!banks_ok(input@, batteries as int)) by {
                        assert((split_spec(input@, 10)[i as int]).len() != 0 && split_spec(
                            input@,
                            10,
                        )[i as int].len() < batteries);
                    }
                }
                return u64_string(0);
            }
            if count == 1000000 {
                proof {
                    lemma_banks_prefix_le(glines, i + 1);
                    assert(banks_of(glines.take(i + 1)) =~= banks_of(glines.take(i as int)).push(
                        glines[i as int].map_values(|c: u8| (c - 48) as u8),
                    ));
                    assert(banks_of(glines).len() > 1000000);
                }
                return u64_string(0);
            }
            let mut bank: Vec<u8> = Vec::new();
            let mut j: usize = 0;
            while j < line.len()
                invariant
                    glines == split_spec(input@, 10),
                    0 <= i < glines.len(),
                    line@ == glines[i as int],
                    batteries >= 1,
                    0 <= j <= line@.len(),
                    bank@.len() == j,
                    forall|jj: int| 0 <= jj < j ==> 48 <= #[trigger] line@[jj] <= 57,
                    forall|jj: int|
                        0 <= jj < j ==> #[trigger] bank@[jj] == (line@[jj] - 48) as u8
                            && bank@[jj] < 10,
                decreases line@.len() - j,
            {
                let c = line[j];
                if c < 48 || c > 57 {
                    proof {
                        assert(!banks_ok(input@, batteries as int)) by {
                            assert((split_spec(input@, 10)[i as int]).len() != 0 && !(48
                                <= split_spec(input@, 10)[i as int][j as int] <= 57));
                        }
                    }
                    return u64_string(0);
                }
                bank.push(c - 48);
                j = j + 1;
            }
            proof {
                assert(bank@ =~= glines[i as int].map_values(|c: u8| (c - 48) as u8));
            }
            let v = largest_joltage(&bank, batteries);
            proof {
                lemma_greedy_bound(bank@, 0, batteries as int, 0);
                lemma_pow10_mono(batteries as nat, 12nat);
                assert(pow10(12) == 1000000000000) by {
                    reveal_with_fuel(crate::scan::pow10, 13);
                }
                assert(v < 1000000000000);
                assert(banks_of(glines.take(i + 1)) =~= banks_of(glines.take(i as int)).push(
                    bank@,
                ));
                lemma_total_push(banks_of(glines.take(i as int)), bank@, batteries as int);
            }
            sum = sum + v;
            count = count + 1;
        } else {
            proof {
                assert(banks_of(glines.take(i + 1)) =~= banks_of(glines.take(i as int)));
            }
        }
        i = i + 1;
    }
    proof {
        assert(glines.take(glines.len() as int) =~= glines);
    }
    u64_string(sum)
}

/// The greedy value stays below ten to the number of picks.
proof fn lemma_greedy_bound(bank: Seq<u8>, start: int, k: int, acc: int)
    requires
        acc >= 0,
        forall|i: int| 0 <= i < bank.len() ==> #[trigger] bank[i] < 10,
    ensures
        acc <= greedy_from(bank, start, k, acc) < (acc + 1) * pow10(if k >= 0 {
            k as nat
        } else {
            0nat
        }),
    decreases k,
{
    if k <= 0 || !(0 <= start <= bank.len() - k) {
        assert(pow10(if k >= 0 {
            k as nat
        } else {
            0nat
        }) >= 1) by {
            lemma_pow10_pos(if k >= 0 {
                k as nat
            } else {
                0nat
            });
        }
        assert((acc + 1) * pow10(if k >= 0 {
            k as nat
        } else {
            0nat
        }) >= acc + 1) by (nonlinear_arith)
            requires
                acc >= 0,
                pow10(if k >= 0 {
                    k as nat
                } else {
                    0nat
                }) >= 1,
        ;
    } else {
        let w = bank.subrange(start, bank.len() - (k - 1));
        let d = w_max(w);
        let p = first_sep(w, d as u8);
        lemma_w_max(w);
        assert(d < 10) by {
            let iw = choose|i: int| 0 <= i < w.len() && #[trigger] w[i] == w_max(w);
            assert(w[iw] == bank[start + iw]);
        }
        lemma_greedy_bound(bank, start + p + 1, k - 1, acc * 10 + d);
        lemma_pow10_pos((k - 1) as nat);
        assert(pow10(k as nat) == 10 * pow10((k - 1) as nat));
        assert((acc * 10 + d + 1) * pow10((k - 1) as nat) <= (acc + 1) * pow10(k as nat))
            by (nonlinear_arith)
            requires
                d < 10,
                acc >= 0,
                pow10((k - 1) as nat) >= 1,
                pow10(k as nat) == 10 * pow10((k - 1) as nat),
        ;
    }
}

/// A prefix of the line list yields no more banks than the whole.
proof fn lemma_banks_prefix_le(lines: Seq<Seq<u8>>, j: int)
    requires
        0 <= j <= lines.len(),
    ensures
        banks_of(lines.take(j)).len() <= banks_of(lines).len(),
    decreases lines.len() - j,
{
    if j < lines.len() {
        lemma_banks_prefix_le(lines, j + 1);
        assert(lines.take(j + 1).drop_last() =~= lines.take(j));
        assert(banks_of(lines.take(j)).len() <= banks_of(lines.take(j + 1)).len());
    } else {
        assert(lines.take(j) =~= lines);
    }
}

proof fn lemma_pow10_mono(a: nat, b: nat)
    requires
        a <= b,
    ensures
        pow10(a) <= pow10(b),
    decreases b,
{
    if a < b {
        lemma_pow10_mono(a, (b - 1) as nat);
        lemma_pow10_pos((b - 1) as nat);
    }
}

proof fn lemma_pow10_pos(k: nat)
    ensures
        pow10(k) >= 1,
    decreases k,
{
    if k > 0 {
        lemma_pow10_pos((k - 1) as nat);
    }
}

proof fn lemma_total_push(banks: Seq<Seq<u8>>, bank: Seq<u8>, b: int)
    ensures
        total_joltage(banks.push(bank), b) == total_joltage(banks, b) + greedy_from(
            bank,
            0,
            b,
            0,
        ),
{
    assert(banks.push(bank).drop_last() =~= banks);
    assert(banks.push(bank).last() == bank);
}

/// The summed joltage using two batteries per bank.
pub fn puzzle_1(input: &str) -> (r: String)
    ensures
        ({
            let banks = banks_of(split_spec(input.spec_bytes(), 10));
            &&& (banks_ok(input.spec_bytes(), 2) && banks.len() <= 1000000) ==> r@ == dec_digits(
                total_joltage(banks, 2) as nat,
            )
            &&& !(banks_ok(input.spec_bytes(), 2) && banks.len() <= 1000000) ==> r@ == dec_digits(
                0,
            )
        }),
{
    solve(input.as_bytes(), 2)
}

/// The summed joltage using twelve batteries per bank.
pub fn puzzle_2(input: &str) -> (r: String)
    ensures
        ({
            let banks = banks_of(split_spec(input.spec_bytes(), 10));
            &&& (banks_ok(input.spec_bytes(), 12) && banks.len() <= 1000000) ==> r@ == dec_digits(
                total_joltage(banks, 12) as nat,
            )
            &&& !(banks_ok(input.spec_bytes(), 12) && banks.len() <= 1000000) ==> r@
                == dec_digits(0)
        }),
{
    solve(input.as_bytes(), 12)
}

} // verus!

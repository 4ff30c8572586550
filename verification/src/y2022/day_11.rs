//! Monkeys passing worry-laden items. Each monkey applies an
//! arithmetic operation to the front item of its queue, reduces the
//! worry (divide by three, or reduce modulo the product of all test
//! divisors), and throws the item to one of two recipients depending
//! on divisibility.

use vstd::prelude::*;

use crate::numfmt::dec_digits;
use crate::numfmt::u64_string;
use crate::scan::all_digits;
use crate::scan::dec_val;
use crate::scan::find_byte;
use crate::scan::parse_u64;
use crate::scan::split_bytes;
use crate::scan::trim_bytes;
use crate::geometry::gcd_spec;

verus! {

/// One operand of a monkey's operation: the old worry level or a
/// constant.
#[derive(Debug, PartialEq, Eq, Structural, Clone, Copy)]
pub enum Operand {
    Old,
    Number(u64),
}

/// A monkey's worry operation: a checked sum or product of two
/// operands.
#[derive(Debug, PartialEq, Eq, Structural, Clone, Copy)]
pub struct Operation {
    pub mul: bool,
    pub lhs: Operand,
    pub rhs: Operand,
}

/// The value of an operand given the old worry level.
pub open spec fn operand_val(o: Operand, old_worry: int) -> int {
    match o {
        Operand::Old => old_worry,
        Operand::Number(n) => n as int,
    }
}

/// The operation's result, `None` on machine overflow.
pub open spec fn op_val(op: Operation, old_worry: int) -> Option<int> {
    let a = operand_val(op.lhs, old_worry);
    let b = operand_val(op.rhs, old_worry);
    let r = if op.mul {
        a * b
    } else {
        a + b
    };
    if r <= u64::MAX {
        Some(r)
    } else {
        None
    }
}

impl Operation {
    /// Applies the operation with machine-checked arithmetic.
    pub fn apply(&self, old_worry: u64) -> (r: Option<u64>)
        ensures
            match r {
                Some(v) => op_val(*self, old_worry as int) == Some(v as int),
                None => op_val(*self, old_worry as int) is None,
            },
    {
        let a = match self.lhs {
            Operand::Old => old_worry,
            Operand::Number(n) => n,
        };
        let b = match self.rhs {
            Operand::Old => old_worry,
            Operand::Number(n) => n,
        };
        if self.mul {
            if b != 0 && a > u64::MAX / b {
                proof {
                    let q = (u64::MAX as int) / (b as int);
                    vstd::arithmetic::div_mod::lemma_fundamental_div_mod(
                        u64::MAX as int,
                        b as int,
                    );
                    assert((a as int) * (b as int) > u64::MAX) by (nonlinear_arith)
                        requires
                            a as int >= q + 1,
                            b >= 1,
                            u64::MAX as int == (b as int) * q + (u64::MAX as int) % (b as int),
                            0 <= (u64::MAX as int) % (b as int) < b as int,
                    ;
                }
                None
            } else {
                proof {
                    if b != 0 {
                        let q = (u64::MAX as int) / (b as int);
                        vstd::arithmetic::div_mod::lemma_fundamental_div_mod(
                            u64::MAX as int,
                            b as int,
                        );
                        assert((a as int) * (b as int) <= u64::MAX) by (nonlinear_arith)
                            requires
                                a as int <= q,
                                b >= 1,
                                u64::MAX as int == (b as int) * q + (u64::MAX as int) % (
                                b as int),
                                0 <= (u64::MAX as int) % (b as int),
                        ;
                    } else {
                        assert((a as int) * 0 == 0) by (nonlinear_arith);
                    }
                }
                Some(a * b)
            }
        } else {
            if a > u64::MAX - b {
                None
            } else {
                Some(a + b)
            }
        }
    }
}

/// One monkey: its item queue (front first), its operation, its
/// divisibility test, and the recipients for both outcomes.
pub struct Monkey {
    pub items: Vec<u64>,
    pub operation: Operation,
    pub test_number: u64,
    pub recipient_success: usize,
    pub recipient_failed: usize,
}

impl Monkey {
    /// Plays the front item: applies the operation, reduces the worry
    /// (`managed_worry` divides by three, otherwise the worry is first
    /// reduced modulo `divisor`), and names the recipient. `None` when
    /// the queue is empty or the arithmetic overflows; the front item
    /// is consumed either way.
    pub fn play(&mut self, managed_worry: bool, divisor: u64) -> (r: Option<(usize, u64)>)
        requires
            divisor >= 1,
            old(self).test_number >= 1,
        ensures
            final(self).operation == old(self).operation,
            final(self).test_number == old(self).test_number,
            final(self).recipient_success == old(self).recipient_success,
            final(self).recipient_failed == old(self).recipient_failed,
            old(self).items@.len() == 0 ==> r is None && final(self).items@
                == old(self).items@,
            old(self).items@.len() > 0 ==> final(self).items@ == old(self).items@.skip(1),
            old(self).items@.len() > 0 ==> ({
                let value = old(self).items@[0] as int;
                let w = if managed_worry {
                    match op_val(old(self).operation, value) {
                        Some(v) => Some(v / 3),
                        None => None,
                    }
                } else {
                    op_val(old(self).operation, value % (divisor as int))
                };
                match w {
                    None => r is None,
                    Some(wv) => r == Some(
                        (
                            (if wv % (old(self).test_number as int) == 0 {
                                old(self).recipient_success
                            } else {
                                old(self).recipient_failed
                            }),
                            wv as u64,
                        ),
                    ),
                }
            }),
    {
        if self.items.len() == 0 {
            return None;
        }
        let value = self.items.remove(0);
        proof {
            assert(self.items@ =~= old(self).items@.skip(1));
        }
        let worry = if managed_worry {
            match self.operation.apply(value) {
                Some(v) => v / 3,
                None => {
                    return None;
                },
            }
        } else {
            match self.operation.apply(value % divisor) {
                Some(v) => v,
                None => {
                    return None;
                },
            }
        };
        if worry % self.test_number == 0 {
            Some((self.recipient_success, worry))
        } else {
            Some((self.recipient_failed, worry))
        }
    }

    /// Appends a thrown item to the back of the queue.
    pub fn throw(&mut self, value: u64)
        requires
            old(self).items@.len() < 1000000,
        ensures
            final(self).items@ == old(self).items@.push(value),
            final(self).operation == old(self).operation,
            final(self).test_number == old(self).test_number,
            final(self).recipient_success == old(self).recipient_success,
            final(self).recipient_failed == old(self).recipient_failed,
    {
        self.items.push(value);
    }
}

/// The monkeys form a closed game: every recipient exists and no
/// monkey throws to itself, every divisor is positive, and the queues
/// are small.
pub open spec fn monkeys_wf(ms: Seq<Monkey>) -> bool {
    forall|i: int|
        0 <= i < ms.len() ==> {
            &&& (#[trigger] ms[i]).recipient_success < ms.len()
            &&& ms[i].recipient_failed < ms.len()
            &&& ms[i].recipient_success != i
            &&& ms[i].recipient_failed != i
            &&& ms[i].test_number >= 1
            &&& ms[i].items@.len() <= 100000
        }
}

/// The total number of queued items.
pub open spec fn total_items(ms: Seq<Monkey>, k: int) -> int
    decreases k,
{
    if k <= 0 {
        0
    } else {
        total_items(ms, k - 1) + ms[k - 1].items@.len()
    }
}

/// Runs the game for the given number of rounds and reports how many
/// items each monkey inspected.
fn monkey_play(iterations: usize, monkeys: &mut Vec<Monkey>, managed_worry: bool, divisor: u64)
    -> (pass: Vec<u64>)
    requires
        monkeys_wf(old(monkeys)@),
        divisor >= 1,
        old(monkeys)@.len() <= 10000,
        iterations <= 100000,
    ensures
        pass@.len() == old(monkeys)@.len(),
        forall|i: int| 0 <= i < pass@.len() ==> #[trigger] pass@[i] <= 4000000000,
{
    let n = monkeys.len();
    let mut pass: Vec<u64> = Vec::new();
    let mut z: usize = 0;
    while z < n
        invariant
            pass@.len() == z,
            z <= n,
            forall|j: int| 0 <= j < z ==> #[trigger] pass@[j] == 0,
        decreases n - z,
    {
        pass.push(0);
        z = z + 1;
    }
    let mut round: usize = 0;
    while round < iterations
        invariant
            monkeys@.len() == n,
            pass@.len() == n,
            monkeys_wf(monkeys@),
            forall|j: int| 0 <= j < n ==> #[trigger] pass@[j] <= 4000000000,
            round <= iterations,
            divisor >= 1,
            n <= 10000,
        decreases iterations - round,
    {
        let mut i: usize = 0;
        while i < n
            invariant
                monkeys@.len() == n,
                pass@.len() == n,
                monkeys_wf(monkeys@),
                forall|j: int| 0 <= j < n ==> #[trigger] pass@[j] <= 4000000000,
                i <= n,
                divisor >= 1,
                n <= 10000,
            decreases n - i,
        {
            loop
                invariant_except_break
                    monkeys@.len() == n,
                    pass@.len() == n,
                    monkeys_wf(monkeys@),
                    forall|j: int| 0 <= j < n ==> #[trigger] pass@[j] <= 4000000000,
                    i < n,
                    divisor >= 1,
                    n <= 10000,
                ensures
                    monkeys@.len() == n,
                    pass@.len() == n,
                    monkeys_wf(monkeys@),
                    forall|j: int| 0 <= j < n ==> #[trigger] pass@[j] <= 4000000000,
                decreases monkeys@[i as int].items@.len(),
            {
                let ghost prev = monkeys@;
                let played = (&mut monkeys[i]).play(managed_worry, divisor);
                proof {
                    assert forall|j: int| 0 <= j < monkeys@.len() implies {
                        &&& (#[trigger] monkeys@[j]).recipient_success < monkeys@.len()
                        &&& monkeys@[j].recipient_failed < monkeys@.len()
                        &&& monkeys@[j].recipient_success != j
                        &&& monkeys@[j].recipient_failed != j
                        &&& monkeys@[j].test_number >= 1
                        &&& monkeys@[j].items@.len() <= 100000
                    } by {
                        if j != i {
                            assert(monkeys@[j] == prev[j]);
                        }
                    }
                }
                match played {
                    None => {
                        break ;
                    },
                    Some((recipient, value)) => {
                        let ghost prev2 = monkeys@;
                        if monkeys[recipient].items.len() < 100000 {
                            (&mut monkeys[recipient]).throw(value);
                            proof {
                                assert forall|j: int| 0 <= j < monkeys@.len() implies {
                                    &&& (#[trigger] monkeys@[j]).recipient_success
                                        < monkeys@.len()
                                    &&& monkeys@[j].recipient_failed < monkeys@.len()
                                    &&& monkeys@[j].recipient_success != j
                                    &&& monkeys@[j].recipient_failed != j
                                    &&& monkeys@[j].test_number >= 1
                                    &&& monkeys@[j].items@.len() <= 100000
                                } by {
                                    if j != recipient {
                                        assert(monkeys@[j] == prev2[j]);
                                    }
                                }
                                assert(monkeys@[i as int].items@.len()
                                    < prev[i as int].items@.len());
                            }
                        }
                        let old_count = pass[i];
                        if old_count < 4000000000 {
                            pass.set(i, old_count + 1);
                        }
                    },
                }
            }
            i = i + 1;
        }
        round = round + 1;
    }
    pass
}

/// The product of the two largest inspection counts.
fn top_two_product(pass: &Vec<u64>) -> (r: u64)
    requires
        forall|i: int| 0 <= i < pass@.len() ==> #[trigger] pass@[i] <= 4000000000,
{
    let mut best: u64 = 0;
    let mut second: u64 = 0;
    let mut i: usize = 0;
    while i < pass.len()
        invariant
            best <= 4000000000,
            second <= 4000000000,
            i <= pass@.len(),
            forall|j: int| 0 <= j < pass@.len() ==> #[trigger] pass@[j] <= 4000000000,
        decreases pass@.len() - i,
    {
        let v = pass[i];
        if v > best {
            second = best;
            best = v;
        } else if v > second {
            second = v;
        }
        i = i + 1;
    }
    proof {
        assert(best * second <= 4000000000 * 4000000000) by (nonlinear_arith)
            requires
                0 <= best <= 4000000000,
                0 <= second <= 4000000000,
        ;
    }
    best * second
}


/// A value divisible by `g` times anything stays divisible by `g`.
proof fn lemma_divides_linear(g: int, x: int, y: int, q: int)
    requires
        g >= 1,
        x % g == 0,
        y % g == 0,
    ensures
        (q * x + y) % g == 0,
{
    vstd::arithmetic::div_mod::lemma_fundamental_div_mod(x, g);
    vstd::arithmetic::div_mod::lemma_fundamental_div_mod(y, g);
    let m = x / g;
    let n = y / g;
    assert(q * x + y == g * (q * m + n)) by (nonlinear_arith)
        requires
            x == g * m,
            y == g * n,
    ;
    vstd::arithmetic::div_mod::lemma_fundamental_div_mod_converse(q * x + y, g, q * m + n, 0);
}

/// The greatest common divisor divides both of its arguments.
proof fn lemma_gcd_divides(a: int, b: int)
    requires
        a >= 0,
        b >= 0,
        a >= 1 || b >= 1,
    ensures
        gcd_spec(a, b) >= 1,
        a % gcd_spec(a, b) == 0,
        b % gcd_spec(a, b) == 0,
    decreases b,
{
    let g = gcd_spec(a, b);
    if b == 0 {
        vstd::arithmetic::div_mod::lemma_mod_self_0(a);
        assert(0int % a == 0) by {
            vstd::arithmetic::div_mod::lemma_small_mod(0nat, a as nat);
        }
    } else {
        vstd::arithmetic::div_mod::lemma_mod_bound(a, b);
        lemma_gcd_divides(b, a % b);
        vstd::arithmetic::div_mod::lemma_fundamental_div_mod(a, b);
        lemma_divides_linear(g, b, a % b, a / b);
    }
}

/// The greatest common divisor.
fn gcd_of_two_numbers(a: u64, b: u64) -> (r: u64)
    ensures
        r as int == gcd_spec(a as int, b as int),
        (a >= 1 || b >= 1) ==> r >= 1,
    decreases b,
{
    proof {
        if a >= 1 || b >= 1 {
            lemma_gcd_divides(a as int, b as int);
        }
    }
    if b == 0 {
        a
    } else {
        gcd_of_two_numbers(b, a % b)
    }
}

/// A common multiple of the divisors, built pairwise through the
/// greatest common divisor; `None` on overflow or a zero divisor.
fn lcm(nums: &Vec<u64>) -> (r: Option<u64>)
    ensures
        r matches Some(v) ==> v >= 1 && forall|i: int|
            0 <= i < nums@.len() ==> #[trigger] nums@[i] >= 1 && (v as int) % (
            nums@[i] as int) == 0,
{
    let mut acc: u64 = 1;
    let mut i: usize = 0;
    while i < nums.len()
        invariant
            acc >= 1,
            i <= nums@.len(),
            forall|j: int|
                0 <= j < i ==> #[trigger] nums@[j] >= 1 && (acc as int) % (nums@[j] as int)
                    == 0,
        decreases nums@.len() - i,
    {
        let b = nums[i];
        if b == 0 {
            return None;
        }
        let g = gcd_of_two_numbers(acc, b);
        proof {
            lemma_gcd_divides(acc as int, b as int);
        }
        let step = b / g;
        if step == 0 {
            return None;
        }
        if acc > u64::MAX / step {
            return None;
        }
        proof {
            let q = (u64::MAX as int) / (step as int);
            vstd::arithmetic::div_mod::lemma_fundamental_div_mod(u64::MAX as int, step as int);
            assert((acc as int) * (step as int) <= u64::MAX) by (nonlinear_arith)
                requires
                    acc as int <= q,
                    step >= 1,
                    u64::MAX as int == (step as int) * q + (u64::MAX as int) % (step as int),
                    0 <= (u64::MAX as int) % (step as int),
            ;
        }
        let ghost old_acc = acc as int;
        acc = acc * step;
        proof {
            let gi = g as int;
            let bi = b as int;
            let sti = step as int;
            vstd::arithmetic::div_mod::lemma_fundamental_div_mod(bi, gi);
            vstd::arithmetic::div_mod::lemma_fundamental_div_mod(old_acc, gi);
            let m = old_acc / gi;
            // the new value is the old one times `b / g`, which is a
            // whole multiple of `b` because `g` divides the old value
            assert(acc as int == bi * m) by (nonlinear_arith)
                requires
                    acc as int == old_acc * sti,
                    bi == gi * sti + bi % gi,
                    bi % gi == 0,
                    old_acc == gi * m + old_acc % gi,
                    old_acc % gi == 0,
            ;
            vstd::arithmetic::div_mod::lemma_fundamental_div_mod_converse(
                acc as int,
                bi,
                m,
                0,
            );
            assert forall|j: int|
                0 <= j < i implies #[trigger] nums@[j] >= 1 && (acc as int) % (
            nums@[j] as int) == 0 by {
                lemma_divides_linear(nums@[j] as int, old_acc, 0, sti);
                assert(acc as int == sti * old_acc + 0) by (nonlinear_arith)
                    requires
                        acc as int == old_acc * sti,
                ;
            }
            assert(acc >= 1) by (nonlinear_arith)
                requires
                    acc as int == old_acc * sti,
                    old_acc >= 1,
                    sti >= 1,
            ;
        }
        if acc == 0 {
            return None;
        }
        i = i + 1;
    }
    Some(acc)
}

/// The operand written in a worry formula: `old` or a number.
fn map_operand(operand: &[u8]) -> (r: Option<Operand>) {
    if operand.len() == 3 && operand[0] == 111 && operand[1] == 108 && operand[2] == 100 {
        return Some(Operand::Old);
    }
    match parse_u64(operand) {
        Some(v) => Some(Operand::Number(v)),
        None => None,
    }
}

/// The last space-separated number of a line.
fn get_last_number(line: &[u8]) -> (r: Option<u64>) {
    let mut last_space: usize = 0;
    let mut i: usize = 0;
    let mut seen = false;
    while i < line.len()
        invariant
            i <= line@.len(),
            last_space < line@.len() || !seen,
        decreases line@.len() - i,
    {
        if line[i] == 32 {
            last_space = i;
            seen = true;
        }
        i = i + 1;
    }
    if !seen {
        return None;
    }
    let rest = vstd::slice::slice_subrange(line, last_space + 1, line.len());
    parse_u64(rest)
}

/// Reads one monkey from its six-line block of text.
pub fn parse_monkey(input: &str) -> (r: Option<Monkey>)
    ensures
        r matches Some(m) ==> m.test_number >= 1 && m.items@.len() <= 100000,
{
    let all_lines = split_bytes(input.as_bytes(), 10);
    let mut lines: Vec<Vec<u8>> = Vec::new();
    let mut i: usize = 0;
    while i < all_lines.len()
        invariant
            i <= all_lines@.len(),
            lines@.len() <= i,
        decreases all_lines@.len() - i,
    {
        if all_lines[i].len() > 0 {
            let copy = vstd::slice::slice_to_vec(all_lines[i].as_slice());
            lines.push(copy);
        }
        i = i + 1;
    }
    if lines.len() < 6 {
        return None;
    }
    parse_monkey_at(&lines, 0)
}

/// Reads one monkey's block of six lines.
fn parse_monkey_at(lines: &Vec<Vec<u8>>, start: usize) -> (r: Option<Monkey>)
    requires
        start + 6 <= lines@.len(),
    ensures
        r matches Some(m) ==> m.test_number >= 1 && m.items@.len() <= 100000,
{
    let total = lines.len();
    // the starting items
    let items_line = &lines[start + 1];
    let colon = match find_byte(items_line.as_slice(), 0, 58) {
        Some(c) => c,
        None => {
            return None;
        },
    };
    let mut items: Vec<u64> = Vec::new();
    if items_line.len() - colon >= 2 {
        let list = vstd::slice::slice_subrange(
            items_line.as_slice(),
            colon + 2,
            items_line.len(),
        );
        let parts = split_bytes(list, 44);
        let mut j: usize = 0;
        while j < parts.len()
            invariant
                j <= parts@.len(),
                items@.len() <= j,
            decreases parts@.len() - j,
        {
            let t = trim_bytes(parts[j].as_slice());
            match parse_u64(t) {
                Some(v) => {
                    items.push(v);
                },
                None => {
                    return None;
                },
            }
            j = j + 1;
        }
        if items.len() > 100000 {
            return None;
        }
    } else {
        return None;
    }
    // the worry operation: `new = lhs op rhs`
    let op_line = &lines[start + 2];
    let eq = match find_byte(op_line.as_slice(), 0, 61) {
        Some(c) => c,
        None => {
            return None;
        },
    };
    if op_line.len() - eq < 2 {
        return None;
    }
    let formula = vstd::slice::slice_subrange(op_line.as_slice(), eq + 2, op_line.len());
    let sp1 = match find_byte(formula, 0, 32) {
        Some(c) => c,
        None => {
            return None;
        },
    };
    if sp1 + 1 >= formula.len() {
        return None;
    }
    let sp2 = match find_byte(formula, sp1 + 1, 32) {
        Some(c) => c,
        None => {
            return None;
        },
    };
    let lhs_b = vstd::slice::slice_subrange(formula, 0, sp1);
    let op_b = vstd::slice::slice_subrange(formula, sp1 + 1, sp2);
    if sp2 + 1 > formula.len() {
        return None;
    }
    let rhs_b = vstd::slice::slice_subrange(formula, sp2 + 1, formula.len());
    let lhs = match map_operand(lhs_b) {
        Some(o) => o,
        None => {
            return None;
        },
    };
    let rhs = match map_operand(trim_bytes(rhs_b)) {
        Some(o) => o,
        None => {
            return None;
        },
    };
    let mul = if op_b.len() == 1 && op_b[0] == 42 {
        true
    } else if op_b.len() == 1 && op_b[0] == 43 {
        false
    } else {
        return None;
    };
    let operation = Operation { mul, lhs, rhs };
    // the divisibility test and the recipients
    let test_number = match get_last_number(lines[start + 3].as_slice()) {
        Some(v) if v >= 1 => v,
        _ => {
            return None;
        },
    };
    let recipient_success = match get_last_number(lines[start + 4].as_slice()) {
        Some(v) if v <= 100000 => v as usize,
        _ => {
            return None;
        },
    };
    let recipient_failed = match get_last_number(lines[start + 5].as_slice()) {
        Some(v) if v <= 100000 => v as usize,
        _ => {
            return None;
        },
    };
    Some(Monkey { items, operation, test_number, recipient_success, recipient_failed })
}

/// Reads the monkeys, one six-line block per blank-line-separated
/// paragraph.
pub fn parse_input(input: &str) -> (r: Option<Vec<Monkey>>)
    ensures
        r matches Some(ms) ==> ms@.len() <= 10000 && forall|i: int|
            0 <= i < ms@.len() ==> (#[trigger] ms@[i]).test_number >= 1
                && ms@[i].items@.len() <= 100000,
{
    let all_lines = split_bytes(input.as_bytes(), 10);
    // keep only the non-empty lines; blocks are six lines each
    let mut lines: Vec<Vec<u8>> = Vec::new();
    let mut i: usize = 0;
    while i < all_lines.len()
        invariant
            i <= all_lines@.len(),
            lines@.len() <= i,
        decreases all_lines@.len() - i,
    {
        if all_lines[i].len() > 0 {
            let copy = vstd::slice::slice_to_vec(all_lines[i].as_slice());
            lines.push(copy);
        }
        i = i + 1;
    }
    let mut monkeys: Vec<Monkey> = Vec::new();
    let mut start: usize = 0;
    while start <= lines.len() && lines.len() - start >= 6
        invariant
            monkeys@.len() * 6 <= start,
            start <= lines@.len() + 6,
            forall|j: int|
                0 <= j < monkeys@.len() ==> (#[trigger] monkeys@[j]).test_number >= 1
                    && monkeys@[j].items@.len() <= 100000,
        decreases lines@.len() - start,
    {
        match parse_monkey_at(&lines, start) {
            Some(m) => {
                monkeys.push(m);
            },
            None => {
                return None;
            },
        }
        start = start + 6;
    }
    if monkeys.len() > 10000 {
        return None;
    }
    Some(monkeys)
}

/// Checks that recipients exist and differ from the thrower.
fn check_wf(monkeys: &Vec<Monkey>) -> (r: bool)
    requires
        forall|i: int|
            0 <= i < monkeys@.len() ==> (#[trigger] monkeys@[i]).test_number >= 1
                && monkeys@[i].items@.len() <= 100000,
    ensures
        r == monkeys_wf(monkeys@),
{
    let mut i: usize = 0;
    while i < monkeys.len()
        invariant
            i <= monkeys@.len(),
            forall|j: int|
                0 <= j < monkeys@.len() ==> (#[trigger] monkeys@[j]).test_number >= 1
                    && monkeys@[j].items@.len() <= 100000,
            forall|j: int|
                0 <= j < i ==> {
                    &&& (#[trigger] monkeys@[j]).recipient_success < monkeys@.len()
                    &&& monkeys@[j].recipient_failed < monkeys@.len()
                    &&& monkeys@[j].recipient_success != j
                    &&& monkeys@[j].recipient_failed != j
                },
        decreases monkeys@.len() - i,
    {
        let m = &monkeys[i];
        if m.recipient_success >= monkeys.len() || m.recipient_failed >= monkeys.len()
            || m.recipient_success == i || m.recipient_failed == i {
            proof {
                assert(!monkeys_wf(monkeys@));
            }
            return false;
        }
        i = i + 1;
    }
    true
}

/// Twenty rounds with the worry divided by three after each
/// inspection: the product of the two busiest monkeys' counts.
pub fn puzzle_1(input: &str) -> (r: String)
    ensures
        exists|v: nat| r@ == dec_digits(v),
{
    match parse_input(input) {
        None => u64_string(0),
        Some(mut monkeys) => {
            if !check_wf(&monkeys) {
                return u64_string(0);
            }
            let pass = monkey_play(20, &mut monkeys, true, 3);
            u64_string(top_two_product(&pass))
        },
    }
}

/// Ten thousand rounds with the worry reduced modulo the least common
/// multiple of the divisors: the product of the two busiest counts.
pub fn puzzle_2(input: &str) -> (r: String)
    ensures
        exists|v: nat| r@ == dec_digits(v),
{
    match parse_input(input) {
        None => u64_string(0),
        Some(mut monkeys) => {
            if !check_wf(&monkeys) {
                return u64_string(0);
            }
            let mut tests: Vec<u64> = Vec::new();
            let mut i: usize = 0;
            while i < monkeys.len()
                invariant
                    i <= monkeys@.len(),
                decreases monkeys@.len() - i,
            {
                tests.push(monkeys[i].test_number);
                i = i + 1;
            }
            let divisor = match lcm(&tests) {
                Some(v) => v,
                None => {
                    return u64_string(0);
                },
            };
            let pass = monkey_play(10000, &mut monkeys, false, divisor);
            u64_string(top_two_product(&pass))
        },
    }
}

} // verus!

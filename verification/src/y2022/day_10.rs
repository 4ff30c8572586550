//! A one-register processor running `noop` and `addx` instructions.
//! The register history, indexed by clock cycle, yields signal
//! strengths at fixed cycles and a sprite drawing on a 40-column
//! screen.

use vstd::prelude::*;

use crate::numfmt::dec_digits;
use crate::numfmt::i64_string;
use crate::numfmt::int_digits;
use crate::scan::int_val;
use crate::scan::is_signed_numeral;
use crate::scan::parse_i64;
use crate::scan::split_spec;
use crate::scan::split_bytes;
use vstd::string::StringSliceAdditionalSpecFns;

verus! {

/// One processor instruction.
#[derive(Debug, PartialEq, Eq, Structural, Clone, Copy)]
pub enum Instruction {
    Noop,
    Addx(i64),
}

/// The processor: a cycle counter and the `X` register.
pub struct Cpu {
    pub counter: u64,
    pub register_x: i64,
}

/// A line is `noop`, or `addx` followed by a small signed number.
pub open spec fn line_instr(l: Seq<u8>) -> Option<Instruction> {
    if l =~= seq![110u8, 111u8, 111u8, 112u8] {
        Some(Instruction::Noop)
    } else if l.len() >= 6 && l.take(5) =~= seq![97u8, 100u8, 100u8, 120u8, 32u8]
        && is_signed_numeral(l.skip(5)) && -10000 <= int_val(l.skip(5)) <= 10000 {
        Some(Instruction::Addx(int_val(l.skip(5)) as i64))
    } else {
        None
    }
}

/// The instruction list of the input, one per non-empty line; `None`
/// when a non-empty line is not an instruction or the program is
/// overlong.
pub open spec fn program_of(s: Seq<u8>) -> Option<Seq<Instruction>> {
    let lines = split_spec(s, 10);
    if lines.len() <= 100000 && (forall|i: int|
        0 <= i < lines.len() ==> ((#[trigger] lines[i]).len() == 0 || line_instr(
            lines[i],
        ) is Some)) {
        Some(instrs_of(lines))
    } else {
        None
    }
}

pub open spec fn instrs_of(lines: Seq<Seq<u8>>) -> Seq<Instruction>
    decreases lines.len(),
{
    if lines.len() == 0 {
        Seq::empty()
    } else {
        instrs_of(lines.drop_last()) + (if lines.last().len() == 0 {
            Seq::<Instruction>::empty()
        } else {
            match line_instr(lines.last()) {
                Some(ins) => seq![ins],
                None => Seq::<Instruction>::empty(),
            }
        })
    }
}

/// The recorded `(cycle, register)` pairs after running the first `k`
/// instructions, starting from the initial record `(0, 1)`.
pub open spec fn history_spec(prog: Seq<Instruction>, k: int) -> Seq<(int, int)>
    decreases k,
{
    if k <= 0 {
        seq![(0int, 1int)]
    } else {
        let h = history_spec(prog, k - 1);
        let last = h.last();
        match prog[k - 1] {
            Instruction::Noop => h.push((last.0 + 1, last.1)),
            Instruction::Addx(v) => h.push((last.0 + 2, last.1 + v)),
        }
    }
}

/// The register value in effect at cycle `i`: the value recorded at
/// the latest cycle not after `i`, scanning `h` from its newest entry.
pub open spec fn value_at(h: Seq<(int, int)>, i: int) -> int
    decreases h.len(),
{
    if h.len() == 0 {
        0
    } else if h.last().0 <= i {
        h.last().1
    } else {
        value_at(h.drop_last(), i)
    }
}

/// The register value for every cycle up to the last recorded one.
pub open spec fn complete_spec(h: Seq<(int, int)>) -> Seq<int> {
    Seq::new((h.last().0 + 1) as nat, |i: int| value_at(h, i))
}

/// The signal strengths: `(cycle + 1) * value` at each selected cycle.
pub open spec fn strengths_spec(start: int, inc: int, vals: Seq<int>, k: int) -> Seq<int>
    decreases k,
{
    if k <= 0 || inc <= 0 {
        Seq::empty()
    } else {
        strengths_spec(start, inc, vals, k - 1) + (if (k - 1 >= start - 1) && ((k - 1) + 1
            - start) % inc == 0 {
            seq![k * vals[k - 1]]
        } else {
            Seq::<int>::empty()
        })
    }
}

pub open spec fn sum_of(s: Seq<int>) -> int
    decreases s.len(),
{
    if s.len() == 0 {
        0
    } else {
        sum_of(s.drop_last()) + s.last()
    }
}

/// The instruction list is no longer than the line list, and every
/// operand is small.
pub proof fn lemma_instrs_wf(lines: Seq<Seq<u8>>)
    requires
        forall|i: int|
            0 <= i < lines.len() ==> ((#[trigger] lines[i]).len() == 0 || line_instr(
                lines[i],
            ) is Some),
    ensures
        instrs_of(lines).len() <= lines.len(),
        forall|j: int|
            0 <= j < instrs_of(lines).len() ==> (#[trigger] instrs_of(lines)[j] matches
                Instruction::Addx(v) ==> -10000 <= v <= 10000),
    decreases lines.len(),
{
    if lines.len() > 0 {
        assert forall|i: int|
            0 <= i < lines.drop_last().len() implies ((#[trigger] lines.drop_last()[i]).len() == 0
            || line_instr(lines.drop_last()[i]) is Some) by {
            assert(lines.drop_last()[i] == lines[i]);
        }
        lemma_instrs_wf(lines.drop_last());
        assert(lines[lines.len() - 1] == lines.last());
    }
}

/// Reads the program.
pub fn parse_input(input: &str) -> (r: Option<Vec<Instruction>>)
    ensures
        match r {
            Some(v) => program_of(input.spec_bytes()) == Some(v@),
            None => program_of(input.spec_bytes()) is None,
        },
{
    parse_program(input.as_bytes())
}

fn parse_program(input: &[u8]) -> (r: Option<Vec<Instruction>>)
    ensures
        match r {
            Some(v) => program_of(input@) == Some(v@),
            None => program_of(input@) is None,
        },
{
    let lines = split_bytes(input, 10);
    let ghost glines = split_spec(input@, 10);
    if lines.len() > 100000 {
        return None;
    }
    let mut prog: Vec<Instruction> = Vec::new();
    let mut i: usize = 0;
    proof {
        assert(instrs_of(glines.take(0)) =~= Seq::<Instruction>::empty());
    }
    while i < lines.len()
        invariant
            glines == split_spec(input@, 10),
            lines@.len() == glines.len(),
            forall|j: int| 0 <= j < glines.len() ==> (#[trigger] lines@[j])@ == glines[j],
            0 <= i <= glines.len(),
            forall|j: int|
                0 <= j < i ==> ((#[trigger] glines[j]).len() == 0 || line_instr(
                    glines[j],
                ) is Some),
            prog@ == instrs_of(glines.take(i as int)),
        decreases glines.len() - i,
    {
        let line = &lines[i];
        proof {
            assert((lines@[i as int])@ == glines[i as int]);
            assert(glines.take(i + 1).drop_last() =~= glines.take(i as int));
        }
        if line.len() == 0 {
            proof {
                assert(prog@ =~= instrs_of(glines.take(i + 1)));
            }
        } else if line.len() == 4 && line[0] == 110 && line[1] == 111 && line[2] == 111 && line[3]
            == 112 {
            prog.push(Instruction::Noop);
            proof {
                assert(glines[i as int] =~= seq![110u8, 111u8, 111u8, 112u8]);
                assert(prog@ =~= instrs_of(glines.take(i + 1)));
            }
        } else if line.len() >= 6 && line[0] == 97 && line[1] == 100 && line[2] == 100 && line[3]
            == 120 && line[4] == 32 {
            proof {
                assert(glines[i as int].take(5) =~= seq![97u8, 100u8, 100u8, 120u8, 32u8]);
                assert(!(glines[i as int] =~= seq![110u8, 111u8, 111u8, 112u8]));
            }
            let rest = vstd::slice::slice_subrange(line.as_slice(), 5, line.len());
            proof {
                assert(rest@ =~= glines[i as int].skip(5));
            }
            let pv = parse_i64(rest);
            match pv {
                Some(v) if -10000 <= v && v <= 10000 => {
                    prog.push(Instruction::Addx(v));
                    proof {
                        assert(line_instr(glines[i as int]) == Some(Instruction::Addx(v)));
                        assert(prog@ =~= instrs_of(glines.take(i + 1)));
                    }
                },
                _ => {
                    proof {
                        assert(line_instr(glines[i as int]) is None);
                    }
                    return None;
                },
            }
        } else {
            proof {
                assert(line_instr(glines[i as int]) is None) by {
                    if glines[i as int] =~= seq![110u8, 111u8, 111u8, 112u8] {
                        assert(glines[i as int].len() == 4);
                        assert(glines[i as int][0] == 110 && glines[i as int][1] == 111
                            && glines[i as int][2] == 111 && glines[i as int][3] == 112);
                    }
                    if glines[i as int].len() >= 6 && glines[i as int].take(5) =~= seq![
                        97u8,
                        100u8,
                        100u8,
                        120u8,
                        32u8,
                    ] {
                        assert(glines[i as int][0] == 97 && glines[i as int][1] == 100
                            && glines[i as int][2] == 100 && glines[i as int][3] == 120
                            && glines[i as int][4] == 32);
                    }
                }
            }
            return None;
        }
        i = i + 1;
    }
    proof {
        assert(glines.take(glines.len() as int) =~= glines);
    }
    Some(prog)
}

impl Cpu {
    /// A fresh processor: cycle zero, register one.
    pub fn new() -> (c: Cpu)
        ensures
            c.counter == 0,
            c.register_x == 1,
    {
        Cpu { counter: 0, register_x: 1 }
    }

    /// Advances the clock by one cycle.
    pub fn cycle(&mut self)
        requires
            old(self).counter < u64::MAX,
        ensures
            final(self).counter == old(self).counter + 1,
            final(self).register_x == old(self).register_x,
    {
        self.counter = self.counter + 1;
    }

    /// Runs one instruction: `noop` takes one cycle, `addx` takes two
    /// and then adds its operand to the register.
    pub fn execute(&mut self, instruction: Instruction)
        requires
            old(self).counter + 2 <= u64::MAX,
            -1000000000000 <= old(self).register_x <= 1000000000000,
            // the operand must keep the register within the driver's bounds
            match instruction {
                Instruction::Noop => true,
                Instruction::Addx(v) => -10000 <= v <= 10000,
            },
        ensures
            match instruction {
                Instruction::Noop => final(self).counter == old(self).counter + 1
                    && final(self).register_x == old(self).register_x,
                Instruction::Addx(v) => final(self).counter == old(self).counter + 2
                    && final(self).register_x == old(self).register_x + v,
            },
{
    match instruction {
        Instruction::Noop => self.cycle(),
        Instruction::Addx(x) => {
            self.cycle();
            self.cycle();
            self.register_x = self.register_x + x;
        },
    }
}
}

/// Runs the program and returns the recorded history.
fn run_history(prog: &Vec<Instruction>) -> (h: Vec<(u64, i64)>)
    requires
        prog@.len() <= 100000,
        forall|i: int|
            0 <= i < prog@.len() ==> (#[trigger] prog@[i] matches Instruction::Addx(v) ==> -10000
                <= v <= 10000),
    ensures
        h@.map_values(|p: (u64, i64)| (p.0 as int, p.1 as int)) == history_spec(
            prog@,
            prog@.len() as int,
        ),
        h@.len() == prog@.len() + 1,
        forall|i: int| 0 <= i < h@.len() ==> (#[trigger] h@[i]).0 <= 2 * i,
        forall|i: int| 0 <= i < h@.len() ==> -1000000001 <= (#[trigger] h@[i]).1 <= 1000000001,
        forall|i: int| 0 <= i < h@.len() - 1 ==> (#[trigger] h@[i]).0 < h@[i + 1].0,
{
    let mut cpu = Cpu::new();
    let mut h: Vec<(u64, i64)> = Vec::new();
    h.push((0, 1));
    let mut i: usize = 0;
    proof {
        assert(h@.map_values(|p: (u64, i64)| (p.0 as int, p.1 as int)) =~= history_spec(
            prog@,
            0,
        ));
    }
    while i < prog.len()
        invariant
            prog@.len() <= 100000,
            forall|j: int|
                0 <= j < prog@.len() ==> (#[trigger] prog@[j] matches Instruction::Addx(v)
                    ==> -10000 <= v <= 10000),
            0 <= i <= prog@.len(),
            h@.len() == i + 1,
            h@.map_values(|p: (u64, i64)| (p.0 as int, p.1 as int)) == history_spec(
                prog@,
                i as int,
            ),
            cpu.counter == h@.last().0,
            cpu.register_x == h@.last().1,
            forall|j: int| 0 <= j < h@.len() ==> (#[trigger] h@[j]).0 <= 2 * j,
            forall|j: int|
                0 <= j < h@.len() ==> -1000000001 <= (#[trigger] h@[j]).1 <= 1000000001,
            forall|j: int| 0 <= j < h@.len() - 1 ==> (#[trigger] h@[j]).0 < h@[j + 1].0,
            -1000000001 + 10000 * (prog@.len() - i) <= cpu.register_x,
            cpu.register_x + 10000 * (prog@.len() - i) <= 1000000001,
        decreases prog@.len() - i,
    {
        let ins = prog[i];
        cpu.execute(ins);
        h.push((cpu.counter, cpu.register_x));
        proof {
            assert(h@.map_values(|p: (u64, i64)| (p.0 as int, p.1 as int)) =~= history_spec(
                prog@,
                i + 1,
            ));
        }
        i = i + 1;
    }
    h
}

/// The register value for every cycle up to the last recorded one.
pub fn complete_history(history: &Vec<(u64, i64)>) -> (r: Vec<i64>)
    requires
        history@.len() >= 1,
        forall|i: int| 0 <= i < history@.len() ==> (#[trigger] history@[i]).0 <= 10000000,
        forall|i: int|
            0 <= i < history@.len() - 1 ==> (#[trigger] history@[i]).0 < history@[i + 1].0,
    ensures
        r@.map_values(|v: i64| v as int) == complete_spec(
            history@.map_values(|p: (u64, i64)| (p.0 as int, p.1 as int)),
        ),
{
    let ghost hm = history@.map_values(|p: (u64, i64)| (p.0 as int, p.1 as int));
    let top = history[history.len() - 1].0;
    proof {
        assert(hm.last() == (history@[history@.len() - 1].0 as int, history@[history@.len()
            - 1].1 as int));
    }
    let mut r: Vec<i64> = Vec::new();
    let mut i: u64 = 0;
    while i <= top
        invariant
            hm == history@.map_values(|p: (u64, i64)| (p.0 as int, p.1 as int)),
            history@.len() >= 1,
            forall|j: int| 0 <= j < history@.len() ==> (#[trigger] history@[j]).0 <= 10000000,
            forall|j: int|
                0 <= j < history@.len() - 1 ==> (#[trigger] history@[j]).0 < history@[j + 1].0,
            top == hm.last().0,
            0 <= i <= top + 1,
            r@.len() == i,
            forall|j: int| 0 <= j < i ==> #[trigger] r@[j] as int == value_at(hm, j),
        decreases top + 1 - i,
    {
        // scan the history backwards for the latest entry at or before i
        let mut k: usize = history.len();
        let mut found: i64 = 0;
        let mut have = false;
        proof {
            assert(hm.take(hm.len() as int) =~= hm);
        }
        while k > 0 && !have
            invariant
                hm == history@.map_values(|p: (u64, i64)| (p.0 as int, p.1 as int)),
                0 <= k <= history@.len(),
                !have ==> value_at(hm, i as int) == value_at(hm.take(k as int), i as int),
                !have ==> found == 0,
                have ==> found as int == value_at(hm, i as int),
            decreases k + (if have {
                0int
            } else {
                1int
            }),
        {
            let (c, v) = history[k - 1];
            proof {
                assert(hm.take(k as int).last() == hm[k - 1]);
                assert(hm.take(k as int).drop_last() =~= hm.take(k - 1));
                assert(hm[k - 1] == (history@[k - 1].0 as int, history@[k - 1].1 as int));
            }
            if c <= i {
                proof {
                    assert(value_at(hm.take(k as int), i as int) == v as int);
                }
                found = v;
                have = true;
            } else {
                proof {
                    assert(value_at(hm.take(k as int), i as int) == value_at(
                        hm.take(k - 1),
                        i as int,
                    ));
                }
                k = k - 1;
            }
        }
        proof {
            if !have {
                assert(hm.take(0) =~= Seq::<(int, int)>::empty());
                assert(value_at(hm, i as int) == 0);
            }
            assert(found as int == value_at(hm, i as int));
        }
        r.push(found);
        i = i + 1;
    }
    proof {
        assert(r@.map_values(|v: i64| v as int) =~= complete_spec(hm));
    }
    r
}

/// The signal strengths selected from `start` every `increment`
/// cycles, over the completed history without its last entry.
pub fn get_signal_strengths(start: u64, increment: u64, history: &Vec<(u64, i64)>) -> (r: Vec<
    i64,
>)
    requires
        increment >= 1,
        start <= 1000000,
        history@.len() >= 1,
        forall|i: int| 0 <= i < history@.len() ==> (#[trigger] history@[i]).0 <= 250000,
        forall|i: int|
            0 <= i < history@.len() - 1 ==> (#[trigger] history@[i]).0 < history@[i + 1].0,
        forall|i: int|
            0 <= i < history@.len() ==> -1000000001 <= (#[trigger] history@[i]).1 <= 1000000001,
    ensures
        ({
            let hm = history@.map_values(|p: (u64, i64)| (p.0 as int, p.1 as int));
            let vals = complete_spec(hm);
            r@.map_values(|v: i64| v as int) == strengths_spec(
                start as int,
                increment as int,
                vals,
                vals.len() - 1,
            )
        }),
{
    let ghost hm = history@.map_values(|p: (u64, i64)| (p.0 as int, p.1 as int));
    proof {
        assert forall|i: int| 0 <= i < history@.len() implies (#[trigger] history@[i]).0
            <= 10000000 by {}
    }
    let vals = complete_history(history);
    let ghost gv = vals@.map_values(|v: i64| v as int);
    proof {
        lemma_value_at_bound(hm);
        assert(hm.last() == (history@[history@.len() - 1].0 as int, history@[history@.len()
            - 1].1 as int));
        assert(gv.len() == hm.last().0 + 1);
    }
    let mut r: Vec<i64> = Vec::new();
    let mut k: usize = 0;
    proof {
        assert(strengths_spec(start as int, increment as int, gv, 0) =~= Seq::<int>::empty());
    }
    while k + 1 < vals.len()
        invariant
            hm == history@.map_values(|p: (u64, i64)| (p.0 as int, p.1 as int)),
            gv == vals@.map_values(|v: i64| v as int),
            gv == complete_spec(hm),
            vals@.len() <= 250001,
            increment >= 1,
            start <= 1000000,
            forall|j: int| 0 <= j < gv.len() ==> -1000000001 <= #[trigger] gv[j] <= 1000000001,
            0 <= k <= gv.len(),
            k < gv.len() || gv.len() == 0,
            r@.map_values(|v: i64| v as int) == strengths_spec(
                start as int,
                increment as int,
                gv,
                k as int,
            ),
        decreases gv.len() - k,
    {
        let key = k as u64;
        let selected = if key < if start >= 1 {
            start - 1
        } else {
            0
        } {
            false
        } else {
            (key + 1 - start) % increment == 0
        };
        proof {
            assert(start >= 1 ==> ((key >= start - 1) == (k as int >= start as int - 1)));
        }
        if selected {
            let v = vals[k];
            proof {
                assert(gv[k as int] == v as int);
                assert((key + 1) as int * (v as int) <= 250001 * 1000000001 && (key + 1) as int
                    * (v as int) >= -(250001 * 1000000001)) by (nonlinear_arith)
                    requires
                        0 <= key + 1 <= 250001,
                        -1000000001 <= v as int <= 1000000001,
                ;
            }
            let strength = ((key + 1) as i64) * v;
            r.push(strength);
            proof {
                assert(r@.map_values(|v: i64| v as int) =~= strengths_spec(
                    start as int,
                    increment as int,
                    gv,
                    k + 1,
                ));
            }
        } else {
            proof {
                assert(r@.map_values(|v: i64| v as int) =~= strengths_spec(
                    start as int,
                    increment as int,
                    gv,
                    k + 1,
                ));
            }
        }
        k = k + 1;
    }
    proof {
        if gv.len() > 0 {
            assert(k as int == gv.len() - 1);
        }
    }
    r
}

/// Every completed value comes from some record or is zero.
proof fn lemma_value_at_bound(h: Seq<(int, int)>)
    requires
        forall|i: int| 0 <= i < h.len() ==> -1000000001 <= (#[trigger] h[i]).1 <= 1000000001,
    ensures
        forall|i: int| -1000000001 <= #[trigger] value_at(h, i) <= 1000000001,
    decreases h.len(),
{
    if h.len() > 0 {
        assert forall|i: int|
            0 <= i < h.drop_last().len() implies -1000000001 <= (#[trigger] h.drop_last()[i]).1
            <= 1000000001 by {
            assert(h.drop_last()[i] == h[i]);
        }
        lemma_value_at_bound(h.drop_last());
        assert forall|i: int| -1000000001 <= #[trigger] value_at(h, i) <= 1000000001 by {
            if h.last().0 <= i {
                assert(h[h.len() - 1].1 == h.last().1);
            } else {
                assert(value_at(h.drop_last(), i) == value_at(h, i));
            }
        }
    }
}

/// The selected cycles are at least `inc` apart, so the strength list
/// is short.
proof fn lemma_strengths_count(start: int, inc: int, vals: Seq<int>, k: int)
    requires
        inc >= 1,
        start >= 0,
        k >= 0,
    ensures
        inc * strengths_spec(start, inc, vals, k).len() <= k - ((k - start) % inc) + inc,
        (k - start) % inc >= 0,
    decreases k,
{
    vstd::arithmetic::div_mod::lemma_mod_bound(k - start, inc);
    if k > 0 {
        lemma_strengths_count(start, inc, vals, k - 1);
        vstd::arithmetic::div_mod::lemma_mod_bound(k - 1 - start, inc);
        vstd::arithmetic::div_mod::lemma_fundamental_div_mod(k - 1 - start, inc);
        let q = (k - 1 - start) / inc;
        let r = (k - 1 - start) % inc;
        if r == inc - 1 {
            assert(k - start == inc * (q + 1) + 0) by (nonlinear_arith)
                requires
                    k - 1 - start == inc * q + r,
                    r == inc - 1,
            ;
            vstd::arithmetic::div_mod::lemma_fundamental_div_mod_converse(
                k - start,
                inc,
                q + 1,
                0,
            );
            assert((k - start) % inc == 0);
        } else {
            assert(k - start == inc * q + (r + 1)) by (nonlinear_arith)
                requires
                    k - 1 - start == inc * q + r,
            ;
            vstd::arithmetic::div_mod::lemma_fundamental_div_mod_converse(
                k - start,
                inc,
                q,
                r + 1,
            );
            assert((k - start) % inc == r + 1);
        }
        let prev_len = strengths_spec(start, inc, vals, k - 1).len();
        let cur_len = strengths_spec(start, inc, vals, k).len();
        if (k - 1 >= start - 1) && ((k - 1) + 1 - start) % inc == 0 {
            assert(0int % inc == 0) by (nonlinear_arith)
                requires
                    inc >= 1,
            ;
            assert(r == inc - 1);
            assert((k - start) % inc == 0);
            assert(cur_len == prev_len + 1);
            assert(inc * cur_len == inc * prev_len + inc) by (nonlinear_arith)
                requires
                    cur_len == prev_len + 1,
            ;
            assert(inc * prev_len <= (k - 1) - r + inc);
            assert(inc * cur_len <= k - ((k - start) % inc) + inc);
        } else {
            assert(cur_len == prev_len);
        }
    }
}

/// The summed signal strengths at cycle 20 and every 40 cycles after.
pub fn puzzle_1(input: &str) -> (r: String)
    ensures
        match program_of(input.spec_bytes()) {
            Some(prog) => ({
                let h = history_spec(prog, prog.len() as int);
                let vals = complete_spec(h);
                r@ == int_digits(
                    sum_of(strengths_spec(20, 40, vals, vals.len() - 1)),
                )
            }),
            None => r@ == dec_digits(0),
        },
{
    match parse_program(input.as_bytes()) {
        None => i64_string(0),
        Some(prog) => {
            proof {
                lemma_instrs_wf(split_spec(input.spec_bytes(), 10));
            }
            let h = run_history(&prog);
            proof {
                assert forall|i: int| 0 <= i < h@.len() implies (#[trigger] h@[i]).0 <= 250000
                    by {
                    assert(h@[i].0 <= 2 * i);
                }
            }
            let strengths = get_signal_strengths(20, 40, &h);
            let ghost hm = h@.map_values(|p: (u64, i64)| (p.0 as int, p.1 as int));
            let ghost vals = complete_spec(hm);
            let ghost gs = strengths@.map_values(|v: i64| v as int);
            let mut sum: i64 = 0;
            let mut i: usize = 0;
            proof {
                assert(sum_of(gs.take(0)) == 0);
                assert(hm.last() == (h@[h@.len() - 1].0 as int, h@[h@.len() - 1].1 as int));
                assert(vals.len() <= 250001);
                lemma_value_at_bound(hm);
                lemma_strengths_bound(20, 40, vals, vals.len() - 1);
                lemma_strengths_count(20, 40, vals, vals.len() - 1);
            }
            while i < strengths.len()
                invariant
                    gs == strengths@.map_values(|v: i64| v as int),
                    0 <= i <= gs.len(),
                    gs.len() <= 6252,
                    forall|j: int|
                        0 <= j < gs.len() ==> -250001000250001 <= #[trigger] gs[j]
                            <= 250001000250001,
                    sum == sum_of(gs.take(i as int)),
                    -250001000250001 * (i as int) <= sum <= 250001000250001 * (i as int),
                decreases gs.len() - i,
            {
                proof {
                    assert(gs.take(i + 1).drop_last() =~= gs.take(i as int));
                    assert(gs.take(i + 1).last() == gs[i as int]);
                }
                sum = sum + strengths[i];
                i = i + 1;
            }
            proof {
                assert(gs.take(gs.len() as int) =~= gs);
            }
            i64_string(sum)
        },
    }
}

/// Each strength is the product of a bounded cycle and value.
proof fn lemma_strengths_bound(start: int, inc: int, vals: Seq<int>, k: int)
    requires
        forall|j: int| 0 <= j < vals.len() ==> -1000000001 <= #[trigger] vals[j] <= 1000000001,
        k <= vals.len(),
        vals.len() <= 250001,
    ensures
        forall|j: int|
            0 <= j < strengths_spec(start, inc, vals, k).len()
                ==> -250001000250001 <= #[trigger] strengths_spec(start, inc, vals, k)[j]
                <= 250001000250001,
    decreases k,
{
    if k > 0 && inc > 0 {
        lemma_strengths_bound(start, inc, vals, k - 1);
        if (k - 1 >= start - 1) && ((k - 1) + 1 - start) % inc == 0 {
            assert(k * vals[k - 1] <= 250001000250001 && k * vals[k - 1]
                >= -250001000250001) by (nonlinear_arith)
                requires
                    0 < k <= 250001,
                    -1000000001 <= vals[k - 1] <= 1000000001,
            ;
        }
        let prev = strengths_spec(start, inc, vals, k - 1);
        let cur = strengths_spec(start, inc, vals, k);
        assert forall|j: int|
            0 <= j < cur.len() implies -250001000250001 <= #[trigger] cur[j]
            <= 250001000250001 by {
            if j < prev.len() {
                assert(cur[j] == prev[j]);
            }
        }
    }
}

/// The drawing: one screen row per 40 cycles, `#` where the sprite
/// covers the pixel.
pub open spec fn pixels_spec(vals: Seq<int>) -> Seq<bool> {
    Seq::new(vals.len(), |i: int| -2 < vals[i] - (i % 40) < 2)
}

/// The rendered drawing: each row preceded by a newline.
pub open spec fn render_spec(pix: Seq<bool>) -> Seq<char>
    decreases pix.len(),
{
    if pix.len() == 0 {
        Seq::empty()
    } else {
        let take: int = if pix.len() < 40 {
            pix.len() as int
        } else {
            40
        };
        seq!['\n'] + pix.take(take).map_values(
            |b: bool|
                if b {
                    '#'
                } else {
                    ' '
                },
        ) + render_spec(pix.skip(take))
    }
}

/// The sprite drawing produced by the program.
pub fn puzzle_2(input: &str) -> (r: String)
    ensures
        match program_of(input.spec_bytes()) {
            Some(prog) => ({
                let h = history_spec(prog, prog.len() as int);
                let vals = complete_spec(h);
                r@ == render_spec(pixels_spec(vals))
            }),
            None => r@ == Seq::<char>::empty(),
        },
{
    match parse_program(input.as_bytes()) {
        None => String::new(),
        Some(prog) => {
            proof {
                lemma_instrs_wf(split_spec(input.spec_bytes(), 10));
            }
            let h = run_history(&prog);
            proof {
                assert forall|i: int| 0 <= i < h@.len() implies (#[trigger] h@[i]).0 <= 10000000
                    by {
                    assert(h@[i].0 <= 2 * i);
                }
            }
            let vals = complete_history(&h);
            let ghost gv = vals@.map_values(|v: i64| v as int);
            let mut pix: Vec<bool> = Vec::new();
            let mut i: usize = 0;
            while i < vals.len()
                invariant
                    gv == vals@.map_values(|v: i64| v as int),
                    0 <= i <= gv.len(),
                    pix@.len() == i,
                    forall|j: int| 0 <= j < i ==> #[trigger] pix@[j] == pixels_spec(gv)[j],
                decreases gv.len() - i,
            {
                let v = vals[i];
                let col = (i % 40) as i64;
                proof {
                    assert(gv[i as int] == v as int);
                    assert((i as int) % 40 == col as int);
                }
                let lit = v > col - 2 && v < col + 2;
                pix.push(lit);
                i = i + 1;
            }
            proof {
                assert(pix@ =~= pixels_spec(gv));
            }
            render(&pix)
        },
    }
}

/// Renders the pixel rows as text.
fn render(pix: &Vec<bool>) -> (r: String)
    ensures
        r@ == render_spec(pix@),
{
    let r = render_from(pix, 0);
    proof {
        assert(pix@.skip(0) =~= pix@);
    }
    r
}

/// Renders the rows from `start` on.
fn render_from(pix: &Vec<bool>, start: usize) -> (r: String)
    requires
        start <= pix@.len(),
    ensures
        r@ == render_spec(pix@.skip(start as int)),
    decreases pix@.len() - start,
{
    let ghost rest = pix@.skip(start as int);
    if start >= pix.len() {
        proof {
            assert(rest.len() == 0);
        }
        String::new()
    } else {
        let take = if pix.len() - start < 40 {
            pix.len() - start
        } else {
            40
        };
        proof {
            assert(take as int == (if rest.len() < 40 {
                rest.len() as int
            } else {
                40
            }));
            reveal_strlit("\n");
            reveal_strlit("#");
            reveal_strlit(" ");
        }
        let mut out = String::from_str("\n");
        let mut j: usize = 0;
        proof {
            assert(out@ =~= seq!['\n'] + rest.take(0).map_values(
                |b: bool|
                    if b {
                        '#'
                    } else {
                        ' '
                    },
            ));
        }
        while j < take
            invariant
                rest == pix@.skip(start as int),
                start + take <= pix@.len(),
                pix@.len() <= usize::MAX,
                0 <= j <= take,
                out@ == seq!['\n'] + rest.take(j as int).map_values(
                    |b: bool|
                        if b {
                            '#'
                        } else {
                            ' '
                        },
                ),
            decreases take - j,
        {
            proof {
                reveal_strlit("\n");
                reveal_strlit("#");
                reveal_strlit(" ");
                assert(rest[j as int] == pix@[start + j]);
            }
            if pix[start + j] {
                out.append("#");
            } else {
                out.append(" ");
            }
            proof {
                assert(out@ =~= seq!['\n'] + rest.take(j + 1).map_values(
                    |b: bool|
                        if b {
                            '#'
                        } else {
                            ' '
                        },
                ));
            }
            j = j + 1;
        }
        let tail = render_from(pix, start + take);
        out.append(tail.as_str());
        proof {
            assert(pix@.skip((start + take) as int) =~= rest.skip(take as int));
            assert(out@ =~= render_spec(rest));
        }
        out
    }
}

} // verus!

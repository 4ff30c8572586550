//! Worksheets of number columns with an operator row underneath. Each
//! operator starts a block of columns. The first puzzle reads each
//! block's rows as numbers; the second reads the block's character
//! columns vertically, as a cephalopod would; both reduce each block
//! with its operator and sum the block values.

use vstd::prelude::*;

use crate::numfmt::dec_digits;
use crate::numfmt::u64_string;
use crate::scan::dec_val;
use crate::scan::is_numeral;
use crate::scan::parse_u64;
use crate::scan::split_bytes;
use crate::scan::trim_bytes;
use crate::scan::trim_spec;

verus! {

/// A block operator.
#[derive(Debug, PartialEq, Eq, Structural, Clone, Copy)]
pub enum Operator {
    Add,
    Mul,
}

/// The fold of `operands` under the operator, over the first `k`
/// values: sums start from zero, products from one.
pub open spec fn apply_spec(op: Operator, operands: Seq<int>, k: int) -> int
    decreases k,
{
    if k <= 0 {
        match op {
            Operator::Add => 0,
            Operator::Mul => 1,
        }
    } else {
        match op {
            Operator::Add => apply_spec(op, operands, k - 1) + operands[k - 1],
            Operator::Mul => apply_spec(op, operands, k - 1) * operands[k - 1],
        }
    }
}

/// Reduces the operands with the operator; `None` on overflow.
pub fn apply(operation: Operator, operands: &Vec<u64>) -> (r: Option<u64>)
    ensures
        r matches Some(v) ==> v as int == apply_spec(
            operation,
            operands@.map_values(|x: u64| x as int),
            operands@.len() as int,
        ),
{
    let ghost gm = operands@.map_values(|x: u64| x as int);
    let mut acc: u64 = match operation {
        Operator::Add => 0,
        Operator::Mul => 1,
    };
    let mut i: usize = 0;
    while i < operands.len()
        invariant
            gm == operands@.map_values(|x: u64| x as int),
            0 <= i <= operands@.len(),
            acc as int == apply_spec(operation, gm, i as int),
        decreases operands@.len() - i,
    {
        let v = operands[i];
        proof {
            assert(gm[i as int] == operands@[i as int] as int);
        }
        match operation {
            Operator::Add => {
                if acc > u64::MAX - v {
                    return None;
                }
                acc = acc + v;
            },
            Operator::Mul => {
                if v != 0 && acc > u64::MAX / v {
                    return None;
                }
                proof {
                    if v != 0 {
                        let q = (u64::MAX as int) / (v as int);
                        vstd::arithmetic::div_mod::lemma_fundamental_div_mod(
                            u64::MAX as int,
                            v as int,
                        );
                        assert((acc as int) * (v as int) <= u64::MAX) by (nonlinear_arith)
                            requires
                                acc as int <= q,
                                v >= 1,
                                u64::MAX as int == (v as int) * q + (u64::MAX as int) % (
                                v as int),
                                0 <= (u64::MAX as int) % (v as int),
                        ;
                    } else {
                        assert((acc as int) * 0 == 0) by (nonlinear_arith);
                    }
                }
                acc = acc * v;
            },
        }
        i = i + 1;
    }
    Some(acc)
}

/// The trimmed text read as a number.
pub fn to_normal_math(operand: &[u8]) -> (r: Option<u64>)
    ensures
        match r {
            Some(v) => is_numeral(trim_spec(operand@)) && v == dec_val(trim_spec(operand@)),
            None => !is_numeral(trim_spec(operand@)) || dec_val(trim_spec(operand@)) > u64::MAX,
        },
{
    parse_u64(trim_bytes(operand))
}

/// Reads each character column of the block texts vertically as one
/// number.
pub fn to_cephalopods_math(operands: &Vec<Vec<u8>>) -> (r: Option<Vec<u64>>) {
    // the longest row decides how many vertical numbers there are
    let mut max_len: usize = 0;
    let mut i: usize = 0;
    while i < operands.len()
        invariant
            i <= operands@.len(),
        decreases operands@.len() - i,
    {
        if operands[i].len() > max_len {
            max_len = operands[i].len();
        }
        i = i + 1;
    }
    let mut out: Vec<u64> = Vec::new();
    let mut col: usize = 0;
    while col < max_len
        invariant
            col <= max_len,
        decreases max_len - col,
    {
        let mut digits: Vec<u8> = Vec::new();
        let mut row: usize = 0;
        while row < operands.len()
            invariant
                row <= operands@.len(),
            decreases operands@.len() - row,
        {
            if col < operands[row].len() {
                digits.push(operands[row][col]);
            }
            row = row + 1;
        }
        match parse_u64(trim_bytes(digits.as_slice())) {
            Some(v) => {
                out.push(v);
            },
            None => {
                return None;
            },
        }
        col = col + 1;
    }
    Some(out)
}

/// The parsed worksheet: for each block, its operator and one text row
/// per number line.
fn load_input(input: &[u8]) -> (r: Option<Vec<(Operator, Vec<Vec<u8>>)>>) {
    let lines = split_bytes(input, 10);
    // the operator row is the last non-empty line
    let mut op_ix: usize = 0;
    let mut found = false;
    let mut i: usize = 0;
    while i < lines.len()
        invariant
            i <= lines@.len(),
            found ==> op_ix < lines@.len(),
        decreases lines@.len() - i,
    {
        if lines[i].len() > 0 {
            op_ix = i;
            found = true;
        }
        i = i + 1;
    }
    if !found {
        return None;
    }
    let op_line = &lines[op_ix];
    // the operator positions start the blocks
    let mut starts: Vec<usize> = Vec::new();
    let mut ops: Vec<Operator> = Vec::new();
    let mut j: usize = 0;
    while j < op_line.len()
        invariant
            j <= op_line@.len(),
            starts@.len() == ops@.len(),
            forall|k: int| 0 <= k < starts@.len() ==> #[trigger] starts@[k] < op_line@.len(),
        decreases op_line@.len() - j,
    {
        if op_line[j] == 43 {
            starts.push(j);
            ops.push(Operator::Add);
        } else if op_line[j] == 42 {
            starts.push(j);
            ops.push(Operator::Mul);
        }
        j = j + 1;
    }
    if starts.len() == 0 {
        return None;
    }
    let mut result: Vec<(Operator, Vec<Vec<u8>>)> = Vec::new();
    let mut k: usize = 0;
    while k < starts.len()
        invariant
            k <= starts@.len(),
            starts@.len() == ops@.len(),
            forall|x: int| 0 <= x < starts@.len() ==> #[trigger] starts@[x] < op_line@.len(),
        decreases starts@.len() - k,
    {
        let from = starts[k];
        let until = if k + 1 < starts.len() {
            let next = starts[k + 1];
            if next == 0 {
                return None;
            }
            next - 1
        } else {
            usize::MAX
        };
        if until <= from {
            return None;
        }
        let mut rows: Vec<Vec<u8>> = Vec::new();
        let mut li: usize = 0;
        while li < op_ix && op_ix < lines.len()
            invariant
                li <= op_ix,
            decreases op_ix - li,
        {
            let line = &lines[li];
            if line.len() > 0 {
                let hi = if until < line.len() {
                    until
                } else {
                    line.len()
                };
                let lo = if from < hi {
                    from
                } else {
                    hi
                };
                let seg = vstd::slice::slice_subrange(line.as_slice(), lo, hi);
                rows.push(vstd::slice::slice_to_vec(seg));
            }
            li = li + 1;
        }
        result.push((ops[k], rows));
        k = k + 1;
    }
    Some(result)
}

/// Sums the blocks with each row read as one number.
pub fn puzzle_1(input: &str) -> (r: String)
    ensures
        exists|v: nat| r@ == dec_digits(v),
{
    match load_input(input.as_bytes()) {
        None => u64_string(0),
        Some(blocks) => {
            let mut total: u64 = 0;
            let mut i: usize = 0;
            while i < blocks.len()
                invariant
                    i <= blocks@.len(),
                decreases blocks@.len() - i,
            {
                let (op, rows) = &blocks[i];
                let mut operands: Vec<u64> = Vec::new();
                let mut j: usize = 0;
                while j < rows.len()
                    invariant
                        j <= rows@.len(),
                    decreases rows@.len() - j,
                {
                    match to_normal_math(rows[j].as_slice()) {
                        Some(v) => {
                            operands.push(v);
                        },
                        None => {
                            return u64_string(0);
                        },
                    }
                    j = j + 1;
                }
                let value = match apply(*op, &operands) {
                    Some(v) => v,
                    None => {
                        return u64_string(0);
                    },
                };
                if total > u64::MAX - value {
                    return u64_string(0);
                }
                total = total + value;
                i = i + 1;
            }
            u64_string(total)
        },
    }
}

/// Sums the blocks with each character column read vertically as one
/// number.
pub fn puzzle_2(input: &str) -> (r: String)
    ensures
        exists|v: nat| r@ == dec_digits(v),
{
    match load_input(input.as_bytes()) {
        None => u64_string(0),
        Some(blocks) => {
            let mut total: u64 = 0;
            let mut i: usize = 0;
            while i < blocks.len()
                invariant
                    i <= blocks@.len(),
                decreases blocks@.len() - i,
            {
                let (op, rows) = &blocks[i];
                let operands = match to_cephalopods_math(rows) {
                    Some(v) => v,
                    None => {
                        return u64_string(0);
                    },
                };
                let value = match apply(*op, &operands) {
                    Some(v) => v,
                    None => {
                        return u64_string(0);
                    },
                };
                if total > u64::MAX - value {
                    return u64_string(0);
                }
                total = total + value;
                i = i + 1;
            }
            u64_string(total)
        },
    }
}

} // verus!

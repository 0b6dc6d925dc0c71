//! Equations whose operators are missing: the operands are given, and the
//! result that they should have.

use vstd::prelude::*;
use vstd::slice::slice_subrange;
use crate::text::ascii;
use crate::text::bytes_of;
use crate::text::find;
use crate::text::first_occurrence;
use crate::text::lines;
use crate::text::lines_of;
use crate::text::literal;
use crate::text::parse_u128;
use crate::text::rows;
use crate::text::split;
use crate::text::split_on;
use crate::text::text_bytes;
use crate::text::unsigned_value;

verus! {

#[derive(Debug, Clone, Copy, PartialEq, Eq, Structural)]
pub enum Operator {
    Plus,
    Mult,
}

#[derive(Debug, PartialEq, Eq)]
pub struct EqData {
    pub solution: u128,
    pub operands: Vec<u128>,
}

/// What `op` makes of `acc` and `operand`, in arithmetic that wraps around.
pub open spec fn apply(op: Operator, acc: u128, operand: u128) -> u128 {
    match op {
        Operator::Plus => acc.wrapping_add(operand),
        Operator::Mult => acc.wrapping_mul(operand),
    }
}

/// What `acc` becomes when `ops` are applied to it, one for each of
/// `operands`, from left to right.
pub open spec fn evaluate(acc: u128, operands: Seq<u128>, ops: Seq<Operator>) -> u128
    recommends
        operands.len() == ops.len(),
    decreases operands.len(),
{
    if operands.len() == 0 || ops.len() == 0 {
        acc
    } else {
        evaluate(apply(ops[0], acc, operands[0]), operands.drop_first(), ops.drop_first())
    }
}

/// The first sequence of operators for the operands from `next` on that
/// begins with one of `valid_ops` from `choice` on.
pub open spec fn first_from_choice(
    solution: u128,
    operands: Seq<u128>,
    valid_ops: Seq<Operator>,
    acc: u128,
    next: nat,
    choice: nat,
) -> Option<Seq<Operator>>
    decreases operands.len() - next, valid_ops.len() - choice,
{
    if next >= operands.len() || choice >= valid_ops.len() {
        None
    } else {
        match first_sequence(
            solution,
            operands,
            valid_ops,
            apply(valid_ops[choice as int], acc, operands[next as int]),
            next + 1,
        ) {
            Some(rest) => Some(seq![valid_ops[choice as int]] + rest),
            None => first_from_choice(solution, operands, valid_ops, acc, next, choice + 1),
        }
    }
}

/// The first sequence of operators, in the order of `valid_ops`, that takes
/// `acc` over the operands from `next` on to `solution` without going above
/// `solution` before the last operand.
pub open spec fn first_sequence(
    solution: u128,
    operands: Seq<u128>,
    valid_ops: Seq<Operator>,
    acc: u128,
    next: nat,
) -> Option<Seq<Operator>>
    decreases operands.len() - next, valid_ops.len() + 1,
{
    if next >= operands.len() {
        if acc == solution {
            Some(Seq::empty())
        } else {
            None
        }
    } else if acc > solution {
        None
    } else {
        first_from_choice(solution, operands, valid_ops, acc, next, 0)
    }
}

/// A sequence that the search finds has one operator for each operand that
/// is left, and gives the solution.
pub proof fn lemma_first_sequence_solves(
    solution: u128,
    operands: Seq<u128>,
    valid_ops: Seq<Operator>,
    acc: u128,
    next: nat,
)
    requires
        next <= operands.len(),
        first_sequence(solution, operands, valid_ops, acc, next).is_some(),
    ensures
        first_sequence(solution, operands, valid_ops, acc, next).unwrap().len() == operands.len()
            - next,
        evaluate(
            acc,
            operands.skip(next as int),
            first_sequence(solution, operands, valid_ops, acc, next).unwrap(),
        ) == solution,
    decreases operands.len() - next, valid_ops.len() + 1,
{
    if next < operands.len() {
        lemma_first_from_choice_solves(solution, operands, valid_ops, acc, next, 0);
    }
}

pub proof fn lemma_first_from_choice_solves(
    solution: u128,
    operands: Seq<u128>,
    valid_ops: Seq<Operator>,
    acc: u128,
    next: nat,
    choice: nat,
)
    requires
        next < operands.len(),
        first_from_choice(solution, operands, valid_ops, acc, next, choice).is_some(),
    ensures
        first_from_choice(solution, operands, valid_ops, acc, next, choice).unwrap().len()
            == operands.len() - next,
        evaluate(
            acc,
            operands.skip(next as int),
            first_from_choice(solution, operands, valid_ops, acc, next, choice).unwrap(),
        ) == solution,
    decreases operands.len() - next, valid_ops.len() - choice,
{
    let op = valid_ops[choice as int];
    let stepped = apply(op, acc, operands[next as int]);
    match first_sequence(solution, operands, valid_ops, stepped, next + 1) {
        Some(rest) => {
            lemma_first_sequence_solves(solution, operands, valid_ops, stepped, next + 1);
            let ops = seq![op] + rest;
            assert(ops.drop_first() =~= rest);
            assert(operands.skip(next as int).drop_first() =~= operands.skip(next + 1 as int));
        },
        None => {
            lemma_first_from_choice_solves(solution, operands, valid_ops, acc, next, choice + 1);
        },
    }
}

pub fn _find_op_sequence(
    eq_data: &EqData,
    valid_ops: &Vec<Operator>,
    acc: u128,
    next: usize,
) -> (found: Option<Vec<Operator>>)
    requires
        next <= eq_data.operands.len(),
    ensures
        match found {
            Some(ops) => first_sequence(
                eq_data.solution,
                eq_data.operands@,
                valid_ops@,
                acc,
                next as nat,
            ) == Some(ops@),
            None => first_sequence(
                eq_data.solution,
                eq_data.operands@,
                valid_ops@,
                acc,
                next as nat,
            ).is_none(),
        },
    decreases eq_data.operands.len() - next,
{
    if next == eq_data.operands.len() {
        if acc == eq_data.solution {
            return Some(Vec::new());
        } else {
            return None;
        }
    } else if acc > eq_data.solution {
        return None;
    }
    let next_operand = eq_data.operands[next];
    let mut choice: usize = 0;
    while choice < valid_ops.len()
        invariant
            choice <= valid_ops.len(),
            next < eq_data.operands.len(),
            acc <= eq_data.solution,
            next_operand == eq_data.operands[next as int],
            first_from_choice(
                eq_data.solution,
                eq_data.operands@,
                valid_ops@,
                acc,
                next as nat,
                choice as nat,
            ) == first_from_choice(
                eq_data.solution,
                eq_data.operands@,
                valid_ops@,
                acc,
                next as nat,
                0,
            ),
        decreases valid_ops.len() - choice,
    {
        let op = valid_ops[choice];
        let next_acc = match op {
            Operator::Plus => acc.wrapping_add(next_operand),
            Operator::Mult => acc.wrapping_mul(next_operand),
        };
        match _find_op_sequence(eq_data, valid_ops, next_acc, next + 1) {
            Some(rest) => {
                let mut ops: Vec<Operator> = Vec::new();
                ops.push(op);
                let mut k: usize = 0;
                while k < rest.len()
                    invariant
                        k <= rest.len(),
                        ops@ == seq![op] + rest@.take(k as int),
                    decreases rest.len() - k,
                {
                    ops.push(rest[k]);
                    assert(ops@ =~= seq![op] + rest@.take(k + 1));
                    k += 1;
                }
                assert(rest@.take(k as int) =~= rest@);
                assert(first_from_choice(
                    eq_data.solution,
                    eq_data.operands@,
                    valid_ops@,
                    acc,
                    next as nat,
                    choice as nat,
                ) == Some(ops@));
                return Some(ops);
            },
            None => {},
        }
        choice += 1;
    }
    None
}

/// The first sequence of operators, in the order of `valid_ops`, with which
/// the operands give the solution.
pub fn find_op_sequence(eq_data: &EqData, valid_ops: &Vec<Operator>) -> (found: Option<
    Vec<Operator>,
>)
    requires
        eq_data.operands.len() >= 1,
    ensures
        match found {
            Some(ops) => {
                &&& first_sequence(
                    eq_data.solution,
                    eq_data.operands@,
                    valid_ops@,
                    eq_data.operands[0],
                    1,
                ) == Some(ops@)
                &&& ops.len() == eq_data.operands.len() - 1
                &&& evaluate(eq_data.operands[0], eq_data.operands@.skip(1), ops@)
                    == eq_data.solution
            },
            None => first_sequence(
                eq_data.solution,
                eq_data.operands@,
                valid_ops@,
                eq_data.operands[0],
                1,
            ).is_none(),
        },
{
    let init_acc = eq_data.operands[0];
    let found = _find_op_sequence(eq_data, valid_ops, init_acc, 1);
    proof {
        if found.is_some() {
            lemma_first_sequence_solves(
                eq_data.solution,
                eq_data.operands@,
                valid_ops@,
                init_acc,
                1,
            );
        }
    }
    found
}

/// The numbers that `fields` write, if each writes one of up to 128 bits.
pub open spec fn operands_of(fields: Seq<Seq<u8>>) -> Option<Seq<u128>>
    decreases fields.len(),
{
    if fields.len() == 0 {
        Some(Seq::empty())
    } else {
        match (operands_of(fields.drop_last()), unsigned_value(fields.last())) {
            (Some(before), Some(v)) if v <= u128::MAX => Some(before.push(v as u128)),
            _ => None,
        }
    }
}

/// What stands between the result and the operands.
pub open spec fn result_sep() -> Seq<u8> {
    ascii(": "@)
}

/// The equation that a line `result: operand operand ...` writes; `None`
/// where the line has not exactly one `: `, or a number is malformed.
pub open spec fn equation_of(line: Seq<u8>) -> Option<(u128, Seq<u128>)> {
    match first_occurrence(line, result_sep()) {
        None => None,
        Some(at) => {
            let rest = line.skip(at + result_sep().len());
            match (
                first_occurrence(rest, result_sep()),
                unsigned_value(line.take(at)),
                operands_of(split_on(rest, 32)),
            ) {
                (None, Some(solution), Some(operands)) if solution <= u128::MAX => Some(
                    (solution as u128, operands),
                ),
                _ => None,
            }
        },
    }
}

/// The equations that `lines` write, one to a line.
pub open spec fn equations_in(lines: Seq<Seq<u8>>) -> Option<Seq<(u128, Seq<u128>)>>
    decreases lines.len(),
{
    if lines.len() == 0 {
        Some(Seq::empty())
    } else {
        match (equations_in(lines.drop_last()), equation_of(lines.last())) {
            (Some(before), Some(equation)) => Some(before.push(equation)),
            _ => None,
        }
    }
}

/// The equations that `data` hold.
pub open spec fn equations(data: Seq<EqData>) -> Seq<(u128, Seq<u128>)> {
    Seq::new(data.len(), |i: int| (data[i].solution, data[i].operands@))
}

fn parse_operands(fields: &Vec<Vec<u8>>) -> (values: Option<Vec<u128>>)
    ensures
        match values {
            Some(v) => operands_of(rows(fields@)) == Some(v@),
            None => operands_of(rows(fields@)).is_none(),
        },
{
    let mut values: Vec<u128> = Vec::new();
    let mut ok = true;
    let mut i: usize = 0;
    assert(rows(fields@).take(0) =~~= Seq::<Seq<u8>>::empty());
    while i < fields.len()
        invariant
            i <= fields.len(),
            ok ==> operands_of(rows(fields@).take(i as int)) == Some(values@),
            !ok ==> operands_of(rows(fields@).take(i as int)).is_none(),
        decreases fields.len() - i,
    {
        assert(rows(fields@).take(i + 1).drop_last() =~~= rows(fields@).take(i as int));
        assert(rows(fields@).take(i + 1).last() == fields[i as int]@);
        match parse_u128(fields[i].as_slice()) {
            Some(v) => {
                if ok {
                    values.push(v);
                }
            },
            None => {
                ok = false;
            },
        }
        i += 1;
    }
    assert(rows(fields@).take(i as int) =~~= rows(fields@));
    if ok {
        Some(values)
    } else {
        None
    }
}

/// The equation written on `line`.
pub fn parse_line(line: &[u8]) -> (equation: Option<EqData>)
    ensures
        match equation {
            Some(read) => equation_of(line@) == Some((read.solution, read.operands@)),
            None => equation_of(line@).is_none(),
        },
{
    proof {
        reveal_strlit(": ");
    }
    let sep = literal(": ");
    match find(line, sep) {
        None => None,
        Some(at) => {
            let end = line.len();
            let rest = slice_subrange(line, at + sep.len(), end);
            let head = slice_subrange(line, 0, at);
            if find(rest, sep).is_some() {
                return None;
            }
            let fields = split(rest, 32);
            match (parse_u128(head), parse_operands(&fields)) {
                (Some(solution), Some(operands)) => Some(EqData { solution, operands }),
                _ => None,
            }
        },
    }
}

/// The equations written in `input`, one to a line.
pub fn parse_input(input: &String) -> (parsed: Option<Vec<EqData>>)
    ensures
        match parsed {
            Some(read) => equations_in(lines_of(bytes_of(input@))) == Some(equations(read@)),
            None => equations_in(lines_of(bytes_of(input@))).is_none(),
        },
{
    let found = lines(text_bytes(input));
    let mut eq_data: Vec<EqData> = Vec::new();
    let mut ok = true;
    let mut i: usize = 0;
    assert(rows(found@).take(0) =~~= Seq::<Seq<u8>>::empty());
    assert(equations(eq_data@) =~~= Seq::<(u128, Seq<u128>)>::empty());
    while i < found.len()
        invariant
            i <= found.len(),
            rows(found@) == lines_of(bytes_of(input@)),
            ok ==> equations_in(rows(found@).take(i as int)) == Some(equations(eq_data@)),
            !ok ==> equations_in(rows(found@).take(i as int)).is_none(),
        decreases found.len() - i,
    {
        assert(rows(found@).take(i + 1).drop_last() =~~= rows(found@).take(i as int));
        assert(rows(found@).take(i + 1).last() == found[i as int]@);
        match parse_line(found[i].as_slice()) {
            Some(equation) => {
                if ok {
                    let ghost before = equations(eq_data@);
                    let ghost added = (equation.solution, equation.operands@);
                    eq_data.push(equation);
                    assert(equations(eq_data@) =~~= before.push(added));
                }
            },
            None => {
                ok = false;
            },
        }
        i += 1;
    }
    assert(rows(found@).take(i as int) =~~= rows(found@));
    if ok {
        Some(eq_data)
    } else {
        None
    }
}

/// The sum of the solutions of those of the first `count` equations for
/// which plus and times can be put between the operands; `None` where an
/// equation has no operand.
pub open spec fn solvable_sum(data: Seq<(u128, Seq<u128>)>, count: nat) -> Option<int>
    decreases count,
{
    if count == 0 || count > data.len() {
        Some(0)
    } else {
        let (solution, operands) = data[count - 1];
        match solvable_sum(data, (count - 1) as nat) {
            None => None,
            Some(before) => if operands.len() == 0 {
                None
            } else if first_sequence(
                solution,
                operands,
                seq![Operator::Plus, Operator::Mult],
                operands[0],
                1,
            ).is_some() {
                Some(before + solution)
            } else {
                Some(before)
            },
        }
    }
}

proof fn lemma_solvable_sum_fails(data: Seq<(u128, Seq<u128>)>, count: nat, all: nat)
    requires
        count <= all <= data.len(),
        solvable_sum(data, count).is_none(),
    ensures
        solvable_sum(data, all).is_none(),
    decreases all,
{
    if all > count {
        lemma_solvable_sum_fails(data, count, (all - 1) as nat);
    }
}

proof fn lemma_solvable_sum_grows(data: Seq<(u128, Seq<u128>)>, count: nat, all: nat)
    requires
        count <= all <= data.len(),
        solvable_sum(data, count).is_some(),
    ensures
        match solvable_sum(data, all) {
            Some(total) => total >= solvable_sum(data, count).unwrap(),
            None => true,
        },
    decreases all,
{
    if all > count {
        lemma_solvable_sum_grows(data, count, (all - 1) as nat);
    }
}

/// The sum of the solutions of the equations of `input` that plus and times
/// can satisfy; `None` where the text is malformed, an equation has no
/// operand, or the sum does not fit 128 bits.
pub fn _solution1(input: &String) -> (sum: Option<u128>)
    ensures
        match equations_in(lines_of(bytes_of(input@))) {
            None => sum.is_none(),
            Some(data) => match solvable_sum(data, data.len()) {
                Some(total) => if total <= u128::MAX {
                    sum == Some(total as u128)
                } else {
                    sum.is_none()
                },
                None => sum.is_none(),
            },
        },
{
    match parse_input(input) {
        None => None,
        Some(all_eq_data) => {
            let mut ops: Vec<Operator> = Vec::new();
            ops.push(Operator::Plus);
            ops.push(Operator::Mult);
            assert(ops@ =~= seq![Operator::Plus, Operator::Mult]);
            let ghost data = equations(all_eq_data@);
            let mut result: u128 = 0;
            let mut i: usize = 0;
            while i < all_eq_data.len()
                invariant
                    i <= all_eq_data.len(),
                    ops@ == seq![Operator::Plus, Operator::Mult],
                    data == equations(all_eq_data@),
                    equations_in(lines_of(bytes_of(input@))) == Some(data),
                    solvable_sum(data, i as nat) == Some(result as int),
                decreases all_eq_data.len() - i,
            {
                let test_eq = &all_eq_data[i];
                assert(data[i as int] == (test_eq.solution, test_eq.operands@));
                if test_eq.operands.len() == 0 {
                    proof {
                        lemma_solvable_sum_fails(data, (i + 1) as nat, data.len());
                    }
                    return None;
                }
                match find_op_sequence(test_eq, &ops) {
                    Some(_op_seq) => {
                        match result.checked_add(test_eq.solution) {
                            Some(total) => {
                                result = total;
                            },
                            None => {
                                proof {
                                    lemma_solvable_sum_grows(data, (i + 1) as nat, data.len());
                                }
                                return None;
                            },
                        }
                    },
                    None => {},
                }
                i += 1;
            }
            Some(result)
        },
    }
}

} // verus!

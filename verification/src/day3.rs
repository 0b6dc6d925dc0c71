//! Corrupted memory in which multiplications are written between noise, and
//! switches that turn them on and off.

use vstd::prelude::*;
use crate::pattern::all_match_groups;
use crate::pattern::match_texts;
use crate::pattern::regex_matches;
use crate::pattern::texts;
use crate::text::ascii;
use crate::text::bytes_of;
use crate::text::equal;
use crate::text::literal;
use crate::text::parse_u64;
use crate::text::text_bytes;
use crate::text::unsigned_value;

verus! {

/// The pattern of a multiplication.
pub open spec fn mul_pattern() -> Seq<char> {
    r"mul\((\d{1,3}),(\d{1,3})\)"@
}

/// The pattern of a multiplication or a switch.
pub open spec fn switch_pattern() -> Seq<char> {
    r"do\(\)|don't\(\)|mul\((\d{1,3}),(\d{1,3})\)"@
}

/// What a match does.
#[derive(Debug, Clone, Copy, PartialEq, Eq, Structural)]
pub enum Instruction {
    /// Turns multiplications on.
    Enable,
    /// Turns them off.
    Disable,
    /// Multiplies two numbers.
    Mul(u64, u64),
}

/// The two numbers that a match of three texts writes in its second and
/// third.
pub open spec fn factors_of(groups: Seq<Seq<char>>) -> Option<(u64, u64)> {
    if groups.len() != 3 {
        None
    } else {
        match (unsigned_value(bytes_of(groups[1])), unsigned_value(bytes_of(groups[2]))) {
            (Some(a), Some(b)) if a <= u64::MAX && b <= u64::MAX => Some((a as u64, b as u64)),
            _ => None,
        }
    }
}

/// What a match does, where the first of its texts is the whole match.
pub open spec fn instruction_of(groups: Seq<Seq<char>>) -> Option<Instruction> {
    if groups.len() > 0 && bytes_of(groups[0]) == ascii("do()"@) {
        Some(Instruction::Enable)
    } else if groups.len() > 0 && bytes_of(groups[0]) == ascii("don't()"@) {
        Some(Instruction::Disable)
    } else {
        match factors_of(groups) {
            Some((a, b)) => Some(Instruction::Mul(a, b)),
            None => None,
        }
    }
}

/// The state of the memory: what the multiplications so far add up to, and
/// whether they are turned on.
pub struct Memory {
    pub sum: int,
    pub enabled: bool,
}

/// What a match does where switches are heeded (`switched`), or where
/// every match is a multiplication.
pub open spec fn step_of(groups: Seq<Seq<char>>, switched: bool) -> Option<Instruction> {
    if switched {
        instruction_of(groups)
    } else {
        match factors_of(groups) {
            Some((a, b)) => Some(Instruction::Mul(a, b)),
            None => None,
        }
    }
}

/// The product of two factors.
pub open spec fn product(a: u64, b: u64) -> nat {
    (a * b) as nat
}

/// The state after `step`.
pub open spec fn after_step(before: Memory, step: Instruction) -> Memory {
    match step {
        Instruction::Enable => Memory { enabled: true, ..before },
        Instruction::Disable => Memory { enabled: false, ..before },
        Instruction::Mul(a, b) => if before.enabled {
            Memory { sum: before.sum + product(a, b), ..before }
        } else {
            before
        },
    }
}

/// The state after the first `count` of `matches`; `None` where a match does
/// nothing that is known.
pub open spec fn run_matches(matches: Seq<Seq<Seq<char>>>, count: nat, switched: bool) -> Option<
    Memory,
>
    decreases count,
{
    if count == 0 || count > matches.len() {
        Some(Memory { sum: 0, enabled: true })
    } else {
        match (
            run_matches(matches, (count - 1) as nat, switched),
            step_of(matches[count - 1], switched),
        ) {
            (Some(before), Some(step)) => Some(after_step(before, step)),
            _ => None,
        }
    }
}

proof fn lemma_run_fails(matches: Seq<Seq<Seq<char>>>, count: nat, all: nat, switched: bool)
    requires
        count <= all <= matches.len(),
        run_matches(matches, count, switched).is_none(),
    ensures
        run_matches(matches, all, switched).is_none(),
    decreases all,
{
    if all > count {
        lemma_run_fails(matches, count, (all - 1) as nat, switched);
    }
}

proof fn lemma_run_grows(matches: Seq<Seq<Seq<char>>>, count: nat, all: nat, switched: bool)
    requires
        count <= all <= matches.len(),
        run_matches(matches, count, switched).is_some(),
    ensures
        match run_matches(matches, all, switched) {
            Some(after) => after.sum >= run_matches(matches, count, switched).unwrap().sum,
            None => true,
        },
    decreases all,
{
    if all > count {
        lemma_run_grows(matches, count, (all - 1) as nat, switched);
    }
}

/// Adds the product of `a` and `b` to `sum`, where the result fits 64 bits.
fn add_product(sum: u64, a: u64, b: u64) -> (total: Option<u64>)
    ensures
        match total {
            Some(t) => t == sum + product(a, b),
            None => sum + product(a, b) > u64::MAX,
        },
{
    match a.checked_mul(b) {
        Some(p) => sum.checked_add(p),
        None => None,
    }
}

/// The two numbers of a multiplication.
pub fn factors(groups: &Vec<String>) -> (found: Option<(u64, u64)>)
    ensures
        found == factors_of(texts(groups@)),
{
    if groups.len() != 3 {
        return None;
    }
    match (parse_u64(text_bytes(&groups[1])), parse_u64(text_bytes(&groups[2]))) {
        (Some(a), Some(b)) => Some((a, b)),
        _ => None,
    }
}

/// What a match does.
pub fn instruction(groups: &Vec<String>) -> (found: Option<Instruction>)
    ensures
        found == instruction_of(texts(groups@)),
{
    proof {
        reveal_strlit("do()");
        reveal_strlit("don't()");
    }
    if groups.len() > 0 && equal(text_bytes(&groups[0]), literal("do()")) {
        return Some(Instruction::Enable);
    }
    if groups.len() > 0 && equal(text_bytes(&groups[0]), literal("don't()")) {
        return Some(Instruction::Disable);
    }
    match factors(groups) {
        Some((a, b)) => Some(Instruction::Mul(a, b)),
        None => None,
    }
}

/// Carries out `matches` one after another and returns what the
/// multiplications add up to; `None` where a match does nothing that is
/// known, or the sum does not fit 64 bits.
pub fn run(matches: &Vec<Vec<String>>, switched: bool) -> (sum: Option<u64>)
    ensures
        match run_matches(match_texts(matches@), matches.len() as nat, switched) {
            Some(after) => if after.sum <= u64::MAX {
                sum == Some(after.sum as u64)
            } else {
                sum.is_none()
            },
            None => sum.is_none(),
        },
{
    let ghost all = match_texts(matches@);
    let mut result: u64 = 0;
    let mut enabled = true;
    let mut i: usize = 0;
    while i < matches.len()
        invariant
            i <= matches.len(),
            all == match_texts(matches@),
            run_matches(all, i as nat, switched) == Some(Memory { sum: result as int, enabled }),
        decreases matches.len() - i,
    {
        assert(all[i as int] == texts(matches[i as int]@));
        let ghost before = Memory { sum: result as int, enabled };
        match next_step(&matches[i], switched) {
            None => {
                proof {
                    lemma_run_fails(all, (i + 1) as nat, all.len(), switched);
                }
                return None;
            },
            Some(Instruction::Enable) => {
                enabled = true;
            },
            Some(Instruction::Disable) => {
                enabled = false;
            },
            Some(Instruction::Mul(a, b)) => {
                if enabled {
                    match add_product(result, a, b) {
                        Some(total) => {
                            result = total;
                        },
                        None => {
                            proof {
                                lemma_run_grows(all, (i + 1) as nat, all.len(), switched);
                            }
                            return None;
                        },
                    }
                }
            },
        }
        i += 1;
    }
    Some(result)
}

/// What one match does.
pub fn next_step(groups: &Vec<String>, switched: bool) -> (step: Option<Instruction>)
    ensures
        step == step_of(texts(groups@), switched),
{
    if switched {
        instruction(groups)
    } else {
        match factors(groups) {
            Some((a, b)) => Some(Instruction::Mul(a, b)),
            None => None,
        }
    }
}

/// The sum of all multiplications written in `memory`.
pub fn multiply_str(memory: &String) -> (sum: Option<u64>)
    ensures
        match run_matches(
            regex_matches(mul_pattern(), memory@),
            regex_matches(mul_pattern(), memory@).len(),
            false,
        ) {
            Some(after) => if after.sum <= u64::MAX {
                sum == Some(after.sum as u64)
            } else {
                sum.is_none()
            },
            None => sum.is_none(),
        },
{
    let matches = all_match_groups(r"mul\((\d{1,3}),(\d{1,3})\)", memory.as_str());
    run(&matches, false)
}

/// The sum of the multiplications written in `memory` that are not turned
/// off: `don't()` turns those after it off, `do()` turns them on again.
pub fn cond_multiply_str(memory: &String) -> (sum: Option<u64>)
    ensures
        match run_matches(
            regex_matches(switch_pattern(), memory@),
            regex_matches(switch_pattern(), memory@).len(),
            true,
        ) {
            Some(after) => if after.sum <= u64::MAX {
                sum == Some(after.sum as u64)
            } else {
                sum.is_none()
            },
            None => sum.is_none(),
        },
{
    let matches = all_match_groups(
        r"do\(\)|don't\(\)|mul\((\d{1,3}),(\d{1,3})\)",
        memory.as_str(),
    );
    run(&matches, true)
}

} // verus!

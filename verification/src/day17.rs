//! A three-register machine with eight opcodes, and the search for the
//! initial value of register A that makes a program print itself.

use vstd::prelude::*;
use vstd::arithmetic::power2::pow2;
use vstd::slice::slice_subrange;
use vstd::string::StringExecFns;
use crate::text::ascii;
use crate::text::bytes_of;
use crate::text::equal;
use crate::text::find;
use crate::text::first_occurrence;
use crate::text::begins_with;
use crate::text::lines;
use crate::text::lines_of;
use crate::text::literal;
use crate::text::numbers_in;
use crate::text::parse_isize;
use crate::text::parse_numbers;
use crate::text::push_signed_decimal;
use crate::text::rows;
use crate::text::signed_decimal;
use crate::text::signed_value;
use crate::text::split;
use crate::text::split_on;
use crate::text::starts_with;
use crate::text::text_bytes;

verus! {

/// Division of `a` by `b`, rounded toward zero.
pub open spec fn trunc_div(a: int, b: int) -> int
    recommends
        b > 0,
{
    if a >= 0 {
        a / b
    } else {
        -((-a) / b)
    }
}

/// `a / 2^k`, rounded toward zero, as the three division opcodes compute it.
pub open spec fn div_pow2(a: isize, k: isize) -> isize
    recommends
        k >= 0,
{
    trunc_div(a as int, pow2(k as nat) as int) as isize
}

proof fn lemma_pow2_word(k: usize)
    requires
        k < usize::BITS - 1,
    ensures
        (1usize << k) == pow2(k as nat),
        0 < pow2(k as nat) <= isize::MAX,
{
    vstd::layout::unsigned_int_max_values();
    vstd::layout::signed_int_min_max_values();
    vstd::arithmetic::power2::lemma_pow2_pos(k as nat);
    vstd::arithmetic::power2::lemma_pow2_strictly_increases(k as nat, (isize::BITS - 1) as nat);
    vstd::arithmetic::power2::lemma_pow2_strictly_increases(k as nat, (usize::BITS) as nat);
    vstd::bits::lemma_usize_shl_is_mul(1usize, k);
}

proof fn lemma_div_by_large_pow2(a: isize, k: isize)
    requires
        k >= isize::BITS - 1,
    ensures
        div_pow2(a, k) == (if a == isize::MIN && k == isize::BITS - 1 { -1isize } else { 0isize }),
{
    let top = (isize::BITS - 1) as nat;
    vstd::layout::signed_int_min_max_values();
    if k > top {
        vstd::arithmetic::power2::lemma_pow2_strictly_increases(top, k as nat);
    }
    let d = pow2(k as nat) as int;
    assert(d >= pow2(top));
    if a >= 0 {
        vstd::arithmetic::div_mod::lemma_basic_div(a as int, d);
    } else if a > isize::MIN || k > top {
        vstd::arithmetic::div_mod::lemma_basic_div(-(a as int), d);
    } else {
        vstd::arithmetic::div_mod::lemma_div_basics(d);
    }
}

/// Divides `a` by `2^k` with rounding toward zero, for every `k >= 0`.
fn shift_div(a: isize, k: isize) -> (r: isize)
    requires
        0 <= k,
    ensures
        r == div_pow2(a, k),
{
    let top: isize = (isize::BITS - 1) as isize;
    if k >= top {
        proof {
            lemma_div_by_large_pow2(a, k);
        }
        if a == isize::MIN && k == top {
            -1
        } else {
            0
        }
    } else {
        let shift: usize = k as usize;
        proof {
            lemma_pow2_word(shift);
        }
        let d: isize = (1usize << shift) as isize;
        a / d
    }
}


/// A program: opcodes and operands, interleaved.
#[derive(Debug)]
pub struct Program {
    instructions: Vec<isize>,
}

impl View for Program {
    type V = Seq<isize>;

    closed spec fn view(&self) -> Seq<isize> {
        self.instructions@
    }
}

/// An operand that names a literal 0..=3 or one of the registers (4, 5, 6).
pub struct Combo(pub isize);

/// An operand that stands for its own value.
pub struct Literal(pub isize);

/// An operand that the opcode does not read.
pub struct Ignored(pub isize);

/// A decoded instruction.
pub enum Op {
    Adv(Combo),
    Bxl(Literal),
    Bst(Combo),
    Jnz(Literal),
    Bxc(Ignored),
    Out(Combo),
    Bdv(Combo),
    Cdv(Combo),
}

/// The machine as the contracts see it.
pub struct MachineState {
    pub reg_a: isize,
    pub reg_b: isize,
    pub reg_c: isize,
    pub ins_ptr: isize,
    pub output: Seq<isize>,
}

/// The machine: three registers, an instruction pointer and what was printed.
#[derive(Debug)]
pub struct Proc {
    reg_a: isize,
    reg_b: isize,
    reg_c: isize,
    ins_ptr: isize,
    output: Vec<isize>,
}

impl View for Proc {
    type V = MachineState;

    closed spec fn view(&self) -> MachineState {
        MachineState {
            reg_a: self.reg_a,
            reg_b: self.reg_b,
            reg_c: self.reg_c,
            ins_ptr: self.ins_ptr,
            output: self.output@,
        }
    }
}

/// The state in which every run starts: pointer at 0, nothing printed.
pub open spec fn initial_state(reg_a: isize, reg_b: isize, reg_c: isize) -> MachineState {
    MachineState { reg_a, reg_b, reg_c, ins_ptr: 0, output: Seq::empty() }
}

/// An opcode and its operand both lie inside the program at `ins_ptr`.
pub open spec fn decodable(program: Seq<isize>, ins_ptr: isize) -> bool {
    &&& 0 <= ins_ptr
    &&& ins_ptr + 1 < program.len()
    &&& 0 <= program[ins_ptr as int] <= 7
}

/// The instruction at `ins_ptr`, if there is a whole one.
pub open spec fn decode(program: Seq<isize>, ins_ptr: isize) -> Option<Op> {
    if !decodable(program, ins_ptr) {
        None
    } else {
        let operand = program[ins_ptr + 1];
        let code = program[ins_ptr as int];
        Some(
            if code == 0 {
                Op::Adv(Combo(operand))
            } else if code == 1 {
                Op::Bxl(Literal(operand))
            } else if code == 2 {
                Op::Bst(Combo(operand))
            } else if code == 3 {
                Op::Jnz(Literal(operand))
            } else if code == 4 {
                Op::Bxc(Ignored(operand))
            } else if code == 5 {
                Op::Out(Combo(operand))
            } else if code == 6 {
                Op::Bdv(Combo(operand))
            } else {
                Op::Cdv(Combo(operand))
            },
        )
    }
}

/// What a combo operand stands for in state `s`.
pub open spec fn combo_value(s: MachineState, operand: isize) -> isize
    recommends
        0 <= operand <= 6,
{
    if operand == 4 {
        s.reg_a
    } else if operand == 5 {
        s.reg_b
    } else if operand == 6 {
        s.reg_c
    } else {
        operand
    }
}

/// The remainder that `%` gives on machine integers: it has the sign of `v`.
pub open spec fn rem8(v: isize) -> isize {
    if v >= 0 {
        (v % 8) as isize
    } else {
        (-((-v) % 8)) as isize
    }
}

/// The instruction cannot be carried out: its combo operand names no value,
/// or it divides by two to a negative power.
pub open spec fn op_faults(s: MachineState, op: Op) -> bool {
    match op {
        Op::Adv(Combo(k)) | Op::Bdv(Combo(k)) | Op::Cdv(Combo(k)) => {
            k < 0 || k > 6 || combo_value(s, k) < 0
        },
        Op::Bst(Combo(k)) | Op::Out(Combo(k)) => k < 0 || k > 6,
        _ => false,
    }
}

/// The registers and the output after `op`; the pointer is left alone.
pub open spec fn apply_op(s: MachineState, op: Op) -> MachineState
    recommends
        !op_faults(s, op),
{
    match op {
        Op::Adv(Combo(k)) => MachineState { reg_a: div_pow2(s.reg_a, combo_value(s, k)), ..s },
        Op::Bxl(Literal(v)) => MachineState { reg_b: s.reg_b ^ v, ..s },
        Op::Bst(Combo(k)) => MachineState { reg_b: rem8(combo_value(s, k)), ..s },
        Op::Jnz(_) => s,
        Op::Bxc(_) => MachineState { reg_b: s.reg_b ^ s.reg_c, ..s },
        Op::Out(Combo(k)) => MachineState { output: s.output.push(rem8(combo_value(s, k))), ..s },
        Op::Bdv(Combo(k)) => MachineState { reg_b: div_pow2(s.reg_a, combo_value(s, k)), ..s },
        Op::Cdv(Combo(k)) => MachineState { reg_c: div_pow2(s.reg_a, combo_value(s, k)), ..s },
    }
}

/// Where the pointer goes after `op`: to the literal target of a jump that is
/// taken, else two further.
pub open spec fn next_ins_ptr(s: MachineState, op: Op) -> isize {
    match op {
        Op::Jnz(Literal(target)) if s.reg_a != 0 => target,
        _ => (s.ins_ptr + 2) as isize,
    }
}

/// Where a machine stands with respect to a program.
#[derive(Debug, Clone, Copy, PartialEq, Eq, Structural)]
pub enum Status {
    /// A whole instruction lies under the pointer and can be carried out.
    Running,
    /// No whole instruction lies under the pointer.
    Halted,
    /// The instruction under the pointer cannot be carried out.
    Faulted,
}

pub open spec fn status(s: MachineState, program: Seq<isize>) -> Status {
    match decode(program, s.ins_ptr) {
        None => Status::Halted,
        Some(op) => if op_faults(s, op) {
            Status::Faulted
        } else {
            Status::Running
        },
    }
}

/// One transition of a running machine.
pub open spec fn next_state(s: MachineState, program: Seq<isize>) -> MachineState
    recommends
        status(s, program) == Status::Running,
{
    let op = decode(program, s.ins_ptr).unwrap();
    MachineState { ins_ptr: next_ins_ptr(s, op), ..apply_op(s, op) }
}

/// The state after at most `n` transitions; a machine that is not running
/// stays as it is.
pub open spec fn run(s: MachineState, program: Seq<isize>, n: nat) -> MachineState
    decreases n,
{
    if n == 0 || status(s, program) != Status::Running {
        s
    } else {
        run(next_state(s, program), program, (n - 1) as nat)
    }
}

/// Some number of transitions brings the machine to a halt.
pub open spec fn halts(s: MachineState, program: Seq<isize>) -> bool {
    exists|n: nat| status(#[trigger] run(s, program, n), program) == Status::Halted
}

/// The state in which the machine halts.
pub open spec fn halting_state(s: MachineState, program: Seq<isize>) -> MachineState
    recommends
        halts(s, program),
{
    run(s, program, choose|n: nat| status(#[trigger] run(s, program, n), program) == Status::Halted)
}


/// A machine that is not running stays where it is, however long it is run.
pub proof fn lemma_run_stays(s: MachineState, program: Seq<isize>, n: nat)
    requires
        status(s, program) != Status::Running,
    ensures
        run(s, program, n) == s,
{
}

/// Running `n` transitions and then `m` more is running `n + m`.
pub proof fn lemma_run_split(s: MachineState, program: Seq<isize>, n: nat, m: nat)
    ensures
        run(run(s, program, n), program, m) == run(s, program, n + m),
    decreases n,
{
    if n == 0 {
    } else if status(s, program) != Status::Running {
        lemma_run_stays(s, program, m);
        lemma_run_stays(s, program, n + m);
    } else {
        lemma_run_split(next_state(s, program), program, (n - 1) as nat, m);
    }
}

/// A run has one end: whatever number of transitions brings the machine to a
/// state that is not running, it is the same state.
pub proof fn lemma_run_end_unique(s: MachineState, program: Seq<isize>, n: nat, m: nat)
    requires
        status(run(s, program, n), program) != Status::Running,
        status(run(s, program, m), program) != Status::Running,
    ensures
        run(s, program, n) == run(s, program, m),
{
    if n <= m {
        lemma_run_split(s, program, n, (m - n) as nat);
        lemma_run_stays(run(s, program, n), program, (m - n) as nat);
    } else {
        lemma_run_split(s, program, m, (n - m) as nat);
        lemma_run_stays(run(s, program, m), program, (n - m) as nat);
    }
}

/// If `n` transitions bring the machine to a halt, the state then reached is
/// the halting state.
pub proof fn lemma_halting_state(s: MachineState, program: Seq<isize>, n: nat)
    requires
        status(run(s, program, n), program) == Status::Halted,
    ensures
        halts(s, program),
        halting_state(s, program) == run(s, program, n),
        status(halting_state(s, program), program) == Status::Halted,
{
    let m = choose|m: nat| status(#[trigger] run(s, program, m), program) == Status::Halted;
    lemma_run_end_unique(s, program, n, m);
}

pub fn to_u(i: isize) -> (u: usize)
    requires
        i >= 0,
    ensures
        u == i,
{
    i as usize
}

pub fn to_i(u: usize) -> (i: isize)
    requires
        u <= isize::MAX,
    ensures
        i == u,
{
    u as isize
}

impl Program {
    /// Every position in a program, and the one behind it, is a machine integer.
    #[verifier::type_invariant]
    spec fn addressable(self) -> bool {
        self.instructions.len() < isize::MAX
    }

    /// The program made of `instructions`.
    pub fn new(instructions: Vec<isize>) -> (program: Program)
        requires
            instructions.len() < isize::MAX,
        ensures
            program@ == instructions@,
    {
        Program { instructions }
    }

    pub fn len(&self) -> (n: usize)
        ensures
            n == self@.len(),
            n < isize::MAX,
    {
        proof {
            use_type_invariant(self);
        }
        self.instructions.len()
    }

    pub fn instructions(&self) -> (instructions: &Vec<isize>)
        ensures
            instructions@ == self@,
    {
        &self.instructions
    }
}

impl Clone for Program {
    fn clone(&self) -> (copy: Self)
        ensures
            copy@ == self@,
    {
        proof {
            use_type_invariant(self);
        }
        Program { instructions: self.instructions.clone() }
    }
}

impl Clone for Proc {
    fn clone(&self) -> (copy: Self)
        ensures
            copy@ == self@,
    {
        Proc {
            reg_a: self.reg_a,
            reg_b: self.reg_b,
            reg_c: self.reg_c,
            ins_ptr: self.ins_ptr,
            output: self.output.clone(),
        }
    }
}

impl Proc {
    pub fn new(reg_a: isize, reg_b: isize, reg_c: isize) -> (proc: Proc)
        ensures
            proc@ == initial_state(reg_a, reg_b, reg_c),
    {
        Proc { reg_a, reg_b, reg_c, ins_ptr: 0, output: Vec::new() }
    }

    pub fn reg_a(&self) -> (v: isize)
        ensures
            v == self@.reg_a,
    {
        self.reg_a
    }

    pub fn reg_b(&self) -> (v: isize)
        ensures
            v == self@.reg_b,
    {
        self.reg_b
    }

    pub fn reg_c(&self) -> (v: isize)
        ensures
            v == self@.reg_c,
    {
        self.reg_c
    }

    pub fn ins_ptr(&self) -> (v: isize)
        ensures
            v == self@.ins_ptr,
    {
        self.ins_ptr
    }

    pub fn output(&self) -> (v: &Vec<isize>)
        ensures
            v@ == self@.output,
    {
        &self.output
    }

    pub fn _valid_op(&self, ins_ptr: isize, program: &Program) -> (valid: bool)
        ensures
            valid == decodable(program@, ins_ptr),
    {
        if ins_ptr < 0 {
            return false;
        }
        let at: usize = to_u(ins_ptr);
        if at >= program.len() {
            return false;
        }
        let code: isize = program.instructions[at];
        if code < 0 || code > 7 {
            return false;
        }
        at + 1 < program.instructions.len()
    }

    pub fn resolve_combo(&self, operand: &Combo) -> (value: isize)
        requires
            0 <= operand.0 <= 6,
        ensures
            value == combo_value(self@, operand.0),
    {
        if operand.0 == 4 {
            self.reg_a
        } else if operand.0 == 5 {
            self.reg_b
        } else if operand.0 == 6 {
            self.reg_c
        } else {
            operand.0
        }
    }

    pub fn resolve_literal(&self, operand: &Literal) -> (value: isize)
        ensures
            value == operand.0,
    {
        operand.0
    }

    pub fn op(&self, ins_ptr: isize, program: &Program) -> (op: Option<Op>)
        ensures
            op == decode(program@, ins_ptr),
    {
        if !self._valid_op(ins_ptr, program) {
            return None;
        }
        let at: usize = to_u(ins_ptr);
        let op_code: isize = program.instructions[at];
        let operand: isize = program.instructions[at + 1];
        if op_code == 0 {
            Some(Op::Adv(Combo(operand)))
        } else if op_code == 1 {
            Some(Op::Bxl(Literal(operand)))
        } else if op_code == 2 {
            Some(Op::Bst(Combo(operand)))
        } else if op_code == 3 {
            Some(Op::Jnz(Literal(operand)))
        } else if op_code == 4 {
            Some(Op::Bxc(Ignored(operand)))
        } else if op_code == 5 {
            Some(Op::Out(Combo(operand)))
        } else if op_code == 6 {
            Some(Op::Bdv(Combo(operand)))
        } else {
            Some(Op::Cdv(Combo(operand)))
        }
    }

    /// Whether `op` could be carried out in this state.
    fn can_apply(&self, op: &Op) -> (ok: bool)
        ensures
            ok == !op_faults(self@, *op),
    {
        match op {
            Op::Adv(combo) | Op::Bdv(combo) | Op::Cdv(combo) => {
                0 <= combo.0 && combo.0 <= 6 && self.resolve_combo(combo) >= 0
            },
            Op::Bst(combo) | Op::Out(combo) => 0 <= combo.0 && combo.0 <= 6,
            _ => true,
        }
    }

    /// Where the machine stands: running, halted, or before an instruction
    /// that cannot be carried out.
    pub fn status(&self, program: &Program) -> (st: Status)
        ensures
            st == status(self@, program@),
    {
        match self.op(self.ins_ptr, program) {
            None => Status::Halted,
            Some(op) => if self.can_apply(&op) {
                Status::Running
            } else {
                Status::Faulted
            },
        }
    }

    /// Carries out the instruction under the pointer on the registers and the
    /// output, and returns where the pointer should go; the pointer itself is
    /// left alone. Returns `None`, and changes nothing, when the machine has
    /// halted.
    pub fn step(&mut self, program: &Program) -> (next: Option<isize>)
        requires
            status(old(self)@, program@) != Status::Faulted,
        ensures
            match decode(program@, old(self)@.ins_ptr) {
                None => next.is_none() && final(self)@ == old(self)@,
                Some(op) => next == Some(next_ins_ptr(old(self)@, op)) && final(self)@ == apply_op(
                    old(self)@,
                    op,
                ),
            },
    {
        let decoded = self.op(self.ins_ptr, program);
        proof {
            use_type_invariant(program);
        }
        match decoded {
            Some(op) => {
                match op {
                    Op::Adv(combo) => {
                        let operand = self.resolve_combo(&combo);
                        self.reg_a = shift_div(self.reg_a, operand);
                        Some(self.ins_ptr + 2)
                    },
                    Op::Bxl(lit) => {
                        let operand = self.resolve_literal(&lit);
                        self.reg_b = self.reg_b ^ operand;
                        Some(self.ins_ptr + 2)
                    },
                    Op::Bst(combo) => {
                        let operand = self.resolve_combo(&combo);
                        self.reg_b = operand % 8;
                        Some(self.ins_ptr + 2)
                    },
                    Op::Jnz(lit) => {
                        if self.reg_a == 0 {
                            Some(self.ins_ptr + 2)
                        } else {
                            Some(self.resolve_literal(&lit))
                        }
                    },
                    Op::Bxc(_) => {
                        self.reg_b = self.reg_b ^ self.reg_c;
                        Some(self.ins_ptr + 2)
                    },
                    Op::Out(combo) => {
                        let operand = self.resolve_combo(&combo);
                        self.output.push(operand % 8);
                        Some(self.ins_ptr + 2)
                    },
                    Op::Bdv(combo) => {
                        let operand = self.resolve_combo(&combo);
                        self.reg_b = shift_div(self.reg_a, operand);
                        Some(self.ins_ptr + 2)
                    },
                    Op::Cdv(combo) => {
                        let operand = self.resolve_combo(&combo);
                        self.reg_c = shift_div(self.reg_a, operand);
                        Some(self.ins_ptr + 2)
                    },
                }
            },
            None => None,
        }
    }

    /// Runs the machine until it halts and returns everything it printed.
    pub fn execute(&mut self, program: &Program) -> (output: Vec<isize>)
        requires
            halts(old(self)@, program@),
        ensures
            final(self)@ == halting_state(old(self)@, program@),
            status(final(self)@, program@) == Status::Halted,
            output@ == final(self)@.output,
    {
        let ghost mut fuel: nat = choose|n: nat|
            status(#[trigger] run(old(self)@, program@, n), program@) == Status::Halted;
        proof {
            lemma_halting_state(old(self)@, program@, fuel);
        }
        loop
            invariant
                status(run(self@, program@, fuel), program@) == Status::Halted,
                run(self@, program@, fuel) == halting_state(old(self)@, program@),
            ensures
                self@ == halting_state(old(self)@, program@),
                status(self@, program@) == Status::Halted,
            decreases fuel,
        {
            match self.step(program) {
                Some(next_ins_ptr) => {
                    self.ins_ptr = next_ins_ptr;
                    proof {
                        fuel = (fuel - 1) as nat;
                    }
                },
                None => break,
            }
        }
        self.output.clone()
    }

    /// Runs the machine for at most `max_steps` transitions and says where it
    /// then stands. It stops early at a halt and before an instruction that
    /// cannot be carried out.
    pub fn execute_within(&mut self, program: &Program, max_steps: usize) -> (st: Status)
        ensures
            final(self)@ == run(old(self)@, program@, max_steps as nat),
            st == status(final(self)@, program@),
    {
        let mut left: usize = max_steps;
        let mut st = self.status(program);
        while left > 0 && st == Status::Running
            invariant
                st == status(self@, program@),
                run(self@, program@, left as nat) == run(old(self)@, program@, max_steps as nat),
            decreases left,
        {
            match self.step(program) {
                Some(next_ins_ptr) => {
                    self.ins_ptr = next_ins_ptr;
                },
                None => {},
            }
            left = left - 1;
            st = self.status(program);
        }
        st
    }

    /// One transition: `None` while the machine runs, the output once it has
    /// halted.
    pub fn execute_step(&mut self, program: &Program) -> (done: Option<Vec<isize>>)
        requires
            status(old(self)@, program@) != Status::Faulted,
        ensures
            match done {
                None => status(old(self)@, program@) == Status::Running && final(self)@
                    == next_state(old(self)@, program@),
                Some(output) => status(old(self)@, program@) == Status::Halted && final(self)@
                    == old(self)@ && output@ == old(self)@.output,
            },
    {
        match self.step(program) {
            Some(next_ins_ptr) => {
                self.ins_ptr = next_ins_ptr;
                None
            },
            None => Some(self.output.clone()),
        }
    }
}


/// A program that is one OUT instruction with a literal operand prints that
/// operand once and halts, whatever the registers hold.
pub proof fn lemma_single_out_prints_operand(
    reg_a: isize,
    reg_b: isize,
    reg_c: isize,
    operand: isize,
)
    requires
        0 <= operand <= 3,
    ensures
        halts(initial_state(reg_a, reg_b, reg_c), seq![5isize, operand]),
        halting_state(initial_state(reg_a, reg_b, reg_c), seq![5isize, operand]).output
            == seq![rem8(operand)],
        rem8(operand) == operand,
{
    let program = seq![5isize, operand];
    let start = initial_state(reg_a, reg_b, reg_c);
    let after = next_state(start, program);
    assert(decode(program, 0) == Some(Op::Out(Combo(operand))));
    assert(status(start, program) == Status::Running);
    assert(after.ins_ptr == 2);
    assert(status(after, program) == Status::Halted);
    assert(run(start, program, 1) == after) by {
        reveal_with_fuel(run, 2);
    }
    lemma_halting_state(start, program, 1);
    assert(after.output =~= seq![rem8(operand)]);
}

/// What the search makes of one candidate for register A.
#[derive(Debug, Clone, Copy, PartialEq, Eq, Structural)]
pub enum Trial {
    /// The machine halted and had printed the program itself.
    Match,
    /// The first outputs are the end of the program: worth another digit.
    Extend,
    /// Neither.
    Discard,
}

/// The setting of a search: the machine that every trial starts from (but
/// for register A), the program, and the number of transitions granted to
/// each trial.
pub struct Setting {
    pub start: MachineState,
    pub program: Seq<isize>,
    pub max_steps: nat,
}

/// The state that a trial of `reg_a` reaches.
pub open spec fn trial_state(setting: Setting, reg_a: isize) -> MachineState {
    run(MachineState { reg_a, ..setting.start }, setting.program, setting.max_steps)
}

/// A machine in state `s` has halted and has printed `program`.
pub open spec fn printed_itself(s: MachineState, program: Seq<isize>) -> bool {
    status(s, program) == Status::Halted && s.output == program
}

/// The first `depth + 1` outputs of `s` are the last `depth + 1` entries of
/// `program`.
pub open spec fn printed_tail(s: MachineState, program: Seq<isize>, depth: nat) -> bool {
    &&& depth + 1 <= program.len()
    &&& depth + 1 <= s.output.len()
    &&& s.output.take(depth + 1 as int) == program.skip(program.len() - (depth + 1))
}

/// How the search judges the state `s` that a candidate reached at `depth`.
pub open spec fn judge(s: MachineState, program: Seq<isize>, depth: nat) -> Trial {
    if printed_itself(s, program) {
        Trial::Match
    } else if status(s, program) != Status::Faulted && printed_tail(s, program, depth) {
        Trial::Extend
    } else {
        Trial::Discard
    }
}

/// The eight values that add one base-8 digit to `partial`; none where they
/// would not all be machine integers.
pub open spec fn extensions(partial: isize) -> Seq<isize> {
    if 0 <= partial && partial * 8 + 7 <= isize::MAX {
        Seq::new(8, |digit: int| (partial * 8 + digit) as isize)
    } else {
        Seq::empty()
    }
}

/// The candidates that a frontier gives rise to, in order.
pub open spec fn candidates(frontier: Seq<isize>) -> Seq<isize>
    decreases frontier.len(),
{
    if frontier.len() == 0 {
        Seq::empty()
    } else {
        candidates(frontier.drop_last()) + extensions(frontier.last())
    }
}

pub open spec fn verdict(setting: Setting, depth: nat, reg_a: isize) -> Trial {
    judge(trial_state(setting, reg_a), setting.program, depth)
}

/// The candidates worth another digit at `depth`.
pub open spec fn extends_at(setting: Setting, depth: nat) -> spec_fn(isize) -> bool {
    |a: isize| verdict(setting, depth, a) == Trial::Extend
}

/// The candidates that make the machine print the program.
pub open spec fn matches(setting: Setting, depth: nat) -> spec_fn(isize) -> bool {
    |a: isize| verdict(setting, depth, a) == Trial::Match
}

/// The frontier at `depth`: the partial values whose trials were worth
/// another digit at every depth before.
pub open spec fn frontier_at(setting: Setting, depth: nat) -> Seq<isize>
    decreases depth,
{
    if depth == 0 {
        seq![0isize]
    } else {
        let before = (depth - 1) as nat;
        candidates(frontier_at(setting, before)).filter(extends_at(setting, before))
    }
}

/// The candidates at `depth` that make the machine print the program.
pub open spec fn matches_at(setting: Setting, depth: nat) -> Seq<isize> {
    candidates(frontier_at(setting, depth)).filter(matches(setting, depth))
}

/// All such candidates at depths `0..=depth`.
pub open spec fn matches_upto(setting: Setting, depth: nat) -> Seq<isize>
    decreases depth,
{
    if depth == 0 {
        matches_at(setting, 0)
    } else {
        matches_upto(setting, (depth - 1) as nat) + matches_at(setting, depth)
    }
}

/// The deepest layer of the search: one digit for each entry of the program.
pub open spec fn last_depth(program: Seq<isize>) -> nat {
    if program.len() == 0 {
        0
    } else {
        (program.len() - 1) as nat
    }
}


/// The matches found before layer `depth` was tried.
pub open spec fn matches_before(setting: Setting, depth: nat) -> Seq<isize> {
    if depth == 0 {
        Seq::empty()
    } else {
        matches_upto(setting, (depth - 1) as nat)
    }
}

/// How a search ended.
#[derive(Debug, Clone, Copy, PartialEq, Eq, Structural)]
pub enum SearchEnd {
    /// The least value of register A, among the candidates tried, with which
    /// the machine prints the program.
    Found(isize),
    /// No candidate made the machine print the program, and none of layer
    /// `depth` was worth another digit, so that the layers behind it were
    /// never tried. This does not show that no value prints the program.
    Exhausted { depth: usize },
    /// Every layer was tried, and no candidate made the machine print the
    /// program.
    NoMatch,
}

/// What the search returns in `setting`: the least of all matches, with which
/// the machine halts having printed the program; or, where there is no match,
/// the first layer that left nothing for the next one, if there is one
/// before the last.
pub open spec fn is_search_end(setting: Setting, end: SearchEnd) -> bool {
    let deepest = last_depth(setting.program);
    let all = matches_upto(setting, deepest);
    match end {
        SearchEnd::Found(reg_a) => {
            &&& all.contains(reg_a)
            &&& forall|i: int| 0 <= i < all.len() ==> reg_a <= all[i]
            &&& halts(MachineState { reg_a, ..setting.start }, setting.program)
            &&& halting_state(MachineState { reg_a, ..setting.start }, setting.program).output
                == setting.program
        },
        SearchEnd::Exhausted { depth } => {
            &&& all.len() == 0
            &&& depth < deepest
            &&& forall|d: nat| d <= depth ==> frontier_at(setting, d).len() > 0
            &&& frontier_at(setting, (depth + 1) as nat).len() == 0
        },
        SearchEnd::NoMatch => {
            &&& all.len() == 0
            &&& forall|d: nat| d <= deepest ==> frontier_at(setting, d).len() > 0
        },
    }
}

/// Once a layer is empty, every later layer is empty and has no match.
pub proof fn lemma_empty_frontier_stays(setting: Setting, depth: nat, later: nat)
    requires
        frontier_at(setting, depth).len() == 0,
        depth <= later,
    ensures
        frontier_at(setting, later).len() == 0,
        matches_at(setting, later).len() == 0,
        matches_upto(setting, later) == matches_upto(setting, depth),
    decreases later,
{
    if later > depth {
        lemma_empty_frontier_stays(setting, depth, (later - 1) as nat);
        assert(matches_upto(setting, later) =~= matches_upto(setting, depth));
    }
}

/// With a value that the search counts as a match, the machine halts and
/// has printed exactly the program.
pub proof fn lemma_match_prints_program(setting: Setting, depth: nat, reg_a: isize)
    requires
        matches_upto(setting, depth).contains(reg_a),
    ensures
        halts(MachineState { reg_a, ..setting.start }, setting.program),
        halting_state(MachineState { reg_a, ..setting.start }, setting.program).output
            == setting.program,
    decreases depth,
{
    broadcast use vstd::seq_lib::group_seq_properties;

    if depth > 0 && matches_upto(setting, (depth - 1) as nat).contains(reg_a) {
        lemma_match_prints_program(setting, (depth - 1) as nat, reg_a);
    } else {
        assert(matches_at(setting, depth).contains(reg_a));
        let found = matches_at(setting, depth);
        let at = choose|i: int| 0 <= i < found.len() && found[i] == reg_a;
        candidates(frontier_at(setting, depth)).lemma_filter_pred(matches(setting, depth), at);
        lemma_halting_state(
            MachineState { reg_a, ..setting.start },
            setting.program,
            setting.max_steps,
        );
    }
}

fn same_values(left: &Vec<isize>, right: &Vec<isize>) -> (same: bool)
    ensures
        same == (left@ == right@),
{
    if left.len() != right.len() {
        return false;
    }
    let mut i: usize = 0;
    while i < left.len()
        invariant
            i <= left.len(),
            left.len() == right.len(),
            left@.take(i as int) == right@.take(i as int),
        decreases left.len() - i,
    {
        if left[i] != right[i] {
            return false;
        }
        assert(left@.take(i + 1) =~= left@.take(i as int).push(left@[i as int]));
        assert(right@.take(i + 1) =~= right@.take(i as int).push(right@[i as int]));
        i += 1;
    }
    assert(left@ =~= left@.take(i as int));
    assert(right@ =~= right@.take(i as int));
    true
}

/// Whether the first `count` entries of `output` are the last `count` of `program`.
fn tail_printed(output: &Vec<isize>, program: &Vec<isize>, count: usize) -> (same: bool)
    requires
        count <= output.len(),
        count <= program.len(),
    ensures
        same == (output@.take(count as int) == program@.skip(program.len() - count)),
{
    let offset: usize = program.len() - count;
    let ghost tail = program@.skip(offset as int);
    let ghost head = output@.take(count as int);
    let mut i: usize = 0;
    while i < count
        invariant
            i <= count,
            count <= output.len(),
            offset + count == program.len(),
            tail == program@.skip(offset as int),
            head == output@.take(count as int),
            head.take(i as int) == tail.take(i as int),
        decreases count - i,
    {
        if output[i] != program[offset + i] {
            assert(head[i as int] != tail[i as int]);
            return false;
        }
        assert(head.take(i + 1) =~= head.take(i as int).push(head[i as int]));
        assert(tail.take(i + 1) =~= tail.take(i as int).push(tail[i as int]));
        i += 1;
    }
    assert(head =~= head.take(i as int));
    assert(tail =~= tail.take(i as int));
    true
}

/// Tries one candidate for register A at `depth`.
pub fn try_candidate(
    init: &Proc,
    program: &Program,
    max_steps: usize,
    depth: usize,
    reg_a: isize,
) -> (trial: Trial)
    ensures
        trial == verdict(
            Setting { start: init@, program: program@, max_steps: max_steps as nat },
            depth as nat,
            reg_a,
        ),
{
    let mut proc = init.clone();
    proc.reg_a = reg_a;
    let st = proc.execute_within(program, max_steps);
    if st == Status::Halted && same_values(&proc.output, &program.instructions) {
        Trial::Match
    } else if st != Status::Faulted && depth < program.len() && depth < proc.output.len()
        && tail_printed(&proc.output, &program.instructions, depth + 1) {
        Trial::Extend
    } else {
        Trial::Discard
    }
}

/// Tries every candidate that `frontier` gives rise to: the matches are
/// added to `found`, and the candidates worth another digit are returned.
fn try_layer(
    init: &Proc,
    program: &Program,
    max_steps: usize,
    depth: usize,
    frontier: &Vec<isize>,
    found: &mut Vec<isize>,
) -> (next: Vec<isize>)
    ensures
        next@ == candidates(frontier@).filter(
            extends_at(
                Setting { start: init@, program: program@, max_steps: max_steps as nat },
                depth as nat,
            ),
        ),
        final(found)@ == old(found)@ + candidates(frontier@).filter(
            matches(
                Setting { start: init@, program: program@, max_steps: max_steps as nat },
                depth as nat,
            ),
        ),
{
    let ghost setting = Setting { start: init@, program: program@, max_steps: max_steps as nat };
    let ghost ext = extends_at(setting, depth as nat);
    let ghost mat = matches(setting, depth as nat);
    let mut next: Vec<isize> = Vec::new();
    let mut i: usize = 0;
    assert(candidates(frontier@.take(0)) =~= Seq::<isize>::empty());
    assert(found@ =~= old(found)@ + Seq::<isize>::empty().filter(mat));
    while i < frontier.len()
        invariant
            i <= frontier.len(),
            setting == (Setting { start: init@, program: program@, max_steps: max_steps as nat }),
            ext == extends_at(setting, depth as nat),
            mat == matches(setting, depth as nat),
            next@ == candidates(frontier@.take(i as int)).filter(ext),
            found@ == old(found)@ + candidates(frontier@.take(i as int)).filter(mat),
        decreases frontier.len() - i,
    {
        let partial: isize = frontier[i];
        let ghost done = candidates(frontier@.take(i as int));
        let ghost more = extensions(partial);
        if 0 <= partial && partial <= (isize::MAX - 7) / 8 {
            let mut digit: isize = 0;
            assert(more.take(0) =~= Seq::<isize>::empty());
            assert(next@ =~= done.filter(ext) + more.take(0).filter(ext));
            assert(found@ =~= old(found)@ + done.filter(mat) + more.take(0).filter(mat));
            while digit < 8
                invariant
                    0 <= digit <= 8,
                    0 <= partial,
                    partial * 8 + 7 <= isize::MAX,
                    more == extensions(partial),
                    setting == (Setting {
                        start: init@,
                        program: program@,
                        max_steps: max_steps as nat,
                    }),
                    ext == extends_at(setting, depth as nat),
                    mat == matches(setting, depth as nat),
                    next@ == done.filter(ext) + more.take(digit as int).filter(ext),
                    found@ == old(found)@ + done.filter(mat) + more.take(digit as int).filter(mat),
                decreases 8 - digit,
            {
                let reg_a: isize = partial * 8 + digit;
                let ghost tried = more.take(digit as int);
                proof {
                    assert(more.take(digit + 1) =~= tried.push(reg_a));
                    tried.lemma_filter_push(reg_a, ext);
                    tried.lemma_filter_push(reg_a, mat);
                }
                match try_candidate(init, program, max_steps, depth, reg_a) {
                    Trial::Match => {
                        found.push(reg_a);
                        assert(found@ =~= old(found)@ + done.filter(mat) + tried.push(reg_a).filter(
                            mat,
                        ));
                    },
                    Trial::Extend => {
                        next.push(reg_a);
                        assert(next@ =~= done.filter(ext) + tried.push(reg_a).filter(ext));
                    },
                    Trial::Discard => {},
                }
                digit += 1;
            }
            assert(more.take(8) =~= more);
        } else {
            assert(more =~= Seq::<isize>::empty());
        }
        proof {
            let upto = frontier@.take(i + 1);
            assert(upto.drop_last() =~= frontier@.take(i as int));
            assert(candidates(upto) == done + more);
            Seq::filter_distributes_over_add(done, more, ext);
            Seq::filter_distributes_over_add(done, more, mat);
            assert(found@ =~= old(found)@ + (done + more).filter(mat));
        }
        i += 1;
    }
    assert(frontier@.take(i as int) =~= frontier@);
    next
}

/// The least entry of `values`.
fn least(values: &Vec<isize>) -> (low: isize)
    requires
        values.len() > 0,
    ensures
        values@.contains(low),
        forall|i: int| 0 <= i < values.len() ==> low <= values[i],
{
    let mut low: isize = values[0];
    let mut i: usize = 1;
    while i < values.len()
        invariant
            1 <= i <= values.len(),
            values@.contains(low),
            forall|j: int| 0 <= j < i ==> low <= values[j],
        decreases values.len() - i,
    {
        if values[i] < low {
            low = values[i];
        }
        i += 1;
    }
    low
}

/// Searches, one base-8 digit at a time, for the least value of register A
/// with which the machine prints `program`.
///
/// Layer `depth` tries eight values for each value kept by the layer before
/// it; a value is kept when the first `depth + 1` outputs of its trial are the
/// last `depth + 1` entries of the program. Programs that do not print one
/// value per base-8 digit of A can lose every candidate on the way, which
/// is reported as `Exhausted` and decides nothing about other values.
pub fn find_quine(init: &Proc, program: &Program, max_steps: usize) -> (end: SearchEnd)
    ensures
        is_search_end(
            Setting { start: init@, program: program@, max_steps: max_steps as nat },
            end,
        ),
{
    let ghost setting = Setting { start: init@, program: program@, max_steps: max_steps as nat };
    let last: usize = if program.len() == 0 {
        0
    } else {
        program.len() - 1
    };
    let mut frontier: Vec<isize> = Vec::new();
    frontier.push(0);
    let mut found: Vec<isize> = Vec::new();
    let mut depth: usize = 0;
    assert(frontier@ =~= seq![0isize]);
    loop
        invariant_except_break
            frontier@ == frontier_at(setting, depth as nat),
            found@ == matches_before(setting, depth as nat),
        invariant
            depth <= last,
            last == last_depth(program@),
            setting == (Setting { start: init@, program: program@, max_steps: max_steps as nat }),
            forall|d: nat| d <= depth ==> frontier_at(setting, d).len() > 0,
        ensures
            depth <= last,
            found@ == matches_upto(setting, last as nat),
            forall|d: nat| d <= depth ==> frontier_at(setting, d).len() > 0,
            depth < last ==> frontier_at(setting, (depth + 1) as nat).len() == 0,
        decreases last - depth,
    {
        let next = try_layer(init, program, max_steps, depth, &frontier, &mut found);
        assert(found@ =~= matches_upto(setting, depth as nat));
        assert(next@ == frontier_at(setting, (depth + 1) as nat));
        if depth == last {
            break;
        }
        if next.len() == 0 {
            proof {
                lemma_empty_frontier_stays(setting, (depth + 1) as nat, last as nat);
                lemma_empty_frontier_stays(setting, (depth + 1) as nat, (depth + 1) as nat);
                assert(matches_upto(setting, (depth + 1) as nat) =~= matches_upto(
                    setting,
                    depth as nat,
                ));
            }
            break;
        }
        frontier = next;
        depth += 1;
    }
    if found.len() == 0 {
        if depth < last {
            SearchEnd::Exhausted { depth }
        } else {
            SearchEnd::NoMatch
        }
    } else {
        let reg_a = least(&found);
        proof {
            lemma_match_prints_program(setting, last as nat, reg_a);
        }
        SearchEnd::Found(reg_a)
    }
}


/// The words that open the line of a program.
pub open spec fn program_tag() -> Seq<u8> {
    ascii("Program: "@)
}

/// The word by which a line of a register is known.
pub open spec fn register_word() -> Seq<u8> {
    ascii("Register"@)
}

/// What stands between a register's label and its value.
pub open spec fn register_sep() -> Seq<u8> {
    ascii(": "@)
}

/// The program that `lines` hold: the numbers, separated by commas, behind
/// `Program: ` on each line that begins so. `None` where one of them is no
/// number.
pub open spec fn program_in(lines: Seq<Seq<u8>>) -> Option<Seq<isize>>
    decreases lines.len(),
{
    if lines.len() == 0 {
        Some(Seq::empty())
    } else {
        let line = lines.last();
        match program_in(lines.drop_last()) {
            None => None,
            Some(before) => if begins_with(line, program_tag()) {
                match numbers_in(split_on(line.skip(program_tag().len() as int), 44)) {
                    Some(values) => Some(before + values),
                    None => None,
                }
            } else {
                Some(before)
            },
        }
    }
}

/// The three registers.
#[derive(Debug, Clone, Copy, PartialEq, Eq, Structural)]
pub struct Registers {
    pub reg_a: isize,
    pub reg_b: isize,
    pub reg_c: isize,
}

/// The registers after a line of the form `Register A: 729`. A label other
/// than those of the three registers sets nothing. `None` where the line has
/// no `: ` or no number behind it.
pub open spec fn register_line(regs: Registers, line: Seq<u8>) -> Option<Registers> {
    match first_occurrence(line, register_sep()) {
        None => None,
        Some(at) => match signed_value(line.skip(at + register_sep().len())) {
            Some(v) if isize::MIN <= v <= isize::MAX => {
                let label = line.take(at);
                Some(
                    if label == ascii("Register A"@) {
                        Registers { reg_a: v as isize, ..regs }
                    } else if label == ascii("Register B"@) {
                        Registers { reg_b: v as isize, ..regs }
                    } else if label == ascii("Register C"@) {
                        Registers { reg_c: v as isize, ..regs }
                    } else {
                        regs
                    },
                )
            },
            _ => None,
        },
    }
}

/// The registers that `lines` set; one that no line sets holds the greatest
/// machine integer.
pub open spec fn registers_in(lines: Seq<Seq<u8>>) -> Option<Registers>
    decreases lines.len(),
{
    if lines.len() == 0 {
        Some(Registers { reg_a: isize::MAX, reg_b: isize::MAX, reg_c: isize::MAX })
    } else {
        match registers_in(lines.drop_last()) {
            None => None,
            Some(regs) => if first_occurrence(lines.last(), register_word()).is_some() {
                register_line(regs, lines.last())
            } else {
                Some(regs)
            },
        }
    }
}

/// The program written in `text`, if it is well formed and short enough to
/// be addressed.
pub open spec fn program_text(text: Seq<char>) -> Option<Seq<isize>> {
    match program_in(lines_of(bytes_of(text))) {
        Some(program) if program.len() < isize::MAX => Some(program),
        _ => None,
    }
}

/// The machine that `text` describes, before its first transition.
pub open spec fn machine_text(text: Seq<char>) -> Option<MachineState> {
    match registers_in(lines_of(bytes_of(text))) {
        Some(regs) => Some(initial_state(regs.reg_a, regs.reg_b, regs.reg_c)),
        None => None,
    }
}

fn read_register_line(regs: Registers, line: &[u8]) -> (read: Option<Registers>)
    ensures
        read == register_line(regs, line@),
{
    proof {
        reveal_strlit(": ");
        reveal_strlit("Register A");
        reveal_strlit("Register B");
        reveal_strlit("Register C");
    }
    let sep = literal(": ");
    match find(line, sep) {
        None => None,
        Some(at) => {
            let end = line.len();
            let raw = slice_subrange(line, at + sep.len(), end);
            let label = slice_subrange(line, 0, at);
            match parse_isize(raw) {
                None => None,
                Some(v) => {
                    if equal(label, literal("Register A")) {
                        Some(Registers { reg_a: v, ..regs })
                    } else if equal(label, literal("Register B")) {
                        Some(Registers { reg_b: v, ..regs })
                    } else if equal(label, literal("Register C")) {
                        Some(Registers { reg_c: v, ..regs })
                    } else {
                        Some(regs)
                    }
                },
            }
        },
    }
}

fn read_registers(found: &Vec<Vec<u8>>) -> (read: Option<Registers>)
    ensures
        read == registers_in(rows(found@)),
{
    proof {
        reveal_strlit("Register");
    }
    let word = literal("Register");
    let mut regs = Registers { reg_a: isize::MAX, reg_b: isize::MAX, reg_c: isize::MAX };
    let mut ok = true;
    let mut i: usize = 0;
    assert(rows(found@).take(0) =~~= Seq::<Seq<u8>>::empty());
    while i < found.len()
        invariant
            i <= found.len(),
            word@ == register_word(),
            ok ==> registers_in(rows(found@).take(i as int)) == Some(regs),
            !ok ==> registers_in(rows(found@).take(i as int)).is_none(),
        decreases found.len() - i,
    {
        assert(rows(found@).take(i + 1).drop_last() =~~= rows(found@).take(i as int));
        assert(rows(found@).take(i + 1).last() == found[i as int]@);
        let line = found[i].as_slice();
        if ok && find(line, word).is_some() {
            match read_register_line(regs, line) {
                Some(set) => {
                    regs = set;
                },
                None => {
                    ok = false;
                },
            }
        }
        i += 1;
    }
    assert(rows(found@).take(i as int) =~~= rows(found@));
    if ok {
        Some(regs)
    } else {
        None
    }
}

fn read_program(found: &Vec<Vec<u8>>) -> (read: Option<Vec<isize>>)
    ensures
        match read {
            Some(values) => program_in(rows(found@)) == Some(values@),
            None => program_in(rows(found@)).is_none(),
        },
{
    proof {
        reveal_strlit("Program: ");
    }
    let tag = literal("Program: ");
    let mut instructions: Vec<isize> = Vec::new();
    let mut ok = true;
    let mut i: usize = 0;
    assert(rows(found@).take(0) =~~= Seq::<Seq<u8>>::empty());
    while i < found.len()
        invariant
            i <= found.len(),
            tag@ == program_tag(),
            ok ==> program_in(rows(found@).take(i as int)) == Some(instructions@),
            !ok ==> program_in(rows(found@).take(i as int)).is_none(),
        decreases found.len() - i,
    {
        assert(rows(found@).take(i + 1).drop_last() =~~= rows(found@).take(i as int));
        assert(rows(found@).take(i + 1).last() == found[i as int]@);
        let line = found[i].as_slice();
        if ok && starts_with(line, tag) {
            let rest = slice_subrange(line, tag.len(), line.len());
            assert(rest@ =~= line@.skip(tag@.len() as int));
            let fields = split(rest, 44);
            match parse_numbers(&fields) {
                Some(values) => {
                    instructions.extend_from_slice(values.as_slice());
                },
                None => {
                    ok = false;
                },
            }
        }
        i += 1;
    }
    assert(rows(found@).take(i as int) =~~= rows(found@));
    if ok {
        Some(instructions)
    } else {
        None
    }
}

impl Program {
    /// Reads the program out of `input`; `None` where it is not well formed.
    pub fn parse(input: &String) -> (parsed: Option<Program>)
        ensures
            match parsed {
                Some(program) => program_text(input@) == Some(program@),
                None => program_text(input@).is_none(),
            },
    {
        let found = lines(text_bytes(input));
        match read_program(&found) {
            Some(instructions) => if instructions.len() < isize::MAX as usize {
                Some(Program { instructions })
            } else {
                None
            },
            None => None,
        }
    }

    /// Reads the program out of well-formed `input`.
    pub fn from(input: &String) -> (program: Program)
        requires
            program_text(input@).is_some(),
        ensures
            Some(program@) == program_text(input@),
    {
        match Program::parse(input) {
            Some(program) => program,
            None => Program { instructions: Vec::new() },
        }
    }
}

impl Proc {
    /// Reads the registers out of `input`; `None` where a register's line is
    /// not well formed.
    pub fn parse(input: &String) -> (parsed: Option<Proc>)
        ensures
            match parsed {
                Some(proc) => machine_text(input@) == Some(proc@),
                None => machine_text(input@).is_none(),
            },
    {
        let found = lines(text_bytes(input));
        match read_registers(&found) {
            Some(regs) => Some(Proc::new(regs.reg_a, regs.reg_b, regs.reg_c)),
            None => None,
        }
    }

    /// Reads the registers out of well-formed `input`.
    pub fn from(input: &String) -> (proc: Proc)
        requires
            machine_text(input@).is_some(),
        ensures
            Some(proc@) == machine_text(input@),
    {
        match Proc::parse(input) {
            Some(proc) => proc,
            None => Proc::new(0, 0, 0),
        }
    }
}

/// `values` in decimal, with a comma between one and the next.
pub open spec fn joined(values: Seq<isize>) -> Seq<char>
    decreases values.len(),
{
    if values.len() == 0 {
        Seq::empty()
    } else if values.len() == 1 {
        signed_decimal(values[0] as int)
    } else {
        joined(values.drop_last()) + seq![','] + signed_decimal(values.last() as int)
    }
}

/// Writes `values` in decimal, with a comma between one and the next.
pub fn render_output(values: &Vec<isize>) -> (text: String)
    ensures
        text@ == joined(values@),
{
    let mut text = String::new();
    let mut i: usize = 0;
    assert(values@.take(0) =~= Seq::<isize>::empty());
    while i < values.len()
        invariant
            i <= values.len(),
            text@ == joined(values@.take(i as int)),
        decreases values.len() - i,
    {
        assert(values@.take(i + 1).drop_last() =~= values@.take(i as int));
        if i > 0 {
            proof {
                reveal_strlit(",");
            }
            text.append(",");
            assert(text@ =~= joined(values@.take(i as int)) + seq![',']);
        }
        push_signed_decimal(&mut text, values[i]);
        i += 1;
    }
    assert(values@.take(i as int) =~= values@);
    text
}

/// Why a puzzle text gave no answer.
#[derive(Debug, Clone, Copy, PartialEq, Eq, Structural)]
pub enum SolveError {
    /// The text is not that of a machine and a program.
    Malformed,
    /// The machine did not halt within the transitions granted.
    NotHalted,
    /// The search lost every candidate at layer `depth`, before the last.
    Exhausted { depth: usize },
    /// The search tried every layer and found no value.
    NoMatch,
}

/// What the machine described in `input` prints when it runs its program to
/// the end.
pub fn _solution1(input: &String) -> (text: String)
    requires
        machine_text(input@).is_some(),
        program_text(input@).is_some(),
        halts(machine_text(input@).unwrap(), program_text(input@).unwrap()),
    ensures
        text@ == joined(
            halting_state(machine_text(input@).unwrap(), program_text(input@).unwrap()).output,
        ),
{
    let mut proc = Proc::from(input);
    let prog = Program::from(input);
    let output = proc.execute(&prog);
    render_output(&output)
}

/// As `_solution1`, for any text and with a bound on the run: what the machine
/// prints if the text is well formed and the machine halts within `max_steps`
/// transitions.
pub fn solution1_within(input: &String, max_steps: usize) -> (answer: Result<String, SolveError>)
    ensures
        match answer {
            Ok(text) => {
                &&& machine_text(input@).is_some()
                &&& program_text(input@).is_some()
                &&& halts(machine_text(input@).unwrap(), program_text(input@).unwrap())
                &&& status(
                    run(
                        machine_text(input@).unwrap(),
                        program_text(input@).unwrap(),
                        max_steps as nat,
                    ),
                    program_text(input@).unwrap(),
                ) == Status::Halted
                &&& text@ == joined(
                    halting_state(
                        machine_text(input@).unwrap(),
                        program_text(input@).unwrap(),
                    ).output,
                )
            },
            Err(SolveError::Malformed) => machine_text(input@).is_none() || program_text(
                input@,
            ).is_none(),
            Err(SolveError::NotHalted) => {
                &&& machine_text(input@).is_some()
                &&& program_text(input@).is_some()
                &&& status(
                    run(
                        machine_text(input@).unwrap(),
                        program_text(input@).unwrap(),
                        max_steps as nat,
                    ),
                    program_text(input@).unwrap(),
                ) != Status::Halted
            },
            Err(SolveError::Exhausted { .. }) => false,
            Err(SolveError::NoMatch) => false,
        },
{
    let parsed = Proc::parse(input);
    let program = Program::parse(input);
    match (parsed, program) {
        (Some(mut proc), Some(prog)) => {
            let ghost start = proc@;
            match proc.execute_within(&prog, max_steps) {
                Status::Halted => {
                    proof {
                        lemma_halting_state(start, prog@, max_steps as nat);
                    }
                    Ok(render_output(&proc.output))
                },
                _ => Err(SolveError::NotHalted),
            }
        },
        _ => Err(SolveError::Malformed),
    }
}

/// The least value of register A, among those that the layered search
/// tries, with which the machine described in `input` prints its own program.
pub fn _solution2(input: &String, max_steps: usize) -> (answer: Result<isize, SolveError>)
    ensures
        match answer {
            Ok(reg_a) => {
                &&& machine_text(input@).is_some()
                &&& program_text(input@).is_some()
                &&& is_search_end(
                    Setting {
                        start: machine_text(input@).unwrap(),
                        program: program_text(input@).unwrap(),
                        max_steps: max_steps as nat,
                    },
                    SearchEnd::Found(reg_a),
                )
            },
            Err(SolveError::Malformed) => machine_text(input@).is_none() || program_text(
                input@,
            ).is_none(),
            Err(SolveError::Exhausted { depth }) => {
                &&& machine_text(input@).is_some()
                &&& program_text(input@).is_some()
                &&& is_search_end(
                    Setting {
                        start: machine_text(input@).unwrap(),
                        program: program_text(input@).unwrap(),
                        max_steps: max_steps as nat,
                    },
                    SearchEnd::Exhausted { depth },
                )
            },
            Err(SolveError::NoMatch) => {
                &&& machine_text(input@).is_some()
                &&& program_text(input@).is_some()
                &&& is_search_end(
                    Setting {
                        start: machine_text(input@).unwrap(),
                        program: program_text(input@).unwrap(),
                        max_steps: max_steps as nat,
                    },
                    SearchEnd::NoMatch,
                )
            },
            Err(SolveError::NotHalted) => false,
        },
{
    let parsed = Proc::parse(input);
    let program = Program::parse(input);
    match (parsed, program) {
        (Some(init), Some(prog)) => {
            match find_quine(&init, &prog, max_steps) {
                SearchEnd::Found(reg_a) => Ok(reg_a),
                SearchEnd::Exhausted { depth } => Err(SolveError::Exhausted { depth }),
                SearchEnd::NoMatch => Err(SolveError::NoMatch),
            }
        },
        _ => Err(SolveError::Malformed),
    }
}

} // verus!

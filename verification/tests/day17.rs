use advent::day17::{
    find_quine, try_candidate, Proc, Program, SearchEnd, SolveError, Status, Trial, _solution1,
    _solution2, render_output, solution1_within, to_i, to_u, Combo, Literal, Op,
};

const CASE1: &str = "Register A: 729\nRegister B: 0\nRegister C: 0\n\nProgram: 0,1,5,4,3,0\n";
const CASE2: &str = "Register A: 2024\nRegister B: 0\nRegister C: 0\n\nProgram: 0,3,5,4,3,0\n";

#[test]
fn test_example_day_17_1_1() {
    let input = String::from(CASE1);
    assert!(Proc::parse(&input).is_some());
    assert!(Program::parse(&input).is_some());
    let result = _solution1(&input);
    assert_eq!(result, String::from("4,6,3,5,6,3,5,2,1,0"))
}

#[test]
fn test_example_day_17_1_2() {
    let mut proc = Proc::new(0, 0, 9);
    let prog = Program::new(vec![2, 6]);
    let _result = proc.execute(&prog);
    assert_eq!(proc.reg_b(), 1);
}

#[test]
fn test_example_day_17_1_3() {
    let mut proc = Proc::new(10, 0, 0);
    let prog = Program::new(vec![5, 0, 5, 1, 5, 4]);
    let result = proc.execute(&prog);
    assert_eq!(result, vec![0, 1, 2]);
}

#[test]
fn test_example_day_17_1_4() {
    let mut proc = Proc::new(2024, 0, 0);
    let prog = Program::new(vec![0, 1, 5, 4, 3, 0]);
    let result = proc.execute(&prog);
    assert_eq!(result, vec![4, 2, 5, 6, 7, 7, 7, 7, 3, 1, 0]);
    assert_eq!(proc.reg_a(), 0);
}

#[test]
fn test_example_day_17_1_5() {
    let mut proc = Proc::new(0, 29, 0);
    let prog = Program::new(vec![1, 7]);
    let _result = proc.execute(&prog);
    assert_eq!(proc.reg_b(), 26);
}

#[test]
fn test_example_day_17_1_6() {
    let mut proc = Proc::new(0, 2024, 43690);
    let prog = Program::new(vec![4, 0]);
    let _result = proc.execute(&prog);
    assert_eq!(proc.reg_b(), 44354);
}

#[test]
fn test_example_day_17_2() {
    let input = String::from(CASE2);
    let result = _solution2(&input, 10_000);
    assert_eq!(result, Ok(117440));
}

#[test]
fn quine_value_reproduces_the_program() {
    let input = String::from(CASE2);
    let prog = Program::parse(&input).unwrap();
    let init = Proc::parse(&input).unwrap();
    let found = find_quine(&init, &prog, 10_000);
    assert_eq!(found, SearchEnd::Found(117440));
    let mut proc = Proc::new(117440, init.reg_b(), init.reg_c());
    assert_eq!(proc.execute_within(&prog, 10_000), Status::Halted);
    assert_eq!(proc.output(), prog.instructions());
    assert_eq!(proc.output(), &vec![0, 3, 5, 4, 3, 0]);
}

#[test]
fn execute_is_deterministic() {
    let prog = Program::new(vec![0, 1, 5, 4, 3, 0]);
    let mut first = Proc::new(729, 0, 0);
    let mut second = Proc::new(729, 0, 0);
    let a = first.execute(&prog);
    let b = second.execute(&prog);
    assert_eq!(a, b);
    assert_eq!(a, vec![4, 6, 3, 5, 6, 3, 5, 2, 1, 0]);
    assert_eq!(first.ins_ptr(), 6);
    assert_eq!(first.ins_ptr(), second.ins_ptr());
}

#[test]
fn single_out_with_literal_operand() {
    for operand in 0..4isize {
        for regs in [(0isize, 0isize, 0isize), (5, -3, 99), (isize::MAX, isize::MIN, 1)] {
            let mut proc = Proc::new(regs.0, regs.1, regs.2);
            let prog = Program::new(vec![5, operand]);
            assert_eq!(proc.execute(&prog), vec![operand % 8]);
            assert_eq!(proc.reg_a(), regs.0);
            assert_eq!(proc.reg_b(), regs.1);
            assert_eq!(proc.reg_c(), regs.2);
        }
    }
}

#[test]
fn division_opcodes_round_toward_zero() {
    let mut proc = Proc::new(-9, 0, 1);
    let prog = Program::new(vec![0, 6, 6, 1, 7, 2]);
    proc.execute(&prog);
    assert_eq!(proc.reg_a(), -4);
    assert_eq!(proc.reg_b(), -2);
    assert_eq!(proc.reg_c(), -1);
}

#[test]
fn division_by_a_large_power_of_two() {
    let prog = Program::new(vec![0, 5]);
    let mut proc = Proc::new(isize::MAX, 63, 0);
    proc.execute(&prog);
    assert_eq!(proc.reg_a(), 0);
    let mut proc = Proc::new(isize::MIN, 63, 0);
    proc.execute(&prog);
    assert_eq!(proc.reg_a(), -1);
    let mut proc = Proc::new(isize::MIN, 64, 0);
    proc.execute(&prog);
    assert_eq!(proc.reg_a(), 0);
    let mut proc = Proc::new(isize::MIN, 62, 0);
    proc.execute(&prog);
    assert_eq!(proc.reg_a(), -2);
    let mut proc = Proc::new(1 << 62, 62, 0);
    proc.execute(&prog);
    assert_eq!(proc.reg_a(), 1);
}

#[test]
fn remainder_keeps_the_sign() {
    let mut proc = Proc::new(-13, 0, 0);
    let prog = Program::new(vec![5, 4, 2, 4]);
    assert_eq!(proc.execute(&prog), vec![-5]);
    assert_eq!(proc.reg_b(), -5);
}

#[test]
fn jump_is_taken_only_when_a_is_not_zero() {
    let prog = Program::new(vec![3, 4, 5, 1, 5, 2]);
    let mut proc = Proc::new(1, 0, 0);
    assert_eq!(proc.execute(&prog), vec![2]);
    let mut proc = Proc::new(0, 0, 0);
    assert_eq!(proc.execute(&prog), vec![1, 2]);
}

#[test]
fn step_leaves_the_pointer_alone() {
    let prog = Program::new(vec![1, 7, 3, 0]);
    let mut proc = Proc::new(5, 29, 0);
    assert_eq!(proc.step(&prog), Some(2));
    assert_eq!(proc.ins_ptr(), 0);
    assert_eq!(proc.reg_b(), 26);
    assert_eq!(proc.execute_step(&prog), None);
    assert_eq!(proc.ins_ptr(), 2);
    assert_eq!(proc.reg_b(), 26 ^ 7);
    assert_eq!(proc.execute_step(&prog), None);
    assert_eq!(proc.ins_ptr(), 0);
}

#[test]
fn execute_step_returns_output_once_halted() {
    let prog = Program::new(vec![5, 1]);
    let mut proc = Proc::new(0, 0, 0);
    assert_eq!(proc.execute_step(&prog), None);
    assert_eq!(proc.execute_step(&prog), Some(vec![1]));
    assert_eq!(proc.execute_step(&prog), Some(vec![1]));
    assert_eq!(proc.step(&prog), None);
}

#[test]
fn decoding() {
    let prog = Program::new(vec![0, 1, 2, 3, 4, 5, 6, 7, 8, 0, 5]);
    let proc = Proc::new(10, 20, 30);
    assert!(matches!(proc.op(0, &prog), Some(Op::Adv(Combo(1)))));
    assert!(matches!(proc.op(1, &prog), Some(Op::Bxl(Literal(2)))));
    assert!(matches!(proc.op(2, &prog), Some(Op::Bst(Combo(3)))));
    assert!(matches!(proc.op(3, &prog), Some(Op::Jnz(Literal(4)))));
    assert!(matches!(proc.op(4, &prog), Some(Op::Bxc(_))));
    assert!(matches!(proc.op(5, &prog), Some(Op::Out(Combo(6)))));
    assert!(matches!(proc.op(6, &prog), Some(Op::Bdv(Combo(7)))));
    assert!(matches!(proc.op(7, &prog), Some(Op::Cdv(Combo(8)))));
    assert!(proc.op(8, &prog).is_none());
    assert!(proc.op(10, &prog).is_none());
    assert!(proc.op(11, &prog).is_none());
    assert!(proc.op(-1, &prog).is_none());
    assert!(proc._valid_op(9, &prog));
    assert!(!proc._valid_op(10, &prog));
    assert_eq!(proc.resolve_combo(&Combo(3)), 3);
    assert_eq!(proc.resolve_combo(&Combo(4)), 10);
    assert_eq!(proc.resolve_combo(&Combo(5)), 20);
    assert_eq!(proc.resolve_combo(&Combo(6)), 30);
    assert_eq!(proc.resolve_literal(&Literal(7)), 7);
    assert_eq!(to_u(5), 5usize);
    assert_eq!(to_i(5), 5isize);
}

#[test]
fn status_tells_fault_from_halt() {
    let proc = Proc::new(0, -1, 0);
    assert_eq!(proc.status(&Program::new(vec![5, 7])), Status::Faulted);
    assert_eq!(proc.status(&Program::new(vec![0, 5])), Status::Faulted);
    assert_eq!(proc.status(&Program::new(vec![2, 5])), Status::Running);
    assert_eq!(proc.status(&Program::new(vec![5])), Status::Halted);
    assert_eq!(proc.status(&Program::new(vec![9, 1])), Status::Halted);
    assert_eq!(proc.status(&Program::new(vec![])), Status::Halted);
}

#[test]
fn execute_within_stops_at_the_bound() {
    let prog = Program::new(vec![5, 0, 3, 0]);
    let mut proc = Proc::new(1, 0, 0);
    assert_eq!(proc.execute_within(&prog, 5), Status::Running);
    assert_eq!(proc.output(), &vec![0, 0, 0]);
    assert_eq!(proc.ins_ptr(), 2);
    let mut proc = Proc::new(0, 0, 0);
    assert_eq!(proc.execute_within(&prog, 5), Status::Halted);
    assert_eq!(proc.output(), &vec![0]);
    let mut proc = Proc::new(0, 0, 0);
    assert_eq!(proc.execute_within(&Program::new(vec![5, 1, 5, 7]), 5), Status::Faulted);
    assert_eq!(proc.output(), &vec![1]);
}

#[test]
fn parsing_reads_registers_by_label() {
    let input = String::from("Register C: 3\nRegister A: -1\r\nRegister X: 9\n\nProgram: 1,2\nProgram: 3,4");
    let proc = Proc::parse(&input).unwrap();
    assert_eq!(proc.reg_a(), -1);
    assert_eq!(proc.reg_b(), isize::MAX);
    assert_eq!(proc.reg_c(), 3);
    assert_eq!(proc.ins_ptr(), 0);
    assert!(proc.output().is_empty());
    let prog = Program::parse(&input).unwrap();
    assert_eq!(prog.instructions(), &vec![1, 2, 3, 4]);
    assert_eq!(prog.len(), 4);
    let proc = Proc::from(&input);
    assert_eq!(proc.reg_c(), 3);
    assert_eq!(Program::from(&input).instructions(), &vec![1, 2, 3, 4]);
}

#[test]
fn parsing_rejects_malformed_text() {
    assert!(Program::parse(&String::from("Program: 1,x")).is_none());
    assert!(Program::parse(&String::from("Program: ")).is_none());
    assert!(Program::parse(&String::from("Program: 1,")).is_none());
    assert!(Program::parse(&String::from("Program: 99999999999999999999")).is_none());
    assert!(Proc::parse(&String::from("Register A 5")).is_none());
    assert!(Proc::parse(&String::from("Register A: five")).is_none());
    assert_eq!(Program::parse(&String::from("")).unwrap().len(), 0);
    assert_eq!(Program::parse(&String::from("program: 1")).unwrap().len(), 0);
    assert_eq!(_solution2(&String::from("Register A: x\nProgram: 1"), 10), Err(SolveError::Malformed));
    assert_eq!(solution1_within(&String::from("Program: 1;2"), 10), Err(SolveError::Malformed));
}

#[test]
fn solution1_within_reports_a_run_that_does_not_halt() {
    let input = String::from("Register A: 1\nRegister B: 0\nRegister C: 0\n\nProgram: 3,0");
    assert_eq!(solution1_within(&input, 1000), Err(SolveError::NotHalted));
    assert_eq!(solution1_within(&String::from(CASE1), 1000), Ok(String::from("4,6,3,5,6,3,5,2,1,0")));
    assert_eq!(solution1_within(&String::from(CASE1), 10), Err(SolveError::NotHalted));
}

#[test]
fn render_output_joins_with_commas() {
    assert_eq!(render_output(&vec![]), "");
    assert_eq!(render_output(&vec![7]), "7");
    assert_eq!(render_output(&vec![0, -5, 120, isize::MIN]), format!("0,-5,120,{}", isize::MIN));
}

#[test]
fn search_reports_exhaustion_with_its_depth() {
    let prog = Program::new(vec![5, 4, 5, 4]);
    let init = Proc::new(0, 0, 0);
    assert_eq!(find_quine(&init, &prog, 100), SearchEnd::Exhausted { depth: 1 });
    let prog = Program::new(vec![5, 0, 1, 1]);
    assert_eq!(find_quine(&init, &prog, 100), SearchEnd::Exhausted { depth: 0 });
    let input = String::from("Register A: 0\nRegister B: 0\nRegister C: 0\n\nProgram: 5,4,5,4");
    assert_eq!(_solution2(&input, 100), Err(SolveError::Exhausted { depth: 1 }));
}

#[test]
fn search_reports_that_every_layer_was_tried() {
    let init = Proc::new(0, 0, 0);
    let prog = Program::new(vec![5, 1]);
    assert_eq!(find_quine(&init, &prog, 100), SearchEnd::NoMatch);
    let prog = Program::new(vec![5, 4, 3, 7]);
    assert_eq!(find_quine(&init, &prog, 100), SearchEnd::Exhausted { depth: 1 });
    let prog = Program::new(vec![4]);
    assert_eq!(find_quine(&init, &prog, 100), SearchEnd::NoMatch);
    let input = String::from("Register A: 0\nProgram: 4");
    assert_eq!(_solution2(&input, 100), Err(SolveError::NoMatch));
}

#[test]
fn search_on_the_empty_program_finds_zero() {
    let prog = Program::new(vec![]);
    let init = Proc::new(7, 7, 7);
    assert_eq!(find_quine(&init, &prog, 100), SearchEnd::Found(0));
}

#[test]
fn try_candidate_judges_one_value() {
    let input = String::from(CASE2);
    let prog = Program::parse(&input).unwrap();
    let init = Proc::parse(&input).unwrap();
    assert_eq!(try_candidate(&init, &prog, 1000, 5, 117440), Trial::Match);
    assert_eq!(try_candidate(&init, &prog, 1000, 5, 117439), Trial::Discard);
    assert_eq!(try_candidate(&init, &prog, 1000, 0, 3), Trial::Extend);
    assert_eq!(try_candidate(&init, &prog, 1000, 1, 24), Trial::Extend);
    assert_eq!(try_candidate(&init, &prog, 1000, 1, 8), Trial::Discard);
    assert_eq!(try_candidate(&init, &prog, 2, 5, 117440), Trial::Discard);
}

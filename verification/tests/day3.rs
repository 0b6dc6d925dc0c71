use advent::day3::{cond_multiply_str, factors, instruction, multiply_str, run, Instruction};

fn strings(texts: &[&str]) -> Vec<String> {
    texts.iter().map(|s| s.to_string()).collect()
}

#[test]
fn day3_test_example() {
    let memory =
        String::from("xmul(2,4)%&mul[3,7]!@^do_not_mul(5,5)+mul(32,64]then(mul(11,8)mul(8,5))");
    let result = multiply_str(&memory);
    assert_eq!(result, Some(161), "correctly computes example result");
}

#[test]
fn test_conditional_example() {
    let memory =
        String::from("xmul(2,4)&mul[3,7]!^don't()_mul(5,5)+mul(32,64](mul(11,8)undo()?mul(8,5))");
    let result = cond_multiply_str(&memory);
    assert_eq!(result, Some(48), "correctly computes example result");
}

#[test]
fn day3_numbers_have_at_most_three_digits() {
    assert_eq!(multiply_str(&String::from("mul(1000,2)mul(999,999)")), Some(998001));
    assert_eq!(multiply_str(&String::from("mul(1, 2)mul (1,2)")), Some(0));
    assert_eq!(multiply_str(&String::from("")), Some(0));
    assert_eq!(cond_multiply_str(&String::from("don't()do()don't()mul(2,3)do()mul(4,5)")), Some(20));
}

#[test]
fn day3_matches_are_read_one_by_one() {
    assert_eq!(factors(&strings(&["mul(2,4)", "2", "4"])), Some((2, 4)));
    assert_eq!(factors(&strings(&["2", "4"])), None);
    assert_eq!(factors(&strings(&["mul(2,x)", "2", "x"])), None);
    assert_eq!(instruction(&strings(&["do()", "", ""])), Some(Instruction::Enable));
    assert_eq!(instruction(&strings(&["don't()", "", ""])), Some(Instruction::Disable));
    assert_eq!(instruction(&strings(&["mul(7,9)", "7", "9"])), Some(Instruction::Mul(7, 9)));
    assert_eq!(instruction(&strings(&["dont()", "", ""])), None);
    let matches = vec![
        strings(&["mul(2,4)", "2", "4"]),
        strings(&["don't()", "", ""]),
        strings(&["mul(3,3)", "3", "3"]),
    ];
    assert_eq!(run(&matches, true), Some(8));
    assert_eq!(run(&matches, false), None);
    let huge = vec![strings(&["", "18446744073709551615", "2"])];
    assert_eq!(run(&huge, false), None);
}

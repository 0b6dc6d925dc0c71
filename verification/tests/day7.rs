use advent::day7::{
    find_op_sequence, parse_input, parse_line, EqData, Operator, _find_op_sequence, _solution1,
};

const CASE1: &str = "190: 10 19\n3267: 81 40 27\n83: 17 5\n156: 15 6\n7290: 6 8 6 15\n161011: 16 10 13\n192: 17 8 14\n21037: 9 7 18 13\n292: 11 6 16 20\n";

#[test]
fn test_parse_input() {
    let input = String::from("5: 1 2 3\n4: 5 6 7");
    let parsed = parse_input(&input).unwrap();
    assert_eq!(
        parsed,
        vec![
            EqData {
                solution: 5,
                operands: vec![1, 2, 3],
            },
            EqData {
                solution: 4,
                operands: vec![5, 6, 7],
            },
        ]
    )
}

#[test]
fn test_solution1() {
    let result = _solution1(&String::from(CASE1));
    assert_eq!(result, Some(3749));
}

#[test]
fn day7_first_sequence_in_the_order_of_the_operators() {
    let ops = vec![Operator::Plus, Operator::Mult];
    let eq = EqData { solution: 3267, operands: vec![81, 40, 27] };
    assert_eq!(find_op_sequence(&eq, &ops), Some(vec![Operator::Plus, Operator::Mult]));
    let ops_rev = vec![Operator::Mult, Operator::Plus];
    assert_eq!(find_op_sequence(&eq, &ops_rev), Some(vec![Operator::Mult, Operator::Plus]));
    let eq = EqData { solution: 292, operands: vec![11, 6, 16, 20] };
    assert_eq!(
        find_op_sequence(&eq, &ops),
        Some(vec![Operator::Plus, Operator::Mult, Operator::Plus])
    );
    let eq = EqData { solution: 83, operands: vec![17, 5] };
    assert_eq!(find_op_sequence(&eq, &ops), None);
    let eq = EqData { solution: 7, operands: vec![7] };
    assert_eq!(find_op_sequence(&eq, &ops), Some(vec![]));
    let eq = EqData { solution: 8, operands: vec![7] };
    assert_eq!(find_op_sequence(&eq, &ops), None);
    let eq = EqData { solution: 6, operands: vec![2, 3] };
    assert_eq!(find_op_sequence(&eq, &vec![]), None);
    assert_eq!(find_op_sequence(&eq, &vec![Operator::Plus]), None);
    assert_eq!(_find_op_sequence(&eq, &ops, 3, 1), Some(vec![Operator::Plus]));
    assert_eq!(_find_op_sequence(&eq, &ops, 6, 2), Some(vec![]));
}

#[test]
fn day7_search_gives_up_above_the_solution() {
    let ops = vec![Operator::Plus, Operator::Mult];
    let eq = EqData { solution: 0, operands: vec![5, 0] };
    assert_eq!(find_op_sequence(&eq, &ops), None);
    let eq = EqData { solution: 4, operands: vec![u128::MAX, 5] };
    assert_eq!(find_op_sequence(&eq, &ops), None);
    let eq = EqData { solution: u128::MAX, operands: vec![u128::MAX, 1] };
    assert_eq!(find_op_sequence(&eq, &ops), Some(vec![Operator::Mult]));
}

#[test]
fn day7_lines_have_one_result_and_its_operands() {
    assert_eq!(parse_line(b"5: 1 2").unwrap().operands, vec![1, 2]);
    assert!(parse_line(b"5 1 2").is_none());
    assert!(parse_line(b"5: 1: 2").is_none());
    assert!(parse_line(b"5: 1  2").is_none());
    assert!(parse_line(b"x: 1 2").is_none());
    assert!(parse_line(b"5: ").is_none());
    assert_eq!(
        parse_line(b"340282366920938463463374607431768211455: 1").unwrap().solution,
        u128::MAX
    );
    assert!(parse_line(b"340282366920938463463374607431768211456: 1").is_none());
    assert_eq!(_solution1(&String::from("5: 1 2\nx")), None);
    assert_eq!(_solution1(&String::from("")), Some(0));
    assert_eq!(
        _solution1(&String::from(
            "340282366920938463463374607431768211455: 340282366920938463463374607431768211455\n1: 1"
        )),
        None
    );
}

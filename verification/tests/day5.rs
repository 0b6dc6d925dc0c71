use advent::day5::{
    parse_fields, OrderRule, OrderingRules, PageOrder, PrintInstructions, PrintUpdates, Update,
    _compute_part1_solution, _compute_part2_solution,
};

const CASE1: &str = "47|53\n97|13\n97|61\n97|47\n75|29\n61|13\n75|53\n29|13\n97|29\n53|29\n61|53\n97|53\n61|29\n47|13\n75|47\n97|75\n47|61\n75|61\n47|29\n75|13\n53|13\n\n75,47,61,53,29\n97,61,53,29,13\n75,29,13\n75,97,47,61,53\n61,13,29\n97,13,75,29,47\n";

#[test]
fn day5_test_example() {
    let result = _compute_part1_solution(&String::from(CASE1));
    assert_eq!(result, Some(143), "computes ordering and sums correctly pt1");
}

#[test]
fn day5_test_example_day2() {
    let result = _compute_part2_solution(&String::from(CASE1));
    assert_eq!(result, Some(123), "computes ordering and sums correctly pt2");
}

#[test]
fn day5_rules_are_found_by_their_two_pages() {
    let mut rules = OrderingRules::new();
    assert!(rules.from_str(b"47|53"));
    assert!(rules.from_str(b"53|47"));
    assert!(rules.from_str(b"9|1"));
    assert!(!rules.from_str(b"9"));
    assert!(!rules.from_str(b"9|x"));
    assert!(!rules.from_str(b"|"));
    assert_eq!(rules.iter().len(), 3);
    assert_eq!(rules.iter()[1], OrderRule { before: 53, after: 47 });
    assert!(rules.contains((47, 53)));
    assert!(!rules.contains((53, 47)));
    assert!(rules.contains((1, 9)));
    assert!(!rules.contains((1, 47)));
    assert_eq!(rules.find((47, 53)), Some(OrderRule { before: 47, after: 53 }));
    assert_eq!(rules.find((1, 9)), Some(OrderRule { before: 9, after: 1 }));
    assert_eq!(rules.find((2, 9)), None);
    assert_eq!(rules.get_comparator(&47, &53), PageOrder::Before);
    assert_eq!(rules.get_comparator(&53, &47), PageOrder::After);
    assert_eq!(rules.get_comparator(&1, &9), PageOrder::After);
    assert_eq!(rules.get_comparator(&9, &1), PageOrder::Before);
    assert_eq!(rules.get_comparator(&5, &5), PageOrder::Same);
}

#[test]
fn day5_pairs_of_an_update() {
    let update = Update { page_numbers: vec![3, 1, 2] };
    assert_eq!(update.get_pairs(), vec![(1, 3), (2, 3), (1, 2)]);
    assert_eq!(Update { page_numbers: vec![7] }.get_pairs(), vec![]);
    assert_eq!(Update { page_numbers: vec![] }.get_pairs(), vec![]);
    assert_eq!(Update { page_numbers: vec![4, 4] }.get_pairs(), vec![(4, 4)]);
}

#[test]
fn day5_updates_are_kept_in_order_of_arrival() {
    let mut updates = PrintUpdates::new();
    assert!(updates.from_str(b"75,47,61"));
    assert!(!updates.from_str(b"75,,61"));
    updates.add(Update { page_numbers: vec![1] });
    assert_eq!(updates.iter().len(), 2);
    assert_eq!(updates.at(0).page_numbers, vec![75, 47, 61]);
    assert_eq!(updates.at(1).page_numbers, vec![1]);
    assert_eq!(
        parse_fields(&vec![b"12".to_vec(), b"+3".to_vec()]),
        Some(vec![12, 3])
    );
    assert_eq!(parse_fields(&vec![b"12".to_vec(), b"-3".to_vec()]), None);
}

#[test]
fn day5_ordering_an_update() {
    let instructions = PrintInstructions::from(&String::from(CASE1)).unwrap();
    assert_eq!(instructions.rules.iter().len(), 21);
    assert_eq!(instructions.updates.iter().len(), 6);
    let wrong = instructions.updates.at(3);
    assert!(instructions.is_ruled(wrong));
    assert!(!instructions.is_ordered(wrong));
    assert_eq!(instructions.get_ordered_update(wrong).page_numbers, vec![97, 75, 47, 61, 53]);
    assert_eq!(
        instructions.get_ordered_update(instructions.updates.at(5)).page_numbers,
        vec![97, 75, 47, 29, 13]
    );
    let right = instructions.updates.at(0);
    assert!(instructions.is_ordered(right));
    assert_eq!(instructions.get_ordered_update(right).page_numbers, right.page_numbers);
    assert!(!instructions.is_ruled(&Update { page_numbers: vec![75, 1] }));
    assert!(instructions.is_ruled(&Update { page_numbers: vec![75, 75] }));
    let mut pages = vec![97, 47, 53];
    instructions.rules.place(&mut pages, 75);
    assert_eq!(pages, vec![97, 75, 47, 53]);
}

#[test]
fn day5_malformed_instructions() {
    assert!(PrintInstructions::from(&String::from("1|2\nx|3\n\n1,2\n")).is_none());
    assert!(PrintInstructions::from(&String::from("1|2\n\n1;2\n")).is_none());
    assert_eq!(_compute_part1_solution(&String::from("1|2\n\n1,2\n2,1\n3,1\n")), None);
    assert_eq!(_compute_part1_solution(&String::from("1|2\n\n1,2\n2,1\n")), Some(2));
    assert_eq!(_compute_part2_solution(&String::from("1|2\n\n1,2\n2,1\n")), Some(2));
    assert_eq!(_compute_part1_solution(&String::from("")), Some(0));
}

use advent::day11::{count_after, count_digits, split_in_half, stone_can_change, StoneTree, _solution1};

fn leaf(value: usize) -> StoneTree {
    StoneTree { value, children: vec![] }
}

#[test]
fn test_example_day11_1() {
    let result = _solution1(&String::from("125 17\n"));
    assert_eq!(result, Some(55312));
}

#[test]
fn day11_counting_after_some_blinks() {
    assert_eq!(count_after(&String::from("125 17"), 6), Some(22));
    assert_eq!(count_after(&String::from("125 17"), 0), Some(2));
    assert_eq!(count_after(&String::from("0 1 10 99 999"), 1), Some(7));
    assert_eq!(count_after(&String::from("x"), 1), None);
    let huge = format!("{}", usize::MAX / 2 + 1);
    assert_eq!(count_after(&huge, 1), None);
    assert_eq!(count_after(&huge, 0), Some(1));
    assert!(stone_can_change(0));
    assert!(stone_can_change(usize::MAX));
    assert!(!stone_can_change(usize::MAX / 2 + 1));
    assert!(stone_can_change(usize::MAX / 20));
    let mut tree = StoneTree::from(&String::from("125 17")).unwrap();
    assert!(tree.can_blink());
    assert_eq!(tree.blink_times(3), 3);
    assert_eq!(tree.get_leaf_nodes(), vec![512072, 1, 20, 24, 28676032]);
    let mut stuck = StoneTree::from(&huge).unwrap();
    assert!(!stuck.can_blink());
    assert_eq!(stuck.blink_times(3), 0);
}

#[test]
fn day11_digits() {
    assert_eq!(count_digits(0), 1);
    assert_eq!(count_digits(9), 1);
    assert_eq!(count_digits(10), 2);
    assert_eq!(count_digits(99999), 5);
    assert_eq!(count_digits(usize::MAX), usize::MAX.to_string().len());
    assert_eq!(split_in_half(10), (1, 0));
    assert_eq!(split_in_half(1234), (12, 34));
    assert_eq!(split_in_half(1000), (10, 0));
    assert_eq!(split_in_half(253000), (253, 0));
    assert_eq!(split_in_half(28676032), (2867, 6032));
}

#[test]
fn day11_a_stone_changes() {
    let tree = leaf(0);
    assert_eq!(tree.compute_child_values(0), (1, None));
    assert_eq!(tree.compute_child_values(1), (2024, None));
    assert_eq!(tree.compute_child_values(99), (9, Some(9)));
    assert_eq!(tree.compute_child_values(1000), (10, Some(0)));
    assert_eq!(tree.compute_child_values(999), (2021976, None));
    let mut stone = leaf(17);
    stone.build_children();
    assert_eq!(stone.get_leaf_nodes(), vec![1, 7]);
    assert_eq!(stone.value, 17);
    let mut stone = leaf(125);
    stone.build_children();
    assert_eq!(stone.get_leaf_nodes(), vec![253000]);
}

#[test]
fn day11_blinking() {
    let mut tree = StoneTree::from(&String::from("  0 1 10 99 999 ")).unwrap();
    assert_eq!(tree.value, usize::MAX);
    assert_eq!(tree.get_leaf_nodes(), vec![0, 1, 10, 99, 999]);
    assert_eq!(tree.count_leaf_nodes(), Some(5));
    tree.step();
    assert_eq!(tree.get_leaf_nodes(), vec![1, 2024, 1, 0, 9, 9, 2021976]);
    assert_eq!(tree.count_leaf_nodes(), Some(7));
    let mut tree = StoneTree::from(&String::from("125 17")).unwrap();
    for _ in 0..6 {
        tree.step();
    }
    assert_eq!(
        tree.get_leaf_nodes(),
        vec![
            2097446912, 14168, 4048, 2, 0, 2, 4, 40, 48, 2024, 40, 48, 80, 96, 2, 8, 6, 7, 6, 0,
            3, 2
        ]
    );
    assert_eq!(tree.count_leaf_nodes(), Some(22));
    let mut leaves = vec![7];
    tree._get_leaf_nodes(&mut leaves);
    assert_eq!(leaves.len(), 23);
    assert_eq!(leaves[0], 7);
}

#[test]
fn day11_reading_stones() {
    assert!(StoneTree::from(&String::from("12 x")).is_none());
    assert!(StoneTree::from(&String::from("12  13")).is_none());
    assert!(StoneTree::from(&String::from("")).is_none());
    assert!(StoneTree::from(&String::from("99999999999999999999999")).is_none());
    let tree = StoneTree::from_trimmed(&String::from("5")).unwrap();
    assert_eq!(tree.get_leaf_nodes(), vec![5]);
    assert!(StoneTree::from_trimmed(&String::from("5 ")).is_none());
    assert_eq!(leaf(usize::MAX).count_leaf_nodes(), Some(0));
    assert_eq!(leaf(3).count_leaf_nodes(), Some(1));
}

use advent::day2::{
    count_reports, count_safe_reports_dampened, count_safe_reports_strict, gapping_valid,
    get_ordering, levels_safe, without, Edge, EdgeKind, LevelOrdering, LevelsGraph, Report,
};

const CASE1: &str = "7 6 4 2 1\n1 2 7 8 9\n9 7 6 2 1\n1 3 2 4 5\n8 6 4 4 1\n1 3 6 7 9\n";

#[test]
fn day2_test_counting() {
    let result = count_safe_reports_strict(&String::from(CASE1)).unwrap();
    assert_eq!(result, 2, "correctly analyzes and counts reports");
    let result = count_safe_reports_dampened(&String::from(CASE1)).unwrap();
    assert_eq!(result, 4, "correctly analyzes and counts reports");
}

#[test]
fn day2_incrementing_safe() {
    let report = Report::from("1 4 6 7").unwrap();
    assert!(report.is_safe(), "all incrementing 1-3");
    assert!(report.is_safe_with_dampening(), "all incrementing 1-3");
}

#[test]
fn day2_not_all_incrementing() {
    let report = Report::from("1 4 6 5").unwrap();
    assert!(!report.is_safe(), "decrementing is unsafe");
    assert!(report.is_safe_with_dampening(), "single value can be removed");
}

#[test]
fn day2_incrementing_unsafe_gap() {
    let report = Report::from("1 4 6 10").unwrap();
    assert!(!report.is_safe(), "all incrementing 1-3");
    assert!(report.is_safe_with_dampening(), "can remove largest");
}

#[test]
fn no_levels() {
    assert!(Report::from("").is_none());
}

#[test]
fn day2_same_levels() {
    let report = Report::from("1 2 3 3").unwrap();
    assert!(!report.is_safe(), "needs to increment or decrement by at least one");
    assert!(report.is_safe_with_dampening(), "same can be removed");
}

#[test]
fn day2_one_level() {
    let report = Report::from("1").unwrap();
    assert!(report.is_safe(), "only one level should be valid");
    assert!(report.is_safe_with_dampening(), "only one level should be valid");
}

#[test]
fn test_graph_inspect() {
    let report = Report::from("1 3 2 4 5").unwrap();
    let graph = report.build_graph();
    assert!(report.is_safe_with_dampening());
    assert!(graph.is_safe());
    assert_eq!(graph.nodes.len(), 6);
    assert_eq!(graph.nodes[0].value, None);
    assert_eq!(graph.nodes[2].value, Some(3));
    assert_eq!(
        graph.nodes[0].edges,
        vec![
            Edge { cost: 0, dest_node: 1, kind: EdgeKind::Ascending },
            Edge { cost: 0, dest_node: 1, kind: EdgeKind::Descending },
            Edge { cost: 1, dest_node: 2, kind: EdgeKind::Ascending },
            Edge { cost: 1, dest_node: 2, kind: EdgeKind::Descending },
        ]
    );
    assert_eq!(
        graph.nodes[1].edges,
        vec![
            Edge { cost: 0, dest_node: 2, kind: EdgeKind::Ascending },
            Edge { cost: 1, dest_node: 3, kind: EdgeKind::Ascending },
        ]
    );
    assert_eq!(
        graph.nodes[2].edges,
        vec![
            Edge { cost: 0, dest_node: 3, kind: EdgeKind::Descending },
            Edge { cost: 1, dest_node: 4, kind: EdgeKind::Ascending },
        ]
    );
    assert!(graph.nodes[5].edges.is_empty());
    assert_eq!(
        graph.get_all_paths(),
        vec![
            vec![0, 1, 2, 4, 5],
            vec![0, 1, 3, 4, 5],
            vec![0, 2],
            vec![0, 1],
            vec![0, 2, 3],
        ]
    );
    assert_eq!(graph._get_paths(1, EdgeKind::Ascending, 0), vec![vec![1, 2]]);
    assert_eq!(graph._get_paths(5, EdgeKind::Ascending, 1), vec![vec![5]]);
}

#[test]
fn day2_graph_and_direct_check_agree() {
    for line in [
        "7 6 4 2 1", "1 2 7 8 9", "9 7 6 2 1", "1 3 2 4 5", "8 6 4 4 1", "1 3 6 7 9", "1", "5 9",
        "1 2 3 3 3", "2 4 3", "9 1 2 3", "1 2 3 9", "9 1 2 9", "1 4 6 10", "3 3", "1 1 1",
        "10 1 2", "1 10 2", "1 2 10 11",
    ] {
        let report = Report::from(line).unwrap();
        assert_eq!(report.is_safe_by_graph(), report.is_safe_with_dampening(), "{}", line);
    }
    let mut graph = LevelsGraph::new();
    assert_eq!(graph.nodes.len(), 1);
    graph.add_level(4);
    graph.add_level(9);
    assert!(graph.is_safe());
    graph.add_level(20);
    assert!(!graph.is_safe());
}

#[test]
fn same_levels_multi() {
    let report = Report::from("1 2 3 3 3").unwrap();
    assert!(!report.is_safe_with_dampening(), "same can be removed only once");
}

#[test]
fn inc_or_desc_possible() {
    let report = Report::from("2 4 3").unwrap();
    assert!(report.is_safe_with_dampening(), "multiple possibilities after removal");
}

#[test]
fn day2_ordering_and_gaps() {
    assert_eq!(get_ordering(&vec![5]), LevelOrdering::AllIncrementing);
    assert_eq!(get_ordering(&vec![1, 2, 9]), LevelOrdering::AllIncrementing);
    assert_eq!(get_ordering(&vec![9, 2, 1]), LevelOrdering::AllDecrementing);
    assert_eq!(get_ordering(&vec![1, 2, 2]), LevelOrdering::NotOrdered);
    assert_eq!(get_ordering(&vec![2, 2, 3]), LevelOrdering::NotOrdered);
    assert_eq!(get_ordering(&vec![1, 3, 2]), LevelOrdering::NotOrdered);
    assert!(gapping_valid(&vec![1, 4, 3, 6]));
    assert!(!gapping_valid(&vec![1, 5]));
    assert!(!gapping_valid(&vec![1, 1]));
    assert!(gapping_valid(&vec![7]));
    assert!(levels_safe(&vec![]));
    assert!(levels_safe(&vec![u64::MAX, u64::MAX - 3]));
    assert!(!levels_safe(&vec![0, u64::MAX]));
}

#[test]
fn day2_without_takes_one_level_out() {
    assert_eq!(without(&vec![1, 2, 3], 0), vec![2, 3]);
    assert_eq!(without(&vec![1, 2, 3], 1), vec![1, 3]);
    assert_eq!(without(&vec![1, 2, 3], 2), vec![1, 2]);
    assert_eq!(without(&vec![1], 0), Vec::<u64>::new());
}

#[test]
fn day2_dampening_can_take_out_the_first_or_the_last() {
    assert!(Report::from("9 1 2 3").unwrap().is_safe_with_dampening());
    assert!(Report::from("1 2 3 9").unwrap().is_safe_with_dampening());
    assert!(!Report::from("9 1 2 9").unwrap().is_safe_with_dampening());
    assert!(Report::from("5 9").unwrap().is_safe_with_dampening());
}

#[test]
fn day2_lines_are_cut_at_white_space_of_any_length() {
    let report = Report::from("1\t 2   3").unwrap();
    assert_eq!(report.levels, vec![1, 2, 3]);
    assert!(Report::from("1 x 3").is_none());
    assert!(Report::from(" 1 2").is_none());
    assert!(Report::from("1 -2").is_none());
    assert!(Report::from("18446744073709551616").is_none());
    assert_eq!(Report::from("18446744073709551615 +7").unwrap().levels, vec![u64::MAX, 7]);
    assert_eq!(Report::from_pieces(&vec![String::from("4"), String::from("2")]).unwrap().levels, vec![4, 2]);
}

#[test]
fn day2_counting_fails_on_a_malformed_line() {
    assert_eq!(count_safe_reports_strict(&String::from("1 2\n\n3 4\n")), None);
    assert_eq!(count_safe_reports_strict(&String::from("")), Some(0));
    assert_eq!(count_reports(&vec![String::from("1 2"), String::from("1 9 2")], false), Some(1));
    assert_eq!(count_reports(&vec![String::from("1 2"), String::from("1 9 2")], true), Some(2));
}

use advent::day4::{
    build_queries, count_all, count_backward, count_crosses_str, count_down, count_forward,
    count_xmas_str, find_any_query_group, get_x_count, has_neg_diag, has_pos_diag, Coord, Puzzle,
    Query,
};

const CASE1: &str = "MMMSXXMASM\nMSAMXMSMSA\nAMXSXMAAMM\nMSAMASMSMX\nXMASAMXAMM\nXXAMMXXAMA\nSMSMSASXSS\nSAXAMASAAA\nMAMMMXMMMM\nMXMXAXMASX\n";

#[test]
fn test_xmas_count() {
    let result = count_xmas_str(CASE1);
    assert_eq!(result, Some(18), "correctly analyzes and counts reports");
}

#[test]
fn test_crosses_count() {
    let result = count_crosses_str(CASE1);
    assert_eq!(result, Some(9), "correctly analyzes and counts reports");
}

#[test]
fn day4_every_direction_counts() {
    let grid = "S..S..S\n.A.A.A.\n..MMM..\nSAMXMAS\n..MMM..\n.A.A.A.\nS..S..S\n";
    assert_eq!(count_xmas_str(grid), Some(8));
    let puzzle = Puzzle::from(grid).unwrap();
    assert_eq!(count_all(&puzzle), 8);
    let centre = Coord::from(3, 3);
    assert_eq!(count_forward(&puzzle, &centre), 1);
    assert_eq!(count_backward(&puzzle, &centre), 1);
    assert_eq!(count_down(&puzzle, &centre), 1);
    assert_eq!(count_forward(&puzzle, &Coord::from(4, 3)), 0);
    assert_eq!(count_xmas_str("XMAS"), Some(1));
    assert_eq!(count_xmas_str("SAMX"), Some(1));
    assert_eq!(count_xmas_str("XMA\nS.."), Some(0));
}

#[test]
fn day4_crosses() {
    assert_eq!(count_crosses_str("M.S\n.A.\nM.S\n"), Some(1));
    assert_eq!(count_crosses_str("M.M\n.A.\nS.S\n"), Some(1));
    assert_eq!(count_crosses_str("M.S\n.A.\nS.M\n"), Some(0));
    assert_eq!(count_crosses_str("MAS\n.A.\nMAS\n"), Some(1));
    let puzzle = Puzzle::from("M..\n.A.\n..S\n").unwrap();
    assert!(has_pos_diag(&puzzle, &Coord::from(1, 1)));
    assert!(!has_neg_diag(&puzzle, &Coord::from(1, 1)));
    assert!(!has_pos_diag(&puzzle, &Coord::from(0, 0)));
    assert_eq!(get_x_count(&puzzle), 0);
}

#[test]
fn day4_queries() {
    let puzzle = Puzzle::from("AB\nCD").unwrap();
    assert_eq!(puzzle.num_rows(), 2);
    assert_eq!(puzzle.num_cols(), 2);
    assert_eq!(puzzle.at(&Coord::from(1, 0)), Some(b'B'));
    assert_eq!(puzzle.at(&Coord::from(0, 1)), Some(b'C'));
    assert_eq!(puzzle.at(&Coord::from(2, 0)), None);
    assert_eq!(puzzle.at(&Coord::from(0, -1)), None);
    assert!(puzzle._in_bounds(&Coord::from(1, 1)));
    assert!(!puzzle._in_bounds(&Coord::from(-1, 1)));
    let d = Query::from(&Coord::from(1, 1), b'D');
    let a = Query::from(&Coord::from(0, 0), b'A');
    let wrong = Query::from(&Coord::from(0, 0), b'B');
    assert!(puzzle.find(&d));
    assert!(!puzzle.find(&wrong));
    assert!(puzzle.find_all(&vec![a, d]));
    assert!(!puzzle.find_all(&vec![a, wrong, d]));
    assert!(puzzle.find_all(&vec![]));
    assert!(find_any_query_group(&puzzle, &vec![vec![wrong], vec![a, d]]));
    assert!(!find_any_query_group(&puzzle, &vec![vec![wrong], vec![a, wrong]]));
    assert!(!find_any_query_group(&puzzle, &vec![]));
    assert_eq!(
        build_queries(&Coord::from(5, 5), &Coord::from(-1, 1)),
        vec![
            Query { coord: Coord { col: 5, row: 5 }, value: b'X' },
            Query { coord: Coord { col: 4, row: 6 }, value: b'M' },
            Query { coord: Coord { col: 3, row: 7 }, value: b'A' },
            Query { coord: Coord { col: 2, row: 8 }, value: b'S' },
        ]
    );
}

#[test]
fn day4_grid_must_be_a_rectangle() {
    assert!(Puzzle::from("").is_none());
    assert!(Puzzle::from("\nAB").is_none());
    assert!(Puzzle::from("AB\nC").is_none());
    assert_eq!(count_xmas_str("AB\nC"), None);
    assert_eq!(count_crosses_str(""), None);
}

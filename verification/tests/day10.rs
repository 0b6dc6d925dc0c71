use advent::day10::{TopoMap, _solution1, _solution2};

const CASE1: &str = "89010123\n78121874\n87430965\n96549874\n45678903\n32019012\n01329801\n10456732\n";

#[test]
fn get_trailheads() {
    let topo_map = TopoMap::from(&String::from(CASE1)).unwrap();
    assert_eq!(
        topo_map.get_trailheads(),
        &vec![(2, 0), (4, 0), (4, 2), (6, 4), (2, 5), (5, 5), (0, 6), (6, 6), (1, 7)]
    );
}

#[test]
fn example_day10_1() {
    let result = _solution1(&String::from(CASE1));
    assert_eq!(result, Some(36));
}

#[test]
fn _example_day2() {
    let result = _solution2(&String::from(CASE1));
    assert_eq!(result, Some(81));
}

#[test]
fn day10_scores_of_single_heads() {
    let topo_map = TopoMap::from(&String::from(CASE1)).unwrap();
    assert_eq!(topo_map.head_score((2, 0), false), 5);
    assert_eq!(topo_map.head_score((4, 0), false), 6);
    assert_eq!(topo_map.head_score((2, 0), true), 20);
    assert_eq!(topo_map.head_score((4, 0), true), 24);
    assert_eq!(topo_map.head_score((99, 0), true), 0);
    assert_eq!(topo_map.head_score((0, 0), false), 0);
    assert_eq!(topo_map.total_score(false), Some(36));
    assert_eq!(_solution1(&String::from("0123456789\n")), Some(1));
    assert_eq!(_solution2(&String::from("0123456789\n9876543210")), Some(4));
    assert_eq!(_solution1(&String::from("0123456789\n9876543210")), Some(4));
    assert_eq!(_solution1(&String::from("01x")), None);
    assert_eq!(_solution2(&String::from("")), Some(0));
}

#[test]
fn day10_neighbors_and_heights() {
    let topo_map = TopoMap::from(&String::from("012\n34\n5")).unwrap();
    assert_eq!(topo_map.elevation_at((0, 0)), Some(0));
    assert_eq!(topo_map.elevation_at((2, 0)), Some(2));
    assert_eq!(topo_map.elevation_at((1, 1)), Some(4));
    assert_eq!(topo_map.elevation_at((2, 1)), None);
    assert_eq!(topo_map.elevation_at((0, 3)), None);
    assert_eq!(topo_map.elevation_at((-1, 0)), None);
    assert_eq!(topo_map.elevation_at((0, -1)), None);
    assert_eq!(topo_map.get_neighbors((1, 1)), vec![(0, 1), (1, 0)]);
    assert_eq!(topo_map.get_neighbors((0, 1)), vec![(1, 1), (0, 0), (0, 2)]);
    assert_eq!(topo_map.get_neighbors((isize::MIN, isize::MAX)), vec![]);
    assert_eq!(topo_map.get_steps_up((0, 0)), vec![(1, 0)]);
    assert_eq!(topo_map.get_steps_up((1, 1)), vec![]);
}

#[test]
fn day10_trails_branch_and_end() {
    let topo_map = TopoMap::from(&String::from("0123\n1234\n")).unwrap();
    assert_eq!(
        topo_map.get_trails((0, 0)),
        vec![
            vec![(0, 0), (1, 0), (2, 0), (3, 0), (3, 1)],
            vec![(0, 0), (1, 0), (2, 0), (2, 1), (3, 1)],
            vec![(0, 0), (1, 0), (1, 1), (2, 1), (3, 1)],
            vec![(0, 0), (0, 1), (1, 1), (2, 1), (3, 1)],
        ]
    );
    assert_eq!(topo_map.get_trails((3, 1)), vec![vec![(3, 1)]]);
    let flat = TopoMap::from(&String::from("99\n99\n")).unwrap();
    assert_eq!(flat.get_trails((0, 0)), vec![vec![(0, 0)]]);
    assert!(flat.get_trailheads().is_empty());
}

#[test]
fn day10_map_needs_digits() {
    assert!(TopoMap::from(&String::from("01\n2x\n")).is_none());
    assert!(TopoMap::from(&String::from("")).is_some());
}

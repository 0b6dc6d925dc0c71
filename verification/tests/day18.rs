use advent::day18::{
    get_valid_moves, parse_corrupt_locs, shortest_path, Loc, MemMap, Tile, _solution1, _solution2,
    BYTES_FALLEN, X_MAX, Y_MAX,
};
use rustc_hash::FxHashSet;

const CASE1: &str = "5,4\n4,2\n4,5\n3,0\n2,1\n6,3\n2,4\n1,5\n0,6\n3,3\n2,6\n5,1\n1,2\n5,5\n2,5\n6,5\n1,4\n0,4\n6,4\n1,1\n6,1\n1,0\n0,5\n1,6\n2,0\n";

#[test]
fn day_18_1_0() {
    let bytes_fallen = 12;
    let (max_x, max_y) = (6, 6);
    let result = _solution1(&String::from(CASE1), max_x, max_y, bytes_fallen);
    assert_eq!(result, Some(22), "found min steps")
}

#[test]
fn day_18_2_0() {
    let bytes_fallen = 12;
    let (max_x, max_y) = (6, 6);
    let result = _solution2(&String::from(CASE1), max_x, max_y, bytes_fallen);
    assert_eq!(result, Some(String::from("6,1")), "found min steps")
}

#[test]
fn day18_square_and_moves() {
    let corrupt: FxHashSet<(isize, isize)> = [(1, 0), (1, 1)].into_iter().collect();
    let map = MemMap::new(2, 2, &corrupt);
    assert_eq!(map.m.len(), 9);
    assert_eq!(map.m[&(1, 1)], Tile::Corrupt);
    assert_eq!(map.m[&(2, 2)], Tile::Safe);
    assert_eq!(map.start, Loc { x: 0, y: 0 });
    assert_eq!(map.goal, Loc { x: 2, y: 2 });
    assert_eq!(get_valid_moves(&Loc { x: 0, y: 0 }, &map), vec![(0, 1)]);
    assert_eq!(get_valid_moves(&Loc { x: 1, y: 2 }, &map), vec![(2, 2), (0, 2)]);
    assert_eq!(get_valid_moves(&Loc { x: 2, y: 1 }, &map), vec![(2, 2), (2, 0)]);
    assert_eq!(get_valid_moves(&Loc { x: 5, y: 5 }, &map), vec![]);
    assert_eq!(shortest_path(&map), Some(4));
    let empty = MemMap::new(-1, 3, &corrupt);
    assert!(empty.m.is_empty());
    assert_eq!(shortest_path(&empty), None);
    assert_eq!((X_MAX, Y_MAX, BYTES_FALLEN), (70, 70, 1024));
}

#[test]
fn day18_shortest_way() {
    let none: FxHashSet<(isize, isize)> = FxHashSet::default();
    assert_eq!(shortest_path(&MemMap::new(6, 6, &none)), Some(12));
    assert_eq!(shortest_path(&MemMap::new(0, 0, &none)), None);
    assert_eq!(shortest_path(&MemMap::new(1, 0, &none)), Some(1));
    let wall: FxHashSet<(isize, isize)> = [(1, 0), (1, 1), (1, 2)].into_iter().collect();
    assert_eq!(shortest_path(&MemMap::new(2, 2, &wall)), None);
    let gap: FxHashSet<(isize, isize)> = [(1, 0), (1, 1)].into_iter().collect();
    assert_eq!(shortest_path(&MemMap::new(2, 2, &gap)), Some(4));
    let detour: FxHashSet<(isize, isize)> = [(1, 1), (1, 2), (1, 3), (3, 0), (3, 1), (3, 2)].into_iter().collect();
    assert_eq!(shortest_path(&MemMap::new(4, 3, &detour)), Some(7));
    let goal_gone: FxHashSet<(isize, isize)> = [(2, 2)].into_iter().collect();
    assert_eq!(shortest_path(&MemMap::new(2, 2, &goal_gone)), None);
}

#[test]
fn day18_reading_places() {
    let input = String::from("1,2\n3,4\n-5,6\n");
    let all: FxHashSet<(isize, isize)> = [(1, 2), (3, 4), (-5, 6)].into_iter().collect();
    let two: FxHashSet<(isize, isize)> = [(1, 2), (3, 4)].into_iter().collect();
    assert_eq!(parse_corrupt_locs(&input, 2), Some(two));
    assert_eq!(parse_corrupt_locs(&input, 3), Some(all.clone()));
    assert_eq!(parse_corrupt_locs(&input, 9), Some(all.clone()));
    assert_eq!(parse_corrupt_locs(&input, 0), Some(all.clone()));
    assert_eq!(parse_corrupt_locs(&input, -1), Some(all));
    assert_eq!(parse_corrupt_locs(&String::from("1,2\nx,4\n"), 1).unwrap().len(), 1);
    assert_eq!(parse_corrupt_locs(&String::from("1,2\nx,4\n"), 2), None);
    assert_eq!(parse_corrupt_locs(&String::from("1\n"), 1), None);
    assert_eq!(parse_corrupt_locs(&String::from("1,2,z\n"), 1).unwrap().len(), 1);
    assert_eq!(_solution1(&String::from("1,x\n"), 2, 2, 1), None);
    assert_eq!(_solution2(&String::from("1,x\n"), 2, 2, 1), None);
    assert_eq!(_solution2(&String::from("0,1\n"), 2, 2, 1), None);
    assert_eq!(_solution2(&String::from("0,1\n1,0\n2,2\n"), 2, 2, 1), Some(String::from("1,0")));
    assert_eq!(_solution2(&String::from("0,1\n1,0\n2,2\n"), 2, 2, 3), Some(String::from("2,2")));
    assert_eq!(_solution2(&String::from("0,1\n1,0\n"), 2, 2, 0), None);
}

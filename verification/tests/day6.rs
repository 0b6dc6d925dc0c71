use advent::day6::{
    get_forward_step_pos, places_in, to_ipos, to_pos, CustomObstacle, Guard, GuardState, LabMap, Obstacle,
    Orientation, _solution1, _solution1_within, _solution2, _solution2_within,
};

const CASE1: &str = "....#.....\n.........#\n..........\n..#.......\n.......#..\n..........\n.#..^.....\n........#.\n#.........\n......#...\n";

#[test]
fn test_example_day1() {
    let result = _solution1(&String::from(CASE1));
    assert_eq!(result, Some(41), "counts guard path correctly")
}

#[test]
fn day6_test_example_day2() {
    let result = _solution2(&String::from(CASE1));
    assert_eq!(result, Some(6), "counts guard path correctly")
}

#[test]
fn day6_guard_turns_right() {
    let mut guard = Guard { orientation: Orientation::Up };
    assert_eq!(guard.symbol(), '^');
    guard.turn_right();
    assert_eq!(guard.orientation, Orientation::Right);
    assert_eq!(guard.symbol(), '>');
    guard.turn_right();
    assert_eq!(guard.orientation, Orientation::Down);
    assert_eq!(guard.symbol(), 'v');
    guard.turn_right();
    assert_eq!(guard.orientation, Orientation::Left);
    assert_eq!(guard.symbol(), '<');
    guard.turn_right();
    assert_eq!(guard.orientation, Orientation::Up);
    assert_eq!(Obstacle {}.symbol(), '#');
    assert_eq!(CustomObstacle {}.symbol(), 'O');
    assert_eq!(get_forward_step_pos((3, 4), &Guard { orientation: Orientation::Up }), (3, 3));
    assert_eq!(get_forward_step_pos((3, 4), &Guard { orientation: Orientation::Down }), (3, 5));
    assert_eq!(get_forward_step_pos((0, 4), &Guard { orientation: Orientation::Left }), (-1, 4));
    assert_eq!(get_forward_step_pos((3, 4), &Guard { orientation: Orientation::Right }), (4, 4));
    assert_eq!(to_ipos((3, 4)), (3, 4));
    assert_eq!(to_pos((3, 4)), (3, 4));
}

#[test]
fn day6_steps_in_a_small_lab() {
    let map = LabMap::from_str(&String::from(".#.\n.^.\n...\n")).unwrap();
    let start = map.guard_start();
    assert_eq!(start, GuardState { pos: (1, 1), orientation: Orientation::Up });
    assert!(map.in_bounds_at((0, 0)));
    assert!(map.in_bounds_at((2, 2)));
    assert!(!map.in_bounds_at((3, 0)));
    assert!(!map.in_bounds_at((0, -1)));
    assert!(map.vacant_at((0, 0), None));
    assert!(!map.vacant_at((1, 0), None));
    assert!(map.vacant_at((1, 1), None));
    assert!(!map.vacant_at((0, 0), Some((0, 0))));
    assert!(map.vacant_at((0, 0), Some((2, 0))));
    let turned = map.step(&start, None).unwrap();
    assert_eq!(turned, GuardState { pos: (1, 1), orientation: Orientation::Right });
    let moved = map.step(&turned, None).unwrap();
    assert_eq!(moved, GuardState { pos: (2, 1), orientation: Orientation::Right });
    assert_eq!(map.step(&moved, None), None);
    assert_eq!(
        map.step(&turned, Some((2, 1))),
        Some(GuardState { pos: (1, 1), orientation: Orientation::Down })
    );
    let (states, left) = map.resume_walk(&start, None, 100);
    assert!(left);
    assert_eq!(states, vec![start, turned, moved]);
    assert_eq!(places_in(&states), vec![(1, 1), (1, 1), (2, 1)]);
    let (states, left) = map.resume_walk(&start, None, 1);
    assert!(!left);
    assert_eq!(states, vec![start, turned]);
    let (states, left) = map.resume_walk(&start, None, 0);
    assert!(!left);
    assert_eq!(states, vec![start]);
    let (states, left) = map.resume_walk(&start, None, 2);
    assert!(left);
    assert_eq!(states.len(), 3);
    assert_eq!(map.enough_steps(), 36);
    assert_eq!(map.count_visited(100), Some(2));
    assert_eq!(map.count_visited(1), None);
    assert_eq!(map.count_traps(100), Some(0));
}

#[test]
fn day6_labs_that_are_none() {
    assert!(LabMap::from_str(&String::from("")).is_none());
    assert!(LabMap::from_str(&String::from("...\n...\n")).is_none());
    assert!(LabMap::from_str(&String::from("..\n.^.\n")).is_none());
    assert!(LabMap::from_str(&String::from(".^.\n..\n")).is_none());
    assert!(LabMap::from_str(&String::from(".^.\n.x.\n")).is_none());
    assert_eq!(_solution1(&String::from("")), None);
    assert_eq!(_solution2(&String::from("..\n..\n")), None);
}

#[test]
fn day6_guard_who_never_leaves() {
    let boxed = String::from(".#.\n#^#\n.#.\n");
    assert_eq!(_solution1(&boxed), None);
    assert_eq!(_solution2(&boxed), None);
    assert_eq!(_solution1_within(&boxed, 1000), None);
    let round = String::from(".#..\n...#\n#^..\n..#.\n");
    assert_eq!(_solution1(&round), None);
    assert_eq!(_solution1_within(&String::from(CASE1), 10), None);
    assert_eq!(_solution1_within(&String::from(CASE1), 1000), Some(41));
    assert_eq!(_solution2_within(&String::from(CASE1), 1000), Some(6));
    assert_eq!(_solution1(&String::from("^")), Some(1));
    assert_eq!(_solution2(&String::from("^")), Some(0));
    assert_eq!(_solution1(&String::from(".\n.\n^\n")), Some(3));
    assert_eq!(_solution2(&String::from(".\n.\n^\n")), Some(0));
}

#[test]
fn day6_second_guard_stands_in_the_way() {
    assert_eq!(_solution1(&String::from("^..\n...\n..^\n")), Some(3));
    assert_eq!(_solution1(&String::from("..^\n...\n..^\n")), Some(2));
}

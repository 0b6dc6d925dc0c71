use advent::day16::{
    get_best_goal_cost, potential_neighbors, solve_for_min, state, Action, Deer, Direction, Loc, Maze,
    Rotation, Solution, Tile, _compute_best_costs, _solution1, COST_MOVE, COST_TURN,
};
use rustc_hash::{FxHashMap, FxHashSet};

#[test]
fn day16_turning() {
    let deer = Deer { loc: Loc::from_u(3, 4), dir: Direction::East };
    assert_eq!(deer.turn_left(), Deer { loc: Loc { x: 3, y: 4 }, dir: Direction::North });
    assert_eq!(deer.turn_right(), Deer { loc: Loc { x: 3, y: 4 }, dir: Direction::South });
    for dir in [Direction::North, Direction::South, Direction::East, Direction::West] {
        let deer = Deer { loc: Loc { x: 0, y: 0 }, dir };
        assert_eq!(deer.turn_left().turn_right(), deer);
        assert_eq!(deer.turn_right().turn_left(), deer);
        assert_eq!(deer.turn_left().turn_left().turn_left().turn_left(), deer);
        assert_eq!(deer.turn_left().turn_left(), deer.turn_right().turn_right());
    }
    assert_eq!(Deer { loc: Loc { x: 0, y: 0 }, dir: Direction::North }.turn_left().dir, Direction::West);
    assert_eq!(Deer { loc: Loc { x: 0, y: 0 }, dir: Direction::West }.turn_left().dir, Direction::South);
    assert_eq!(Deer { loc: Loc { x: 0, y: 0 }, dir: Direction::South }.turn_left().dir, Direction::East);
}

#[test]
fn day16_neighbors() {
    assert_eq!(
        potential_neighbors(&Loc { x: 5, y: -2 }),
        vec![
            (Loc { x: 6, y: -2 }, Direction::East),
            (Loc { x: 4, y: -2 }, Direction::West),
            (Loc { x: 5, y: -1 }, Direction::South),
            (Loc { x: 5, y: -3 }, Direction::North),
        ]
    );
}

#[test]
fn day16_cost_of_actions() {
    let a = Deer { loc: Loc { x: 0, y: 0 }, dir: Direction::East };
    let b = Deer { loc: Loc { x: 1, y: 0 }, dir: Direction::East };
    let actions = vec![
        Action::Move(a, b),
        Action::Turn(Rotation::Left90),
        Action::Move(a, b),
        Action::Turn(Rotation::Right90),
        Action::Move(a, b),
    ];
    assert_eq!(Solution::compute_cost(&actions), 2003);
    assert_eq!(Solution::compute_cost(&vec![]), 0);
    let solution = Solution::new(actions);
    assert_eq!(solution.cost, 3 * COST_MOVE + 2 * COST_TURN);
    assert_eq!(solution.actions.len(), 5);
}

const CASE1: &str = "###############\n#.......#....E#\n#.#.###.#.###.#\n#.....#.#...#.#\n#.###.#####.#.#\n#.#.#.......#.#\n#.#.#####.###.#\n#...........#.#\n###.#.#####.#.#\n#...#.....#.#.#\n#.#.#.###.#.#.#\n#.....#...#.#.#\n#.###.#.#.#.#.#\n#S..#.....#...#\n###############\n";

const CASE2: &str = "#################\n#...#...#...#..E#\n#.#.#.#.#.#.#.#.#\n#.#.#.#...#...#.#\n#.#.#.#.###.#.#.#\n#...#.#.#.....#.#\n#.#.#.#.#.#####.#\n#.#...#.#.#.....#\n#.#.#####.#.###.#\n#.#.#.......#...#\n#.#.###.#####.###\n#.#.#...#.....#.#\n#.#.#.#####.###.#\n#.#.#.........#.#\n#.#.#.#########.#\n#S#.............#\n#################\n";

#[test]
fn example_day_16_1_1() {
    let result = _solution1(&String::from(CASE1));
    assert_eq!(result, Some(7036), "found optimal path");
}

#[test]
fn example_day_16_1_2() {
    let result = _solution1(&String::from(CASE2));
    assert_eq!(result, Some(11048), "found optimal path");
}

#[test]
fn day16_reading_a_maze() {
    let maze = Maze::from(&String::from("#####\n#S.E#\n#####\n")).unwrap();
    assert_eq!(maze.deer_start(), Deer { loc: Loc { x: 1, y: 1 }, dir: Direction::East });
    assert_eq!(maze.goal(), Loc { x: 3, y: 1 });
    assert!(Maze::from(&String::from("")).is_none());
    assert!(Maze::from(&String::from("#####\n#S..#\n#####\n")).is_none());
    assert!(Maze::from(&String::from("#####\n#..E#\n#####\n")).is_none());
    assert!(Maze::from(&String::from("#####\n#S?E#\n#####\n")).is_none());
    assert_eq!(Tile::Wall, Tile::Wall);
}

#[test]
fn day16_moves_in_a_maze() {
    let maze = Maze::from(&String::from("#####\n#...#\n#S#E#\n#####\n")).unwrap();
    let deer = maze.deer_start();
    assert!(maze.can_move(&deer, None).is_none());
    assert!(maze.can_move(&deer, Some(&Rotation::Right90)).is_none());
    let up = maze.can_move(&deer, Some(&Rotation::Left90)).unwrap();
    let above = Deer { loc: Loc { x: 1, y: 1 }, dir: Direction::North };
    assert_eq!(up.src_deer, deer);
    assert_eq!(up.dest_deer, above);
    assert_eq!(up.cost, 1001);
    assert_eq!(up.actions, vec![Action::Turn(Rotation::Left90), Action::Move(deer, above)]);
    let moves = maze.get_valid_moves(&deer);
    assert_eq!(moves.len(), 1);
    assert_eq!(moves[0].dest_deer, above);
    let east = Deer { loc: Loc { x: 1, y: 1 }, dir: Direction::East };
    let on = maze.can_move(&east, None).unwrap();
    assert_eq!(on.cost, 1);
    assert_eq!(on.dest_deer, Deer { loc: Loc { x: 2, y: 1 }, dir: Direction::East });
    assert_eq!(on.actions, vec![Action::Move(east, on.dest_deer)]);
    let moves = maze.get_valid_moves(&east);
    assert_eq!(moves.len(), 2);
    assert_eq!(moves[1].dest_deer, Deer { loc: Loc { x: 1, y: 2 }, dir: Direction::South });
    let wall = Deer { loc: Loc { x: 0, y: 0 }, dir: Direction::East };
    assert!(maze.get_valid_moves(&wall).is_empty());
    let outside = Deer { loc: Loc { x: -5, y: isize::MAX }, dir: Direction::South };
    assert!(maze.get_valid_moves(&outside).is_empty());
    assert_eq!(solve_for_min(&maze, &deer), Some(1001 + 1001 + 1 + 1001));
    assert_eq!(solve_for_min(&maze, &above), Some(1001 + 1 + 1001));
    assert_eq!(solve_for_min(&maze, &wall), Some(isize::MAX));
    let (best, ends) = _compute_best_costs(&maze, &deer);
    assert_eq!(best.get(&state(&deer)), Some(&0));
    assert_eq!(best.get(&state(&above)), Some(&1001));
    assert_eq!(best.get(&(3, 2, 1)), Some(&3004));
    assert_eq!(ends.len(), 1);
    assert!(ends.contains(&(3, 2, 1)));
    assert_eq!(state(&Deer { loc: Loc { x: 4, y: 7 }, dir: Direction::West }), (4, 7, 3));
}

#[test]
fn day16_walled_in() {
    assert_eq!(_solution1(&String::from("#####\n#S#E#\n#####\n")), Some(isize::MAX));
    assert_eq!(_solution1(&String::from("SE\n")), Some(1));
    assert_eq!(_solution1(&String::from("ES\n")), Some(isize::MAX));
    assert_eq!(_solution1(&String::from("E\nS\n")), Some(1001));
    assert_eq!(_solution1(&String::from("E.\n.S\n")), Some(2002));
}

#[test]
fn day16_cheapest_of_the_states_on_the_goal() {
    let mut best: FxHashMap<(isize, isize, isize), isize> = FxHashMap::default();
    let mut ends: FxHashSet<(isize, isize, isize)> = FxHashSet::default();
    assert_eq!(get_best_goal_cost(&best, &ends), Some(isize::MAX));
    best.insert((1, 1, 0), 40);
    best.insert((1, 1, 2), 30);
    best.insert((2, 1, 2), 5);
    ends.insert((1, 1, 0));
    ends.insert((1, 1, 2));
    assert_eq!(get_best_goal_cost(&best, &ends), Some(30));
}

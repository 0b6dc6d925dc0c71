use advent::day21::{
    compute_complexity, compute_shortest_seq, copy_ops, count_turns, has_number, join, moves_between,
    numeric_complexity_component, op_to_key, parse_keys, pick_first_least, render_one, shortest_paths,
    find_min_presses, keys_of_ops, smoothest_of, solution_for_robots, three_robots, type_path, ArmOp,
    ContenderKey, Key, Keypad, RobotController, ScoreCache, _solution1, _solution2, MANY_ROBOTS, MAX_WALK,
};

#[test]
fn day21_ops_and_their_keys() {
    assert_eq!(op_to_key(&ArmOp::Up), Key::Up);
    assert_eq!(op_to_key(&ArmOp::Down), Key::Down);
    assert_eq!(op_to_key(&ArmOp::Left), Key::Left);
    assert_eq!(op_to_key(&ArmOp::Right), Key::Right);
    assert_eq!(op_to_key(&ArmOp::Press), Key::A);
}

#[test]
fn day21_codes() {
    assert_eq!(
        parse_keys(&String::from("029A")),
        Some(vec![Key::Zero, Key::Two, Key::Nine, Key::A])
    );
    assert_eq!(
        parse_keys(&String::from("1345678")),
        Some(vec![Key::One, Key::Three, Key::Four, Key::Five, Key::Six, Key::Seven, Key::Eight])
    );
    assert_eq!(parse_keys(&String::from("")), Some(vec![]));
    assert_eq!(parse_keys(&String::from("02B")), None);
    assert_eq!(parse_keys(&String::from("a")), None);
    assert_eq!(numeric_complexity_component(&vec![Key::Zero, Key::Two, Key::Nine, Key::A]), 29);
    assert_eq!(numeric_complexity_component(&vec![Key::Nine, Key::Eight, Key::Zero, Key::A]), 980);
    assert_eq!(numeric_complexity_component(&vec![Key::One, Key::Seven, Key::Nine]), 179);
    assert_eq!(numeric_complexity_component(&vec![Key::Four, Key::Five, Key::Six, Key::A]), 456);
    assert_eq!(numeric_complexity_component(&vec![Key::Three, Key::Seven, Key::Nine, Key::A]), 379);
}

#[test]
fn day21_rendering() {
    let ops = vec![ArmOp::Left, ArmOp::Press, ArmOp::Up, ArmOp::Press, ArmOp::Right, ArmOp::Down];
    assert_eq!(render_one(&ops), "<A^A>v");
    assert_eq!(render_one(&vec![]), "");
    let key = ContenderKey(ops.clone(), 3);
    assert_eq!(key, ContenderKey(ops, 3));
}

fn example_codes() -> Vec<Vec<Key>> {
    vec![
        vec![Key::Zero, Key::Two, Key::Nine, Key::A],
        vec![Key::Nine, Key::Eight, Key::Zero, Key::A],
        vec![Key::One, Key::Seven, Key::Nine, Key::A],
        vec![Key::Four, Key::Five, Key::Six, Key::A],
        vec![Key::Three, Key::Seven, Key::Nine, Key::A],
    ]
}

#[test]
fn day_21_1_1_numeric() {
    let kp = Keypad::create_numeric();
    {
        let paths = shortest_paths(&kp, &Key::A, &Key::Nine);
        assert_eq!(paths, vec![vec![ArmOp::Up, ArmOp::Up, ArmOp::Up],]);
    }
    {
        let paths = shortest_paths(&kp, &Key::A, &Key::One);
        assert_eq!(paths, vec![vec![ArmOp::Up, ArmOp::Left, ArmOp::Left],]);
    }
    {
        let paths = shortest_paths(&kp, &Key::One, &Key::A);
        assert_eq!(paths, vec![vec![ArmOp::Right, ArmOp::Right, ArmOp::Down],]);
    }
    {
        let paths = shortest_paths(&kp, &Key::Nine, &Key::Four);
        assert_eq!(
            paths,
            vec![
                vec![ArmOp::Left, ArmOp::Left, ArmOp::Down],
                vec![ArmOp::Down, ArmOp::Left, ArmOp::Left],
            ]
        );
    }
}

#[test]
fn day_21_1_2() {
    let numeric_controller = RobotController {
        keypad: Keypad::create_numeric(),
        child: None,
    };
    let dir_controller1 = RobotController {
        keypad: Keypad::create_directional(),
        child: Some(Box::new(numeric_controller)),
    };
    let dir_controller2 = RobotController {
        keypad: Keypad::create_directional(),
        child: Some(Box::new(dir_controller1)),
    };
    let code = vec![Key::Zero, Key::Two, Key::Nine, Key::A];
    let result = dir_controller2.solve_root_seq(&code);
    assert_eq!(result.len(), 4);

    let shortest = compute_shortest_seq(&dir_controller2, &code);
    assert_eq!(shortest, Some(68));
}

#[test]
fn day_21_1_3() {
    let result = _solution1(&example_codes());
    assert_eq!(result, Some(126384));
}

#[test]
fn day21_keypads() {
    let numeric = Keypad::create_numeric();
    let directional = Keypad::create_directional();
    assert!(numeric.is_numeric());
    assert!(!directional.is_numeric());
    assert_eq!(numeric.link(Key::A, ArmOp::Up), Some(Key::Three));
    assert_eq!(numeric.link(Key::A, ArmOp::Left), Some(Key::Zero));
    assert_eq!(numeric.link(Key::A, ArmOp::Right), None);
    assert_eq!(numeric.link(Key::Zero, ArmOp::Left), None);
    assert_eq!(numeric.link(Key::One, ArmOp::Down), None);
    assert_eq!(numeric.link(Key::Five, ArmOp::Press), None);
    assert_eq!(numeric.link(Key::Seven, ArmOp::Right), Some(Key::Eight));
    assert_eq!(numeric.link(Key::Up, ArmOp::Down), None);
    assert_eq!(directional.link(Key::A, ArmOp::Left), Some(Key::Up));
    assert_eq!(directional.link(Key::A, ArmOp::Down), Some(Key::Right));
    assert_eq!(directional.link(Key::Left, ArmOp::Right), Some(Key::Down));
    assert_eq!(directional.link(Key::Left, ArmOp::Up), None);
    assert_eq!(directional.link(Key::Down, ArmOp::Up), Some(Key::Up));
    assert_eq!(directional.link(Key::Zero, ArmOp::Up), None);
    assert_eq!(MAX_WALK, 5);
}

#[test]
fn day21_ways_between_keys() {
    let numeric = Keypad::create_numeric();
    let directional = Keypad::create_directional();
    assert_eq!(shortest_paths(&numeric, &Key::Five, &Key::Five), vec![Vec::<ArmOp>::new()]);
    assert_eq!(
        shortest_paths(&numeric, &Key::A, &Key::Seven),
        vec![vec![ArmOp::Up, ArmOp::Up, ArmOp::Up, ArmOp::Left, ArmOp::Left]]
    );
    assert_eq!(
        shortest_paths(&numeric, &Key::Seven, &Key::A),
        vec![vec![ArmOp::Right, ArmOp::Right, ArmOp::Down, ArmOp::Down, ArmOp::Down]]
    );
    assert_eq!(
        shortest_paths(&numeric, &Key::Two, &Key::Nine),
        vec![
            vec![ArmOp::Up, ArmOp::Up, ArmOp::Right],
            vec![ArmOp::Right, ArmOp::Up, ArmOp::Up],
        ]
    );
    assert_eq!(
        shortest_paths(&directional, &Key::A, &Key::Left),
        vec![vec![ArmOp::Down, ArmOp::Left, ArmOp::Left]]
    );
    assert_eq!(
        shortest_paths(&directional, &Key::Left, &Key::A),
        vec![vec![ArmOp::Right, ArmOp::Right, ArmOp::Up]]
    );
    assert_eq!(
        shortest_paths(&directional, &Key::A, &Key::Down),
        vec![
            vec![ArmOp::Left, ArmOp::Down],
            vec![ArmOp::Down, ArmOp::Left],
        ]
    );
    assert!(shortest_paths(&directional, &Key::A, &Key::Nine).is_empty());
    assert!(shortest_paths(&numeric, &Key::Up, &Key::Nine).is_empty());
    assert_eq!(
        moves_between(&directional, Key::Up, Key::A),
        vec![vec![ArmOp::Right, ArmOp::Press]]
    );
    assert_eq!(count_turns(&vec![]), 0);
    assert_eq!(count_turns(&vec![ArmOp::Up]), 0);
    assert_eq!(count_turns(&vec![ArmOp::Up, ArmOp::Up, ArmOp::Left, ArmOp::Up, ArmOp::Press]), 3);
    assert_eq!(
        smoothest_of(&vec![
            vec![ArmOp::Up, ArmOp::Left, ArmOp::Up],
            vec![ArmOp::Up, ArmOp::Up, ArmOp::Left],
            vec![ArmOp::Left, ArmOp::Up, ArmOp::Up],
        ]),
        vec![
            vec![ArmOp::Up, ArmOp::Up, ArmOp::Left],
            vec![ArmOp::Left, ArmOp::Up, ArmOp::Up],
        ]
    );
    assert!(smoothest_of(&vec![]).is_empty());
    assert_eq!(join(&vec![ArmOp::Up], &vec![ArmOp::Left, ArmOp::Press]), vec![ArmOp::Up, ArmOp::Left, ArmOp::Press]);
    assert_eq!(copy_ops(&vec![ArmOp::Down, ArmOp::Press]), vec![ArmOp::Down, ArmOp::Press]);
}

#[test]
fn day21_robots_in_a_row() {
    let bottom = RobotController { keypad: Keypad::create_numeric(), child: None };
    let code = vec![Key::Zero, Key::Two, Key::Nine, Key::A];
    let groups = bottom.solve_root_seq(&code);
    assert_eq!(
        groups,
        vec![
            vec![vec![ArmOp::Left, ArmOp::Press]],
            vec![vec![ArmOp::Up, ArmOp::Press]],
            vec![
                vec![ArmOp::Up, ArmOp::Up, ArmOp::Right, ArmOp::Press],
                vec![ArmOp::Right, ArmOp::Up, ArmOp::Up, ArmOp::Press],
            ],
            vec![vec![ArmOp::Down, ArmOp::Down, ArmOp::Down, ArmOp::Press]],
        ]
    );
    assert_eq!(compute_shortest_seq(&bottom, &code), Some(12));
    let middle = RobotController { keypad: Keypad::create_directional(), child: Some(Box::new(bottom)) };
    assert_eq!(compute_shortest_seq(&middle, &code), Some(28));
    assert_eq!(
        type_path(&Keypad::create_directional(), &vec![ArmOp::Left, ArmOp::Press]),
        vec![vec![
            ArmOp::Down, ArmOp::Left, ArmOp::Left, ArmOp::Press, ArmOp::Right, ArmOp::Right, ArmOp::Up,
            ArmOp::Press
        ]]
    );
    assert!(type_path(&Keypad::create_directional(), &vec![]).is_empty());
    assert_eq!(
        pick_first_least(
            &vec![vec![ArmOp::Up, ArmOp::Press], vec![ArmOp::Left, ArmOp::Press]],
            &vec![vec![ArmOp::Left, ArmOp::Left], vec![ArmOp::Press, ArmOp::Press]]
        ),
        vec![vec![ArmOp::Up, ArmOp::Press, ArmOp::Press, ArmOp::Press]]
    );
    assert!(pick_first_least(&vec![vec![ArmOp::Up]], &vec![]).is_empty());
    let top = three_robots();
    assert_eq!(compute_shortest_seq(&top, &vec![Key::Nine, Key::Eight, Key::Zero, Key::A]), Some(60));
    assert_eq!(compute_shortest_seq(&top, &vec![Key::One, Key::Seven, Key::Nine, Key::A]), Some(68));
    assert_eq!(compute_shortest_seq(&top, &vec![Key::Four, Key::Five, Key::Six, Key::A]), Some(64));
    assert_eq!(compute_shortest_seq(&top, &vec![Key::Three, Key::Seven, Key::Nine, Key::A]), Some(64));
    assert_eq!(compute_shortest_seq(&top, &vec![]), Some(0));
    assert_eq!(compute_shortest_seq(&top, &vec![Key::Up]), None);
    assert_eq!(compute_complexity(&top, &example_codes()), Some(126384));
    assert_eq!(compute_complexity(&top, &vec![]), Some(0));
    assert_eq!(compute_complexity(&top, &vec![vec![Key::A, Key::One, Key::Two, Key::A]]), None);
    assert_eq!(compute_complexity(&top, &vec![vec![Key::One, Key::Two]]), None);
    assert!(has_number(&vec![Key::One, Key::Two, Key::Three]));
    assert!(!has_number(&vec![Key::One, Key::Two, Key::A]));
}

#[test]
fn day_21_2_1() {
    let result = solution_for_robots(&example_codes(), 2);
    assert_eq!(result, Some(126384));
}

#[test]
fn day21_counting_presses_through_robots() {
    let mut cache = ScoreCache::new();
    let contender = vec![ArmOp::Left, ArmOp::Press];
    assert_eq!(find_min_presses(&contender, 0, &mut cache), Some(2));
    assert_eq!(find_min_presses(&contender, 1, &mut cache), Some(8));
    assert_eq!(find_min_presses(&contender, 1, &mut cache), Some(8));
    assert_eq!(find_min_presses(&contender, 2, &mut cache), Some(18));
    assert_eq!(find_min_presses(&vec![], 3, &mut cache), Some(0));
    assert_eq!(find_min_presses(&vec![ArmOp::Press], 7, &mut cache), Some(1));
    let mut fresh = ScoreCache::new();
    assert_eq!(find_min_presses(&contender, 2, &mut fresh), Some(18));
    assert_eq!(keys_of_ops(&contender), vec![Key::Left, Key::A]);
    assert_eq!(solution_for_robots(&example_codes(), 0), Some(29 * 12 + 980 * 12 + 179 * 14 + 456 * 12 + 379 * 14));
    assert_eq!(solution_for_robots(&vec![], 25), Some(0));
    assert_eq!(solution_for_robots(&vec![vec![Key::Up, Key::One, Key::Two, Key::A]], 1), None);
    assert_eq!(MANY_ROBOTS, 25);
}

#[test]
fn day21_long_row_of_robots() {
    assert_eq!(_solution2(&example_codes()), Some(154115708116294));
}

#[test]
fn day21_cache_gives_back_what_it_was_given() {
    let mut cache = ScoreCache::new();
    let contender = vec![ArmOp::Down, ArmOp::Left, ArmOp::Press];
    let first = find_min_presses(&contender, 3, &mut cache);
    let again = find_min_presses(&contender, 3, &mut cache);
    assert_eq!(first, again);
    let mut fresh = ScoreCache::new();
    assert_eq!(find_min_presses(&contender, 3, &mut fresh), first);
    assert_eq!(find_min_presses(&contender, 0, &mut cache), Some(3));
}

use advent::day15::{
    Dimensions, Entity, Loc, Movement, PushErr, Warehouse, _loc_i, _loc_u, _solution1, _solution2, expand_warehouse, parse_movements,
};

#[test]
fn day15_movements_follow_the_empty_line() {
    let input = String::from("####\n#.@#\n####\n\n<^^>\nv<\n");
    assert_eq!(
        parse_movements(&input),
        Some(vec![
            Movement::Left,
            Movement::Up,
            Movement::Up,
            Movement::Right,
            Movement::Down,
            Movement::Left
        ])
    );
    assert_eq!(parse_movements(&String::from("<<\n\n>>\n\n^")), Some(vec![Movement::Right, Movement::Right, Movement::Up]));
    assert_eq!(parse_movements(&String::from("<<>>")), Some(vec![]));
    assert_eq!(parse_movements(&String::from("")), Some(vec![]));
    assert_eq!(parse_movements(&String::from("#\n\n<x>")), None);
}

#[test]
fn day15_widening() {
    let wide = expand_warehouse(&String::from("#.O@\n#x#\n"));
    assert_eq!(String::from_utf8(wide).unwrap(), "##..[]@.\n##x##\n");
    assert_eq!(expand_warehouse(&String::from("")), Vec::<u8>::new());
    let wide = expand_warehouse(&String::from("é."));
    assert_eq!(String::from_utf8(wide).unwrap(), "é..");
}

#[test]
fn day15_places() {
    assert_eq!(_loc_u(3, 4), Loc { x: 3, y: 4 });
    assert_eq!(_loc_i(-3, 4), Loc { x: -3, y: 4 });
    let d = Dimensions { x: 2, y: 3 };
    assert_eq!(d.x * d.y, 6);
    assert_ne!(Entity::Box, Entity::BoxLeft);
    assert_ne!(Entity::Robot, Entity::Wall);
    assert_ne!(Entity::BoxRight, Entity::BoxLeft);
}

const SMALL: &str = "########\n#..O.O.#\n##@.O..#\n#...O..#\n#.#.O..#\n#...O..#\n#......#\n########\n\n<^^>>>vv<v>>v<<\n";

const WIDE: &str = "#######\n#...#.#\n#.....#\n#..OO@#\n#..O..#\n#.....#\n#######\n\n<vv<<^^<<^^\n";

#[test]
fn test_example_day_15_1_2() {
    let result = _solution1(&String::from(SMALL));
    assert_eq!(result, Some(2028));
}

#[test]
fn day15_wide_boxes() {
    assert_eq!(_solution2(&String::from(WIDE)), Some(618));
    assert_eq!(_solution1(&String::from(WIDE)), Some(303 + 202 + 403));
}

#[test]
fn day15_pushing() {
    let mut wh = Warehouse::from(&String::from("######\n#@OO.#\n#.#..#\n######\n")).unwrap();
    assert_eq!(wh.robot_loc(), Loc { x: 1, y: 1 });
    assert_eq!(wh.at(&Loc { x: 0, y: 0 }), Some(Some(Entity::Wall)));
    assert_eq!(wh.at(&Loc { x: 4, y: 1 }), Some(None));
    assert_eq!(wh.at(&Loc { x: 6, y: 1 }), None);
    assert_eq!(wh.compute_gps_sum(), Some(102 + 103));
    assert_eq!(wh.try_push_robot(&Movement::Up), Err(PushErr::Blocked));
    assert_eq!(wh.try_push_robot(&Movement::Left), Err(PushErr::Blocked));
    let mut pushes = vec![];
    assert_eq!(wh._try_push(&Loc { x: 1, y: 1 }, &Movement::Right, &mut pushes), Some(true));
    assert_eq!(
        pushes,
        vec![
            (Loc { x: 3, y: 1 }, Loc { x: 4, y: 1 }, true),
            (Loc { x: 2, y: 1 }, Loc { x: 3, y: 1 }, true),
            (Loc { x: 1, y: 1 }, Loc { x: 2, y: 1 }, true),
        ]
    );
    assert_eq!(wh.try_push_robot(&Movement::Right), Ok(Loc { x: 2, y: 1 }));
    assert_eq!(wh.at(&Loc { x: 1, y: 1 }), Some(None));
    assert_eq!(wh.at(&Loc { x: 2, y: 1 }), Some(Some(Entity::Robot)));
    assert_eq!(wh.at(&Loc { x: 3, y: 1 }), Some(Some(Entity::Box)));
    assert_eq!(wh.at(&Loc { x: 4, y: 1 }), Some(Some(Entity::Box)));
    assert_eq!(wh.compute_gps_sum(), Some(103 + 104));
    assert_eq!(wh.try_push_robot(&Movement::Right), Err(PushErr::Blocked));
    assert_eq!(wh.robot_loc(), Loc { x: 2, y: 1 });
    assert_eq!(wh.try_push_robot(&Movement::Down), Err(PushErr::Blocked));
    assert_eq!(wh.try_push_robot(&Movement::Left), Ok(Loc { x: 1, y: 1 }));
    assert_eq!(wh.try_push_robot(&Movement::Down), Ok(Loc { x: 1, y: 2 }));
    assert!(wh._mv(&Loc { x: 3, y: 1 }, &Loc { x: 3, y: 2 }));
    assert!(!wh._mv(&Loc { x: 3, y: 1 }, &Loc { x: 3, y: 2 }));
    assert!(!wh._mv(&Loc { x: 4, y: 1 }, &Loc { x: 5, y: 1 }));
    assert!(!wh._mv(&Loc { x: 4, y: 1 }, &Loc { x: 9, y: 1 }));
    assert_eq!(wh.compute_gps_sum(), Some(203 + 104));
    assert_eq!(wh.compute_scaled_gps_sum(), Some(0));
    assert!(wh.run_moves(&vec![Movement::Up, Movement::Right, Movement::Right, Movement::Right]));
    assert_eq!(wh.robot_loc(), Loc { x: 3, y: 1 });
    wh.insert(&Loc { x: 4, y: 2 }, Some(Entity::Robot));
    assert_eq!(wh.robot_loc(), Loc { x: 4, y: 2 });
    assert_eq!(wh.at(&Loc { x: 4, y: 2 }), Some(None));
    assert_eq!(wh.try_push_robot(&Movement::Up), Err(PushErr::Blocked));
    wh.insert(&Loc { x: 1, y: 2 }, Some(Entity::Robot));
    wh.insert(&Loc { x: 1, y: 2 }, Some(Entity::Box));
    assert_eq!(wh.robot_loc(), Loc { x: 1, y: 2 });
    assert_eq!(wh.at(&Loc { x: 1, y: 2 }), Some(None));
    assert_eq!(wh.try_push_robot(&Movement::Up), Err(PushErr::Broken));
    assert!(!wh.run_moves(&vec![Movement::Down, Movement::Up]));
    assert_eq!(wh._get_push_dest(&Loc { x: 4, y: 2 }, &Movement::Up), Loc { x: 4, y: 1 });
    assert_eq!(wh._get_push_dest(&Loc { x: 4, y: 2 }, &Movement::Left), Loc { x: 3, y: 2 });
}

#[test]
fn day15_wide_box_takes_its_other_half() {
    let mut wh = Warehouse::from(&String::from("######\n#....#\n#.[].#\n#.@..#\n######\n")).unwrap();
    let mut pushes = vec![];
    assert_eq!(wh._try_push(&Loc { x: 2, y: 3 }, &Movement::Up, &mut pushes), Some(true));
    assert_eq!(
        pushes,
        vec![
            (Loc { x: 2, y: 2 }, Loc { x: 2, y: 1 }, true),
            (Loc { x: 3, y: 2 }, Loc { x: 3, y: 1 }, true),
            (Loc { x: 2, y: 3 }, Loc { x: 2, y: 2 }, true),
        ]
    );
    assert_eq!(wh.try_push_robot(&Movement::Up), Ok(Loc { x: 2, y: 2 }));
    assert_eq!(wh.at(&Loc { x: 2, y: 1 }), Some(Some(Entity::BoxLeft)));
    assert_eq!(wh.at(&Loc { x: 3, y: 1 }), Some(Some(Entity::BoxRight)));
    assert_eq!(wh.at(&Loc { x: 3, y: 2 }), Some(None));
    assert_eq!(wh.try_push_robot(&Movement::Up), Err(PushErr::Blocked));
    assert_eq!(wh.compute_scaled_gps_sum(), Some(102));
    let mut torn = Warehouse::from(&String::from("#####\n#...#\n#.[.#\n#.@.#\n#####\n")).unwrap();
    assert_eq!(torn.try_push_robot(&Movement::Up), Err(PushErr::Broken));
}

#[test]
fn day15_reading_a_warehouse() {
    assert!(Warehouse::from(&String::from("")).is_none());
    assert!(Warehouse::from(&String::from("\n#@#\n")).is_none());
    assert!(Warehouse::from(&String::from("###\n#.#\n###\n")).is_none());
    assert!(Warehouse::from(&String::from("###\n#@#\n##\n")).is_none());
    assert!(Warehouse::from(&String::from("###\n#@#\n####\n")).is_none());
    assert!(Warehouse::from(&String::from("###\n#@x\n###\n")).is_none());
    let two = Warehouse::from(&String::from("@.@\n\nnot read\n")).unwrap();
    assert_eq!(two.robot_loc(), Loc { x: 2, y: 0 });
    assert_eq!(_solution1(&String::from("###\n#@#\n###\n\n<x\n")), None);
    assert_eq!(_solution1(&String::from("###\n#@#\n###\n")), Some(0));
    assert_eq!(_solution1(&String::from("@O.\n\n>>>\n")), None);
    assert_eq!(_solution1(&String::from("#@O.#\n\n>>>\n")), Some(3));
}

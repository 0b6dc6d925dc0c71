use advent::day14::{
    in_bounds, parse_input, parse_line, robot_from_groups, BoundingBox, Dimensions, Lobby,
    Location, Quadrant, Robot, Velocity, _solution1,
};

const CASE1: &str = "p=0,4 v=3,-3\np=6,3 v=-1,-3\np=10,3 v=-1,2\np=2,0 v=2,-1\np=0,0 v=1,3\np=3,0 v=-2,-2\np=7,6 v=-1,-3\np=3,0 v=-1,-2\np=9,3 v=2,3\np=7,3 v=-1,2\np=2,4 v=2,-3\np=9,5 v=-3,-3\n";

#[test]
fn step_all_single() {
    let mut l = Lobby::new(Dimensions { x: 3, y: 3 });
    let r = Robot {
        loc: Location { x: 0, y: 0 },
        vel: Velocity { x: 1, y: 1 },
    };
    l.add_robot(r);
    {
        l.step_all_robots();
        let r = &l.robots[0];
        assert_eq!(r.loc.x, 1, "advance x 0");
        assert_eq!(r.loc.y, 1, "advance y 0");
    }

    {
        l.step_all_robots();
        let r = &l.robots[0];
        assert_eq!(r.loc.x, 2, "advance x 1");
        assert_eq!(r.loc.y, 2, "advance y 1");
    }

    {
        l.step_all_robots();
        let r = &l.robots[0];
        assert_eq!(r.loc.x, 0, "advance x 2");
        assert_eq!(r.loc.y, 0, "advance y 2");
    }

    {
        l.step_all_robots();
        let r = &l.robots[0];
        assert_eq!(r.loc.x, 1, "advance x 3");
        assert_eq!(r.loc.y, 1, "advance y 3");
    }
}

#[test]
fn get_quadrant_bounds() {
    let l = Lobby::new(Dimensions { x: 3, y: 3 });

    assert_eq!(
        l.quadrant_bounds(Quadrant::One),
        BoundingBox {
            upper_left: Location { x: 0, y: 0 },
            lower_right: Location { x: 0, y: 0 },
        }
    );

    assert_eq!(
        l.quadrant_bounds(Quadrant::Two),
        BoundingBox {
            upper_left: Location { x: 0, y: 2 },
            lower_right: Location { x: 0, y: 2 },
        }
    );

    assert_eq!(
        l.quadrant_bounds(Quadrant::Three),
        BoundingBox {
            upper_left: Location { x: 2, y: 0 },
            lower_right: Location { x: 2, y: 0 },
        }
    );

    assert_eq!(
        l.quadrant_bounds(Quadrant::Four),
        BoundingBox {
            upper_left: Location { x: 2, y: 2 },
            lower_right: Location { x: 2, y: 2 },
        }
    );
}

#[test]
fn example_day_14_1() {
    let result = _solution1(&String::from(CASE1), Dimensions { x: 11, y: 7 });
    assert_eq!(result, Some(12), "14_1 example");
}

#[test]
fn day14_steps_wrap_from_the_far_edge() {
    let l = Lobby::new(Dimensions { x: 11, y: 7 });
    let r = Robot { loc: Location { x: 2, y: 4 }, vel: Velocity { x: 2, y: -3 } };
    assert_eq!(l.get_next_loc(&r), Location { x: 4, y: 1 });
    let r = Robot { loc: Location { x: 4, y: 1 }, vel: Velocity { x: 2, y: -3 } };
    assert_eq!(l.get_next_loc(&r), Location { x: 6, y: 5 });
    let r = Robot { loc: Location { x: 0, y: 0 }, vel: Velocity { x: -11, y: -14 } };
    assert_eq!(l.get_next_loc(&r), Location { x: 11, y: 7 });
    let r = Robot { loc: Location { x: 10, y: 6 }, vel: Velocity { x: 1, y: 8 } };
    assert_eq!(l.get_next_loc(&r), Location { x: 0, y: 0 });
}

#[test]
fn day14_step_many_is_repeated_stepping() {
    let mut once = Lobby::new(Dimensions { x: 11, y: 7 });
    let mut many = Lobby::new(Dimensions { x: 11, y: 7 });
    for r in parse_input(&String::from(CASE1)).unwrap() {
        once.add_robot(r);
        many.add_robot(r);
    }
    for _ in 0..5 {
        once.step_all_robots();
    }
    many.step_many(5);
    assert_eq!(once.robots, many.robots);
    many._step_robot_at(3);
    assert_ne!(once.robots[3], many.robots[3]);
    assert_eq!(once.robots[2], many.robots[2]);
}

#[test]
fn day14_scores_and_safety_factor() {
    let mut l = Lobby::new(Dimensions { x: 11, y: 7 });
    for r in parse_input(&String::from(CASE1)).unwrap() {
        l.add_robot(r);
    }
    l.step_many(100);
    assert_eq!(l.quadrant_score(Quadrant::One), 1);
    assert_eq!(l.quadrant_score(Quadrant::Two), 4);
    assert_eq!(l.quadrant_score(Quadrant::Three), 3);
    assert_eq!(l.quadrant_score(Quadrant::Four), 1);
    assert_eq!(l.get_safety_factor(), Some(12));
    let empty = Lobby::new(Dimensions { x: 11, y: 7 });
    assert_eq!(empty.get_safety_factor(), Some(1));
}

#[test]
fn day14_in_bounds_includes_the_edges() {
    let bb = BoundingBox { upper_left: Location { x: 1, y: 2 }, lower_right: Location { x: 3, y: 4 } };
    assert!(in_bounds(&Location { x: 1, y: 2 }, &bb));
    assert!(in_bounds(&Location { x: 3, y: 4 }, &bb));
    assert!(!in_bounds(&Location { x: 0, y: 3 }, &bb));
    assert!(!in_bounds(&Location { x: 2, y: 5 }, &bb));
}

#[test]
fn day14_parsing() {
    let robots = parse_input(&String::from(CASE1)).unwrap();
    assert_eq!(robots.len(), 12);
    assert_eq!(robots[0], Robot { loc: Location { x: 0, y: 4 }, vel: Velocity { x: 3, y: -3 } });
    assert_eq!(robots[11], Robot { loc: Location { x: 9, y: 5 }, vel: Velocity { x: -3, y: -3 } });
    assert_eq!(parse_line("nothing here"), Some(vec![]));
    assert_eq!(parse_line("p=1,2 v=3,4 p=5,6  v=-7,-8").unwrap().len(), 2);
    assert_eq!(parse_line("p=1,2 v=3,99999999999999999999"), None);
    assert_eq!(robot_from_groups(&vec![String::from("1")]), None);
    let groups: Vec<String> = ["p=1,2 v=3,-4", "1", "2", "3", "-4"].iter().map(|s| s.to_string()).collect();
    assert_eq!(
        robot_from_groups(&groups),
        Some(Robot { loc: Location { x: 1, y: 2 }, vel: Velocity { x: 3, y: -4 } })
    );
    assert_eq!(_solution1(&String::from("p=1,2 v=3,99999999999999999999"), Dimensions { x: 11, y: 7 }), None);
    assert_eq!(_solution1(&String::from(CASE1), Dimensions { x: 0, y: 7 }), None);
    assert_eq!(_solution1(&String::from("p=12,2 v=3,4"), Dimensions { x: 11, y: 7 }), None);
}

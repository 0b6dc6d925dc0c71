use advent::day13::{
    confs_from_lines, ext_gcd, offset_from_groups, parse_conf, parse_loc, parse_offset, solve,
    stop_search, update_if_at_target, ClawConf, Loc, Offset, SolutionState, A_BTN_COST,
    B_BTN_COST, MAX_PRESSES,
};

const CASE1: &str = "Button A: X+94, Y+34\nButton B: X+22, Y+67\nPrize: X=8400, Y=5400\n\nButton A: X+26, Y+66\nButton B: X+67, Y+21\nPrize: X=12748, Y=12176\n\nButton A: X+17, Y+86\nButton B: X+84, Y+37\nPrize: X=7870, Y=6450\n\nButton A: X+69, Y+23\nButton B: X+27, Y+71\nPrize: X=18641, Y=10279\n";

fn first_conf() -> ClawConf {
    ClawConf {
        a_offset: Offset { x: 94, y: 34 },
        b_offset: Offset { x: 22, y: 67 },
        prize_location: Loc { x: 8400, y: 5400 },
    }
}

#[test]
fn example_day_13_1_parse_input() {
    let input = String::from(CASE1);
    let configs = parse_conf(&input).unwrap();

    assert_eq!(configs.len(), 4, "parsed all configs");
    let c = &configs[0];
    assert_eq!(c.a_offset, Offset { x: 94, y: 34 }, "correct a offset");
    assert_eq!(c.b_offset, Offset { x: 22, y: 67 }, "correct b offset");
    assert_eq!(c.prize_location, Loc { x: 8400, y: 5400 }, "correct price loc");
    assert_eq!(configs[3].prize_location, Loc { x: 18641, y: 10279 });
}

#[test]
fn day13_parse_rejects_incomplete_input() {
    assert!(parse_conf(&String::from("")).is_none());
    assert!(parse_conf(&String::from("Button A: X+94, Y+34\nButton B: X+22, Y+67\n")).is_none());
    assert!(parse_conf(&String::from("Button A: X+94, Y+34\nButton B: X+22, Y+67\nPrize: X=1, Y=2\n\n")).is_none());
    assert!(parse_conf(&String::from("Button A: X+94, Y+34\nButton B: X-22, Y+67\nPrize: X=1, Y=2")).is_none());
    let lines = vec![String::from("X+1, Y+2"), String::from("X+3, Y+4"), String::from("X=5, Y=6")];
    let confs = confs_from_lines(&lines).unwrap();
    assert_eq!(confs[0].b_offset, Offset { x: 3, y: 4 });
}

#[test]
fn day13_parse_offset_and_loc() {
    assert_eq!(parse_offset("Button A: X+94, Y+34"), Some(Offset { x: 94, y: 34 }));
    assert_eq!(parse_offset("Button A: X=94, Y=34"), None);
    assert_eq!(parse_offset("X+99999999999999999999, Y+1"), None);
    assert_eq!(parse_loc("Prize: X=8400, Y=5400"), Some(Loc { x: 8400, y: 5400 }));
    assert_eq!(parse_loc("Prize: X+8400, Y+5400"), None);
    assert_eq!(offset_from_groups(&vec![String::from("7"), String::from("-8")]), None);
    assert_eq!(
        offset_from_groups(&vec![String::from("X+7, Y+8"), String::from("7"), String::from("-8")]),
        Some(Offset { x: 7, y: -8 })
    );
}

#[test]
fn day13_state_arithmetic() {
    let conf = first_conf();
    let mut state = SolutionState { num_a_presses: 80, num_b_presses: 40, conf: &conf };
    assert_eq!(state.cost(), 280);
    assert_eq!(state.cost(), A_BTN_COST * 80 + B_BTN_COST * 40);
    assert_eq!(state.loc(), Loc { x: 8400, y: 5400 });
    assert!(state.at_target());
    assert!(!state.beyond_target());
    assert!(state.a_divisible());
    assert_eq!(state.get_a_presses_needed(), 80);
    state.press_a();
    assert_eq!(state.num_a_presses, 81);
    assert!(state.beyond_target());
    assert!(!state.at_target());
    state.unpress_a();
    state.press_b();
    assert_eq!(state.num_b_presses, 41);
    assert!(!state.a_divisible());
    assert_eq!(state.get_a_presses_needed(), (8400 - 41 * 22) / 94);
    state.unpress_b();
    state.unpress_b();
    assert_eq!(state.num_b_presses, 39);
    assert_eq!(MAX_PRESSES, 100);
}

#[test]
fn day13_stop_search_and_update() {
    let conf = first_conf();
    let at_prize = SolutionState { num_a_presses: 80, num_b_presses: 40, conf: &conf };
    let mut best = SolutionState { num_a_presses: 101, num_b_presses: 101, conf: &conf };
    assert!(!stop_search(&at_prize, &best, 100));
    assert!(stop_search(&at_prize, &best, 79));
    assert!(stop_search(&SolutionState { num_a_presses: 90, num_b_presses: 0, conf: &conf }, &best, 100));
    update_if_at_target(&at_prize, &mut best);
    assert_eq!((best.num_a_presses, best.num_b_presses), (80, 40));
    assert!(stop_search(&at_prize, &best, 100));
    let elsewhere = SolutionState { num_a_presses: 1, num_b_presses: 1, conf: &conf };
    update_if_at_target(&elsewhere, &mut best);
    assert_eq!((best.num_a_presses, best.num_b_presses), (80, 40));
}

#[test]
fn day13_ext_gcd_gives_bezout_coefficients() {
    assert_eq!(ext_gcd(94, 22), Some((2, 4, -17)));
    assert_eq!(ext_gcd(5, 0), Some((5, 1, 0)));
    assert_eq!(ext_gcd(0, 0), Some((0, 1, 0)));
    assert_eq!(ext_gcd(isize::MIN, -1), None);
    for (a, b) in [(240isize, 46isize), (-12, 18), (17, -5), (0, 9), (1, 1)] {
        let (g, x, y) = ext_gcd(a, b).unwrap();
        assert_eq!(a * x + b * y, g);
        assert_eq!(a % g, 0);
        assert_eq!(b % g, 0);
    }
}

#[test]
fn day13_solve_reaches_the_prize() {
    assert_eq!(solve(94, 22, 8400), Some((2, 16800, -71400)));
    assert_eq!(solve(94, 22, 8401), None);
    assert_eq!(solve(0, 0, 5), None);
    let (g, x, y) = solve(26, 67, 12748).unwrap();
    assert_eq!(g, 1);
    assert_eq!(26 * x + 67 * y, 12748);
}

use advent::day20::{
    compute_goal_distances, count_savings, get_cheat_offsets, get_cheat_offsets2, get_cheats,
    get_cheats2, get_next_moves, offsets_in_order, places_in_order, Dimensions, Loc, Tile, Track,
    _solution1, _solution2,
};
use rustc_hash::FxHashMap;

const CASE1: &str = "###############\n#...#...#.....#\n#.#.#.#.#.###.#\n#S#...#.#.#...#\n#######.#.#.###\n#######.#.#...#\n#######.#.###.#\n###..E#...#...#\n###.#######.###\n#...###...#...#\n#.#####.#.###.#\n#.#...#.#.#...#\n#.#.#.#.#.#.###\n#...#...#...###\n###############\n";

#[test]
fn day_20_1_1() {
    let track = Track::from(&String::from(CASE1)).unwrap();
    let dists = compute_goal_distances(&track).unwrap();
    let cheats = get_cheats(&track, &dists, 2).unwrap();
    let expected: FxHashMap<isize, isize> = Vec::from([
        (2, 14),
        (4, 14),
        (6, 2),
        (8, 4),
        (10, 2),
        (12, 3),
        (20, 1),
        (36, 1),
        (38, 1),
        (40, 1),
        (64, 1),
    ])
    .into_iter()
    .collect();
    assert_eq!(cheats, expected,);
}

#[test]
fn day_20_1_2() {
    let result = _solution1(&String::from(CASE1), 10);
    assert_eq!(result, Some(10));
}

#[test]
fn day_20_2_1() {
    let track = Track::from(&String::from(CASE1)).unwrap();
    let dists = compute_goal_distances(&track).unwrap();
    let cheats = get_cheats2(&track, &dists, 20).unwrap();
    let mut gte50_savings_cheats = FxHashMap::default();
    for (ps, count) in cheats.into_iter() {
        if ps >= 50 {
            gte50_savings_cheats.entry(ps).or_insert(count);
        }
    }
    let expected: FxHashMap<isize, isize> = Vec::from([
        (50, 32),
        (52, 31),
        (54, 29),
        (56, 39),
        (58, 25),
        (60, 23),
        (62, 20),
        (64, 19),
        (66, 12),
        (68, 14),
        (70, 12),
        (72, 22),
        (74, 4),
        (76, 3),
    ])
    .into_iter()
    .collect();
    assert_eq!(gte50_savings_cheats, expected,);
}

#[test]
fn day_20_2_2() {
    let result = _solution2(&String::from(CASE1), 74);
    assert_eq!(result, Some(7));
}

#[test]
fn day20_track_is_read_from_its_drawing() {
    let track = Track::from(&String::from("#S.#\n#.E\n")).unwrap();
    assert_eq!(track.start, Loc { x: 1, y: 0 });
    assert_eq!(track.end, Loc { x: 2, y: 1 });
    assert_eq!(track.dim, Dimensions { width: 4, height: 2 });
    assert_eq!(track.lens, vec![4, 3]);
    assert_eq!(track.m.len(), 7);
    assert_eq!(track.tile_at(&Loc { x: 0, y: 0 }), Some(Tile::Wall));
    assert_eq!(track.tile_at(&Loc { x: 1, y: 0 }), Some(Tile::Vacant));
    assert_eq!(track.tile_at(&Loc { x: 2, y: 1 }), Some(Tile::Vacant));
    assert_eq!(track.tile_at(&Loc { x: 3, y: 1 }), None);
    assert_eq!(track.tile_at(&Loc { x: 0, y: -1 }), None);
    assert!(Track::from(&String::from("")).is_none());
    let unmarked = Track::from(&String::from("..\n")).unwrap();
    assert_eq!(unmarked.start, Loc { x: -1, y: -1 });
    assert_eq!(unmarked.end, Loc { x: -1, y: -1 });
    assert_eq!(
        get_next_moves(&track, &Loc { x: 1, y: 1 }),
        vec![Loc { x: 1, y: 0 }, Loc { x: 2, y: 1 }]
    );
    assert_eq!(get_next_moves(&track, &Loc { x: isize::MAX, y: isize::MIN }), vec![]);
}

#[test]
fn day20_distances_along_the_way() {
    let track = Track::from(&String::from("#####\n#S..#\n###.#\n#E..#\n#####\n")).unwrap();
    let dists = compute_goal_distances(&track).unwrap();
    assert_eq!(dists.len(), 7);
    assert_eq!(dists[&(1, 3)], 0);
    assert_eq!(dists[&(3, 3)], 2);
    assert_eq!(dists[&(3, 2)], 3);
    assert_eq!(dists[&(1, 1)], 6);
    assert_eq!(
        places_in_order(&track, &dists),
        vec![(1, 1), (2, 1), (3, 1), (3, 2), (1, 3), (2, 3), (3, 3)]
    );
    let cheats = get_cheats(&track, &dists, 2).unwrap();
    assert_eq!(cheats.len(), 2);
    assert_eq!(cheats[&4], 1);
    assert_eq!(cheats[&2], 1);
    assert_eq!(count_savings(&cheats, 3), Some(1));
    assert_eq!(count_savings(&cheats, 1), Some(2));
    assert_eq!(count_savings(&cheats, 5), Some(0));
    let fork = Track::from(&String::from("S..\n.#.\n..E\n")).unwrap();
    assert!(compute_goal_distances(&fork).is_none());
    let dead_end = Track::from(&String::from("S#.E\n")).unwrap();
    assert!(compute_goal_distances(&dead_end).is_none());
    let at_once = Track::from(&String::from("#\n")).unwrap();
    assert_eq!(compute_goal_distances(&at_once).unwrap().len(), 1);
    assert_eq!(_solution1(&String::from("S#.E\n"), 1), None);
}

#[test]
fn day20_offsets() {
    assert_eq!(
        offsets_in_order(1, true),
        vec![(-1, 0), (0, -1), (0, 1), (1, 0)]
    );
    assert_eq!(
        offsets_in_order(1, false),
        vec![(-1, 0), (0, -1), (0, 0), (0, 1), (1, 0)]
    );
    assert_eq!(offsets_in_order(0, true), vec![(0, 0)]);
    assert_eq!(offsets_in_order(-1, false), vec![]);
    assert_eq!(get_cheat_offsets(2).len(), 8);
    assert_eq!(get_cheat_offsets2(2).len(), 13);
    assert_eq!(get_cheat_offsets2(20).len(), 841);
    assert!(get_cheat_offsets(2).contains(&(-1, 1)));
    assert!(!get_cheat_offsets(2).contains(&(1, 0)));
    assert!(get_cheat_offsets(-3).is_empty());
}

#[test]
fn day20_counts_that_leave_the_machine_integers() {
    let mut cheats: FxHashMap<isize, isize> = FxHashMap::default();
    assert_eq!(count_savings(&cheats, 0), Some(0));
    cheats.insert(1, isize::MAX);
    cheats.insert(2, 1);
    assert_eq!(count_savings(&cheats, 0), None);
    assert_eq!(count_savings(&cheats, 2), Some(1));
    assert_eq!(count_savings(&cheats, 3), Some(0));
    assert_eq!(_solution1(&String::from(""), 1), None);
    assert_eq!(_solution2(&String::from(""), 1), None);
}

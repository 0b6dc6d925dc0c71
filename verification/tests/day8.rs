use advent::day8::{CityMap, _solution1, _solution2};

const CASE1: &str = "............\n........0...\n.....0......\n.......0....\n....0.......\n......A.....\n............\n............\n........A...\n.........A..\n............\n............\n";

fn distinct(mut places: Vec<(isize, isize)>) -> usize {
    places.sort();
    places.dedup();
    places.len()
}

#[test]
fn test_example_day8_1() {
    let result = _solution1(&String::from(CASE1));
    assert_eq!(result, Some(14));
}

#[test]
fn test_example_day8_2() {
    let result = _solution2(&String::from(CASE1));
    assert_eq!(result, Some(34));
}

#[test]
fn day8_antinodes_are_collected_in_order() {
    let map = CityMap::from(&String::from("..........\n...a......\n..........\n....a.....\n..........\n")).unwrap();
    assert_eq!(map.antinodes(false), Vec::<(isize, isize)>::new());
    let map = CityMap::from(&String::from("......\n......\n..a...\n...a..\n......\n......\n")).unwrap();
    assert_eq!(map.antinodes(false), vec![(4, 4), (1, 1)]);
    assert_eq!(map.antinodes(true), vec![(2, 2), (3, 3), (4, 4), (5, 5), (1, 1), (0, 0)]);
    assert_eq!(map.count_antinodes(false), 2);
    assert_eq!(map.count_antinodes(true), 6);
    let map = CityMap::from(&String::from("b.a.a.b\n")).unwrap();
    assert_eq!(map.antinodes(false), vec![(6, 0), (0, 0)]);
    assert_eq!(map.antinodes(true), vec![(2, 0), (4, 0), (6, 0), (0, 0), (0, 0), (6, 0)]);
    assert_eq!(map.count_antinodes(true), 4);
    assert_eq!(distinct(map.antinodes(true)), 4);
    assert_eq!(_solution1(&String::from("")), Some(0));
}

#[test]
fn day8_antennas_and_their_places() {
    let map = CityMap::from(&String::from("a.b\n.a.\nb..a\n")).unwrap();
    assert_eq!(map.antenna_iter(), vec![b'a', b'b']);
    assert_eq!(map.coords_for_antenna(&b'a'), Some(vec![(0, 0), (1, 1), (3, 2)]));
    assert_eq!(map.coords_for_antenna(&b'b'), Some(vec![(2, 0), (0, 2)]));
    assert_eq!(map.coords_for_antenna(&b'c'), None);
    assert_eq!(map.coords_for_antenna(&b'.'), None);
    assert_eq!(
        map.coord_pairs_for_antenna(&b'a'),
        Some(vec![((0, 0), (1, 1)), ((0, 0), (3, 2)), ((1, 1), (3, 2))])
    );
    assert_eq!(map.coord_pairs_for_antenna(&b'b'), Some(vec![((2, 0), (0, 2))]));
    assert_eq!(map.coord_pairs_for_antenna(&b'c'), None);
    assert!(map.contains((3, 2)));
    assert!(!map.contains((3, 1)));
    assert!(!map.contains((-1, 0)));
    assert!(!map.contains((0, 3)));
    let empty = CityMap::from(&String::from("")).unwrap();
    assert!(empty.antenna_iter().is_empty());
    assert!(!empty.contains((0, 0)));
}

#[test]
fn day8_antinodes() {
    let map = CityMap::from(&String::from("......\n......\n..a...\n...a..\n......\n......\n")).unwrap();
    assert_eq!(map.antinode_locations_1(((2, 2), (3, 3))), ((4, 4), (1, 1)));
    assert_eq!(map.antinode_locations_1(((3, 3), (2, 2))), ((1, 1), (4, 4)));
    assert_eq!(map.antinode_locations_1(((0, 5), (5, 0))), ((10, -5), (-5, 10)));
    assert_eq!(
        map.antinode_locations_2(((2, 2), (3, 3))),
        vec![(2, 2), (3, 3), (4, 4), (5, 5), (1, 1), (0, 0)]
    );
    assert_eq!(map.antinode_locations_2(((0, 0), (5, 5))), vec![(0, 0), (5, 5)]);
    assert_eq!(map.antinode_locations_2(((1, 0), (1, 2))), vec![(1, 0), (1, 2), (1, 4)]);
    assert_eq!(
        map.antinode_locations_2(((4, 1), (2, 1))),
        vec![(4, 1), (2, 1), (0, 1)]
    );
}

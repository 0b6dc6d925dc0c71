use advent::day12::{get_neighboring_coords, get_up_coord, sum_costs, Garden, Icoord, _solution1, _solution2};

#[test]
fn day12_places_around() {
    let c = Icoord::new(3, -2);
    assert_eq!(c, Icoord { x: 3, y: -2 });
    assert_eq!(get_up_coord(&c), Icoord { x: 3, y: -1 });
    assert_eq!(
        get_neighboring_coords(&c),
        vec![
            Icoord { x: 3, y: -1 },
            Icoord { x: 3, y: -3 },
            Icoord { x: 4, y: -2 },
            Icoord { x: 2, y: -2 },
        ]
    );
}

const LARGER: &str = "RRRRIICCFF\nRRRRIICCCF\nVVRRRCCFFF\nVVRCCCJFFF\nVVVVCJJCFE\nVVIVCCJJEE\nVVIIICJJEE\nMIIIIIJJEE\nMIIISIJEEE\nMMMISSJEEE\n";

const SMALL: &str = "AAAA\nBBCD\nBBCC\nEEEC\n";

#[test]
fn test_example_day12_1() {
    let result = _solution1(&String::from(LARGER));
    assert_eq!(result, Some(1930));
}

#[test]
fn test_example_day12_2() {
    let result = _solution2(&String::from(LARGER));
    assert_eq!(result, Some(1206));
}

#[test]
fn day12_small_gardens() {
    assert_eq!(_solution1(&String::from(SMALL)), Some(140));
    assert_eq!(_solution2(&String::from(SMALL)), Some(80));
    let holes = String::from("OOOOO\nOXOXO\nOOOOO\nOXOXO\nOOOOO\n");
    assert_eq!(_solution1(&holes), Some(772));
    assert_eq!(_solution2(&holes), Some(436));
    let e_shape = String::from("EEEEE\nEXXXX\nEEEEE\nEXXXX\nEEEEE\n");
    assert_eq!(_solution2(&e_shape), Some(236));
    let diagonal = String::from("AAAAAA\nAAABBA\nAAABBA\nABBAAA\nABBAAA\nAAAAAA\n");
    assert_eq!(_solution2(&diagonal), Some(368));
    assert_eq!(_solution1(&String::from("A")), Some(4));
    assert_eq!(_solution2(&String::from("A")), Some(4));
    assert_eq!(_solution1(&String::from("")), None);
    assert_eq!(_solution2(&String::from("")), None);
    assert_eq!(_solution1(&String::from("AB\nA\n")), None);
    assert_eq!(_solution1(&String::from("A\nAB\n")), Some(12));
}

#[test]
fn day12_regions_in_walking_order() {
    let garden = Garden::from(&String::from(SMALL)).unwrap();
    let regions = garden.get_regions();
    let plants: Vec<u8> = regions.iter().map(|r| r.plant_type()).collect();
    assert_eq!(plants, b"ABECD".to_vec());
    let areas: Vec<usize> = regions.iter().map(|r| r.get_area()).collect();
    assert_eq!(areas, vec![4, 4, 3, 4, 1]);
    let perimeters: Vec<usize> = regions.iter().map(|r| r.get_perimeter()).collect();
    assert_eq!(perimeters, vec![10, 8, 8, 10, 4]);
    let sides: Vec<usize> = regions.iter().map(|r| r.get_num_sides()).collect();
    assert_eq!(sides, vec![4, 4, 4, 8, 4]);
    let costs: Vec<Option<usize>> = regions.iter().map(|r| r.get_cost()).collect();
    assert_eq!(costs, vec![Some(40), Some(32), Some(24), Some(40), Some(4)]);
    let reduced: Vec<Option<usize>> = regions.iter().map(|r| r.get_reduced_cost()).collect();
    assert_eq!(reduced, vec![Some(16), Some(16), Some(12), Some(32), Some(4)]);
    assert_eq!(sum_costs(&regions, false), Some(140));
    assert_eq!(sum_costs(&regions, true), Some(80));
    let c = &regions[3];
    assert_eq!(c.get_upper_sides(), 2);
    assert_eq!(c.get_lower_sides(), 2);
    assert_eq!(c.get_left_sides(), 2);
    assert_eq!(c.get_right_sides(), 2);
}

#[test]
fn day12_turning_and_boxing_plots() {
    let garden = Garden::from(&String::from(SMALL)).unwrap();
    let regions = garden.get_regions();
    let c = &regions[3];
    let mut turned: Vec<(isize, isize)> = c.transform_plots((0, -1, 1, 0)).into_iter().collect();
    turned.sort();
    assert_eq!(turned, vec![(-3, 3), (-2, 2), (-2, 3), (-1, 2)]);
    let mut flipped: Vec<(isize, isize)> = c.transform_plots((-1, 0, 0, -1)).into_iter().collect();
    flipped.sort();
    assert_eq!(flipped, vec![(-3, -3), (-3, -2), (-2, -2), (-2, -1)]);
    let plots = c.transform_plots((1, 0, 0, 1));
    let (lo, hi) = c._get_min_max_corners(&plots);
    assert_eq!((lo.x, lo.y, hi.x, hi.y), (2, 1, 3, 3));
    assert_eq!(c._get_upper_sides(&plots), 2);
    let none = rustc_hash::FxHashSet::default();
    let (lo, hi) = c._get_min_max_corners(&none);
    assert_eq!((lo.x, lo.y, hi.x, hi.y), (isize::MAX, isize::MAX, isize::MIN, isize::MIN));
    assert_eq!(c._get_upper_sides(&none), 0);
    let mut around = garden._get_matching_neighbors((2, 2));
    assert_eq!(around, vec![(2, 1), (3, 2)]);
    around = garden._get_matching_neighbors((3, 1));
    assert!(around.is_empty());
    let mut patch = garden._get_region_plots((3, 3));
    patch.sort();
    assert_eq!(patch, vec![(2, 1), (2, 2), (3, 2), (3, 3)]);
}

use advent::day25::{
    combine_heights, count_fitting_locks, key_fits, parse, Key, Lock, _solution1,
};

const CASE1: &str = "#####\n.####\n.####\n.####\n.#.#.\n.#...\n.....\n\n#####\n##.##\n.#.##\n...##\n...#.\n...#.\n.....\n\n.....\n#....\n#....\n#...#\n#.#.#\n#.###\n#####\n\n.....\n.....\n#.#..\n###..\n###.#\n###.#\n#####\n\n.....\n.....\n.....\n#....\n#.#..\n#.#.#\n#####\n";

#[test]
fn day25_1_1() {
    assert_eq!(_solution1(&String::from(CASE1)), Some(3));
}

#[test]
fn day25_1_parse() {
    let (keys, locks) = parse(&String::from(CASE1)).unwrap();
    assert_eq!(
        locks,
        vec![
            Lock { pin_heights: vec![0, 5, 3, 4, 3] },
            Lock { pin_heights: vec![1, 2, 0, 5, 3] },
        ]
    );
    assert_eq!(
        keys,
        vec![
            Key { tooth_heights: vec![5, 0, 2, 1, 3] },
            Key { tooth_heights: vec![4, 3, 4, 0, 2] },
            Key { tooth_heights: vec![3, 0, 2, 0, 1] },
        ]
    );
}

#[test]
fn day25_heights_are_raised_by_each_row() {
    let mut heights = vec![0, 1, -1];
    assert!(combine_heights(b"#.#", &mut heights));
    assert_eq!(heights, vec![1, 1, 0]);
    assert!(combine_heights(b"#", &mut heights));
    assert_eq!(heights, vec![2, 1, 0]);
    assert!(!combine_heights(b"#.#.", &mut heights));
    assert!(!combine_heights(b".x", &mut heights));
    assert!(combine_heights(b"", &mut heights));
    assert_eq!(heights, vec![2, 1, 0]);
    let mut full = vec![isize::MAX];
    assert!(!combine_heights(b"#", &mut full));
}

#[test]
fn day25_fitting() {
    let lock = Lock { pin_heights: vec![0, 5, 3] };
    assert_eq!(key_fits(&Key { tooth_heights: vec![5, 0, 2] }, &lock), Some(true));
    assert_eq!(key_fits(&Key { tooth_heights: vec![5, 1, 2] }, &lock), Some(false));
    assert_eq!(key_fits(&Key { tooth_heights: vec![5] }, &lock), Some(true));
    assert_eq!(key_fits(&Key { tooth_heights: vec![5, 0, 2, 0] }, &lock), None);
    assert_eq!(key_fits(&Key { tooth_heights: vec![isize::MAX] }, &Lock { pin_heights: vec![isize::MAX] }), Some(false));
    let locks = vec![lock, Lock { pin_heights: vec![1, 1, 1] }];
    assert_eq!(count_fitting_locks(&Key { tooth_heights: vec![4, 0, 2] }, &locks), Some(2));
    assert_eq!(count_fitting_locks(&Key { tooth_heights: vec![5, 0, 2] }, &locks), Some(1));
    assert_eq!(count_fitting_locks(&Key { tooth_heights: vec![0, 0, 0, 0] }, &locks), None);
}

#[test]
fn day25_text_must_end_inside_a_drawing() {
    assert!(parse(&String::from("")).is_none());
    assert!(parse(&String::from("###\n#..\n\n")).is_none());
    assert!(parse(&String::from("###\n#x.\n")).is_none());
    assert!(parse(&String::from("###\n#...\n")).is_none());
    let (keys, locks) = parse(&String::from("...\n#.#\n")).unwrap();
    assert_eq!(keys, vec![Key { tooth_heights: vec![0, -1, 0] }]);
    assert!(locks.is_empty());
    assert_eq!(_solution1(&String::from("...\n#.#\n")), Some(0));
    assert_eq!(_solution1(&String::from("....\n####\n\n###\n...\n")), None);
}

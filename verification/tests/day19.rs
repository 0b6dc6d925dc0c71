use advent::day19::{
    can_build, count_combos, count_design_combos, get_all_combinations, longest_towel,
    parse_designs, parse_towels, _solution1, _solution2,
};

fn strings(texts: &[&str]) -> Vec<String> {
    texts.iter().map(|s| s.to_string()).collect()
}

fn pair(a: &str, b: &str) -> (String, String) {
    (a.to_string(), b.to_string())
}

#[test]
fn day19_combinations_go_both_ways() {
    let result = get_all_combinations(&strings(&["r", "wr"]), &strings(&["b", "g", "bwu"]));
    assert_eq!(
        result,
        vec![
            pair("r", "b"),
            pair("b", "r"),
            pair("r", "g"),
            pair("g", "r"),
            pair("r", "bwu"),
            pair("bwu", "r"),
            pair("wr", "b"),
            pair("b", "wr"),
            pair("wr", "g"),
            pair("g", "wr"),
            pair("wr", "bwu"),
            pair("bwu", "wr"),
        ]
    );
    assert!(get_all_combinations(&strings(&["r"]), &vec![]).is_empty());
    assert!(get_all_combinations(&vec![], &strings(&["r"])).is_empty());
    assert_eq!(get_all_combinations(&strings(&["x"]), &strings(&["x"])), vec![pair("x", "x"), pair("x", "x")]);
}

const CASE1: &str = "r, wr, b, g, bwu, rb, gb, br\n\nbrwrr\nbggr\ngbbr\nrrbgbr\nubwu\nbwurrg\nbrgr\nbbrgwb\n";

#[test]
fn day_19_1() {
    let result = _solution1(&String::from(CASE1));
    assert_eq!(result, Some(6), "correct possible combos identified");
}

#[test]
fn day_19_2() {
    let result = _solution2(&String::from(CASE1));
    assert_eq!(result, Some(16), "correct possible combos identified");
}

#[test]
fn day19_reading_towels_and_designs() {
    let towels = parse_towels(&String::from(CASE1)).unwrap();
    assert_eq!(towels.len(), 8);
    assert!(towels.contains(&b"bwu".to_vec()));
    assert!(towels.contains(&b"r".to_vec()));
    assert!(!towels.contains(&b"w".to_vec()));
    assert_eq!(longest_towel(&towels), 3);
    let designs = parse_designs(&String::from(CASE1));
    assert_eq!(designs.len(), 8);
    assert_eq!(designs[0], b"brwrr".to_vec());
    assert_eq!(designs[7], b"bbrgwb".to_vec());
    assert!(parse_towels(&String::from("")).is_none());
    let odd = parse_towels(&String::from("a,b, c,  d, ")).unwrap();
    assert_eq!(odd.len(), 4);
    assert!(odd.contains(&b"a,b".to_vec()));
    assert!(odd.contains(&b"c".to_vec()));
    assert!(odd.contains(&b" d".to_vec()));
    assert!(odd.contains(&b"".to_vec()));
    assert!(parse_designs(&String::from("a, b")).is_empty());
    assert!(parse_designs(&String::from("a, b\nx")).is_empty());
    assert_eq!(parse_designs(&String::from("a, b\nx\ny")), vec![b"y".to_vec()]);
    assert_eq!(_solution1(&String::from("")), None);
    assert_eq!(_solution2(&String::from("")), None);
    assert_eq!(_solution1(&String::from("a\n")), Some(0));
}

#[test]
fn day19_laying_out_designs() {
    let towels = parse_towels(&String::from(CASE1)).unwrap();
    assert!(can_build(&towels, b"brwrr", 3));
    assert!(can_build(&towels, b"", 3));
    assert!(!can_build(&towels, b"ubwu", 3));
    assert!(!can_build(&towels, b"bbrgwb", 3));
    assert!(!can_build(&towels, b"bwu", 2));
    assert!(can_build(&towels, b"bwu", 3));
    assert!(!can_build(&towels, b"b", 0));
    assert_eq!(count_combos(&towels, b"brwrr", 3), Some(2));
    assert_eq!(count_combos(&towels, b"gbbr", 3), Some(4));
    assert_eq!(count_combos(&towels, b"rrbgbr", 3), Some(6));
    assert_eq!(count_combos(&towels, b"ubwu", 3), Some(0));
    assert_eq!(count_combos(&towels, b"", 3), Some(1));
    assert_eq!(count_combos(&towels, b"rb", 1), Some(1));
    assert_eq!(count_combos(&towels, b"rb", 2), Some(2));
    assert_eq!(count_design_combos(&towels, b"brwrr", 3), Some(2));
    assert_eq!(count_design_combos(&towels, b"bggr", 3), Some(1));
    assert_eq!(count_design_combos(&towels, b"gbbr", 3), Some(4));
    assert_eq!(count_design_combos(&towels, b"rrbgbr", 3), Some(6));
    assert_eq!(count_design_combos(&towels, b"bwurrg", 3), Some(1));
    assert_eq!(count_design_combos(&towels, b"brgr", 3), Some(2));
    assert_eq!(count_design_combos(&towels, b"ubwu", 3), Some(0));
}

#[test]
fn day19_towel_longer_than_what_is_left() {
    let towels = parse_towels(&String::from("abcdefgh, a, b\n")).unwrap();
    assert_eq!(count_design_combos(&towels, b"abab", 8), None);
    assert_eq!(count_design_combos(&towels, b"abab", 1), Some(1));
    assert_eq!(count_design_combos(&towels, b"", 8), Some(1));
    assert_eq!(count_design_combos(&towels, b"c", 8), Some(0));
    assert_eq!(_solution2(&String::from("abcdefgh, a, b\n\nabab\n")), None);
    assert_eq!(_solution2(&String::from("a, b\n\nabab\nba\n")), Some(2));
}

use advent::day1::{
    compute_similarity_score, count_places, places_from_pieces, result_from_file, sorted,
    total_distance, _read_columns,
};

const EXAMPLE: &str = "3   4\n4   3\n2   5\n1   3\n3   9\n3   3\n";

#[test]
fn day1_distance_of_the_example() {
    assert_eq!(result_from_file(&String::from(EXAMPLE)), Some(11));
}

#[test]
fn similarity_score() {
    let result = compute_similarity_score(&String::from(EXAMPLE)).unwrap();
    assert_eq!(result, 31, "computed the correct result");
}

#[test]
fn day1_columns() {
    let lines: Vec<String> = ["3   4", "10\t7", "5 6 7"].iter().map(|s| s.to_string()).collect();
    assert_eq!(_read_columns(&lines), Some((vec![3, 10, 5], vec![4, 7, 6])));
    let lines: Vec<String> = ["3   4", "10"].iter().map(|s| s.to_string()).collect();
    assert_eq!(_read_columns(&lines), None);
    let lines: Vec<String> = ["3 -4"].iter().map(|s| s.to_string()).collect();
    assert_eq!(_read_columns(&lines), None);
    assert_eq!(_read_columns(&vec![]), Some((vec![], vec![])));
    assert_eq!(places_from_pieces(&vec![String::from("1"), String::from("2")]), Some((1, 2)));
    assert_eq!(places_from_pieces(&vec![String::from("1")]), None);
    assert_eq!(result_from_file(&String::from("1 2\n\n3 4\n")), None);
    assert_eq!(compute_similarity_score(&String::from("1 x\n")), None);
}

#[test]
fn day1_sorting() {
    assert_eq!(sorted(&vec![3, 4, 2, 1, 3, 3]), vec![1, 2, 3, 3, 3, 4]);
    assert_eq!(sorted(&vec![]), Vec::<u64>::new());
    assert_eq!(sorted(&vec![u64::MAX, 0, 7]), vec![0, 7, u64::MAX]);
}

#[test]
fn day1_distance() {
    assert_eq!(total_distance(&vec![3, 4, 2, 1, 3, 3], &vec![4, 3, 5, 3, 9, 3]), Some(11));
    assert_eq!(total_distance(&vec![1, 5], &vec![9]), Some(8));
    assert_eq!(total_distance(&vec![], &vec![9]), Some(0));
    assert_eq!(total_distance(&vec![0, 0], &vec![u64::MAX, u64::MAX]), None);
    assert_eq!(total_distance(&vec![0], &vec![u64::MAX]), Some(u64::MAX));
}

#[test]
fn day1_similarity() {
    assert_eq!(advent::day1::similarity_score(&vec![3, 4, 2, 1, 3, 3], &vec![4, 3, 5, 3, 9, 3]), Some(31));
    assert_eq!(advent::day1::similarity_score(&vec![7], &vec![]), Some(0));
    assert_eq!(advent::day1::similarity_score(&vec![u64::MAX], &vec![u64::MAX, u64::MAX]), None);
    let counts = count_places(&vec![4, 3, 5, 3, 9, 3]);
    assert_eq!(counts.get(&3), Some(&3));
    assert_eq!(counts.get(&9), Some(&1));
    assert_eq!(counts.get(&1), None);
    assert_eq!(counts.len(), 4);
}

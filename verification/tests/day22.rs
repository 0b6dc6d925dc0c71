use advent::day22::{
    best_of, get_all_secrets, get_secret, price_diffs, secrets_to_prices, _solution1, _solution2,
    MODULUS,
};

#[test]
fn day_22_1_1() {
    assert_eq!(_solution1(&vec![1, 10, 100, 2024]), 37327623);
}

#[test]
fn day22_secrets_follow_one_another() {
    assert_eq!(get_secret(123, 1), 15887950);
    assert_eq!(get_secret(123, 2), 16495136);
    assert_eq!(get_secret(123, 10), 5908254);
    assert_eq!(get_secret(123, 0), 123);
    assert_eq!(get_secret(123, -4), 123);
    assert_eq!(get_secret(1, 2000), 8685429);
    assert_eq!(get_secret(2024, 2000), 8667524);
    assert!(get_secret(-5, 3).abs() < MODULUS);
    assert_eq!(
        get_all_secrets(123, 10),
        vec![
            123, 15887950, 16495136, 527345, 704524, 1553684, 12683156, 11100544, 12249484,
            7753432, 5908254
        ]
    );
    assert_eq!(get_all_secrets(7, 0), vec![7]);
}

#[test]
fn day22_prices_and_changes() {
    let secrets = get_all_secrets(123, 9);
    let prices = secrets_to_prices(&secrets);
    assert_eq!(prices, vec![3, 0, 6, 5, 4, 4, 6, 4, 4, 2]);
    assert_eq!(price_diffs(&prices), vec![-3, 6, -1, -1, 0, 2, -2, 0, -2]);
    assert_eq!(price_diffs(&vec![]), Vec::<isize>::new());
    assert_eq!(price_diffs(&vec![5]), Vec::<isize>::new());
    assert_eq!(secrets_to_prices(&vec![-13, 20]), vec![-3, 0]);
}

#[test]
fn day_22_2_1() {
    assert_eq!(_solution2(&vec![1, 2, 3, 2024]), 23);
}

#[test]
fn day22_best_sequence_of_one_buyer() {
    assert_eq!(_solution2(&vec![123]), 9);
    assert_eq!(_solution2(&vec![]), 0);
    assert_eq!(best_of(&vec![-3, 7, 2]), 7);
    assert_eq!(best_of(&vec![-3, -7]), 0);
    assert_eq!(best_of(&vec![]), 0);
}

use advent::places::{contains_place, distinct};

#[test]
fn places_are_kept_once_in_order_of_arrival() {
    let places = vec![(1, 2), (3, 4), (1, 2), (-1, 0), (3, 4), (3, 5)];
    assert_eq!(distinct(&places), vec![(1, 2), (3, 4), (-1, 0), (3, 5)]);
    assert_eq!(distinct(&vec![]), vec![]);
    assert!(contains_place(&places, (-1, 0)));
    assert!(!contains_place(&places, (0, -1)));
    assert!(!contains_place(&vec![], (0, 0)));
}

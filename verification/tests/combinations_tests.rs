use poker_eval_rs::combinations::{combinations, for_each_combination, Combinations};

#[test]
fn test_for_each_combination_3_2() {
    let combinations = for_each_combination(3, 2);
    let count = combinations.len();
    assert_eq!(count, 3);
    assert_eq!(combinations, vec![vec![0, 1], vec![0, 2], vec![1, 2]]);
}

#[test]
fn test_for_each_combination_4_2() {
    let combinations = for_each_combination(4, 2);
    let count = combinations.len();
    assert_eq!(count, 6);
    assert_eq!(
        combinations,
        vec![
            vec![0, 1],
            vec![0, 2],
            vec![0, 3],
            vec![1, 2],
            vec![1, 3],
            vec![2, 3]
        ]
    );
}

#[test]
fn test_combinations_3_2() {
    let mut combs = combinations(3, 2);
    assert_eq!(combs.next(), Some(vec![0, 1]));
    assert_eq!(combs.next(), Some(vec![0, 2]));
    assert_eq!(combs.next(), Some(vec![1, 2]));
    assert_eq!(combs.next(), None);
}

#[test]
fn test_combinations_4_2() {
    let mut combs = combinations(4, 2);
    assert_eq!(combs.next(), Some(vec![0, 1]));
    assert_eq!(combs.next(), Some(vec![0, 2]));
    assert_eq!(combs.next(), Some(vec![0, 3]));
    assert_eq!(combs.next(), Some(vec![1, 2]));
    assert_eq!(combs.next(), Some(vec![1, 3]));
    assert_eq!(combs.next(), Some(vec![2, 3]));
    assert_eq!(combs.next(), None);
}

#[test]
fn combinations_count_is_binomial() {
    assert_eq!(for_each_combination(5, 3).len(), 10);
    assert_eq!(for_each_combination(6, 2).len(), 15);
    assert_eq!(for_each_combination(4, 4), vec![vec![0, 1, 2, 3]]);
}

#[test]
fn combinations_of_more_than_available_are_none() {
    assert!(for_each_combination(2, 3).is_empty());
    let mut c = Combinations::new(2, 3);
    assert_eq!(c.next(), None);
}

#[test]
fn combinations_stay_exhausted() {
    let mut c = combinations(2, 2);
    assert_eq!(c.next(), Some(vec![0, 1]));
    assert_eq!(c.next(), None);
    assert_eq!(c.next(), None);
}

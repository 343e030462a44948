use poker_eval_rs::combinaison::Combination;

#[test]
fn combination_lists_all_in_order() {
    let c = Combination::new(4, 2).unwrap();
    assert_eq!(c.num_combinations(), 6);
    assert_eq!(c.get_combination(0), Some(vec![0, 1]));
    assert_eq!(c.get_combination(1), Some(vec![0, 2]));
    assert_eq!(c.get_combination(5), Some(vec![2, 3]));
    assert_eq!(c.get_combination(6), None);
}

#[test]
fn combination_counts_are_binomial() {
    assert_eq!(Combination::new(52, 2).unwrap().num_combinations(), 1326);
    assert_eq!(Combination::new(10, 0).unwrap().num_combinations(), 1);
    assert_eq!(Combination::new(7, 7).unwrap().num_combinations(), 1);
}

#[test]
fn combination_of_more_than_available_is_none() {
    assert!(Combination::new(3, 4).is_none());
}

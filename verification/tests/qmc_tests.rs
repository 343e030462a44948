use poker_eval_rs::enumerate::qmc::{radical_digits, SobolGenerator};

#[test]
fn sobol_generator_caps_dimensions_at_sixteen() {
    let g = SobolGenerator::new(40);
    assert_eq!(g.dimensions(), 16);
    assert_eq!(g.base(0), 2);
    assert_eq!(g.base(15), 53);
    let g3 = SobolGenerator::new(3);
    assert_eq!(g3.dimensions(), 3);
    assert_eq!(g3.base(2), 5);
}

#[test]
fn sobol_generator_advances_one_index_at_a_time() {
    let mut g = SobolGenerator::new(1);
    assert_eq!(g.advance(), 1);
    assert_eq!(g.advance(), 2);
    assert_eq!(g.advance(), 3);
}

#[test]
fn radical_digits_are_base_digits_least_significant_first() {
    assert_eq!(radical_digits(0, 2), Vec::<u64>::new());
    assert_eq!(radical_digits(6, 2), vec![0, 1, 1]);
    assert_eq!(radical_digits(10, 3), vec![1, 0, 1]);
    // The first points of dimension 1: 1/2, 1/4, 3/4.
    let first: Vec<f64> = (1..4u64)
        .map(|i| {
            radical_digits(i, 2)
                .iter()
                .enumerate()
                .map(|(k, d)| *d as f64 / 2f64.powi(k as i32 + 1))
                .sum()
        })
        .collect();
    assert_eq!(first, vec![0.5, 0.25, 0.75]);
}

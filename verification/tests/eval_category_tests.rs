use poker_eval_rs::deck::std_deck::StdDeck;
use poker_eval_rs::eval::Eval;

fn five_card_type(cards: &str) -> u32 {
    let (m, n) = StdDeck::string_to_mask(cards).unwrap();
    assert_eq!(n, 5);
    Eval::eval_n(&m, 5).hand_type()
}

#[test]
fn five_card_hands_get_their_category() {
    assert_eq!(five_card_type("9h Th Jh Qh Kh"), 8);
    assert_eq!(five_card_type("Ad 2d 3d 4d 5d"), 8);
    assert_eq!(five_card_type("7s 7h 7d 7c 2s"), 7);
    assert_eq!(five_card_type("7s 7h 7d 2c 2s"), 6);
    assert_eq!(five_card_type("2c 5c 9c Jc Kc"), 5);
    assert_eq!(five_card_type("As 2d 3c 4h 5s"), 4);
    assert_eq!(five_card_type("Ts Jd Qc Kh As"), 4);
    assert_eq!(five_card_type("7s 7h 7d 2c 3s"), 3);
    assert_eq!(five_card_type("7s 7h 2d 2c 3s"), 2);
    assert_eq!(five_card_type("7s 7h 2d 4c 3s"), 1);
    assert_eq!(five_card_type("7s 9h 2d 4c 3s"), 0);
}

fn value_of(cards: &str, n: usize) -> u32 {
    let (m, k) = StdDeck::string_to_mask(cards).unwrap();
    assert_eq!(k, n);
    Eval::eval_n(&m, n).value
}

#[test]
fn renaming_suits_keeps_the_value() {
    // Spades to hearts, hearts to diamonds, diamonds to clubs, clubs to spades.
    assert_eq!(value_of("As Ks Qs Js 2h 3d 4c", 7), value_of("Ah Kh Qh Jh 2d 3c 4s", 7));
    assert_eq!(value_of("9c Tc Jc Qc Kc 9d 9h", 7), value_of("9s Ts Js Qs Ks 9c 9d", 7));
    assert_eq!(value_of("7s 7h 7d 2c 2s", 5), value_of("7h 7d 7c 2s 2h", 5));
}

fn best_five_type(cards: &str) -> (u32, u32) {
    let (m, n) = StdDeck::string_to_mask(cards).unwrap();
    let mut idx = Vec::new();
    for i in 0..52usize {
        if m.card_is_set(i) {
            idx.push(i);
        }
    }
    let mut best = 0;
    for a in 0..n {
        for b in a + 1..n {
            for c in b + 1..n {
                for d in c + 1..n {
                    for e in d + 1..n {
                        let mut s = poker_eval_rs::tables::StdDeckCardMask::new();
                        for &k in &[a, b, c, d, e] {
                            s.set(idx[k]);
                        }
                        let t = Eval::eval_n(&s, 5).hand_type();
                        if t > best {
                            best = t;
                        }
                    }
                }
            }
        }
    }
    (Eval::eval_n(&m, n).hand_type(), best)
}

#[test]
fn seven_card_type_is_the_best_five_card_category() {
    for hand in [
        "AsKsQsJs9s2d2c",
        "AsKdQcJh9s2d2c",
        "7s7h7d7c2s2h3d",
        "7s7h7d2c2s3h3d",
        "7s7h2d2c3s3h4d",
        "As2d3c4h5s9dTc",
        "9h9d9c2s3h4d6c",
        "2h3h4h5h6h7h8h",
        "Ah2h3h4h5h6d7c",
    ] {
        let (t, best) = best_five_type(hand);
        assert_eq!(t, best, "{}", hand);
    }
}

#[test]
fn better_category_has_greater_value() {
    // A flush against a straight, a full house against a flush.
    assert!(value_of("AsKsQs9s2s3d4c", 7) > value_of("9h8d7c6s5hKdKc", 7));
    assert!(value_of("2s2h2d3c3s4h5d", 7) > value_of("AsKsQs9s2s3d4c", 7));
}

#[test]
fn eval_n_takes_any_card_count() {
    // Card counts below the number of ranks wrap around in the duplicate count
    // and still give a value of some hand type.
    for cards in ["2c5d9hJsKc", "AsKsQsJsTs", "2c2d2h2s3c3d", "As", "", "2c3d4h5s7c8d9h"] {
        let (m, _) = StdDeck::string_to_mask(cards).unwrap();
        for n in 0..=9usize {
            let v = Eval::eval_n(&m, n);
            assert!(v.hand_type() <= 8, "{} {}", cards, n);
        }
    }
}

#[test]
fn deuce_to_seven_gives_the_high_hand_type() {
    for cards in ["2c3d4h5s7c", "As2d3c4h5s", "7s7h7d2c2s", "2c5c9cJcKc", "9h9d9c2s3h4d6c", "AsKsQsJsTs"] {
        let (m, n) = StdDeck::string_to_mask(cards).unwrap();
        let low = poker_eval_rs::eval_low27::std_deck_lowball27_eval(&m, n);
        assert_eq!(low.value >> 24, Eval::eval_n(&m, n).value >> 24, "{}", cards);
    }
}

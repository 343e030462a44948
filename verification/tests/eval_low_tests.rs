use poker_eval_rs::deck_std::StdDeck;
use poker_eval_rs::eval_low::{extract_top_five_cards_lowball, std_deck_lowball_eval};
use poker_eval_rs::eval_low8::std_deck_lowball8_eval;
use poker_eval_rs::handval::{HandType, HANDTYPE_SHIFT, LOW_HAND_VAL_WORST_EIGHT};

#[test]
fn test_extract_top_five_cards_all_present() {
    let cards = 0b11111;
    let result = extract_top_five_cards_lowball(cards);
    assert_eq!(result, (1, 2, 3, 4, 5));
}

#[test]
fn test_extract_top_five_cards_less_than_five_present() {
    let cards = 0b1100;
    let result = extract_top_five_cards_lowball(cards);
    assert_eq!(result, (1, 2, 0, 0, 0));
}

#[test]
fn test_extract_top_five_cards_more_than_five_present() {
    let cards = 0b1111111111;
    let result = extract_top_five_cards_lowball(cards);
    assert_eq!(result, (1, 2, 3, 4, 5));
}

#[test]
fn test_extract_top_five_cards_no_cards_present() {
    let cards = 0b0;
    let result = extract_top_five_cards_lowball(cards);
    assert_eq!(result, (0, 0, 0, 0, 0));
}

#[test]
fn test_extract_top_five_cards_all_cards_present() {
    let cards = 0b1111111111111;
    let result = extract_top_five_cards_lowball(cards);
    assert_eq!(result, (1, 2, 3, 4, 5));
}

#[test]
fn test_extract_top_five_cards_one_card_present() {
    let cards = 0b10000;
    let result = extract_top_five_cards_lowball(cards);
    assert_eq!(result, (1, 0, 0, 0, 0));
}

#[test]
fn lowball_wheel_is_the_best_low() {
    let (m, n) = StdDeck::string_to_mask("As2d3c4h5s").unwrap();
    let v = std_deck_lowball_eval(&m, n);
    assert_eq!(v.value >> HANDTYPE_SHIFT, HandType::NoPair as u32);
    // Ranks rotated so that the ace is 1, lowest first: 1, 2, 3, 4, 5.
    assert_eq!(v.value, 0x12345);
    let (m2, n2) = StdDeck::string_to_mask("As2d3c4h6s").unwrap();
    assert!(std_deck_lowball_eval(&m2, n2).value > v.value);
}

#[test]
fn lowball_pairs_are_worse_than_no_pair() {
    let (m, n) = StdDeck::string_to_mask("AsAd3c4h5s").unwrap();
    let v = std_deck_lowball_eval(&m, n);
    assert_eq!(v.value >> HANDTYPE_SHIFT, HandType::OnePair as u32);
    let (m2, n2) = StdDeck::string_to_mask("KsQdJc9h8s").unwrap();
    assert!(std_deck_lowball_eval(&m2, n2).value < v.value);
}

#[test]
fn lowball8_qualifies_only_eight_or_better() {
    let (m, n) = StdDeck::string_to_mask("As2d3c4h8s").unwrap();
    let v = std_deck_lowball8_eval(&m, n).unwrap();
    assert!(v.value <= LOW_HAND_VAL_WORST_EIGHT);
    let (m2, n2) = StdDeck::string_to_mask("As2d3c4h9s").unwrap();
    let v2 = std_deck_lowball8_eval(&m2, n2);
    assert!(v2.map_or(true, |x| x.value > LOW_HAND_VAL_WORST_EIGHT));
}

#[test]
fn extract_top_five_cards_counts_from_the_lowest_rank() {
    assert_eq!(extract_top_five_cards_lowball(0b1010), (1, 3, 0, 0, 0));
    assert_eq!(extract_top_five_cards_lowball(0b1_0000_0000_0100), (1, 11, 0, 0, 0));
}

#[test]
fn readme_royal_flush_is_a_straight_flush() {
    let (mask, count) = poker_eval_rs::deck::std_deck::StdDeck::string_to_mask("As Ks Qs Js Ts").unwrap();
    let val = poker_eval_rs::eval::Eval::eval_n(&mask, count);
    assert_eq!(val.hand_type(), 8);
}

#[test]
fn bottom_five_cards_table_packs_the_lowest_ranks() {
    let t = poker_eval_rs::ranks::bottom_five_cards_table();
    assert_eq!(t.len(), 8192);
    assert_eq!(t[0], 0);
    assert_eq!(t[0b1111], 0);
    // Ranks 0..4 present: 0 | 1 << 4 | 2 << 8 | 3 << 12 | 4 << 16.
    assert_eq!(t[0b11111], 0x43210);
    assert_eq!(t[0b1_0000_0001_1111], 0x43210);
    assert_eq!(t[0b1_1111_0000_0000], 0xcba98);
}

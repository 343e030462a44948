use poker_eval_rs::deck_std::StdDeck;
use poker_eval_rs::eval_low27::std_deck_lowball27_eval;
use poker_eval_rs::handval::{HandType, HANDTYPE_SHIFT};
use poker_eval_rs::ranks::top_five_cards;
use poker_eval_rs::tables::StdDeckCardMask;

fn create_mask_from_string(cards_str: &str) -> StdDeckCardMask {
    let (mask, _) = StdDeck::string_to_mask(cards_str).expect("Failed to create mask");
    mask
}

fn calculate_rank_mask(cards: &StdDeckCardMask) -> u32 {
    let ranks = [cards.spades(), cards.clubs(), cards.diamonds(), cards.hearts()];
    ranks.iter().fold(0, |acc, &suit_ranks| acc | suit_ranks as u32)
}

#[test]
fn test_no_pair() {
    let mask = create_mask_from_string("2s3d4c7h8s");
    let rank_mask = calculate_rank_mask(&mask);
    let result = std_deck_lowball27_eval(&mask, 5);
    let expected_value = top_five_cards(rank_mask);
    assert_eq!(result.value, expected_value, "Failed to evaluate no pair hand");
}

#[test]
fn test_no_pair_withace() {
    let mask = create_mask_from_string("As3d4c7h8s");
    let rank_mask = calculate_rank_mask(&mask);
    let result = std_deck_lowball27_eval(&mask, 5);
    let expected_value = top_five_cards(rank_mask);
    assert_eq!(result.value, expected_value, "Failed to evaluate no pair hand");
}

#[test]
fn test_one_pair() {
    let mask = create_mask_from_string("2s2d4c7h8s");
    let result = std_deck_lowball27_eval(&mask, 5);
    let hand_type = result.value >> HANDTYPE_SHIFT;
    assert_eq!(hand_type, HandType::OnePair as u32, "Failed to detect one pair");
}

#[test]
fn test_two_pair() {
    let mask = create_mask_from_string("2s2d3c3h8s");
    let result = std_deck_lowball27_eval(&mask, 5);
    let hand_type = result.value >> HANDTYPE_SHIFT;
    assert_eq!(hand_type, HandType::TwoPair as u32, "Failed to detect two pair");
}

#[test]
fn test_three_of_a_kind() {
    let mask = create_mask_from_string("2s2d2c7h8s");
    let result = std_deck_lowball27_eval(&mask, 5);
    let hand_type = result.value >> HANDTYPE_SHIFT;
    assert_eq!(hand_type, HandType::Trips as u32, "Failed to detect three of a kind");
}

#[test]
fn test_straight() {
    let mask = create_mask_from_string("2s3d4c5h6s");
    let result = std_deck_lowball27_eval(&mask, 5);
    let hand_type = result.value >> HANDTYPE_SHIFT;
    assert_eq!(hand_type, HandType::Straight as u32, "Failed to detect straight");
}

#[test]
fn test_flush() {
    let mask = create_mask_from_string("2s4s6s8sTs");
    let result = std_deck_lowball27_eval(&mask, 5);
    let hand_type = result.value >> HANDTYPE_SHIFT;
    assert_eq!(hand_type, HandType::Flush as u32, "Failed to detect flush");
}

#[test]
fn test_full_house() {
    let mask = create_mask_from_string("2s2d2c3h3s");
    let result = std_deck_lowball27_eval(&mask, 5);
    let hand_type = result.value >> HANDTYPE_SHIFT;
    assert_eq!(hand_type, HandType::FullHouse as u32, "Failed to detect full house");
}

#[test]
fn test_four_of_a_kind() {
    let mask = create_mask_from_string("2s2d2c2h8s");
    let result = std_deck_lowball27_eval(&mask, 5);
    let hand_type = result.value >> HANDTYPE_SHIFT;
    assert_eq!(hand_type, HandType::Quads as u32, "Failed to detect four of a kind");
}

#[test]
fn test_straight_flush() {
    let mask = create_mask_from_string("2s3s4s5s6s");
    let result = std_deck_lowball27_eval(&mask, 5);
    let hand_type = result.value >> HANDTYPE_SHIFT;
    assert_eq!(hand_type, HandType::StFlush as u32, "Failed to detect straight flush");
}

#[test]
fn lowball27_seven_five_is_exact() {
    // 7 5 4 3 2: ranks 5, 3, 2, 1, 0.
    let mask = create_mask_from_string("7s5d4c3h2s");
    let result = std_deck_lowball27_eval(&mask, 5);
    assert_eq!(result.value, 0x53210);
}

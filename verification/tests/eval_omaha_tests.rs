use poker_eval_rs::deck_std::StdDeck;
use poker_eval_rs::eval_omaha::{std_deck_omaha_hi_eval, std_deck_omaha_hi_low8_eval};
use poker_eval_rs::handval::{HandVal, LowHandVal};

#[test]
fn test_omaha_high_hand_evaluation() {
    let hole_str = "As2dKhQh";
    let board_str = "JhTh4h3c5d";
    let (hole, _) = StdDeck::string_to_mask(hole_str).expect("Failed to convert hole string to mask");
    let (board, _) =
        StdDeck::string_to_mask(board_str).expect("Failed to convert board string to mask");
    let mut hival = None;
    std_deck_omaha_hi_eval(hole, board, &mut hival).expect("High hand evaluation failed");
    let expected_high_value = HandVal { value: 84650370 };
    assert_eq!(hival, Some(expected_high_value), "High hand value did not match expected value");
}

#[test]
fn test_omaha_low_hand_evaluation() {
    let hole_str = "As2dKhQh";
    let board_str = "JhTh4h3c5d";
    let (hole, _) = StdDeck::string_to_mask(hole_str).expect("Failed to convert hole string to mask");
    let (board, _) =
        StdDeck::string_to_mask(board_str).expect("Failed to convert board string to mask");
    let mut loval = None;
    std_deck_omaha_hi_low8_eval(hole, board, &mut None, &mut loval)
        .expect("Low hand evaluation failed");
    let expected_low_value = LowHandVal { value: 274960 };
    assert_eq!(loval, Some(expected_low_value), "Low hand value did not match expected value");
}

#[test]
fn omaha_uses_exactly_two_hole_cards() {
    // Four hearts in the hole and one on the board: no flush.
    let (hole, _) = StdDeck::string_to_mask("AhKhQhJh").unwrap();
    let (board, _) = StdDeck::string_to_mask("2h7c9d3s4c").unwrap();
    let mut hival = None;
    std_deck_omaha_hi_eval(hole, board, &mut hival).unwrap();
    let v = hival.unwrap();
    assert!(v.value >> 24 < 5);
}

#[test]
fn omaha_without_board_has_no_high_hand() {
    let (hole, _) = StdDeck::string_to_mask("AhKhQhJh").unwrap();
    let (board, _) = StdDeck::string_to_mask("").unwrap();
    let mut hival = Some(HandVal { value: 1 });
    std_deck_omaha_hi_eval(hole, board, &mut hival).unwrap();
    assert_eq!(hival, None);
}

#[test]
fn omaha_low_needs_two_low_hole_cards() {
    // Only the ace in the hole is low: no two-plus-three eight-low, though the
    // seven cards together hold a wheel.
    let (hole, _) = StdDeck::string_to_mask("AsKdQcJh").unwrap();
    let (board, _) = StdDeck::string_to_mask("2s3d4c5h8s").unwrap();
    let mut loval = None;
    std_deck_omaha_hi_low8_eval(hole, board, &mut None, &mut loval).unwrap();
    assert_eq!(loval, Some(LowHandVal { value: poker_eval_rs::handval::LOW_HAND_VAL_NOTHING }));
}

use poker_eval_rs::board::{calculate_outs, BoardTexture, OutsResult};
use poker_eval_rs::deck::std_deck::StdDeck;
use poker_eval_rs::handval::HandType;

#[test]
fn test_analyze_board_rainbow() {
    let (board, _) = StdDeck::string_to_mask("As5d9c").unwrap();
    let texture = BoardTexture::analyze(&board);
    assert!(texture.is_rainbow);
    assert!(!texture.is_two_tone);
    assert!(!texture.is_monotone);
    assert!(!texture.is_paired);
}

#[test]
fn test_analyze_board_monotone() {
    let (board, _) = StdDeck::string_to_mask("As5s9s").unwrap();
    let texture = BoardTexture::analyze(&board);
    assert!(texture.is_monotone);
    assert!(texture.has_flush_draw);
}

#[test]
fn test_analyze_board_paired() {
    let (board, _) = StdDeck::string_to_mask("AsAd9c").unwrap();
    let texture = BoardTexture::analyze(&board);
    assert!(texture.is_paired);
}

#[test]
fn test_analyze_board_full_texture_check() {
    let (board, _) = StdDeck::string_to_mask("AsAdAc5s2s").unwrap();
    let texture = BoardTexture::analyze(&board);
    assert!(!texture.is_two_tone);
    assert!(!texture.is_monotone);
    assert!(!texture.is_rainbow);
    assert!(texture.has_flush_draw);
    assert!(texture.is_trips);
    assert!(!texture.is_quads);
    assert!(!texture.is_full_house);
    assert!(!texture.is_paired);
}

#[test]
fn test_analyze_board_full_house() {
    let (board, _) = StdDeck::string_to_mask("AsAdAcKsKd").unwrap();
    let texture = BoardTexture::analyze(&board);
    assert!(texture.is_full_house);
    assert!(texture.is_trips);
    assert!(texture.is_paired);
    assert!(!texture.is_quads);
}

#[test]
fn test_analyze_board_quads() {
    let (board, _) = StdDeck::string_to_mask("AsAdAcAhKs").unwrap();
    let texture = BoardTexture::analyze(&board);
    assert!(texture.is_quads);
    assert!(!texture.is_trips);
}

#[test]
fn test_analyze_board_straight_draw() {
    let (board, _) = StdDeck::string_to_mask("9s8d7c2h2d").unwrap();
    let texture = BoardTexture::analyze(&board);
    assert!(texture.has_straight_draw);
}

#[test]
fn test_analyze_board_ace_low_straight_draw() {
    let (board, _) = StdDeck::string_to_mask("As2d3c9h9s").unwrap();
    let texture = BoardTexture::analyze(&board);
    assert!(texture.has_straight_draw);
}

#[test]
fn test_analyze_board_two_tone() {
    let (board, _) = StdDeck::string_to_mask("AsKsQdJdTs").unwrap();
    let texture = BoardTexture::analyze(&board);
    assert!(texture.is_two_tone);
}

#[test]
fn test_calculate_outs_flush_draw() {
    let (pocket, _) = StdDeck::string_to_mask("2s3s").unwrap();
    let (board, _) = StdDeck::string_to_mask("AsKs9d").unwrap();
    let outs = calculate_outs(&pocket, &board);
    let flush_outs = outs.count(HandType::Flush);
    assert_eq!(flush_outs, 9);
}

#[test]
fn test_calculate_outs_straight() {
    let (pocket, _) = StdDeck::string_to_mask("9cTc").unwrap();
    let (board, _) = StdDeck::string_to_mask("JdQd2s").unwrap();
    let outs = calculate_outs(&pocket, &board);
    let straight_outs = outs.count(HandType::Straight);
    assert_eq!(straight_outs, 8);
}

#[test]
fn board_texture_of_empty_board_is_plain() {
    let (board, n) = StdDeck::string_to_mask("").unwrap();
    assert_eq!(n, 0);
    let texture = BoardTexture::analyze(&board);
    assert!(!texture.is_paired);
    assert!(!texture.is_trips);
    assert!(!texture.has_straight_draw);
    assert!(!texture.has_flush_draw);
}

#[test]
fn outs_improve_the_hand_type() {
    // Every out of a type makes that type, above the current high card.
    let (pocket, _) = StdDeck::string_to_mask("2s3s").unwrap();
    let (board, _) = StdDeck::string_to_mask("AsKs9d").unwrap();
    let outs = calculate_outs(&pocket, &board);
    assert_eq!(outs.count(HandType::NoPair), 0);
    // Pairing one of the five cards: three of each rank remain, but the nine
    // of spades makes a flush.
    assert_eq!(outs.count(HandType::OnePair), 14);
}

#[test]
fn outs_result_add_and_count() {
    let mut r = OutsResult::new();
    assert_eq!(r.count(HandType::Trips), 0);
    let (card, _) = StdDeck::string_to_mask("Ah").unwrap();
    r.add(HandType::Trips, card);
    r.add(HandType::Trips, card);
    assert_eq!(r.count(HandType::Trips), 2);
    assert_eq!(r.count(HandType::Quads), 0);
    let d = OutsResult::default();
    assert_eq!(d.outs_by_type.len(), 9);
}

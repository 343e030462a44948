use poker_eval_rs::enumerate::montecarlo::DrawSource;
use poker_eval_rs::deck::joker::JokerDeck;
use poker_eval_rs::deck::std_deck::StdDeck;
use poker_eval_rs::enumdefs::Game;
use poker_eval_rs::enumerate::result::EnumResult;
use poker_eval_rs::errors::PokerError;
use poker_eval_rs::tables::StdDeckCardMask;

fn mask(s: &str) -> StdDeckCardMask {
    StdDeck::string_to_mask(s).unwrap().0
}

/// The pocket whose bits are the joker-deck cards of `s`: the pockets' bits are
/// read as joker-deck cards.
fn joker_bits(s: &str) -> StdDeckCardMask {
    StdDeckCardMask::from_raw(JokerDeck::string_to_mask(s).unwrap().0.cards_n)
}

#[test]
fn simulate_draw_counts_every_sample() {
    let pockets = vec![mask("AsAdAc"), mask("2s3d")];
    let mut r = EnumResult::new(Game::Draw5);
    r.simulate_draw_game(&pockets, StdDeckCardMask::new(), 2, 200, &DrawSource::Random(42)).unwrap();
    assert_eq!(r.nsamples, 200);
    assert_eq!(r.nwinhi[0] + r.ntiehi[0] + r.nlosehi[0], 200);
    assert_eq!(r.nwinhi[0], r.nlosehi[1]);
}

#[test]
fn simulate_draw_with_complete_hands_repeats_the_same_deal() {
    // These joker-deck cards all sit on bits that the standard deck counts.
    let pockets = vec![joker_bits("AsAdAhKsKd"), joker_bits("2s3c4h5h7s")];
    assert_eq!(pockets[0].num_cards(), 5);
    assert_eq!(pockets[1].num_cards(), 5);
    let mut r = EnumResult::new(Game::Draw5);
    r.simulate_draw_game(&pockets, StdDeckCardMask::new(), 2, 12, &DrawSource::Random(42)).unwrap();
    assert_eq!(r.nsamples, 12);
    assert_eq!(r.nwinhi[0], 12);
    assert_eq!(r.nlosehi[1], 12);
}

#[test]
fn simulate_lowball_compares_lows() {
    let pockets = vec![joker_bits("As2s3c4h5h"), joker_bits("KsKdKhQsQd")];
    assert_eq!(pockets[0].num_cards(), 5);
    let mut r = EnumResult::new(Game::Lowball);
    r.simulate_lowball_game(&pockets, StdDeckCardMask::new(), 2, 9, &DrawSource::Random(42)).unwrap();
    assert_eq!(r.nsamples, 9);
    assert_eq!(r.nwinlo[0], 9);
    assert_eq!(r.nloselo[1], 9);
}

#[test]
fn simulate_draw8_and_drawnsq_count_highs_and_lows() {
    let pockets = vec![joker_bits("As2s3c4h6h"), joker_bits("KsKdKhQsQd")];
    assert_eq!(pockets[0].num_cards(), 5);
    assert_eq!(pockets[1].num_cards(), 5);
    let mut r = EnumResult::new(Game::Draw58);
    r.simulate_draw8_game(&pockets, StdDeckCardMask::new(), 2, 4, &DrawSource::Random(42)).unwrap();
    assert_eq!(r.nsamples, 4);
    assert_eq!(r.nwinhi[1], 4);
    // A hand without an eight low gets the low value 0, which compares as the best.
    assert_eq!(r.nwinlo[1], 4);
    assert_eq!(r.nloselo[0], 4);
    let mut r = EnumResult::new(Game::Draw5nsq);
    r.simulate_drawnsq_game(&pockets, StdDeckCardMask::new(), 2, 4, &DrawSource::Random(42)).unwrap();
    assert_eq!(r.nwinhi[1], 4);
    assert_eq!(r.nwinlo[0], 4);
}

#[test]
fn simulate_draw_refuses_too_many_players() {
    let pockets = vec![mask("As"); 13];
    let mut r = EnumResult::new(Game::Draw5);
    assert_eq!(r.simulate_draw_game(&pockets, StdDeckCardMask::new(), 13, 1, &DrawSource::Random(42)), Err(PokerError::TooManyPlayers));
}

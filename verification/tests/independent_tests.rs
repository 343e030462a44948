use poker_eval_rs::enumerate::montecarlo::DrawSource;
use poker_eval_rs::deck::std_deck::StdDeck;
use poker_eval_rs::enumdefs::Game;
use poker_eval_rs::enumerate::result::EnumResult;
use poker_eval_rs::errors::PokerError;
use poker_eval_rs::tables::StdDeckCardMask;

fn mask(s: &str) -> StdDeckCardMask {
    StdDeck::string_to_mask(s).unwrap().0
}

#[test]
fn simulate_stud_counts_every_sample() {
    let pockets = vec![mask("AsAdAc"), mask("2s3d7c")];
    let mut r = EnumResult::new(Game::Stud7);
    r.simulate_stud_game(&pockets, StdDeckCardMask::new(), 2, 300, &DrawSource::Random(42)).unwrap();
    assert_eq!(r.nsamples, 300);
    assert_eq!(r.nwinhi[0] + r.ntiehi[0] + r.nlosehi[0], 300);
    assert_eq!(r.nwinhi[0], r.nlosehi[1]);
    assert!(r.nwinhi[0] > r.nwinhi[1]);
    assert_eq!(r.nwinlo, [0; 12]);
}

#[test]
fn simulate_stud_with_complete_hands_repeats_the_same_deal() {
    let pockets = vec![mask("AsAdAcAhKsKdQc"), mask("2s3d4c5h7s8d9c")];
    let mut r = EnumResult::new(Game::Stud7);
    r.simulate_stud_game(&pockets, StdDeckCardMask::new(), 2, 20, &DrawSource::Random(42)).unwrap();
    assert_eq!(r.nsamples, 20);
    assert_eq!(r.nwinhi[0], 20);
    assert_eq!(r.nlosehi[1], 20);
}

#[test]
fn simulate_razz_compares_lows() {
    let pockets = vec![mask("As2d3c4h5s6d7c"), mask("KsKdKcQhQsQdJc")];
    let mut r = EnumResult::new(Game::Razz);
    r.simulate_razz_game(&pockets, StdDeckCardMask::new(), 2, 15, &DrawSource::Random(42)).unwrap();
    assert_eq!(r.nsamples, 15);
    assert_eq!(r.nwinlo[0], 15);
    assert_eq!(r.nloselo[1], 15);
    assert_eq!(r.nwinhi, [0; 12]);
}

#[test]
fn simulate_uses_the_variant_of_the_result() {
    // A high-low result compares highs and lows even for a stud simulation.
    let pockets = vec![mask("AsAdAcAhKsKdQc"), mask("2s3d4c5h7s8d9c")];
    let mut r = EnumResult::new(Game::Stud7nsq);
    r.simulate_stud_game(&pockets, StdDeckCardMask::new(), 2, 10, &DrawSource::Random(42)).unwrap();
    assert_eq!(r.nwinhi[0], 10);
    // Stud gives every low the value 0: the lows tie.
    assert_eq!(r.ntielo[0], 10);
}

#[test]
fn simulate_stud8_and_studnsq_count_lows() {
    let pockets = vec![mask("As2d3c4h5s6d7c"), mask("KsKdKcQhQsQdJc")];
    let mut r = EnumResult::new(Game::Stud78);
    r.simulate_stud8_game(&pockets, StdDeckCardMask::new(), 2, 5, &DrawSource::Random(42)).unwrap();
    assert_eq!(r.nsamples, 5);
    assert_eq!(r.nwinlo[0], 5);
    let mut r = EnumResult::new(Game::Stud7nsq);
    r.simulate_studnsq_game(&pockets, StdDeckCardMask::new(), 2, 5, &DrawSource::Random(42)).unwrap();
    assert_eq!(r.nwinlo[0], 5);
    assert_eq!(r.nwinhi[1], 5);
}

#[test]
fn simulate_lowball27_completes_five_cards() {
    let pockets = vec![mask("2s3d4c5h7s"), mask("AsAd")];
    let mut r = EnumResult::new(Game::Lowball27);
    r.simulate_lowball27_game(&pockets, StdDeckCardMask::new(), 2, 50, &DrawSource::Random(42)).unwrap();
    assert_eq!(r.nsamples, 50);
    // The seven-five is the best deuce-to-seven hand: it never loses.
    assert_eq!(r.nloselo[0], 0);
    assert_eq!(r.nwinlo[0] + r.ntielo[0], 50);
}

#[test]
fn simulate_dealt_refuses_too_many_players() {
    let pockets = vec![mask("As"); 13];
    let mut r = EnumResult::new(Game::Stud7);
    assert_eq!(r.simulate_stud_game(&pockets, StdDeckCardMask::new(), 13, 10, &DrawSource::Random(42)), Err(PokerError::TooManyPlayers));
}

#[test]
fn simulate_dealt_refuses_a_deck_too_small() {
    let pockets = vec![mask("As"), mask("Ks")];
    let mut dead = StdDeckCardMask::new();
    for i in 0..52 {
        if !pockets[0].card_is_set(i) && !pockets[1].card_is_set(i) && i % 13 != 0 {
            dead = dead | StdDeckCardMask::from_card_index(i);
        }
    }
    let mut r = EnumResult::new(Game::Stud7);
    assert_eq!(
        r.simulate_stud_game(&pockets, dead, 2, 10, &DrawSource::Random(42)),
        Err(PokerError::InvalidCardConfiguration("Not enough cards in deck. Needed 12, available 4".to_string()))
    );
    assert_eq!(r.nsamples, 0);
}

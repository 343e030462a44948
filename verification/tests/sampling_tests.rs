use poker_eval_rs::enumerate::montecarlo::DrawSource;
use poker_eval_rs::deck::std_deck::StdDeck;
use poker_eval_rs::enumdefs::Game;
use poker_eval_rs::enumerate::result::EnumResult;
use poker_eval_rs::errors::PokerError;
use poker_eval_rs::tables::StdDeckCardMask;

fn mask(s: &str) -> StdDeckCardMask {
    StdDeck::string_to_mask(s).unwrap().0
}

#[test]
fn simulate_holdem_counts_every_sample() {
    let pockets = vec![mask("AsAd"), mask("KsKd"), mask("7c8c")];
    let mut r = EnumResult::new(Game::Holdem);
    r.simulate_holdem_game(&pockets, StdDeckCardMask::new(), StdDeckCardMask::new(), 3, 0, 500, &DrawSource::Random(42)).unwrap();
    assert_eq!(r.nsamples, 500);
    assert_eq!(r.game, Game::Holdem);
    assert_eq!(r.nplayers, 0);
    for i in 0..3 {
        assert_eq!(r.nwinhi[i] + r.ntiehi[i] + r.nlosehi[i], 1000);
    }
    assert!(r.nwinhi[0] > r.nwinhi[1]);
}

#[test]
fn simulate_holdem_on_a_full_board_repeats_the_same_deal() {
    let pockets = vec![mask("AsAd"), mask("KsKd")];
    let mut r = EnumResult::new(Game::Holdem);
    r.simulate_holdem_game(&pockets, mask("2c7h9dJc3s"), StdDeckCardMask::new(), 2, 5, 40, &DrawSource::Random(42)).unwrap();
    assert_eq!(r.nsamples, 40);
    assert_eq!(r.nwinhi[0], 40);
    assert_eq!(r.nlosehi[1], 40);
}

#[test]
fn simulate_holdem_refuses_too_many_players() {
    let pockets = vec![mask("AsAd"); 13];
    let mut r = EnumResult::new(Game::Holdem);
    assert_eq!(
        r.simulate_holdem_game(&pockets, StdDeckCardMask::new(), StdDeckCardMask::new(), 13, 0, 10, &DrawSource::Random(42)),
        Err(PokerError::TooManyPlayers)
    );
    assert_eq!(r.nsamples, 0);
}

#[test]
fn simulate_holdem_on_the_turn_draws_one_live_card() {
    let pockets = vec![mask("AsAd"), mask("KsKd")];
    let mut r = EnumResult::new(Game::Holdem);
    r.simulate_holdem_game(&pockets, mask("2c7h9dKc"), mask("AcAh"), 2, 4, 200, &DrawSource::Random(42)).unwrap();
    // With both other aces dead, no river saves the aces.
    assert_eq!(r.nsamples, 200);
    assert_eq!(r.nlosehi[0], 200);
    assert_eq!(r.nwinhi[1], 200);
}

#[test]
fn simulate_omaha_variants_count_every_sample() {
    let pockets = vec![mask("AsAdKcKh"), mask("2s3d4c5h")];
    for variant in 0..3 {
        let mut r = EnumResult::new(Game::Omaha);
        let res = match variant {
            0 => r.simulate_omaha_game(&pockets, mask("6c7d8h"), StdDeckCardMask::new(), 2, 3, 100, &DrawSource::Random(42)),
            1 => r.simulate_omaha5_game(&pockets, mask("6c7d8h"), StdDeckCardMask::new(), 2, 3, 100, &DrawSource::Random(42)),
            _ => r.simulate_omaha6_game(&pockets, mask("6c7d8h"), StdDeckCardMask::new(), 2, 3, 100, &DrawSource::Random(42)),
        };
        assert!(res.is_ok());
        assert_eq!(r.nsamples, 100);
        assert_eq!(r.nwinhi[0] + r.ntiehi[0] + r.nlosehi[0], 100);
        assert_eq!(r.nwinhi[0], r.nlosehi[1]);
    }
}

#[test]
fn simulate_holdem8_on_a_full_board() {
    let pockets = vec![mask("As2d"), mask("KsKd")];
    let mut r = EnumResult::new(Game::Holdem8);
    r.simulate_holdem8_game(&pockets, mask("3c4h8dQcKh"), StdDeckCardMask::new(), 2, 5, 10, &DrawSource::Random(42)).unwrap();
    assert_eq!(r.nsamples, 10);
    assert_eq!(r.nwinhi[1], 10);
    assert_eq!(r.nwinlo[0], 10);
    // The second player has no low and loses the low pot to the first.
    assert_eq!(r.nloselo[1], 10);
    assert_eq!(r.nscoop[0], 0);
}

#[test]
fn simulate_omaha8_counts_every_sample() {
    let pockets = vec![mask("As2dKcKh"), mask("3s4d9c9h")];
    let mut r = EnumResult::new(Game::Omaha8);
    r.simulate_omaha8_game(&pockets, mask("5c6d"), StdDeckCardMask::new(), 2, 2, 100, &DrawSource::Random(42)).unwrap();
    assert_eq!(r.nsamples, 100);
    assert_eq!(r.nwinhi[0] + r.ntiehi[0] + r.nlosehi[0], 100);
}

#[test]
fn simulate_with_too_few_live_cards_counts_nothing() {
    // Every card but the pockets and the board is dead: no river can be dealt.
    let pockets = vec![mask("AsAd"), mask("KsKd")];
    let board = mask("2c7h9dKc");
    let mut dead = StdDeckCardMask::new();
    for i in 0..52 {
        let c = StdDeckCardMask::from_card_index(i);
        if !board.card_is_set(i) && !pockets[0].card_is_set(i) && !pockets[1].card_is_set(i) {
            dead = dead | c;
        }
    }
    let mut r = EnumResult::new(Game::Holdem);
    r.simulate_holdem_game(&pockets, board, dead, 2, 4, 50, &DrawSource::Random(42)).unwrap();
    assert_eq!(r.nsamples, 0);
    assert_eq!(r.nwinhi, [0; 12]);
}

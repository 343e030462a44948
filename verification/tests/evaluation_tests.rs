use poker_eval_rs::deck::std_deck::StdDeck;
use poker_eval_rs::enumerate::evaluation::{enum_exhaustive, enum_qmc, enum_sample};
use poker_eval_rs::enumerate::result::EnumResult;
use poker_eval_rs::errors::PokerError;
use poker_eval_rs::tables::StdDeckCardMask;
use poker_eval_rs::enumdefs::Game;
use poker_eval_rs::enumerate::evaluation::{
    supports_enum_exhaustive, supports_enum_qmc, supports_enum_sample,
};

#[test]
fn test_mode_support_matrix() {
    assert!(supports_enum_sample(Game::Stud78));
    assert!(supports_enum_sample(Game::Draw5nsq));

    assert!(supports_enum_qmc(Game::Holdem));
    assert!(supports_enum_qmc(Game::Holdem8));
    assert!(supports_enum_qmc(Game::Omaha));
    assert!(supports_enum_qmc(Game::Omaha8));
    assert!(supports_enum_qmc(Game::ShortDeck));
    assert!(supports_enum_qmc(Game::Stud7));
    assert!(supports_enum_qmc(Game::Stud78));
    assert!(supports_enum_qmc(Game::Stud7nsq));
    assert!(supports_enum_qmc(Game::Razz));
    assert!(supports_enum_qmc(Game::Lowball27));
    assert!(supports_enum_qmc(Game::Draw5));
    assert!(supports_enum_qmc(Game::Draw58));
    assert!(supports_enum_qmc(Game::Draw5nsq));
    assert!(supports_enum_qmc(Game::Lowball));
    assert!(!supports_enum_qmc(Game::NumGames));

    assert!(supports_enum_exhaustive(Game::Holdem));
    assert!(supports_enum_exhaustive(Game::Omaha5));
    assert!(supports_enum_exhaustive(Game::Omaha6));
    assert!(supports_enum_exhaustive(Game::Omaha8));
    assert!(supports_enum_exhaustive(Game::Omaha85));
    assert!(supports_enum_exhaustive(Game::ShortDeck));
    assert!(supports_enum_exhaustive(Game::Stud7));
    assert!(supports_enum_exhaustive(Game::Stud78));
    assert!(supports_enum_exhaustive(Game::Stud7nsq));
    assert!(supports_enum_exhaustive(Game::Razz));
    assert!(supports_enum_exhaustive(Game::Draw5));
    assert!(supports_enum_exhaustive(Game::Draw58));
    assert!(supports_enum_exhaustive(Game::Draw5nsq));
    assert!(supports_enum_exhaustive(Game::Lowball));
    assert!(supports_enum_exhaustive(Game::Lowball27));
    assert!(!supports_enum_exhaustive(Game::NumGames));
}

#[test]
fn enum_sample_runs_the_documented_example() {
    let (pocket1, _) = poker_eval_rs::deck::std_deck::StdDeck::string_to_mask("As Ks").unwrap();
    let (pocket2, _) = poker_eval_rs::deck::std_deck::StdDeck::string_to_mask("2s 2d").unwrap();
    let pockets = vec![pocket1, pocket2];
    let board = poker_eval_rs::deck::std_deck::StdDeck::string_to_mask("").unwrap().0;
    let dead = poker_eval_rs::deck::std_deck::StdDeck::string_to_mask("").unwrap().0;
    let mut result = poker_eval_rs::enumerate::result::EnumResult::new(poker_eval_rs::enumdefs::Game::Holdem);
    poker_eval_rs::enumerate::evaluation::enum_sample(
        poker_eval_rs::enumdefs::Game::Holdem,
        &pockets,
        board,
        dead,
        2,
        0,
        1000,
        true,
        &mut result, 42,
    )
    .unwrap();
    assert!(result.nsamples == 1000);
    assert_eq!(result.sample_type, poker_eval_rs::enumdefs::SampleType::Sample);
    assert_eq!(result.nplayers, 2);
    assert!(result.ordering.is_some());
    assert_eq!(result.nwinhi[0] + result.ntiehi[0] + result.nlosehi[0], 1000);
}

#[test]
fn enum_sample_reports_its_errors() {
    let m = |s: &str| poker_eval_rs::deck::std_deck::StdDeck::string_to_mask(s).unwrap().0;
    let pockets = vec![m("AsKs"), m("2s2d")];
    let mut r = EnumResult::new(Game::Razz);
    assert_eq!(
        enum_sample(Game::Holdem, &vec![m("As"); 13], StdDeckCardMask::new(), StdDeckCardMask::new(), 13, 0, 10, false, &mut r, 42),
        Err(PokerError::TooManyPlayers)
    );
    assert_eq!(r.game, Game::Razz);
    // The announced board size does not match the board.
    assert_eq!(
        enum_sample(Game::Holdem, &pockets, m("2c3c"), StdDeckCardMask::new(), 2, 3, 10, false, &mut r, 42),
        Err(PokerError::UnsupportedBoardConfiguration)
    );
    assert_eq!(r.game, Game::Holdem);
    assert_eq!(r.nsamples, 0);
    assert_eq!(
        enum_sample(Game::ShortDeck, &pockets, StdDeckCardMask::new(), StdDeckCardMask::new(), 2, 0, 10, false, &mut r, 42),
        Err(PokerError::UnsupportedGameType)
    );
    let six: Vec<StdDeckCardMask> = vec![m("AsKs"), m("2s2d"), m("3s3d"), m("4s4d"), m("5s5d"), m("6s6d")];
    assert_eq!(
        enum_sample(Game::Holdem8, &six, StdDeckCardMask::new(), StdDeckCardMask::new(), 6, 0, 10, true, &mut r, 42),
        Err(PokerError::Other("Too many players for Hilo mode".to_string()))
    );
    assert!(r.ordering.is_none());
}

#[test]
fn enum_sample_runs_stud_and_draw_variants() {
    let m = |s: &str| poker_eval_rs::deck::std_deck::StdDeck::string_to_mask(s).unwrap().0;
    let pockets = vec![m("AsAdAc"), m("2s3d7c")];
    let mut r = EnumResult::new(Game::Holdem);
    enum_sample(Game::Stud7, &pockets, StdDeckCardMask::new(), StdDeckCardMask::new(), 2, 0, 50, false, &mut r, 42).unwrap();
    assert_eq!(r.game, Game::Stud7);
    assert_eq!(r.nsamples, 50);
    enum_sample(Game::Draw5, &pockets, StdDeckCardMask::new(), StdDeckCardMask::new(), 2, 0, 30, false, &mut r, 42).unwrap();
    assert_eq!(r.nsamples, 30);
}

#[test]
fn enum_exhaustive_holdem_flop_counts_every_turn_and_river() {
    let (pocket1, _) = StdDeck::string_to_mask("As Ks").unwrap();
    let (pocket2, _) = StdDeck::string_to_mask("2s 2d").unwrap();
    let pockets = vec![pocket1, pocket2];
    let board = StdDeck::string_to_mask("7d 8c 9h").unwrap().0;
    let dead = StdDeck::string_to_mask("").unwrap().0;
    let mut result = EnumResult::new(Game::Holdem);
    // C(45, 2) = 990 turn and river cards.
    enum_exhaustive(Game::Holdem, &pockets, board, dead, 2, 3, true, &mut result).unwrap();
    assert_eq!(result.nsamples, 990);
    assert_eq!(result.nwinhi[0] + result.ntiehi[0] + result.nlosehi[0], 990);
    assert_eq!(result.nwinhi[0], result.nlosehi[1]);
}

#[test]
fn enum_exhaustive_refuses_what_it_does_not_enumerate() {
    let (pocket1, _) = StdDeck::string_to_mask("As Ks Qs Js 9s 8s 7s").unwrap();
    let (pocket2, _) = StdDeck::string_to_mask("2c 2d 3c 3d 4c 4d 5c").unwrap();
    let pockets = vec![pocket1, pocket2];
    let empty = StdDeckCardMask::new();
    let mut result = EnumResult::new(Game::Stud7);
    assert_eq!(
        enum_exhaustive(Game::Stud7, &pockets, empty, empty, 2, 0, false, &mut result),
        Err(PokerError::UnsupportedGameType)
    );
    // A flop announced as two cards does not suit hold'em.
    let board = StdDeck::string_to_mask("7d 8c 9h").unwrap().0;
    let mut result = EnumResult::new(Game::Holdem);
    assert_eq!(
        enum_exhaustive(Game::Holdem, &pockets[..0], board, empty, 0, 2, false, &mut result),
        Err(PokerError::UnsupportedBoardConfiguration)
    );
}

/// Points of the low-discrepancy sequence, each coordinate as a fraction of 2^64.
fn qmc_points(n: usize) -> Vec<Vec<u64>> {
    let mut g = poker_eval_rs::enumerate::qmc::SobolGenerator::new(16);
    let mut points = Vec::new();
    for _ in 0..n {
        let index = g.advance();
        let mut point = Vec::new();
        for d in 0..g.dimensions() {
            let base = g.base(d);
            let mut inv = 1.0 / base as f64;
            let mut value = 0.0;
            for digit in poker_eval_rs::enumerate::qmc::radical_digits(index, base) {
                value += digit as f64 * inv;
                inv /= base as f64;
            }
            point.push((value * 18446744073709551616.0) as u64);
        }
        points.push(point);
    }
    points
}

#[test]
fn test_enum_qmc() {
    let (pocket1, _) = StdDeck::string_to_mask("As Ks").unwrap();
    let (pocket2, _) = StdDeck::string_to_mask("2s 2d").unwrap();
    let pockets = vec![pocket1, pocket2];
    let board = StdDeck::string_to_mask("").unwrap().0;
    let dead = StdDeck::string_to_mask("").unwrap().0;
    let mut result = EnumResult::new(Game::Holdem);
    enum_qmc(Game::Holdem, &pockets, board, dead, 2, 0, 1000, true, &mut result, qmc_points(1000)).unwrap();
    assert_eq!(result.nsamples, 1000);
    // Each player has a positive share of the pot: some wins or ties.
    assert!(result.nwinhi[0] + result.ntiehi[0] > 0);
    assert!(result.nwinhi[1] + result.ntiehi[1] > 0);
}

#[test]
fn qmc_points_pick_cards_in_order() {
    // A point of zeros picks the first live cards; the deals all count.
    let (pocket1, _) = StdDeck::string_to_mask("As Ks").unwrap();
    let (pocket2, _) = StdDeck::string_to_mask("2s 2d").unwrap();
    let pockets = vec![pocket1, pocket2];
    let empty = StdDeckCardMask::new();
    let mut result = EnumResult::new(Game::Holdem);
    enum_qmc(Game::Holdem, &pockets, empty, empty, 2, 0, 3, false, &mut result, vec![vec![0; 5]; 3]).unwrap();
    assert_eq!(result.nsamples, 3);
    assert_eq!(result.sample_type, poker_eval_rs::enumdefs::SampleType::QuasiMonteCarlo);
}

use poker_eval_rs::deck::std_deck::StdDeck;
use poker_eval_rs::enumdefs::{Game, SampleType};
use poker_eval_rs::enumerate::result::EnumResult;
use poker_eval_rs::enumord::EnumOrderingMode;
use poker_eval_rs::errors::PokerError;
use poker_eval_rs::eval::Eval;
use poker_eval_rs::handval::{HandVal, LowHandVal};
use poker_eval_rs::tables::StdDeckCardMask;

fn mask(s: &str) -> StdDeckCardMask {
    StdDeck::string_to_mask(s).unwrap().0
}

fn card(i: usize) -> StdDeckCardMask {
    StdDeckCardMask::from_card_index(i)
}

/// Wins, ties and losses of each player over every way of adding `k` cards from
/// the cards that `used` does not hold to `board`, by direct evaluation.
fn brute_force_holdem(pockets: &[StdDeckCardMask], board: StdDeckCardMask, k: usize) -> (Vec<u32>, Vec<u32>, Vec<u32>, u32) {
    let mut used = board;
    for p in pockets {
        used = used | *p;
    }
    let live: Vec<usize> = (0..52).filter(|&i| !used.card_is_set(i)).collect();
    let n = pockets.len();
    let mut win = vec![0u32; n];
    let mut tie = vec![0u32; n];
    let mut lose = vec![0u32; n];
    let mut deals = 0u32;
    let mut boards: Vec<StdDeckCardMask> = Vec::new();
    if k == 1 {
        for &a in &live {
            boards.push(board | card(a));
        }
    } else if k == 2 {
        for x in 0..live.len() {
            for y in x + 1..live.len() {
                boards.push(board | card(live[x]) | card(live[y]));
            }
        }
    } else {
        boards.push(board);
    }
    for b in boards {
        deals += 1;
        let vals: Vec<u32> = pockets.iter().map(|p| Eval::eval_n(&(*p | b), 7).value).collect();
        for i in 0..n {
            for j in 0..n {
                if i != j {
                    if vals[i] > vals[j] {
                        win[i] += 1;
                    } else if vals[i] < vals[j] {
                        lose[i] += 1;
                    } else {
                        tie[i] += 1;
                    }
                }
            }
        }
    }
    (win, tie, lose, deals)
}

#[test]
fn new_result_is_empty() {
    let r = EnumResult::new(Game::Omaha);
    assert_eq!(r.game, Game::Omaha);
    assert_eq!(r.sample_type, SampleType::Exhaustive);
    assert_eq!(r.nsamples, 0);
    assert_eq!(r.nplayers, 0);
    assert_eq!(r.nwinhi, [0; 12]);
    assert_eq!(r.nscoop, [0; 12]);
    assert!(r.ordering.is_none());
}

#[test]
fn clear_resets_the_counts() {
    let mut r = EnumResult::new(Game::Holdem);
    r.nsamples = 7;
    r.nplayers = 2;
    r.nwinhi[1] = 3;
    r.nsharehi[0][2] = 4;
    r.nshare[1][2][3] = 5;
    r.clear();
    assert_eq!(r.nsamples, 0);
    assert_eq!(r.nplayers, 0);
    assert_eq!(r.nwinhi, [0; 12]);
    assert_eq!(r.nsharehi[0][2], 0);
    assert_eq!(r.nshare[1][2][3], 0);
}

#[test]
fn merge_adds_counts_entry_by_entry() {
    let mut a = EnumResult::new(Game::Holdem);
    let mut b = EnumResult::new(Game::Razz);
    a.nsamples = 10;
    b.nsamples = 5;
    a.nwinhi[0] = 4;
    b.nwinhi[0] = 6;
    b.nloselo[3] = 2;
    b.nsharelo[1][4] = 9;
    b.nshare[2][3][4] = 1;
    a.merge(&b);
    assert_eq!(a.game, Game::Holdem);
    assert_eq!(a.nsamples, 15);
    assert_eq!(a.nwinhi[0], 10);
    assert_eq!(a.nloselo[3], 2);
    assert_eq!(a.nsharelo[1][4], 9);
    assert_eq!(a.nshare[2][3][4], 1);
}

#[test]
fn allocate_resources_refuses_too_many_players() {
    let mut r = EnumResult::new(Game::Holdem);
    assert!(r.allocate_resources(2, EnumOrderingMode::Hi).is_ok());
    assert_eq!(r.ordering.as_ref().unwrap().nentries, 16);
    let mut r = EnumResult::new(Game::Holdem);
    assert_eq!(
        r.allocate_resources(13, EnumOrderingMode::Hi),
        Err(PokerError::Other("Too many players for non-Hilo mode".to_string()))
    );
    assert!(r.ordering.is_none());
    assert_eq!(
        r.allocate_resources(6, EnumOrderingMode::Hilo),
        Err(PokerError::Other("Too many players for Hilo mode".to_string()))
    );
    assert!(r.allocate_resources(2, EnumOrderingMode::Hilo).is_ok());
    assert_eq!(r.ordering.as_ref().unwrap().nentries, 256);
}

#[test]
fn batched_high_update_counts_each_pair() {
    let mut r = EnumResult::new(Game::Holdem);
    let vals = [HandVal { value: 10 }, HandVal { value: 5 }, HandVal { value: 10 }];
    r.update_statistics_batched(&vals, 3);
    assert_eq!(r.nwinhi[0], 1);
    assert_eq!(r.ntiehi[0], 1);
    assert_eq!(r.nlosehi[0], 0);
    assert_eq!(r.nwinhi[1], 0);
    assert_eq!(r.nlosehi[1], 2);
    assert_eq!(r.ntiehi[2], 1);
    assert_eq!(r.nwinhi[2], 1);
}

#[test]
fn batched_low_update_prefers_smaller_values() {
    let mut r = EnumResult::new(Game::Razz);
    let vals = [LowHandVal { value: 3 }, LowHandVal { value: 8 }];
    r.update_statistics_batched_lo(&vals, 2);
    assert_eq!(r.nwinlo[0], 1);
    assert_eq!(r.nloselo[1], 1);
    assert_eq!(r.nwinhi[0], 0);
}

#[test]
fn cached_update_counts_one_player() {
    let mut r = EnumResult::new(Game::Holdem);
    let vals = [HandVal { value: 1 }, HandVal { value: 7 }, HandVal { value: 1 }];
    r.update_statistics_cached(0, &vals, 3);
    assert_eq!(r.nwinhi[0], 0);
    assert_eq!(r.ntiehi[0], 1);
    assert_eq!(r.nlosehi[0], 1);
    assert_eq!(r.nlosehi[1], 0);
}

#[test]
fn holdem_hands_on_a_full_board() {
    let pockets = vec![mask("AsAd"), mask("KsKd")];
    let mut r = EnumResult::new(Game::Holdem);
    r.evaluate_holdem_hands(&pockets, &mask("2c7h9dJc3s"), 2).unwrap();
    assert_eq!(r.nwinhi[0], 1);
    assert_eq!(r.nlosehi[1], 1);
    assert_eq!(r.ntiehi[0], 0);
}

#[test]
fn holdem_hands_refuse_a_wrong_pocket_count() {
    let pockets = vec![mask("AsAd")];
    let mut r = EnumResult::new(Game::Holdem);
    assert_eq!(
        r.evaluate_holdem_hands(&pockets, &mask("2c7h9dJc3s"), 2),
        Err(PokerError::InvalidCardConfiguration("Invalid number of pockets: expected 2, got 1".to_string()))
    );
    assert_eq!(r.nwinhi, [0; 12]);
}

#[test]
fn holdem8_and_omaha_hands_refuse_a_wrong_pocket_count() {
    let pockets = vec![mask("AsAd")];
    let mut r = EnumResult::new(Game::Holdem);
    assert_eq!(r.evaluate_holdem8_hands(&pockets, &mask("2c7h9dJc3s"), 2), Err(PokerError::TooManyPlayers));
    assert_eq!(r.evaluate_omaha_hands(&pockets, &mask("2c7h9dJc3s"), 2), Err(PokerError::TooManyPlayers));
    assert_eq!(r.game, Game::Holdem);
}

#[test]
fn holdem8_hands_count_high_and_low() {
    let pockets = vec![mask("As2d"), mask("KsKd")];
    let mut r = EnumResult::new(Game::Holdem);
    r.evaluate_holdem8_hands(&pockets, &mask("3c4h8dQcKh"), 2).unwrap();
    assert_eq!(r.game, Game::Holdem8);
    assert_eq!(r.nwinhi[1], 1);
    assert_eq!(r.nlosehi[0], 1);
    assert_eq!(r.nwinlo[0], 1);
    assert_eq!(r.nscoop[0], 0);
    assert_eq!(r.nscoop[1], 0);
}

#[test]
fn omaha_hands_use_two_pocket_cards() {
    let pockets = vec![mask("AsAdKcKh"), mask("2s3d4c5h")];
    let mut r = EnumResult::new(Game::Holdem);
    r.evaluate_omaha_hands(&pockets, &mask("6c7d8hJsQs"), 2).unwrap();
    assert_eq!(r.game, Game::Omaha);
    // 4 and 5 from the second pocket with 6 7 8 make a straight.
    assert_eq!(r.nwinhi[1], 1);
    assert_eq!(r.nlosehi[0], 1);
}

#[test]
fn exhaustive_holdem_on_the_river_counts_one_deal() {
    let pockets = vec![mask("AsAd"), mask("KsKd")];
    let mut r = EnumResult::new(Game::Holdem);
    r.exhaustive_holdem_evaluation(&pockets, mask("2c7h9dJc3s"), StdDeckCardMask::new(), 2, 5).unwrap();
    assert_eq!(r.nplayers, 2);
    assert_eq!(r.nsamples, 1);
    assert_eq!(r.nwinhi[0], 1);
    assert_eq!(r.nlosehi[1], 1);
}

#[test]
fn exhaustive_holdem_on_the_turn_matches_direct_evaluation() {
    let pockets = vec![mask("AsAd"), mask("KsKd")];
    let board = mask("2c7h9dKc");
    let mut r = EnumResult::new(Game::Holdem);
    r.exhaustive_holdem_evaluation(&pockets, board, StdDeckCardMask::new(), 2, 4).unwrap();
    let (win, tie, lose, deals) = brute_force_holdem(&pockets, board, 1);
    assert_eq!(deals, 44);
    assert_eq!(r.nsamples, deals);
    for i in 0..2 {
        assert_eq!(r.nwinhi[i], win[i]);
        assert_eq!(r.ntiehi[i], tie[i]);
        assert_eq!(r.nlosehi[i], lose[i]);
    }
    // Only the two aces left give the aces the pot back.
    assert_eq!(r.nwinhi[0], 2);
}

#[test]
fn exhaustive_holdem_on_the_flop_matches_direct_evaluation() {
    let pockets = vec![mask("AsAd"), mask("KsKd"), mask("7c8c")];
    let board = mask("2c7h9d");
    let mut r = EnumResult::new(Game::Holdem);
    r.exhaustive_holdem_evaluation(&pockets, board, StdDeckCardMask::new(), 3, 3).unwrap();
    let (win, tie, lose, deals) = brute_force_holdem(&pockets, board, 2);
    assert_eq!(deals, 903);
    assert_eq!(r.nsamples, deals);
    for i in 0..3 {
        assert_eq!(r.nwinhi[i], win[i]);
        assert_eq!(r.ntiehi[i], tie[i]);
        assert_eq!(r.nlosehi[i], lose[i]);
        assert_eq!(r.nwinhi[i] + r.ntiehi[i] + r.nlosehi[i], 2 * deals);
    }
    // Every win of one player is a loss of another.
    let wins: u32 = r.nwinhi.iter().sum();
    let losses: u32 = r.nlosehi.iter().sum();
    assert_eq!(wins, losses);
}

#[test]
fn exhaustive_holdem_skips_dead_cards() {
    let pockets = vec![mask("AsAd"), mask("KsKd")];
    let board = mask("2c7h9dKc");
    let mut r = EnumResult::new(Game::Holdem);
    r.exhaustive_holdem_evaluation(&pockets, board, mask("AcAh"), 2, 4).unwrap();
    assert_eq!(r.nsamples, 42);
    assert_eq!(r.nwinhi[0], 0);
    assert_eq!(r.nlosehi[0], 42);
}

#[test]
fn exhaustive_holdem_refuses_an_unsupported_board() {
    let pockets = vec![mask("AsAd"), mask("KsKd")];
    let mut r = EnumResult::new(Game::Holdem);
    assert_eq!(
        r.exhaustive_holdem_evaluation(&pockets, mask("2c7h"), StdDeckCardMask::new(), 2, 2),
        Err(PokerError::UnsupportedBoardConfiguration)
    );
    assert_eq!(r.nplayers, 2);
    assert_eq!(r.nsamples, 0);
}

#[test]
fn exhaustive_holdem_with_a_wrong_pocket_count_counts_nothing() {
    let pockets = vec![mask("AsAd")];
    let mut r = EnumResult::new(Game::Holdem);
    assert!(r.exhaustive_holdem_evaluation(&pockets, mask("2c7h9dKc"), StdDeckCardMask::new(), 2, 4).is_ok());
    assert_eq!(r.nsamples, 0);
    assert_eq!(r.nwinhi, [0; 12]);
}

#[test]
fn exhaustive_holdem8_on_the_turn() {
    let pockets = vec![mask("As2d"), mask("KsKd")];
    let mut r = EnumResult::new(Game::Holdem);
    r.exhaustive_holdem8_evaluation(&pockets, mask("3c4h8dQc"), StdDeckCardMask::new(), 2, 4).unwrap();
    assert_eq!(r.nsamples, 44);
    assert_eq!(r.game, Game::Holdem);
    assert_eq!(r.nwinhi[0] + r.ntiehi[0] + r.nlosehi[0], 44);
    // Every river but a pairing one of A, 2, 3, 4 or 8 gives the first player a low.
    assert!(r.nwinlo[0] > 0);
    assert_eq!(r.nwinlo[1], 0);
}

#[test]
fn exhaustive_holdem8_on_the_river_sets_the_variant() {
    let pockets = vec![mask("As2d"), mask("KsKd")];
    let mut r = EnumResult::new(Game::Holdem);
    r.exhaustive_holdem8_evaluation(&pockets, mask("3c4h8dQcKh"), StdDeckCardMask::new(), 2, 5).unwrap();
    assert_eq!(r.game, Game::Holdem8);
    assert_eq!(r.nsamples, 1);
    assert_eq!(r.nwinlo[0], 1);
}

#[test]
fn exhaustive_omaha_on_the_turn() {
    let pockets = vec![mask("AsAdKcKh"), mask("2s3d4c5h")];
    let mut r = EnumResult::new(Game::Holdem);
    r.exhaustive_omaha_evaluation(&pockets, mask("6c7d8hJs"), StdDeckCardMask::new(), 2, 4).unwrap();
    assert_eq!(r.nsamples, 40);
    assert_eq!(r.game, Game::Holdem);
    // The straight from 4, 5, 6, 7, 8 holds on every river.
    assert_eq!(r.nwinhi[1] + r.ntiehi[1] + r.nlosehi[1], 40);
    assert!(r.nwinhi[1] >= 1);
    assert_eq!(
        r.exhaustive_omaha_evaluation(&pockets, mask("6c"), StdDeckCardMask::new(), 2, 1),
        Err(PokerError::UnsupportedBoardConfiguration)
    );
}

#[test]
fn update_statistics_compares_with_the_other_pockets() {
    let pockets = vec![mask("AsAd"), mask("KsKd"), mask("2h3h")];
    let board = mask("2c7h9dJc3s");
    let mut r = EnumResult::new(Game::Holdem);
    let mine = Eval::eval_n(&(pockets[1] | board), 7);
    r.update_statistics(1, mine, &pockets, &board, 3);
    // Kings lose to aces and to two pair, treys and deuces.
    assert_eq!(r.nwinhi[1], 0);
    assert_eq!(r.nlosehi[1], 2);
    assert_eq!(r.ntiehi[1], 0);
    assert_eq!(r.nwinhi[0], 0);
}

#[test]
fn update_statistics_for_a_player_past_the_pockets() {
    let pockets = vec![mask("AsAd"), mask("KsKd")];
    let board = mask("2c7h9dJc3s");
    let mut r = EnumResult::new(Game::Holdem);
    let mine = Eval::eval_n(&(pockets[1] | board), 7);
    r.update_statistics(5, mine, &pockets, &board, 3);
    assert_eq!(r.nwinhi[5], 0);
    assert_eq!(r.ntiehi[5], 1);
    assert_eq!(r.nlosehi[5], 1);
}

#[test]
fn update_statistics_hilo_counts_high_low_and_scoop() {
    let pockets = vec![mask("As2d"), mask("KsKd")];
    let board = mask("3c4h8dQcKh");
    let mut r = EnumResult::new(Game::Holdem8);
    let hand = pockets[1] | board;
    let hi = Eval::eval_n(&hand, 7);
    let lo = poker_eval_rs::eval_low8::std_deck_lowball8_eval(&hand, 7);
    r.update_statistics_hilo(1, hi, lo, &pockets, &board, 2);
    assert_eq!(r.nwinhi[1], 1);
    assert_eq!(r.nloselo[1], 1);
    assert_eq!(r.nscoop[1], 0);
    let hand0 = pockets[0] | board;
    let hi0 = Eval::eval_n(&hand0, 7);
    let lo0 = poker_eval_rs::eval_low8::std_deck_lowball8_eval(&hand0, 7);
    r.update_statistics_hilo(0, hi0, lo0, &pockets, &board, 2);
    assert_eq!(r.nlosehi[0], 1);
    assert_eq!(r.nwinlo[0], 1);
}

#[test]
fn update_omaha_statistics_compares_omaha_hands() {
    let pockets = vec![mask("AsAdKcKh"), mask("2s3d4c5h")];
    let board = mask("6c7d8hJsQs");
    let mut r = EnumResult::new(Game::Omaha);
    let mut mine = None;
    poker_eval_rs::eval_omaha::std_deck_omaha_hi_eval(pockets[1], board, &mut mine).unwrap();
    assert!(r.update_omaha_statistics(1, mine.unwrap(), &pockets, &board, 2).is_ok());
    assert_eq!(r.nwinhi[1], 1);
    assert_eq!(r.nlosehi[1], 0);
}

#[test]
fn fold_counts_into_ordering_adds_pair_counts() {
    let mut r = EnumResult::new(Game::Holdem);
    r.allocate_resources(2, EnumOrderingMode::Hi).unwrap();
    r.nplayers = 2;
    r.nwinhi[0] = 3;
    r.ntiehi[0] = 1;
    r.nlosehi[1] = 2;
    r.nwinhi[1] = 5;
    r.nlosehi[0] = 4;
    r.fold_counts_into_ordering();
    let hist = &r.ordering.as_ref().unwrap().hist;
    assert_eq!(hist[0], 0);
    assert_eq!(hist[1], 6);
    assert_eq!(hist[2], 9);
    assert_eq!(hist[3], 0);
    assert_eq!(hist.len(), 16);
}

#[test]
fn fold_counts_into_ordering_leaves_high_low_histograms() {
    let mut r = EnumResult::new(Game::Holdem8);
    r.allocate_resources(2, EnumOrderingMode::Hilo).unwrap();
    r.nplayers = 2;
    r.nwinhi[0] = 3;
    r.fold_counts_into_ordering();
    assert!(r.ordering.as_ref().unwrap().hist.iter().all(|&x| x == 0));
}

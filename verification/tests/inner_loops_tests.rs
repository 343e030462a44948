use poker_eval_rs::enumdefs::Game;
use poker_eval_rs::enumerate::inner_loops::inner_loop;
use poker_eval_rs::enumerate::result::EnumResult;
use poker_eval_rs::deck::joker::JokerDeck;
use poker_eval_rs::deck::std_deck::StdDeck;
use poker_eval_rs::enumerate::inner_loops::{
    inner_loop_5draw, inner_loop_5draw8, inner_loop_5drawnsq, inner_loop_7stud,
    inner_loop_7studnsq, inner_loop_holdem, inner_loop_lowball, inner_loop_lowball27,
    inner_loop_omaha, inner_loop_omaha8, inner_loop_razz,
};
use poker_eval_rs::errors::PokerError;
use poker_eval_rs::eval::Eval;
use poker_eval_rs::handval::{HandVal, LowHandVal};
use poker_eval_rs::tables::StdDeckCardMask;

fn mask(s: &str) -> StdDeckCardMask {
    StdDeck::string_to_mask(s).unwrap().0
}

#[test]
fn holdem_inner_loop_evaluates_each_pocket_with_the_board() {
    let pockets = vec![mask("AsAd"), mask("KsKd")];
    let board = mask("2c7h9d");
    let shared = mask("Jc3s");
    let mut hival = vec![HandVal { value: 0 }; 2];
    let mut loval = vec![LowHandVal { value: 9 }; 2];
    inner_loop_holdem(&pockets, &board, &shared, &mut hival, &mut loval).unwrap();
    let aces = Eval::eval_n(&mask("AsAd2c7h9dJc3s"), 7);
    assert_eq!(hival[0], aces);
    assert!(hival[0].value > hival[1].value);
    assert_eq!(loval[0].value, 0);
    assert_eq!(loval[1].value, 0);
}

#[test]
fn stud_inner_loop_needs_unshared_cards_for_each_pocket() {
    let pockets = vec![mask("AsAd"), mask("KsKd")];
    let unshared = vec![mask("2c7h9dJc3s")];
    let mut hival = vec![HandVal { value: 5 }; 2];
    let mut loval = vec![LowHandVal { value: 5 }; 2];
    let r = inner_loop_7stud(&pockets, &unshared, &mut hival, &mut loval);
    match r {
        Err(PokerError::InvalidCardConfiguration(msg)) => {
            assert_eq!(msg, "Insufficient unshared cards for index 1")
        }
        _ => panic!("expected an error"),
    }
    // The first player was evaluated, the second left as it was.
    assert_eq!(hival[0], Eval::eval_n(&mask("AsAd2c7h9dJc3s"), 7));
    assert_eq!(hival[1].value, 5);
    assert_eq!(loval[1].value, 5);
}

#[test]
fn stud_high_low_and_razz_inner_loops() {
    let pockets = vec![mask("As2d3c")];
    let unshared = vec![mask("4h5sKdKc")];
    let mut hival = vec![HandVal { value: 0 }];
    let mut loval = vec![LowHandVal { value: 0 }];
    inner_loop_7studnsq(&pockets, &unshared, &mut hival, &mut loval).unwrap();
    assert!(hival[0].value >> 24 == 4); // a wheel straight
    assert_eq!(loval[0].value, 0x12345);
    let mut hival2 = vec![HandVal { value: 7 }];
    let mut loval2 = vec![LowHandVal { value: 0 }];
    inner_loop_razz(&pockets, &unshared, &mut hival2, &mut loval2).unwrap();
    assert_eq!(hival2[0].value, 0);
    assert_eq!(loval2[0].value, 0x12345);
}

#[test]
fn lowball27_inner_loop_gives_deuce_to_seven_values() {
    let pockets = vec![mask("7s5d")];
    let unshared = vec![mask("4c3h2s")];
    let mut hival = vec![HandVal { value: 1 }];
    let mut loval = vec![LowHandVal { value: 0 }];
    inner_loop_lowball27(&pockets, &unshared, &mut hival, &mut loval).unwrap();
    assert_eq!(hival[0].value, 0);
    assert_eq!(loval[0].value, 0x53210);
}

#[test]
fn omaha_inner_loops_keep_low_only_in_high_low() {
    let pockets = vec![mask("As2dKhQh")];
    let board = mask("JhTh4h");
    let shared = mask("3c5d");
    let mut hival = vec![HandVal { value: 0 }];
    let mut loval = vec![LowHandVal { value: 77 }];
    inner_loop_omaha(&pockets, &board, &shared, &mut hival, &mut loval).unwrap();
    assert_eq!(hival[0].value, 84650370);
    assert_eq!(loval[0].value, 0);
    let mut loval8 = vec![LowHandVal { value: 77 }];
    inner_loop_omaha8(&pockets, &board, &shared, &mut hival, &mut loval8).unwrap();
    assert_eq!(loval8[0].value, 274960);
}

#[test]
fn draw_inner_loops_with_the_joker() {
    let (p, _) = JokerDeck::string_to_mask("AsXx").unwrap();
    let (u, _) = JokerDeck::string_to_mask("2d3c4h").unwrap();
    let pockets = vec![p];
    let unshared = vec![u];
    let mut hival = vec![HandVal { value: 0 }];
    let mut loval = vec![LowHandVal { value: 3 }];
    inner_loop_5draw(&pockets, &unshared, &mut hival, &mut loval).unwrap();
    assert!(hival[0].value > 0);
    assert_eq!(loval[0].value, 0);
    let mut loval_nsq = vec![LowHandVal { value: 0 }];
    inner_loop_5drawnsq(&pockets, &unshared, &mut hival, &mut loval_nsq).unwrap();
    let mut loval_low = vec![LowHandVal { value: 0 }];
    let mut hival_low = vec![HandVal { value: 9 }];
    inner_loop_lowball(&pockets, &unshared, &mut hival_low, &mut loval_low).unwrap();
    assert_eq!(hival_low[0].value, 0);
    assert_eq!(loval_low[0], loval_nsq[0]);
    let mut loval8 = vec![LowHandVal { value: 0 }];
    inner_loop_5draw8(&pockets, &unshared, &mut hival, &mut loval8).unwrap();
    // The joker completes A-2-3-4-5: an eight low or better.
    assert_eq!(loval8[0], loval_nsq[0]);
    let empty: Vec<_> = Vec::new();
    let r = inner_loop_5draw(&pockets, &empty, &mut hival, &mut loval);
    assert!(r.is_err());
}

#[test]
fn inner_loop_counts_pot_outcomes() {
    let mut r = EnumResult::new(Game::Holdem8);
    let hi = vec![Some(HandVal { value: 50 }), Some(HandVal { value: 70 }), Some(HandVal { value: 70 }), None];
    let lo = vec![Some(LowHandVal { value: 3 }), None, Some(LowHandVal { value: 9 }), Some(LowHandVal { value: 3 })];
    inner_loop(4, &hi, &lo, &mut r);
    assert_eq!(r.nsamples, 1);
    // High: players 1 and 2 share the best value, player 0 loses, player 3 has no hand.
    assert_eq!(r.nlosehi[0], 1);
    assert_eq!(r.ntiehi[1], 1);
    assert_eq!(r.ntiehi[2], 1);
    assert_eq!(r.nwinhi[3] + r.ntiehi[3] + r.nlosehi[3], 0);
    // Low: players 0 and 3 share the best low, player 2 loses, player 1 has none.
    assert_eq!(r.ntielo[0], 1);
    assert_eq!(r.ntielo[3], 1);
    assert_eq!(r.nloselo[2], 1);
    assert_eq!(r.nwinlo[1] + r.ntielo[1] + r.nloselo[1], 0);
}

#[test]
fn inner_loop_single_best_wins() {
    let mut r = EnumResult::new(Game::Holdem);
    let hi = vec![Some(HandVal { value: 90 }), Some(HandVal { value: 20 })];
    let lo = vec![None, None];
    inner_loop(2, &hi, &lo, &mut r);
    assert_eq!(r.nwinhi[0], 1);
    assert_eq!(r.nlosehi[1], 1);
    // Nobody has a low: every player ties the low pot.
    assert_eq!(r.ntielo[0], 1);
    assert_eq!(r.ntielo[1], 1);
}

use poker_eval_rs::enumerate::montecarlo::DrawSource;
use poker_eval_rs::enumerate::montecarlo::{deck_montecarlo_n_cards_d, deck_montecarlo_n_cards_joker};
use poker_eval_rs::tables::{joker_deck_card_masks_table, std_deck_card_masks_table, StdDeckCardMask, JokerDeckCardMask};

#[test]
fn montecarlo_draws_distinct_live_cards() {
    let deck = std_deck_card_masks_table();
    let dead = deck[0] | deck[1];
    let draws = deck_montecarlo_n_cards_d(&deck, dead, 5, 50, &DrawSource::Random(42));
    assert_eq!(draws.len(), 50);
    for d in &draws {
        assert_eq!(d.len(), 5);
        let mut all = StdDeckCardMask::new();
        for c in d {
            assert_eq!(c.as_raw() & dead.as_raw(), 0);
            assert_eq!(c.as_raw() & all.as_raw(), 0);
            all = all | *c;
        }
        assert_eq!(all.num_cards(), 5);
    }
}

#[test]
fn montecarlo_draws_nothing_when_too_few_live_cards() {
    let deck: Vec<StdDeckCardMask> = (0..4).map(|i| StdDeckCardMask::from_raw(1 << i)).collect();
    let dead = deck[0];
    assert!(deck_montecarlo_n_cards_d(&deck, dead, 4, 10, &DrawSource::Random(42)).is_empty());
    assert_eq!(deck_montecarlo_n_cards_d(&deck, dead, 3, 10, &DrawSource::Random(42)).len(), 10);
}

#[test]
fn montecarlo_joker_draws_skip_dead_and_empty_masks() {
    let mut deck = joker_deck_card_masks_table();
    deck.push(JokerDeckCardMask::from_raw(0));
    let dead = deck[52];
    let draws = deck_montecarlo_n_cards_joker(&deck, dead, 52, 3, &DrawSource::Random(42));
    assert_eq!(draws.len(), 3);
    for d in &draws {
        let mut bits = 0u64;
        for c in d {
            assert_ne!(c.as_raw(), 0);
            assert_eq!(c.as_raw() & dead.as_raw(), 0);
            bits |= c.as_raw();
        }
        assert_eq!(bits.count_ones(), 52);
    }
}

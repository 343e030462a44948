use poker_eval_rs::enumerate::EnumError;
use poker_eval_rs::enumerate::card_enum::{
    enumerate_1_cards, enumerate_2_cards, enumerate_5_cards, enumerate_n_cards,
};
use poker_eval_rs::enumerate::card_enum_dead::{enumerate_2_cards_d, enumerate_n_cards_d};
use poker_eval_rs::enumerate::CardMask;
use poker_eval_rs::tables::{std_deck_card_masks_table, StdDeckCardMask, STD_DECK_N_CARDS};

#[test]
fn test_cardmask_trait_mask() {
    let mask = StdDeckCardMask::from_raw(0b1010);
    assert_eq!(CardMask::mask(&mask), 0b1010);
}

#[test]
fn test_cardmask_overlaps_true() {
    let mask1 = StdDeckCardMask::from_raw(0b1010);
    let mask2 = StdDeckCardMask::from_raw(0b1100);
    assert!(mask1.overlaps(&mask2));
}

#[test]
fn test_cardmask_overlaps_false() {
    let mask1 = StdDeckCardMask::from_raw(0b0101);
    let mask2 = StdDeckCardMask::from_raw(0b1010);
    assert!(!mask1.overlaps(&mask2));
}

#[test]
fn test_enumerate_1_cards_count() {
    let deck: Vec<StdDeckCardMask> = (0..5).map(|i| StdDeckCardMask::from_raw(1 << i)).collect();
    let count = enumerate_1_cards(&deck).len();
    assert_eq!(count, 5);
}

#[test]
fn test_enumerate_2_cards_count() {
    let deck: Vec<StdDeckCardMask> = (0..5).map(|i| StdDeckCardMask::from_raw(1 << i)).collect();
    let count = enumerate_2_cards(&deck).len();
    assert_eq!(count, 10);
}

#[test]
fn test_enumerate_5_cards_count() {
    let deck: Vec<StdDeckCardMask> = (0..7).map(|i| StdDeckCardMask::from_raw(1 << i)).collect();
    let count = enumerate_5_cards(&deck).len();
    assert_eq!(count, 21);
}

#[test]
fn test_enumerate_2_cards_d_with_dead() {
    let deck: Vec<StdDeckCardMask> = (0..5).map(|i| StdDeckCardMask::from_raw(1 << i)).collect();
    let dead = StdDeckCardMask::from_raw(1 << 0);
    let count = enumerate_2_cards_d(&deck, dead).len();
    assert_eq!(count, 6);
}

#[test]
fn test_enumerate_n_cards_d_c52_5() {
    let deck: Vec<StdDeckCardMask> = std_deck_card_masks_table();
    let dead = StdDeckCardMask::new();
    let count = enumerate_n_cards_d(&deck, dead, 5).len();
    assert_eq!(count, 2598960);
}

#[test]
fn test_enumerate_n_cards_d_with_dead_cards() {
    let deck: Vec<StdDeckCardMask> = (0..6).map(|i| StdDeckCardMask::from_raw(1 << i)).collect();
    let dead = deck[0];
    let count = enumerate_n_cards_d(&deck, dead, 2).len();
    assert_eq!(count, 10);
}

#[test]
fn test_bitor_stddeckcardmask() {
    let mask1 = StdDeckCardMask::from_raw(0b0101);
    let mask2 = StdDeckCardMask::from_raw(0b1010);
    let result = mask1 | mask2;
    assert_eq!(result.as_raw(), 0b1111);
}

#[test]
fn test_std_deck_size() {
    assert_eq!(STD_DECK_N_CARDS, 52);
    assert_eq!(std_deck_card_masks_table().len(), 52);
}

#[test]
fn enumerate_2_cards_pairs_are_distinct_and_ordered() {
    let deck: Vec<StdDeckCardMask> = (0..4).map(|i| StdDeckCardMask::from_raw(1 << i)).collect();
    let pairs = enumerate_2_cards(&deck);
    for (a, b) in &pairs {
        assert!(!a.overlaps(b));
    }
    let mut seen: Vec<u64> = pairs.iter().map(|(a, b)| a.as_raw() | b.as_raw()).collect();
    seen.sort();
    seen.dedup();
    assert_eq!(seen.len(), 6);
}

#[test]
fn enumerate_n_cards_matches_binomial() {
    let deck: Vec<StdDeckCardMask> = (0..6).map(|i| StdDeckCardMask::from_raw(1 << i)).collect();
    assert_eq!(enumerate_n_cards(&deck, 3).len(), 20);
    assert_eq!(enumerate_n_cards(&deck, 0).len(), 1);
    assert_eq!(enumerate_n_cards(&deck, 7).len(), 0);
}

#[test]
fn enum_errors_describe_themselves() {
    assert_eq!(EnumError::TooManyPlayers.message(), "Too many players");
    assert_eq!(EnumError::UnsupportedGameType.message(), "Unsupported game type");
    assert_eq!(EnumError::UnsupportedBoardConfiguration.message(), "Unsupported board configuration");
    assert_eq!(EnumError::OtherError("boom".to_string()).message(), "Error: boom");
}

#[test]
fn enum_result_is_reachable_from_enumdefs() {
    let r = poker_eval_rs::enumdefs::EnumResult::new(poker_eval_rs::enumdefs::Game::Razz);
    assert_eq!(r.nsamples, 0);
}

use poker_eval_rs::deck_std::{
    StdDeck, STD_DECK_N_CARDS, STD_DECK_RANK_2, STD_DECK_RANK_3, STD_DECK_RANK_9, STD_DECK_RANK_ACE,
    STD_DECK_RANK_COUNT, STD_DECK_RANK_KING, STD_DECK_SUIT_CLUBS, STD_DECK_SUIT_DIAMONDS,
    STD_DECK_SUIT_HEARTS, STD_DECK_SUIT_SPADES,
};
use poker_eval_rs::tables::{std_deck_card_masks_table, StdDeckCardMask};

#[test]
fn deck_std_test_card_is_set() {
    let mut card_mask = StdDeckCardMask::new();
    let card_index_to_set = 2;
    card_mask.set(card_index_to_set);
    assert!(
        card_mask.card_is_set(card_index_to_set),
        "Card at index {} should be set.",
        card_index_to_set
    );
    assert!(!card_mask.card_is_set(9), "Card at index 9 should not be set.");
}

#[test]
fn deck_std_test_card_is_set_for_all_cards() {
    let mut card_mask = StdDeckCardMask::new();
    for card_index in 0..STD_DECK_N_CARDS {
        card_mask.reset();
        card_mask.set(card_index);
        assert!(card_mask.card_is_set(card_index), "Card at index {} should be set.", card_index);
        for other_card_index in 0..STD_DECK_N_CARDS {
            if other_card_index != card_index {
                assert!(
                    !card_mask.card_is_set(other_card_index),
                    "Card at index {} should not be set.",
                    other_card_index
                );
            }
        }
    }
}

#[test]
fn deck_std_test_card_to_string_for_all_cards() {
    let expected_card_strings = vec![
        "2h", "3h", "4h", "5h", "6h", "7h", "8h", "9h", "Th", "Jh", "Qh", "Kh", "Ah", "2d", "3d",
        "4d", "5d", "6d", "7d", "8d", "9d", "Td", "Jd", "Qd", "Kd", "Ad", "2c", "3c", "4c", "5c",
        "6c", "7c", "8c", "9c", "Tc", "Jc", "Qc", "Kc", "Ac", "2s", "3s", "4s", "5s", "6s", "7s",
        "8s", "9s", "Ts", "Js", "Qs", "Ks", "As",
    ];
    for (card_index, &expected_str) in expected_card_strings.iter().enumerate() {
        let card_str = StdDeck::card_to_string(card_index);
        assert_eq!(
            card_str, expected_str,
            "Converting index {} should give '{}', but gave '{}'.",
            card_index, expected_str, card_str
        );
    }
}

#[test]
fn deck_std_test_mask_to_index() {
    for (expected_index, card_mask) in std_deck_card_masks_table().iter().enumerate() {
        let index = StdDeck::mask_to_index(card_mask);
        assert_eq!(index, Some(expected_index));
    }
}

#[test]
fn deck_std_test_mask_to_index_for_all_cards() {
    for (expected_index, &card_mask) in std_deck_card_masks_table().iter().enumerate() {
        let obtained_index = StdDeck::mask_to_index(&card_mask);
        println!(
            "Index obtained for card mask {} -> {:?}: {:?}",
            card_mask.mask_to_string(),
            card_mask,
            obtained_index
        );
        assert_eq!(obtained_index, Some(expected_index));
    }
}

#[test]
fn deck_std_test_or_operation() {
    let mut mask1 = StdDeckCardMask::new();
    mask1.set(STD_DECK_RANK_2);
    let mut mask2 = StdDeckCardMask::new();
    mask2.set(STD_DECK_RANK_3);
    mask1.or(&mask2);
    assert!(mask1.card_is_set(STD_DECK_RANK_2));
    assert!(mask1.card_is_set(STD_DECK_RANK_3));
}

#[test]
fn deck_std_test_and_operation() {
    let mut mask1 = StdDeckCardMask::new();
    mask1.set(STD_DECK_RANK_2);
    let mut mask2 = StdDeckCardMask::new();
    mask2.set(STD_DECK_RANK_2);
    mask1.and(&mask2);
    assert!(mask1.card_is_set(STD_DECK_RANK_2));
    assert!(!mask1.card_is_set(STD_DECK_RANK_3));
}

#[test]
fn deck_std_test_xor_operation() {
    let mut mask1 = StdDeckCardMask::new();
    mask1.set(STD_DECK_RANK_2);
    let mut mask2 = StdDeckCardMask::new();
    mask2.set(STD_DECK_RANK_2);
    mask2.set(STD_DECK_RANK_3);
    mask1.xor(&mask2);
    assert!(!mask1.card_is_set(STD_DECK_RANK_2));
    assert!(mask1.card_is_set(STD_DECK_RANK_3));
}

#[test]
fn deck_std_test_not_operation() {
    let mut mask = StdDeckCardMask::new();
    mask.set(STD_DECK_RANK_2);
    mask.not();
    assert!(!mask.card_is_set(STD_DECK_RANK_2));
    assert!(mask.card_is_set(STD_DECK_RANK_3));
}

#[test]
fn deck_std_test_num_cards() {
    let mut mask = StdDeckCardMask::new();
    mask.set(STD_DECK_RANK_2);
    mask.set(STD_DECK_RANK_3);
    assert_eq!(mask.num_cards(), 2);
}

#[test]
fn deck_std_test_string_to_card() {
    let card_str = "Ah";
    let card_index = StdDeck::string_to_card(card_str).unwrap();
    assert_eq!(card_index, STD_DECK_RANK_ACE + STD_DECK_SUIT_HEARTS * STD_DECK_RANK_COUNT);
}

#[test]
fn deck_std_test_string_to_mask() {
    let cards_str = "AhKh";
    let (mask, count) = StdDeck::string_to_mask(cards_str).unwrap();
    assert!(mask.card_is_set(STD_DECK_RANK_ACE + STD_DECK_SUIT_HEARTS * STD_DECK_RANK_COUNT));
    assert!(mask.card_is_set(STD_DECK_RANK_KING + STD_DECK_SUIT_HEARTS * STD_DECK_RANK_COUNT));
    assert_eq!(count, 2);
}

#[test]
fn deck_std_test_set_spades_with_specific_card() {
    let mut card_mask = StdDeckCardMask::new();
    let specific_spade_rank = 5;
    let specific_spade_mask = 1u64 << (specific_spade_rank + 39);
    card_mask.set_spades(specific_spade_mask as u16);
    assert_eq!(card_mask.spades(), specific_spade_mask as u16);
}

#[test]
fn deck_std_test_reset_and_is_empty() {
    let mut card_mask = StdDeckCardMask::new();
    card_mask.set(STD_DECK_RANK_3 + STD_DECK_SUIT_HEARTS * STD_DECK_RANK_COUNT);
    card_mask.set(STD_DECK_RANK_9 + STD_DECK_SUIT_DIAMONDS * STD_DECK_RANK_COUNT);
    assert!(!card_mask.is_empty());
    card_mask.reset();
    assert!(card_mask.is_empty());
}

#[test]
fn deck_std_test_spades() {
    let mut mask = StdDeckCardMask::new();
    mask.set(StdDeck::make_card(STD_DECK_RANK_ACE, STD_DECK_SUIT_SPADES));
    assert_eq!(
        mask,
        StdDeckCardMask {
            mask: 1 << STD_DECK_RANK_ACE
        },
        "The spades mask is incorrect"
    );
}

#[test]
fn deck_std_test_all_spades() {
    let mut mask = StdDeckCardMask::new();
    for rank in 0..13 {
        mask.set(StdDeck::make_card(rank, STD_DECK_SUIT_SPADES));
    }
    let expected_spades_mask = (1 << 13) - 1;
    assert_eq!(mask.spades(), expected_spades_mask, "The mask for all spades is incorrect");
}

#[test]
fn deck_std_test_all_clubs() {
    let mut mask = StdDeckCardMask::new();
    for rank in 0..13 {
        mask.set(StdDeck::make_card(rank, STD_DECK_SUIT_CLUBS));
    }
    let expected_clubs_mask = (1 << 13) - 1;
    assert_eq!(mask.clubs(), expected_clubs_mask, "The mask for all clubs is incorrect");
}

#[test]
fn deck_std_test_all_diamonds() {
    let mut mask = StdDeckCardMask::new();
    for rank in 0..13 {
        mask.set(StdDeck::make_card(rank, STD_DECK_SUIT_DIAMONDS));
    }
    let expected_diamonds_mask = (1 << 13) - 1;
    assert_eq!(mask.diamonds(), expected_diamonds_mask, "The mask for all diamonds is incorrect");
}

#[test]
fn deck_std_test_all_hearts() {
    let mut mask = StdDeckCardMask::new();
    for rank in 0..13 {
        mask.set(StdDeck::make_card(rank, STD_DECK_SUIT_HEARTS));
    }
    let expected_hearts_mask = (1 << 13) - 1;
    assert_eq!(mask.hearts(), expected_hearts_mask, "The mask for all hearts is incorrect");
}

#[test]
fn deck_std_string_to_mask_errors_are_in_french() {
    let e = StdDeck::string_to_mask("AhK").unwrap_err();
    assert_eq!(e, "Format de carte invalide : ['K']");
    // A chunk that starts with a space is skipped.
    let (m, n) = StdDeck::string_to_mask("Ah K").unwrap();
    assert_eq!(n, 1);
    assert_eq!(m.num_cards(), 1);
    let e = StdDeck::string_to_mask("Xh").unwrap_err();
    assert_eq!(e, "Caractère de carte non reconnu : Xh");
}

#[test]
fn deck_std_rank_suit_make_card_agree() {
    for i in 0..STD_DECK_N_CARDS {
        assert_eq!(StdDeck::make_card(StdDeck::rank(i), StdDeck::suit(i)), i);
        let name = StdDeck::card_to_string(i);
        assert_eq!(StdDeck::string_to_card(&name), Some(i));
    }
}

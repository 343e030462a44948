use poker_eval_rs::deck::{CardMask, Deck};

fn list_bits(m: &CardMask, out: &mut Vec<i32>) -> i32 {
    let mut n = 0;
    for i in 0..64 {
        if m.mask & (1u64 << i) != 0 {
            out[n as usize] = i;
            n += 1;
        }
    }
    n
}

#[test]
fn generic_deck_names_cards_by_number() {
    let deck = Deck {
        n_cards: 64,
        name: String::from("bits"),
        card_to_string: |i: i32| format!("#{}", i),
        string_to_card: |_s: &str| -1,
        mask_to_cards: list_bits,
        num_cards: |m: &CardMask| m.mask.count_ones() as i32,
    };
    let m = CardMask { mask: 0b1010_0001 };
    assert_eq!(deck.generic_deck_mask_to_string(&m), "Card 0 Card 5 Card 7");
    assert_eq!(deck.generic_deck_mask_string(&m), "Card 0 Card 5 Card 7");
    assert_eq!(deck.generic_deck_num_cards(&m), 3);
    assert_eq!(deck.generic_deck_card_to_string(-12), "Card -12");
    assert_eq!(deck.generic_deck_mask_to_string(&CardMask { mask: 0 }), "");
}

#[test]
fn universal_mask_trait_new_is_an_empty_standard_mask() {
    let m = <poker_eval_rs::deck::universal::UniversalCardMask as poker_eval_rs::deck::traits::CardMask>::new();
    assert_eq!(m.mask, 0);
    assert_eq!(m.variant, poker_eval_rs::deck::universal::DeckVariant::Standard52);
}

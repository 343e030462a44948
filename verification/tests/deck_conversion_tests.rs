use poker_eval_rs::deck::manila::ManilaCardMask;
use poker_eval_rs::deck::std_deck::StdDeck;
use poker_eval_rs::deck::universal::{DeckVariant, UniversalCardMask};
use poker_eval_rs::tables::JokerDeckCardMask;

#[test]
fn joker_to_std_keeps_each_card() {
    for i in 0..52usize {
        let mut m = JokerDeckCardMask::new();
        m.set(i);
        let s = m.to_std();
        for j in 0..52usize {
            assert_eq!(s.card_is_set(j), i == j);
        }
    }
}

#[test]
fn joker_to_std_drops_the_joker() {
    let mut m = JokerDeckCardMask::new();
    m.set(0);
    m.set(52);
    let s = m.to_std();
    assert!(s.card_is_set(0));
    assert_eq!(s.num_cards(), 1);
}

#[test]
fn universal_joker_mask_to_std_keeps_ace_of_hearts() {
    // Card 12 is the ace of hearts in both decks.
    let u = UniversalCardMask { mask: 1u64 << 12 | 1u64 << 52, variant: DeckVariant::Joker53 };
    let s = u.to_std_mask().unwrap();
    assert!(s.card_is_set(12));
    assert!(!s.card_is_set(51));
    assert_eq!(s.num_cards(), 1);
}

#[test]
fn manila_to_std_keeps_each_card() {
    // Manila card 0 is the seven of hearts (standard card 5), card 31 the ace of
    // spades (standard card 51).
    let m = ManilaCardMask { mask: 1u32 | (1u32 << 31) };
    let s = m.to_std_mask();
    assert!(s.card_is_set(5));
    assert!(s.card_is_set(51));
    assert_eq!(s.num_cards(), 2);
}

#[test]
fn string_to_mask_takes_pairs_of_card_characters() {
    assert_eq!(StdDeck::string_to_mask("Ah Kh").unwrap().1, 2);
    assert!(StdDeck::string_to_mask("AhK").is_err());
    assert!(StdDeck::string_to_mask("Ah Kx").is_err());
    assert_eq!(StdDeck::string_to_mask("  ").unwrap().1, 0);
}

//! Common interfaces of the card masks and decks of every size.
use vstd::prelude::*;

verus! {

/// Operations shared by the card masks of every deck.
pub trait CardMask: Sized {
    /// Card `index` can be tested in this mask.
    spec fn can_test(&self, index: usize) -> bool;

    /// Card `index` can be added to this mask.
    spec fn can_set(&self, index: usize) -> bool;

    /// The empty mask.
    fn new() -> Self;

    /// Tells whether no card is in the mask.
    fn is_empty(&self) -> bool;

    /// Keeps only the cards also in `other`.
    fn and(&mut self, other: &Self);

    /// Adds the cards of `other`.
    fn or(&mut self, other: &Self);

    /// Toggles the cards of `other`.
    fn xor(&mut self, other: &Self);

    /// Complements the mask.
    fn not(&mut self);

    /// The number of cards in the mask.
    fn num_cards(&self) -> usize;

    /// Tells whether card `index` is in the mask.
    fn card_is_set(&self, index: usize) -> bool
        requires
            self.can_test(index),
    ;

    /// Adds card `index`.
    fn set(&mut self, index: usize)
        requires
            old(self).can_set(index),
    ;

    /// The names of the cards in the mask, separated by spaces.
    fn mask_to_string(&self) -> String;
}

/// Operations shared by the decks of every size.
pub trait Deck {
    /// The card masks of this deck.
    type Mask: CardMask;

    /// Card `card_index` can be named.
    spec fn can_name(card_index: usize) -> bool;

    /// The number of cards in the deck.
    fn n_cards() -> usize;

    /// The two-character name of card `card_index`.
    fn card_to_string(card_index: usize) -> String
        requires
            Self::can_name(card_index),
    ;

    /// The card named by `card_str`, if any.
    fn string_to_card(card_str: &str) -> Option<usize>;

    /// The mask of the cards named in `cards_str`, with their number.
    fn string_to_mask(cards_str: &str) -> Result<(Self::Mask, usize), String>;
}

} // verus!

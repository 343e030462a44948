//! The Manila deck: 8 ranks (from the seven up) in each of the four suits,
//! numbered suit by suit; each card maps to a card of the standard deck.
use vstd::prelude::*;
use crate::deck::reduced::{
    bits_below, count_bits64, lemma_reduced_std_cards, lemma_reduced_std_count, reduced_cards_text, reduced_from_std, reduced_from_std_index,
    reduced_mask_to_string, reduced_parse, reduced_std_mask, reduced_string_card, reduced_string_to_card,
    reduced_string_to_mask, reduced_to_std, reduced_to_std_index, reduced_to_std_mask, words,
};
use crate::deck::std_deck::{card_chars, StdDeck};
use crate::deck::traits::{CardMask, Deck};
use crate::tables::{StdDeckCardMask, card_in, cards_of, joker_card_in, joker_cards_below};

verus! {

/// Number of cards in the Manila deck.
pub const MANILA_DECK_N_CARDS: usize = 32;

/// A set of cards of the Manila deck: card `i` is bit `i`.
#[derive(Clone, Copy, Debug, PartialEq, Eq, Structural, Default)]
pub struct ManilaCardMask {
    pub mask: u32,
}

impl ManilaCardMask {
    /// The empty mask.
    pub fn new() -> (m: ManilaCardMask)
        ensures
            m.mask == 0,
    {
        ManilaCardMask { mask: 0 }
    }

    /// The mask with the given raw bits (the low 32 bits kept).
    pub fn from_raw(mask: u64) -> (m: ManilaCardMask)
        ensures
            m.mask == mask as u32,
    {
        ManilaCardMask { mask: mask as u32 }
    }

    /// The raw bits of the mask.
    pub fn as_raw(&self) -> (r: u64)
        ensures
            r == self.mask as u64,
    {
        self.mask as u64
    }

    /// The standard-deck mask of the same cards.
    pub fn to_std_mask(&self) -> (r: StdDeckCardMask)
        ensures
            r.mask == reduced_std_mask(self.mask as u64, 32, 8, 5),
            forall|j: int| 0 <= j < 52 ==> #[trigger] card_in(r.mask, j) == (reduced_from_std(j, 8, 5) matches Some(i)
                && i < 32 && joker_card_in(self.mask as u64, i)),
            cards_of(r.mask).len() == joker_cards_below(self.mask as u64, 32).len(),
    {
        proof {
            lemma_reduced_std_count(self.mask as u64, 32, 8, 5);
            assert forall|j: int| 0 <= j < 52 implies #[trigger] card_in(reduced_std_mask(self.mask as u64, 32, 8, 5), j)
                == (reduced_from_std(j, 8, 5) matches Some(i) && i < 32 && joker_card_in(self.mask as u64, i)) by {
                lemma_reduced_std_cards(self.mask as u64, 32, 8, 5, j);
            }
        }
        reduced_to_std_mask(self.mask as u64, MANILA_DECK_N_CARDS, 8, 5)
    }
}

impl CardMask for ManilaCardMask {
    open spec fn can_test(&self, index: usize) -> bool {
        index < 32
    }

    open spec fn can_set(&self, index: usize) -> bool {
        index < 32
    }

    fn new() -> (m: Self)
        ensures
            m.mask == 0,
    {
        ManilaCardMask::new()
    }

    fn is_empty(&self) -> (b: bool)
        ensures
            b == (self.mask == 0),
    {
        self.mask == 0
    }

    fn and(&mut self, other: &Self)
        ensures
            final(self).mask == old(self).mask & other.mask,
    {
        self.mask = self.mask & other.mask;
    }

    fn or(&mut self, other: &Self)
        ensures
            final(self).mask == old(self).mask | other.mask,
    {
        self.mask = self.mask | other.mask;
    }

    fn xor(&mut self, other: &Self)
        ensures
            final(self).mask == old(self).mask ^ other.mask,
    {
        self.mask = self.mask ^ other.mask;
    }

    fn not(&mut self)
        ensures
            final(self).mask == !old(self).mask,
    {
        self.mask = !self.mask;
    }

    fn num_cards(&self) -> (n: usize)
        ensures
            n == bits_below(self.mask as u64, 64),
    {
        count_bits64(self.mask as u64)
    }

    fn card_is_set(&self, index: usize) -> (b: bool)
        ensures
            b == joker_card_in(self.mask as u64, index as int),
    {
        proof {
            crate::bits::lemma_bit_test(self.mask as u64, index as u64);
            lemma_cast_test(self.mask, index as u32);
        }
        (self.mask & (1u32 << (index as u32))) != 0
    }

    fn set(&mut self, index: usize)
        ensures
            final(self).mask == old(self).mask | (1u32 << (index as u32)),
    {
        self.mask = self.mask | (1u32 << (index as u32));
    }

    fn mask_to_string(&self) -> (s: String)
        ensures
            s@ == reduced_cards_text(joker_cards_below(self.mask as u64, 32), 8, 5),
    {
        reduced_mask_to_string(self.mask as u64, MANILA_DECK_N_CARDS, 8, 5)
    }
}

proof fn lemma_parsed_fits(s: Seq<char>)
    ensures
        reduced_parse(words(s), 8, 5, "Invalid Manila card: "@, 0, 0) matches Ok((sm, sn)) ==> (sm as u32) as u64 == sm,
{
    crate::deck::reduced::lemma_parse_u32(words(s), 8, 5, "Invalid Manila card: "@, 0, 0);
}

proof fn lemma_cast_test(m: u32, i: u32)
    by (bit_vector)
    requires
        i < 32,
    ensures
        ((m & (1u32 << i)) != 0) == (((m as u64) & (1u64 << (i as u64))) != 0),
{
}

/// Manila deck utilities.
pub struct ManilaDeck;

impl ManilaDeck {
    /// The standard-deck index of card `manila_index` (see `reduced_to_std`).
    pub fn to_std_index(manila_index: usize) -> (r: usize)
        requires
            manila_index / 8 * 13 + 26 <= usize::MAX,
        ensures
            r == reduced_to_std(manila_index as int, 8, 5),
    {
        reduced_to_std_index(manila_index, 8, 5)
    }

    /// The card that standard-deck card `std_index` is, if it is in this deck.
    pub fn from_std_index(std_index: usize) -> (r: Option<usize>)
        requires
            std_index / 13 * 8 + 13 <= usize::MAX,
        ensures
            r matches Some(v) ==> reduced_from_std(std_index as int, 8, 5) == Some(v as int),
            r is None ==> reduced_from_std(std_index as int, 8, 5) is None,
    {
        reduced_from_std_index(std_index, 8, 5)
    }
}

impl Deck for ManilaDeck {
    type Mask = ManilaCardMask;

    open spec fn can_name(card_index: usize) -> bool {
        card_index / 8 * 13 + 26 <= usize::MAX
    }

    fn n_cards() -> (n: usize)
        ensures
            n == 32,
    {
        MANILA_DECK_N_CARDS
    }

    fn card_to_string(card_index: usize) -> (s: String)
        ensures
            s@ == card_chars(reduced_to_std(card_index as int, 8, 5)),
    {
        StdDeck::card_to_string(ManilaDeck::to_std_index(card_index))
    }

    fn string_to_card(card_str: &str) -> (c: Option<usize>)
        ensures
            c matches Some(v) ==> reduced_string_card(card_str@, 8, 5) == Some(v as int),
            c is None ==> reduced_string_card(card_str@, 8, 5) is None,
    {
        reduced_string_to_card(card_str, 8, 5)
    }

    fn string_to_mask(cards_str: &str) -> (res: Result<(ManilaCardMask, usize), String>)
        ensures
            match (res, reduced_parse(words(cards_str@), 8, 5, "Invalid Manila card: "@, 0, 0)) {
                (Ok((m, n)), Ok((sm, sn))) => m.mask as u64 == sm && n == sn,
                (Err(e), Err(se)) => e@ == se,
                _ => false,
            },
    {
        match reduced_string_to_mask(cards_str, 8, 5, "Invalid Manila card: ") {
            Ok((m, n)) => {
                proof {
                    lemma_parsed_fits(cards_str@);
                }
                Ok((ManilaCardMask { mask: m as u32 }, n))
            },
            Err(e) => Err(e),
        }
    }
}

} // verus!

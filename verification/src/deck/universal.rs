//! One card mask and one deck for every supported deck size (32, 36, 52, 53).
use vstd::prelude::*;
use crate::deck::joker::{
    joker_card_chars, joker_cards_text, joker_parse_chunks, joker_string_card, joker_to_std, JokerDeck,
};
use crate::deck::manila::{ManilaCardMask, ManilaDeck};
use crate::deck::reduced::{
    bits_below, count_bits64, reduced_cards_text, reduced_parse, reduced_std_mask, reduced_string_card,
    reduced_to_std, reduced_to_std_mask, words,
};
use crate::deck::short_deck::{ShortDeck, ShortDeckCardMask};
use crate::deck::std_deck::{card_chars, cards_text, non_white, parse_pairs, string_card, StdDeck};
use crate::deck::traits::{CardMask, Deck};
use crate::tables::{
    JokerDeckCardMask, StdDeckCardMask, card_in, card_mask_value, cards_of, joker_card_in, joker_cards_below,
};

verus! {

/// The supported decks.
#[derive(Debug, Clone, Copy, PartialEq, Eq, Structural, PartialOrd, Ord, Hash, Default)]
pub enum DeckVariant {
    #[default]
    Standard52,
    Short36,
    Manila32,
    Joker53,
}

/// A card mask of any of the supported decks, in that deck's own layout.
#[derive(Debug, Clone, Copy, PartialEq, Eq, Structural, Default)]
pub struct UniversalCardMask {
    pub mask: u64,
    pub variant: DeckVariant,
}

/// The standard-deck mask that the mask `m` of deck `v` stands for.
pub open spec fn universal_std_mask(m: u64, v: DeckVariant) -> u64 {
    match v {
        DeckVariant::Standard52 => m,
        DeckVariant::Short36 => reduced_std_mask(m, 36, 9, 4),
        DeckVariant::Manila32 => reduced_std_mask(m, 32, 8, 5),
        DeckVariant::Joker53 => joker_to_std(m),
    }
}

impl UniversalCardMask {
    /// The empty mask of deck `variant`.
    pub fn new(variant: DeckVariant) -> (m: UniversalCardMask)
        ensures
            m.mask == 0,
            m.variant == variant,
    {
        UniversalCardMask { mask: 0, variant }
    }

    /// The standard-deck mask of the same cards (the joker left out); always `Some`.
    pub fn to_std_mask(&self) -> (r: Option<StdDeckCardMask>)
        ensures
            r matches Some(s) && s.mask == universal_std_mask(self.mask, self.variant),
            self.variant == DeckVariant::Joker53 ==> (r matches Some(s) && forall|i: int|
                0 <= i < 52 ==> #[trigger] card_in(s.mask, i) == joker_card_in(self.mask, i)),
    {
        match self.variant {
            DeckVariant::Standard52 => Some(StdDeckCardMask::from_raw(self.mask)),
            DeckVariant::Short36 => Some(reduced_to_std_mask(self.mask, 36, 9, 4)),
            DeckVariant::Manila32 => Some(reduced_to_std_mask(self.mask, 32, 8, 5)),
            DeckVariant::Joker53 => Some(JokerDeckCardMask { cards_n: self.mask }.to_std()),
        }
    }
}

impl CardMask for UniversalCardMask {
    open spec fn can_test(&self, index: usize) -> bool {
        self.variant == DeckVariant::Standard52 || index < 64
    }

    open spec fn can_set(&self, index: usize) -> bool {
        match self.variant {
            DeckVariant::Standard52 => index < 52,
            DeckVariant::Joker53 => index < 53,
            _ => index < 64,
        }
    }

    fn new() -> Self
        returns
            (UniversalCardMask { mask: 0, variant: DeckVariant::Standard52 }),
    {
        UniversalCardMask { mask: 0, variant: DeckVariant::Standard52 }
    }

    fn is_empty(&self) -> (b: bool)
        ensures
            b == (self.mask == 0),
    {
        self.mask == 0
    }

    fn and(&mut self, other: &Self)
        ensures
            final(self).mask == old(self).mask & other.mask,
            final(self).variant == old(self).variant,
    {
        self.mask = self.mask & other.mask;
    }

    fn or(&mut self, other: &Self)
        ensures
            final(self).mask == old(self).mask | other.mask,
            final(self).variant == old(self).variant,
    {
        self.mask = self.mask | other.mask;
    }

    fn xor(&mut self, other: &Self)
        ensures
            final(self).mask == old(self).mask ^ other.mask,
            final(self).variant == old(self).variant,
    {
        self.mask = self.mask ^ other.mask;
    }

    fn not(&mut self)
        ensures
            final(self).mask == !old(self).mask,
            final(self).variant == old(self).variant,
    {
        self.mask = !self.mask;
    }

    fn num_cards(&self) -> (n: usize)
        ensures
            n == bits_below(self.mask, 64),
    {
        count_bits64(self.mask)
    }

    fn card_is_set(&self, index: usize) -> (b: bool)
        ensures
            self.variant == DeckVariant::Standard52 ==> b == card_in(self.mask, index as int),
            self.variant != DeckVariant::Standard52 ==> b == joker_card_in(self.mask, index as int),
    {
        match self.variant {
            DeckVariant::Standard52 => StdDeckCardMask::from_raw(self.mask).card_is_set(index),
            DeckVariant::Short36 => {
                proof {
                    crate::bits::lemma_bit_test(self.mask, index as u64);
                }
                (self.mask & (1u64 << (index as u64))) != 0
            },
            DeckVariant::Manila32 => {
                proof {
                    crate::bits::lemma_bit_test(self.mask, index as u64);
                }
                (self.mask & (1u64 << (index as u64))) != 0
            },
            DeckVariant::Joker53 => JokerDeckCardMask::from_raw(self.mask).card_is_set(index),
        }
    }

    fn set(&mut self, index: usize)
        ensures
            final(self).variant == old(self).variant,
            old(self).variant == DeckVariant::Standard52 ==> final(self).mask == old(self).mask
                | card_mask_value(index as int),
            old(self).variant != DeckVariant::Standard52 ==> final(self).mask == old(self).mask | (1u64
                << (index as u64)),
    {
        match self.variant {
            DeckVariant::Standard52 => {
                let m = StdDeckCardMask::from_card_index(index);
                self.mask = self.mask | m.as_raw();
            },
            DeckVariant::Short36 => {
                self.mask = self.mask | (1u64 << (index as u64));
            },
            DeckVariant::Manila32 => {
                self.mask = self.mask | (1u64 << (index as u64));
            },
            DeckVariant::Joker53 => {
                let m = JokerDeckCardMask::get_mask(index);
                self.mask = self.mask | m.as_raw();
            },
        }
    }

    fn mask_to_string(&self) -> (s: String)
        ensures
            self.variant == DeckVariant::Standard52 ==> s@ == cards_text(cards_of(self.mask)),
            self.variant == DeckVariant::Short36 ==> s@ == reduced_cards_text(joker_cards_below(self.mask, 36), 9, 4),
            self.variant == DeckVariant::Manila32 ==> s@ == reduced_cards_text(joker_cards_below((self.mask as u32) as u64, 32), 8, 5),
            self.variant == DeckVariant::Joker53 ==> s@ == joker_cards_text(joker_cards_below(self.mask, 53)),
    {
        match self.variant {
            DeckVariant::Standard52 => StdDeckCardMask::from_raw(self.mask).mask_to_string(),
            DeckVariant::Short36 => ShortDeckCardMask::from_raw(self.mask).mask_to_string(),
            DeckVariant::Manila32 => ManilaCardMask::from_raw(self.mask).mask_to_string(),
            DeckVariant::Joker53 => JokerDeckCardMask::from_raw(self.mask).mask_to_string(),
        }
    }
}

/// A deck of any of the supported sizes.
pub struct UniversalDeck {
    pub variant: DeckVariant,
}

/// The result of reading standard-deck cards into a universal mask.
pub open spec fn std_parse_ok(res: Result<(UniversalCardMask, usize), String>, s: Seq<char>, v: DeckVariant) -> bool {
    match (res, parse_pairs(non_white(s), 0, 0)) {
        (Ok((m, n)), Ok((sm, sn))) => m.mask == sm && n == sn && m.variant == v,
        (Err(e), Err(se)) => e@ == se,
        _ => false,
    }
}

impl UniversalDeck {
    /// The deck `variant`.
    pub fn new(variant: DeckVariant) -> (d: UniversalDeck)
        ensures
            d.variant == variant,
    {
        UniversalDeck { variant }
    }

    /// The name of card `card_index` of this deck.
    pub fn variant_to_string(&self, card_index: usize) -> (s: String)
        requires
            self.variant == DeckVariant::Short36 ==> ShortDeck::can_name(card_index),
            self.variant == DeckVariant::Manila32 ==> ManilaDeck::can_name(card_index),
        ensures
            self.variant == DeckVariant::Standard52 ==> s@ == card_chars(card_index as int),
            self.variant == DeckVariant::Short36 ==> s@ == card_chars(reduced_to_std(card_index as int, 9, 4)),
            self.variant == DeckVariant::Manila32 ==> s@ == card_chars(reduced_to_std(card_index as int, 8, 5)),
            self.variant == DeckVariant::Joker53 ==> s@ == joker_card_chars(card_index as int),
    {
        match self.variant {
            DeckVariant::Standard52 => StdDeck::card_to_string(card_index),
            DeckVariant::Short36 => <ShortDeck as Deck>::card_to_string(card_index),
            DeckVariant::Manila32 => <ManilaDeck as Deck>::card_to_string(card_index),
            DeckVariant::Joker53 => JokerDeck::card_to_string(card_index),
        }
    }

    /// The card of this deck named by `card_str`, if any.
    pub fn variant_string_to_card(&self, card_str: &str) -> (c: Option<usize>)
        ensures
            self.variant == DeckVariant::Standard52 ==> (c matches Some(v) ==> string_card(card_str@) == Some(v as int))
                && (c is None ==> string_card(card_str@) is None),
            self.variant == DeckVariant::Short36 ==> (c matches Some(v) ==> reduced_string_card(card_str@, 9, 4) == Some(v as int))
                && (c is None ==> reduced_string_card(card_str@, 9, 4) is None),
            self.variant == DeckVariant::Manila32 ==> (c matches Some(v) ==> reduced_string_card(card_str@, 8, 5) == Some(v as int))
                && (c is None ==> reduced_string_card(card_str@, 8, 5) is None),
            self.variant == DeckVariant::Joker53 ==> (c matches Some(v) ==> joker_string_card(card_str@) == Some(v as int))
                && (c is None ==> joker_string_card(card_str@) is None),
    {
        match self.variant {
            DeckVariant::Standard52 => StdDeck::string_to_card(card_str),
            DeckVariant::Short36 => <ShortDeck as Deck>::string_to_card(card_str),
            DeckVariant::Manila32 => <ManilaDeck as Deck>::string_to_card(card_str),
            DeckVariant::Joker53 => JokerDeck::string_to_card(card_str),
        }
    }

    /// Reads the cards of this deck named in `cards_str` into a mask of this deck,
    /// with their number.
    pub fn variant_string_to_mask(&self, cards_str: &str) -> (res: Result<(UniversalCardMask, usize), String>)
        ensures
            self.variant == DeckVariant::Standard52 ==> std_parse_ok(res, cards_str@, DeckVariant::Standard52),
            self.variant == DeckVariant::Short36 ==> match (res, reduced_parse(words(cards_str@), 9, 4, "Invalid short deck card: "@, 0, 0)) {
                (Ok((m, n)), Ok((sm, sn))) => m.mask == sm && n == sn && m.variant == DeckVariant::Short36,
                (Err(e), Err(se)) => e@ == se,
                _ => false,
            },
            self.variant == DeckVariant::Manila32 ==> match (res, reduced_parse(words(cards_str@), 8, 5, "Invalid Manila card: "@, 0, 0)) {
                (Ok((m, n)), Ok((sm, sn))) => m.mask == sm && n == sn && m.variant == DeckVariant::Manila32,
                (Err(e), Err(se)) => e@ == se,
                _ => false,
            },
            self.variant == DeckVariant::Joker53 ==> match (res, joker_parse_chunks(cards_str@, 0, 0)) {
                (Ok((m, n)), Ok((sm, sn))) => m.mask == sm && n == sn && m.variant == DeckVariant::Joker53,
                (Err(e), Err(se)) => e@ == se,
                _ => false,
            },
    {
        match self.variant {
            DeckVariant::Standard52 => match StdDeck::string_to_mask(cards_str) {
                Ok((m, n)) => Ok((UniversalCardMask { mask: m.as_raw(), variant: DeckVariant::Standard52 }, n)),
                Err(e) => Err(e),
            },
            DeckVariant::Short36 => match <ShortDeck as Deck>::string_to_mask(cards_str) {
                Ok((m, n)) => Ok((UniversalCardMask { mask: m.as_raw(), variant: DeckVariant::Short36 }, n)),
                Err(e) => Err(e),
            },
            DeckVariant::Manila32 => match <ManilaDeck as Deck>::string_to_mask(cards_str) {
                Ok((m, n)) => Ok((UniversalCardMask { mask: m.as_raw(), variant: DeckVariant::Manila32 }, n)),
                Err(e) => Err(e),
            },
            DeckVariant::Joker53 => match JokerDeck::string_to_mask(cards_str) {
                Ok((m, n)) => Ok((UniversalCardMask { mask: m.as_raw(), variant: DeckVariant::Joker53 }, n)),
                Err(e) => Err(e),
            },
        }
    }
}

impl Deck for UniversalDeck {
    type Mask = UniversalCardMask;

    open spec fn can_name(card_index: usize) -> bool {
        true
    }

    fn n_cards() -> (n: usize)
        ensures
            n == 53,
    {
        53
    }

    fn card_to_string(card_index: usize) -> (s: String)
        ensures
            s@ == card_chars(card_index as int),
    {
        StdDeck::card_to_string(card_index)
    }

    fn string_to_card(card_str: &str) -> (c: Option<usize>)
        ensures
            c matches Some(v) ==> string_card(card_str@) == Some(v as int) && v < 52,
            c is None ==> string_card(card_str@) is None,
    {
        StdDeck::string_to_card(card_str)
    }

    fn string_to_mask(cards_str: &str) -> (res: Result<(UniversalCardMask, usize), String>)
        ensures
            std_parse_ok(res, cards_str@, DeckVariant::Standard52),
    {
        match StdDeck::string_to_mask(cards_str) {
            Ok((m, n)) => Ok((UniversalCardMask { mask: m.as_raw(), variant: DeckVariant::Standard52 }, n)),
            Err(e) => Err(e),
        }
    }
}

} // verus!

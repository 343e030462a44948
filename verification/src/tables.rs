//! The card-mask types of the standard and joker decks and their per-card masks.
//!
//! Standard deck layout: card index `i` has rank `i % 13` and suit `i / 13`
//! (hearts, diamonds, clubs, spades); spades occupy bits 0..13 of the mask,
//! clubs bits 16..29, diamonds bits 32..45 and hearts bits 48..61.
//! Joker deck layout: card index `i` is bit `i`, the joker being card 52.
use vstd::prelude::*;

verus! {

/// Number of cards in a standard deck.
pub const STD_DECK_N_CARDS: usize = 52;
/// Number of ranks in a standard deck.
pub const STD_DECK_RANK_COUNT: usize = 13;
/// Number of suits in a standard deck.
pub const STD_DECK_SUIT_COUNT: usize = 4;
/// Number of cards in a joker deck.
pub const JOKER_DECK_N_CARDS: usize = 53;

/// The bit that card `i` of the standard deck occupies.
pub open spec fn card_bit(i: int) -> int {
    i % 13 + 16 * (3 - i / 13)
}

/// Card `i` (0..52) is present in the standard-deck mask `m`.
pub open spec fn card_in(m: u64, i: int) -> bool {
    0 <= i < 52 && (m >> (card_bit(i) as u64)) & 1u64 == 1u64
}

/// The indices below `k` of the cards present in `m`, in increasing order.
pub open spec fn cards_below(m: u64, k: int) -> Seq<int>
    decreases k,
{
    if k <= 0 {
        seq![]
    } else {
        cards_below(m, k - 1) + if card_in(m, k - 1) {
            seq![k - 1]
        } else {
            seq![]
        }
    }
}

/// The indices of all cards present in `m`, in increasing order.
pub open spec fn cards_of(m: u64) -> Seq<int> {
    cards_below(m, 52)
}

/// The single-card mask of standard-deck card `i`.
pub open spec fn card_mask_value(i: int) -> u64 {
    (1u64 << (card_bit(i) as u64))
}

/// Card `i` is present in the joker-deck mask `m`.
pub open spec fn joker_card_in(m: u64, i: int) -> bool {
    0 <= i < 64 && (m >> (i as u64)) & 1u64 == 1u64
}

/// The indices below `k` of the cards present in the joker-deck mask `m`, increasing.
pub open spec fn joker_cards_below(m: u64, k: int) -> Seq<int>
    decreases k,
{
    if k <= 0 {
        seq![]
    } else {
        joker_cards_below(m, k - 1) + if joker_card_in(m, k - 1) {
            seq![k - 1]
        } else {
            seq![]
        }
    }
}

pub proof fn lemma_cards_below_bounds(m: u64, k: int)
    ensures
        cards_below(m, k).len() <= if k < 0 { 0 } else { k },
        forall|j: int|
            0 <= j < cards_below(m, k).len() ==> 0 <= #[trigger] cards_below(m, k)[j] < k
                && card_in(m, cards_below(m, k)[j]),
        forall|a: int, b: int|
            0 <= a < b < cards_below(m, k).len() ==> cards_below(m, k)[a] < cards_below(m, k)[b],
    decreases k,
{
    if k > 0 {
        lemma_cards_below_bounds(m, k - 1);
    }
}

pub proof fn lemma_joker_cards_below_bounds(m: u64, k: int)
    ensures
        joker_cards_below(m, k).len() <= if k < 0 { 0 } else { k },
        forall|j: int|
            0 <= j < joker_cards_below(m, k).len() ==> 0 <= #[trigger] joker_cards_below(m, k)[j]
                < k && joker_card_in(m, joker_cards_below(m, k)[j]),
    decreases k,
{
    if k > 0 {
        lemma_joker_cards_below_bounds(m, k - 1);
    }
}

/// A set of cards of the standard 52-card deck.
#[derive(Clone, Copy, Debug, PartialEq, Eq, Structural, Hash)]
pub struct StdDeckCardMask {
    pub mask: u64,
}

impl StdDeckCardMask {
    /// The empty mask.
    pub fn new() -> (m: StdDeckCardMask)
        ensures
            m.mask == 0,
    {
        StdDeckCardMask { mask: 0 }
    }

    /// The mask with the given raw bits.
    pub fn from_raw(mask: u64) -> (m: StdDeckCardMask)
        ensures
            m.mask == mask,
    {
        StdDeckCardMask { mask }
    }

    /// The raw bits of the mask.
    pub fn as_raw(&self) -> (r: u64)
        ensures
            r == self.mask,
    {
        self.mask
    }

    /// Replaces the raw bits of the mask.
    pub fn set_raw(&mut self, mask: u64)
        ensures
            final(self).mask == mask,
    {
        self.mask = mask;
    }

    /// The single-card mask of card `index` (0..52).
    pub fn from_card_index(index: usize) -> (m: StdDeckCardMask)
        requires
            index < 52,
        ensures
            m.mask == card_mask_value(index as int),
    {
        let bit: u64 = (index % 13) as u64 + 16 * (3 - (index / 13) as u64);
        StdDeckCardMask { mask: 1u64 << bit }
    }
}

/// The single-card masks of the 52 cards, in card-index order.
pub fn std_deck_card_masks_table() -> (t: Vec<StdDeckCardMask>)
    ensures
        t.len() == 52,
        forall|i: int| 0 <= i < 52 ==> (#[trigger] t[i]).mask == card_mask_value(i),
{
    let mut t: Vec<StdDeckCardMask> = Vec::new();
    let mut i: usize = 0;
    while i < 52
        invariant
            i <= 52,
            t.len() == i,
            forall|j: int| 0 <= j < i ==> (#[trigger] t[j]).mask == card_mask_value(j),
        decreases 52 - i,
    {
        t.push(StdDeckCardMask::from_card_index(i));
        i = i + 1;
    }
    t
}

/// A set of cards of the 53-card joker deck.
#[derive(Clone, Copy, Debug, PartialEq, Eq, Structural, Hash)]
pub struct JokerDeckCardMask {
    pub cards_n: u64,
}

impl JokerDeckCardMask {
    /// The mask with the given raw bits.
    pub fn from_raw(mask: u64) -> (m: JokerDeckCardMask)
        ensures
            m.cards_n == mask,
    {
        JokerDeckCardMask { cards_n: mask }
    }

    /// The raw bits of the mask.
    pub fn as_raw(&self) -> (r: u64)
        ensures
            r == self.cards_n,
    {
        self.cards_n
    }
}

/// The single-card masks of the 53 cards of the joker deck, in card-index order.
pub fn joker_deck_card_masks_table() -> (t: Vec<JokerDeckCardMask>)
    ensures
        t.len() == 53,
        forall|i: int| 0 <= i < 53 ==> (#[trigger] t[i]).cards_n == 1u64 << (i as u64),
{
    let mut t: Vec<JokerDeckCardMask> = Vec::new();
    let mut i: u64 = 0;
    while i < 53
        invariant
            i <= 53,
            t.len() == i,
            forall|j: int| 0 <= j < i ==> (#[trigger] t[j]).cards_n == 1u64 << (j as u64),
        decreases 53 - i,
    {
        t.push(JokerDeckCardMask { cards_n: 1u64 << i });
        i = i + 1;
    }
    t
}

} // verus!

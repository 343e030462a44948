//! Decks: the standard deck, the joker deck, and the short and Manila decks.
pub mod std_deck;
pub mod joker;
pub mod traits;
pub mod reduced;
pub mod short_deck;
pub mod manila;
pub mod universal;

use vstd::prelude::*;
use crate::text::{decimal, push_char, push_decimal, push_str};

verus! {

/// The number of card slots a deck's `mask_to_cards` is given to fill.
const STRING_CARDS: usize = 100;

/// A set of cards of any deck of at most 64 cards, one bit per card.
pub struct CardMask {
    pub mask: u64,
}

/// A deck described by its size, its name and the functions that name its cards,
/// read a card's name, list the cards of a mask and count them.
pub struct Deck<C, S, M, N> where
    C: Fn(i32) -> String,
    S: Fn(&str) -> i32,
    M: Fn(&CardMask, &mut Vec<i32>) -> i32,
    N: Fn(&CardMask) -> i32,
 {
    pub n_cards: i32,
    pub name: String,
    pub card_to_string: C,
    pub string_to_card: S,
    pub mask_to_cards: M,
    pub num_cards: N,
}

/// `i` in decimal, with a minus sign when it is negative.
pub open spec fn signed_decimal(i: int) -> Seq<char> {
    if i < 0 {
        seq!['-'] + decimal((-i) as nat)
    } else {
        decimal(i as nat)
    }
}

/// The generic name of card `i`: "Card " and its number.
pub open spec fn generic_card_text(i: int) -> Seq<char> {
    "Card "@ + signed_decimal(i)
}

/// The generic names of the first `n` cards of `cards`, separated by spaces.
pub open spec fn generic_cards_text(cards: Seq<i32>, n: int) -> Seq<char>
    decreases n,
{
    if n <= 0 {
        seq![]
    } else if n == 1 {
        generic_card_text(cards[0] as int)
    } else {
        generic_cards_text(cards, n - 1) + seq![' '] + generic_card_text(cards[n - 1] as int)
    }
}

/// Writes the generic names of the first `n` cards of `cards`, separated by spaces.
pub fn generic_deck_cards_to_string(cards: &[i32], n: i32) -> (s: String)
    requires
        n <= cards@.len(),
    ensures
        s@ == generic_cards_text(cards@, n as int),
{
    let mut s = String::new();
    let mut i: i32 = 0;
    while i < n
        invariant
            0 <= i,
            n <= cards@.len(),
            i <= n || n < 0,
            n < 0 ==> i == 0,
            s@ == generic_cards_text(cards@, i as int),
        decreases n - i,
    {
        if i > 0 {
            push_char(&mut s, ' ');
        }
        let label = generic_card_string(cards[i as usize]);
        push_str(&mut s, label.as_str());
        proof {
            if i == 0 {
                assert(s@ =~= generic_cards_text(cards@, 1));
            } else {
                assert(generic_cards_text(cards@, i + 1) == generic_cards_text(cards@, i as int) + seq![' ']
                    + generic_card_text(cards@[i as int] as int));
            }
        }
        i = i + 1;
    }
    s
}

/// The generic name of card `card_index`: "Card " and its number.
fn generic_card_string(card_index: i32) -> (s: String)
    ensures
        s@ == generic_card_text(card_index as int),
{
    let mut s = String::new();
    push_str(&mut s, "Card ");
    if card_index < 0 {
        push_char(&mut s, '-');
        let magnitude: i64 = -(card_index as i64);
        push_decimal(&mut s, magnitude as usize);
    } else {
        push_decimal(&mut s, card_index as usize);
    }
    proof {
        assert(s@ =~= generic_card_text(card_index as int));
    }
    s
}

impl<C, S, M, N> Deck<C, S, M, N> where
    C: Fn(i32) -> String,
    S: Fn(&str) -> i32,
    M: Fn(&CardMask, &mut Vec<i32>) -> i32,
    N: Fn(&CardMask) -> i32,
 {
    /// Names the cards of `card_mask`: the deck's `mask_to_cards` lists them in a
    /// hundred slots and tells how many it listed, and each is named as
    /// `generic_deck_card_to_string` does, separated by spaces. The listing is the
    /// deck's own: whatever it gives, the text names its first cards.
    pub fn generic_deck_mask_to_string(&self, card_mask: &CardMask) -> (s: String)
        requires
            forall|v: &mut Vec<i32>| call_requires(self.mask_to_cards, (card_mask, v)),
            forall|m: &CardMask, v: &mut Vec<i32>, k: i32|
                call_ensures(self.mask_to_cards, (m, v), k) ==> k <= final(v)@.len(),
        ensures
            exists|cards: Seq<i32>, n: int| n <= cards.len() && s@ == generic_cards_text(cards, n),
    {
        let mut cards: Vec<i32> = vec![0; STRING_CARDS];
        let n = (self.mask_to_cards)(card_mask, &mut cards);
        let s = generic_deck_cards_to_string(cards.as_slice(), n);
        proof {
            assert(n <= cards@.len() && s@ == generic_cards_text(cards@, n as int));
        }
        s
    }

    /// The same text as `generic_deck_mask_to_string`.
    pub fn generic_deck_mask_string(&self, card_mask: &CardMask) -> (s: String)
        requires
            forall|v: &mut Vec<i32>| call_requires(self.mask_to_cards, (card_mask, v)),
            forall|m: &CardMask, v: &mut Vec<i32>, k: i32|
                call_ensures(self.mask_to_cards, (m, v), k) ==> k <= final(v)@.len(),
        ensures
            exists|cards: Seq<i32>, n: int| n <= cards.len() && s@ == generic_cards_text(cards, n),
    {
        self.generic_deck_mask_to_string(card_mask)
    }

    /// The number of cards of `card_mask`, as the deck's `num_cards` counts them.
    pub fn generic_deck_num_cards(&self, card_mask: &CardMask) -> (n: i32)
        requires
            call_requires(self.num_cards, (card_mask,)),
        ensures
            call_ensures(self.num_cards, (card_mask,), n),
    {
        (self.num_cards)(card_mask)
    }

    /// The generic name of card `card_index`: "Card " and its number.
    pub fn generic_deck_card_to_string(&self, card_index: i32) -> (s: String)
        ensures
            s@ == generic_card_text(card_index as int),
    {
        generic_card_string(card_index)
    }
}

} // verus!

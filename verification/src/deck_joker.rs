//! The joker deck with plain `usize` ranks and suits, and a card reader that
//! takes the characters two at a time.
use vstd::prelude::*;
use crate::deck::joker::{joker_card_chars, joker_string_card};
use crate::deck_std::{chunk_parse, chunk_string_to_mask};
use crate::tables::JokerDeckCardMask;

verus! {

pub const JOKER_DECK_N_CARDS: usize = 53;
pub const JOKER_DECK_RANK_CHARS: &'static str = "23456789TJQKA";
pub const JOKER_DECK_SUIT_CHARS: &'static str = "hdcs";

/// The single-card mask of joker-deck card `index` (0..53).
pub fn joker_deck_mask(index: usize) -> (m: JokerDeckCardMask)
    requires
        index < 53,
    ensures
        m.cards_n == 1u64 << (index as u64),
{
    crate::deck::joker::joker_deck_mask(index)
}

/// Joker deck utilities with plain `usize` ranks and suits.
pub struct JokerDeck;

impl JokerDeck {
    /// The two-character name of card `card_index` (0..53): "Xx" for the joker.
    pub fn card_to_string(card_index: usize) -> (s: String)
        requires
            card_index < 53,
        ensures
            s@ == joker_card_chars(card_index as int),
    {
        crate::deck::joker::JokerDeck::card_to_string(card_index)
    }

    /// The card named by a two-character string: "Xx" (any case) is the joker.
    pub fn string_to_card(in_string: &str) -> (c: Option<usize>)
        ensures
            c matches Some(v) ==> joker_string_card(in_string@) == Some(v as int),
            c is None ==> joker_string_card(in_string@) is None,
    {
        crate::deck::joker::JokerDeck::string_to_card(in_string)
    }

    /// Reads the characters of `in_string` two at a time (see `chunk_parse`); each
    /// card is put at the bit of its index.
    pub fn string_to_mask(in_string: &str) -> (res: Result<(JokerDeckCardMask, usize), String>)
        ensures
            match (res, chunk_parse(in_string@, 0, 0, true)) {
                (Ok((m, n)), Ok((sm, sn))) => m.cards_n == sm && n == sn,
                (Err(e), Err(se)) => e@ == se,
                _ => false,
            },
    {
        match chunk_string_to_mask(in_string, true) {
            Ok((m, n)) => Ok((JokerDeckCardMask { cards_n: m }, n)),
            Err(e) => Err(e),
        }
    }
}

} // verus!

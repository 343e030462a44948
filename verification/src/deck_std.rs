//! The standard deck with plain `usize` ranks and suits, and a card reader that
//! takes the characters two at a time.
use vstd::prelude::*;
use crate::deck::std_deck::{card_chars, card_of_chars, parse_card, string_card};
use crate::tables::{StdDeckCardMask, card_mask_value};
use crate::text::{chars_debug, chars_debug_text, push_char, push_str};

verus! {

pub const STD_DECK_N_CARDS: usize = 52;
pub const STD_DECK_RANK_CHARS: &'static str = "23456789TJQKA";
pub const STD_DECK_SUIT_CHARS: &'static str = "hdcs";
pub const STD_DECK_RANK_2: usize = 0;
pub const STD_DECK_RANK_3: usize = 1;
pub const STD_DECK_RANK_4: usize = 2;
pub const STD_DECK_RANK_5: usize = 3;
pub const STD_DECK_RANK_6: usize = 4;
pub const STD_DECK_RANK_7: usize = 5;
pub const STD_DECK_RANK_8: usize = 6;
pub const STD_DECK_RANK_9: usize = 7;
pub const STD_DECK_RANK_TEN: usize = 8;
pub const STD_DECK_RANK_JACK: usize = 9;
pub const STD_DECK_RANK_QUEEN: usize = 10;
pub const STD_DECK_RANK_KING: usize = 11;
pub const STD_DECK_RANK_ACE: usize = 12;
pub const STD_DECK_RANK_COUNT: usize = 13;
pub const STD_DECK_RANK_FIRST: usize = 0;
pub const STD_DECK_RANK_LAST: usize = 12;
pub const STD_DECK_SUIT_HEARTS: usize = 0;
pub const STD_DECK_SUIT_DIAMONDS: usize = 1;
pub const STD_DECK_SUIT_CLUBS: usize = 2;
pub const STD_DECK_SUIT_SPADES: usize = 3;
pub const STD_DECK_SUIT_COUNT: usize = 4;
pub const STD_DECK_SUIT_FIRST: usize = 0;
pub const STD_DECK_SUIT_LAST: usize = 3;
pub const STD_DECK_N_RANKMASKS: usize = 8192;
pub const STD_DECK_CARDMASK_SPADES: u64 = 0x1fff;
pub const STD_DECK_CARDMASK_CLUBS: u64 = 0x1fff_0000;
pub const STD_DECK_CARDMASK_DIAMONDS: u64 = 0x1fff_0000_0000;
pub const STD_DECK_CARDMASK_HEARTS: u64 = 0x1fff_0000_0000_0000;

/// Outcome of reading the characters `cs` two at a time into the mask `m`
/// holding `n` cards: a pair starting with a space is skipped and any other pair
/// must name a card, which `joker_layout` decides to put at bit `card` (joker
/// deck) or at its standard-deck bit.
pub open spec fn chunk_parse(cs: Seq<char>, m: u64, n: nat, joker_layout: bool) -> Result<(u64, nat), Seq<char>>
    decreases cs.len(),
{
    if cs.len() == 0 {
        Ok((m, n))
    } else if cs.len() == 1 {
        Err("Format de carte invalide : "@ + chars_debug_text(cs))
    } else if cs[0] == ' ' {
        chunk_parse(cs.skip(2), m, n, joker_layout)
    } else {
        match parse_card(cs[0], cs[1]) {
            Some(c) => chunk_parse(
                cs.skip(2),
                m | if joker_layout { 1u64 << (c as u64) } else { card_mask_value(c) },
                n + 1,
                joker_layout,
            ),
            None => Err("Caractère de carte non reconnu : "@ + seq![cs[0], cs[1]]),
        }
    }
}

/// Reads `s` as `chunk_parse` describes, from the empty mask.
pub fn chunk_string_to_mask(s: &str, joker_layout: bool) -> (res: Result<(u64, usize), String>)
    ensures
        match (res, chunk_parse(s@, 0, 0, joker_layout)) {
            (Ok((m, n)), Ok((sm, sn))) => m == sm && n == sn,
            (Err(e), Err(se)) => e@ == se,
            _ => false,
        },
{
    let len = s.unicode_len();
    let mut m: u64 = 0;
    let mut n: usize = 0;
    let mut i: usize = 0;
    proof {
        assert(s@.skip(0) =~= s@);
    }
    while len - i > 1
        invariant
            len == s@.len(),
            i <= len,
            n <= i,
            chunk_parse(s@, 0, 0, joker_layout) == chunk_parse(s@.skip(i as int), m, n as nat, joker_layout),
        decreases len - i,
    {
        let rc = s.get_char(i);
        let sc = s.get_char(i + 1);
        proof {
            let cs = s@.skip(i as int);
            assert(cs[0] == rc);
            assert(cs[1] == sc);
            assert(cs.skip(2) =~= s@.skip(i as int + 2));
        }
        if rc != ' ' {
            match card_of_chars(rc, sc) {
                Some(c) => {
                    if joker_layout {
                        m = m | (1u64 << (c as u64));
                    } else {
                        m = m | StdDeckCardMask::from_card_index(c).mask;
                    }
                    n = n + 1;
                },
                None => {
                    let mut e = String::new();
                    push_str(&mut e, "Caractère de carte non reconnu : ");
                    push_char(&mut e, rc);
                    push_char(&mut e, sc);
                    proof {
                        assert(e@ =~= "Caractère de carte non reconnu : "@ + seq![rc, sc]);
                    }
                    return Err(e);
                },
            }
        }
        i = i + 2;
    }
    if i < len {
        let mut one: Vec<char> = Vec::new();
        one.push(s.get_char(i));
        let d = chars_debug(one.as_slice());
        let mut e = String::new();
        push_str(&mut e, "Format de carte invalide : ");
        push_str(&mut e, d.as_str());
        proof {
            assert(s@.skip(i as int) =~= one@);
            assert(e@ =~= "Format de carte invalide : "@ + chars_debug_text(one@));
        }
        return Err(e);
    }
    proof {
        assert(s@.skip(i as int) =~= Seq::<char>::empty());
    }
    Ok((m, n))
}

/// Standard deck utilities with plain `usize` ranks and suits.
pub struct StdDeck;

impl StdDeck {
    /// The card whose single-card mask is `card_mask`, if any.
    pub fn mask_to_index(card_mask: &StdDeckCardMask) -> (r: Option<usize>)
        ensures
            r matches Some(i) ==> i < 52 && card_mask_value(i as int) == card_mask.mask,
            r is None ==> forall|i: int| 0 <= i < 52 ==> card_mask_value(i) != card_mask.mask,
    {
        crate::deck::std_deck::StdDeck::mask_to_index(card_mask)
    }

    /// The rank of card `index`.
    pub fn rank(index: usize) -> (r: usize)
        ensures
            r == index % 13,
    {
        index % STD_DECK_RANK_COUNT
    }

    /// The suit of card `index`.
    pub fn suit(index: usize) -> (s: usize)
        ensures
            s == index / 13,
    {
        index / STD_DECK_RANK_COUNT
    }

    /// The card of rank `rank` and suit `suit`.
    pub fn make_card(rank: usize, suit: usize) -> (c: usize)
        requires
            suit * 13 + rank <= usize::MAX,
        ensures
            c == suit * 13 + rank,
    {
        suit * STD_DECK_RANK_COUNT + rank
    }

    /// The two-character name of card `card_index` (0..52).
    pub fn card_to_string(card_index: usize) -> (s: String)
        requires
            card_index < 52,
        ensures
            s@ == card_chars(card_index as int),
    {
        crate::deck::std_deck::StdDeck::card_to_string(card_index)
    }

    /// The card named by a two-character string, letter case ignored.
    pub fn string_to_card(in_string: &str) -> (c: Option<usize>)
        ensures
            c matches Some(v) ==> string_card(in_string@) == Some(v as int) && v < 52,
            c is None ==> string_card(in_string@) is None,
    {
        crate::deck::std_deck::StdDeck::string_to_card(in_string)
    }

    /// Reads the characters of `in_string` two at a time (see `chunk_parse`).
    pub fn string_to_mask(in_string: &str) -> (res: Result<(StdDeckCardMask, usize), String>)
        ensures
            match (res, chunk_parse(in_string@, 0, 0, false)) {
                (Ok((m, n)), Ok((sm, sn))) => m.mask == sm && n == sn,
                (Err(e), Err(se)) => e@ == se,
                _ => false,
            },
    {
        match chunk_string_to_mask(in_string, false) {
            Ok((m, n)) => Ok((StdDeckCardMask { mask: m }, n)),
            Err(e) => Err(e),
        }
    }
}

} // verus!

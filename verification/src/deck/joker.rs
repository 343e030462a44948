//! The 53-card joker deck: card masks with a joker bit, and parsing/printing of cards.
use vstd::prelude::*;
use crate::deck::std_deck::{card_chars, parse_card, string_card, StdDeck, STD_DECK_RANK_ACE, STD_DECK_RANK_2};
use crate::tables::{
    JokerDeckCardMask, StdDeckCardMask, card_bit, card_in, joker_card_in, joker_cards_below, JOKER_DECK_N_CARDS,
};
use crate::bits::{lemma_bit_test, lemma_suit_fields};
use crate::deck::traits::{CardMask, Deck};
use crate::text::{chars_debug, chars_debug_text, lower, push_char, push_str, to_ascii_lowercase};

verus! {

/// The index of the joker card.
pub const JOKER_DECK_JOKER: usize = 52;
pub const JOKER_DECK_RANK_CHARS: &'static str = "23456789TJQKA";
pub const JOKER_DECK_SUIT_CHARS: &'static str = "hdcs";
pub const JOKER_DECK_RANK_2: usize = STD_DECK_RANK_2;
pub const JOKER_DECK_RANK_ACE: usize = STD_DECK_RANK_ACE;
pub const JOKER_DECK_RANK_COUNT: usize = 13;

/// The 13-bit spade ranks of the joker-deck mask `m` (bits 39..52).
pub open spec fn joker_spades_of(m: u64) -> u64 {
    (m >> 39u64) & 0x1FFF
}

/// The 13-bit heart ranks of the joker-deck mask `m` (bits 26..39).
pub open spec fn joker_hearts_of(m: u64) -> u64 {
    (m >> 26u64) & 0x1FFF
}

/// The 13-bit club ranks of the joker-deck mask `m` (bits 13..26).
pub open spec fn joker_clubs_of(m: u64) -> u64 {
    (m >> 13u64) & 0x1FFF
}

/// The 13-bit diamond ranks of the joker-deck mask `m` (bits 0..13).
pub open spec fn joker_diamonds_of(m: u64) -> u64 {
    m & 0x1FFF
}

/// The standard-deck mask holding the same 52 cards as the joker-deck mask `m`:
/// the joker deck keeps the cards of suit `s` (in "hdcs" order) in bits `13 * s`
/// up, the standard deck in bits `16 * (3 - s)` up.
pub open spec fn joker_to_std(m: u64) -> u64 {
    ((m >> 39u64) & 0x1FFF) | (((m >> 26u64) & 0x1FFF) << 16u64) | (((m >> 13u64) & 0x1FFF) << 32u64) | (
    (m & 0x1FFF) << 48u64)
}

/// Card `13 * s + r` of the joker deck is card `13 * s + r` of the standard deck.
proof fn lemma_joker_to_std_suit(m: u64, r: u64)
    by (bit_vector)
    requires
        r < 13,
    ensures
        (joker_to_std(m) >> (r + 48)) & 1u64 == (m >> r) & 1u64,
        (joker_to_std(m) >> (r + 32)) & 1u64 == (m >> (r + 13)) & 1u64,
        (joker_to_std(m) >> (r + 16)) & 1u64 == (m >> (r + 26)) & 1u64,
        (joker_to_std(m) >> r) & 1u64 == (m >> (r + 39)) & 1u64,
{
}

proof fn lemma_joker_to_std_cards(m: u64)
    ensures
        forall|i: int| 0 <= i < 52 ==> #[trigger] card_in(joker_to_std(m), i) == joker_card_in(m, i),
{
    assert forall|i: int| 0 <= i < 52 implies #[trigger] card_in(joker_to_std(m), i) == joker_card_in(m, i) by {
        let r = i % 13;
        let su = i / 13;
        lemma_joker_to_std_suit(m, r as u64);
        assert(i == 13 * su + r);
        if su == 0 {
            assert(card_bit(i) == r + 48);
        } else if su == 1 {
            assert(card_bit(i) == r + 32);
        } else if su == 2 {
            assert(card_bit(i) == r + 16);
        } else {
            assert(su == 3);
            assert(card_bit(i) == r);
        }
    }
}

/// The joker-deck cards of `m` from index `k` up to the joker, highest first.
pub open spec fn joker_cards_desc(m: u64, k: int) -> Seq<int>
    decreases 53 - k,
{
    if k >= 53 {
        seq![]
    } else {
        joker_cards_desc(m, k + 1) + if joker_card_in(m, k) {
            seq![k]
        } else {
            seq![]
        }
    }
}

/// The two characters that name joker-deck card `i`.
pub open spec fn joker_card_chars(i: int) -> Seq<char> {
    if i == 52 {
        seq!['X', 'x']
    } else {
        card_chars(i)
    }
}

/// The names of the joker-deck cards `idx`, separated by single spaces.
pub open spec fn joker_cards_text(idx: Seq<int>) -> Seq<char>
    decreases idx.len(),
{
    if idx.len() == 0 {
        seq![]
    } else if idx.len() == 1 {
        joker_card_chars(idx[0])
    } else {
        joker_cards_text(idx.drop_last()) + seq![' '] + joker_card_chars(idx.last())
    }
}

/// Two characters naming the joker: an `x` twice, in either case.
pub open spec fn is_joker_name(rc: char, sc: char) -> bool {
    lower(rc) == 'x' && lower(sc) == 'x'
}

/// The joker-deck card named by the string `s` of two characters.
pub open spec fn joker_string_card(s: Seq<char>) -> Option<int> {
    if s.len() == 2 && is_joker_name(s[0], s[1]) {
        Some(52)
    } else {
        string_card(s)
    }
}

/// Reading the name of a joker-deck card gives back the card, the joker
/// included: `string_to_card` undoes `card_to_string` on each of the 53 cards.
pub proof fn lemma_joker_card_name_roundtrip(i: int)
    requires
        0 <= i < 53,
    ensures
        joker_string_card(joker_card_chars(i)) == Some(i),
{
    if i < 52 {
        crate::deck::std_deck::lemma_card_name_roundtrip(i);
        let cs = card_chars(i);
        assert(lower(cs[0]) != 'x');
    }
}

/// Outcome of reading the characters `cs` two at a time into the joker-deck mask
/// `m` holding `n` cards: a pair starting with a space is skipped, "Xx" (any
/// case) is the joker, and any other pair must name a card.
pub open spec fn joker_parse_chunks(cs: Seq<char>, m: u64, n: nat) -> Result<(u64, nat), Seq<char>>
    decreases cs.len(),
{
    if cs.len() == 0 {
        Ok((m, n))
    } else if cs.len() == 1 {
        Err("Invalid card format: "@ + chars_debug_text(cs))
    } else if cs[0] == ' ' {
        joker_parse_chunks(cs.skip(2), m, n)
    } else if is_joker_name(cs[0], cs[1]) {
        joker_parse_chunks(cs.skip(2), m | (1u64 << 52u64), n + 1)
    } else {
        match parse_card(cs[0], cs[1]) {
            Some(c) => joker_parse_chunks(cs.skip(2), m | (1u64 << (c as u64)), n + 1),
            None => Err("Unrecognized card character: "@ + seq![cs[0], cs[1]]),
        }
    }
}

/// The single-card mask of joker-deck card `index` (0..53).
pub fn joker_deck_mask(index: usize) -> (m: JokerDeckCardMask)
    requires
        index < 53,
    ensures
        m.cards_n == 1u64 << (index as u64),
{
    JokerDeckCardMask { cards_n: 1u64 << (index as u64) }
}

impl Default for JokerDeckCardMask {
    fn default() -> (m: JokerDeckCardMask)
        ensures
            m.cards_n == 0,
    {
        JokerDeckCardMask::new()
    }
}

impl JokerDeckCardMask {
    /// The empty mask.
    pub fn new() -> (m: JokerDeckCardMask)
        ensures
            m.cards_n == 0,
    {
        JokerDeckCardMask { cards_n: 0 }
    }

    /// The spade ranks.
    pub fn spades(&self) -> (r: u64)
        ensures
            r == joker_spades_of(self.cards_n),
            r < 0x2000,
    {
        proof {
            let m = self.cards_n;
            lemma_suit_fields(m);
        }
        (self.cards_n >> 39) & 0x1FFF
    }

    /// The heart ranks.
    pub fn hearts(&self) -> (r: u64)
        ensures
            r == joker_hearts_of(self.cards_n),
            r < 0x2000,
    {
        proof {
            let m = self.cards_n;
            lemma_suit_fields(m);
        }
        (self.cards_n >> 26) & 0x1FFF
    }

    /// The club ranks.
    pub fn clubs(&self) -> (r: u64)
        ensures
            r == joker_clubs_of(self.cards_n),
            r < 0x2000,
    {
        proof {
            let m = self.cards_n;
            lemma_suit_fields(m);
        }
        (self.cards_n >> 13) & 0x1FFF
    }

    /// The diamond ranks.
    pub fn diamonds(&self) -> (r: u64)
        ensures
            r == joker_diamonds_of(self.cards_n),
            r < 0x2000,
    {
        proof {
            let m = self.cards_n;
            lemma_suit_fields(m);
        }
        self.cards_n & 0x1FFF
    }

    /// Adds the cards of `other`.
    pub fn or(&mut self, other: &Self)
        ensures
            final(self).cards_n == old(self).cards_n | other.cards_n,
    {
        self.cards_n = self.cards_n | other.cards_n;
    }

    /// Keeps only the cards also in `other`.
    pub fn and(&mut self, other: &Self)
        ensures
            final(self).cards_n == old(self).cards_n & other.cards_n,
    {
        self.cards_n = self.cards_n & other.cards_n;
    }

    /// Complements every bit of the mask.
    pub fn not(&mut self)
        ensures
            final(self).cards_n == !old(self).cards_n,
    {
        self.cards_n = !self.cards_n;
    }

    /// Toggles the cards of `other`.
    pub fn xor(&mut self, other: &Self)
        ensures
            final(self).cards_n == old(self).cards_n ^ other.cards_n,
    {
        self.cards_n = self.cards_n ^ other.cards_n;
    }

    /// The single-card mask of card `index` (0..53).
    pub fn get_mask(index: usize) -> (m: JokerDeckCardMask)
        requires
            index < 53,
        ensures
            m.cards_n == 1u64 << (index as u64),
    {
        joker_deck_mask(index)
    }

    /// The indices of the cards in the mask, highest first.
    pub fn mask_to_cards(&self) -> (v: Vec<usize>)
        ensures
            v@.map_values(|c: usize| c as int) == joker_cards_desc(self.cards_n, 0),
    {
        let mut v: Vec<usize> = Vec::new();
        let mut i: usize = JOKER_DECK_N_CARDS;
        while i > 0
            invariant
                i <= 53,
                v@.map_values(|c: usize| c as int) == joker_cards_desc(self.cards_n, i as int),
            decreases i,
        {
            i = i - 1;
            let set = self.card_is_set(i);
            if set {
                v.push(i);
            }
            proof {
                assert(v@.map_values(|c: usize| c as int) =~= joker_cards_desc(self.cards_n, i as int));
            }
        }
        v
    }

    /// Tells whether the joker is in the mask.
    pub fn is_joker_set(&self) -> (b: bool)
        ensures
            b == joker_card_in(self.cards_n, 52),
    {
        proof {
            let m = self.cards_n;
            lemma_bit_test(m, 52);
        }
        self.cards_n & (1u64 << 52) != 0
    }

    /// Adds (`true`) or removes (`false`) the joker.
    pub fn set_joker(&mut self, joker: bool)
        ensures
            final(self).cards_n == if joker {
                old(self).cards_n | (1u64 << 52u64)
            } else {
                old(self).cards_n & !(1u64 << 52u64)
            },
    {
        let joker_bit: u64 = 1u64 << 52;
        self.cards_n = if joker {
            self.cards_n | joker_bit
        } else {
            self.cards_n & !joker_bit
        };
    }

    /// Tells whether card `index` is in the mask.
    pub fn card_is_set(&self, index: usize) -> (b: bool)
        requires
            index < 64,
        ensures
            b == joker_card_in(self.cards_n, index as int),
    {
        proof {
            let m = self.cards_n;
            let i = index as u64;
            lemma_bit_test(m, i);
        }
        (self.cards_n & (1u64 << (index as u64))) != 0
    }

    /// The standard-deck mask of the same cards, the joker left out.
    pub fn to_std(self) -> (s: StdDeckCardMask)
        ensures
            s.mask == joker_to_std(self.cards_n),
            forall|i: int| 0 <= i < 52 ==> #[trigger] card_in(s.mask, i) == joker_card_in(self.cards_n, i),
    {
        let bits = self.cards_n;
        let mut s_cards = StdDeckCardMask::new();
        s_cards.reset();
        s_cards.set_hearts((bits & 0x1FFF) as u16);
        s_cards.set_diamonds(((bits >> 13) & 0x1FFF) as u16);
        s_cards.set_clubs(((bits >> 26) & 0x1FFF) as u16);
        s_cards.set_spades(((bits >> 39) & 0x1FFF) as u16);
        proof {
            let r = s_cards.mask;
            assert(r == joker_to_std(bits)) by (bit_vector)
                requires
                    r == ((((0u64 | ((((bits & 0x1FFF) as u16) as u64) << 48u64)) | (((((bits >> 13u64)
                        & 0x1FFF) as u16) as u64) << 32u64)) | (((((bits >> 26u64) & 0x1FFF) as u16) as u64)
                        << 16u64)) | ((((bits >> 39u64) & 0x1FFF) as u16) as u64)),
            ;
            lemma_joker_to_std_cards(bits);
        }
        s_cards
    }

    /// Empties the mask.
    pub fn reset(&mut self)
        ensures
            final(self).cards_n == 0,
    {
        self.cards_n = 0;
    }

    /// Tells whether no bit of the mask is set.
    pub fn is_empty(&self) -> (b: bool)
        ensures
            b == (self.cards_n == 0),
    {
        self.cards_n == 0
    }

    /// Tells whether two masks hold the same bits.
    pub fn equals(&self, other: &Self) -> (b: bool)
        ensures
            b == (self.cards_n == other.cards_n),
    {
        self.cards_n == other.cards_n
    }

    /// The number of cards (the joker included) in the mask.
    pub fn num_cards(&self) -> (n: usize)
        ensures
            n == joker_cards_below(self.cards_n, 53).len(),
    {
        let mut n: usize = 0;
        let mut i: usize = 0;
        while i < JOKER_DECK_N_CARDS
            invariant
                i <= 53,
                n == joker_cards_below(self.cards_n, i as int).len(),
                n <= i,
            decreases 53 - i,
        {
            if self.card_is_set(i) {
                n = n + 1;
            }
            i = i + 1;
        }
        n
    }

    /// Adds card `card_index`.
    pub fn set(&mut self, card_index: usize)
        requires
            card_index < 64,
        ensures
            final(self).cards_n == old(self).cards_n | (1u64 << (card_index as u64)),
    {
        self.cards_n = self.cards_n | (1u64 << (card_index as u64));
    }

    /// The names of the cards in the mask, lowest index first, separated by spaces.
    pub fn mask_to_string(&self) -> (s: String)
        ensures
            s@ == joker_cards_text(joker_cards_below(self.cards_n, 53)),
    {
        let mut s = String::new();
        let mut i: usize = 0;
        let mut first = true;
        while i < JOKER_DECK_N_CARDS
            invariant
                i <= 53,
                first == (joker_cards_below(self.cards_n, i as int).len() == 0),
                s@ == joker_cards_text(joker_cards_below(self.cards_n, i as int)),
            decreases 53 - i,
        {
            if self.card_is_set(i) {
                let ghost prev = joker_cards_below(self.cards_n, i as int);
                if !first {
                    push_char(&mut s, ' ');
                }
                let t = JokerDeck::card_to_string(i);
                push_str(&mut s, t.as_str());
                first = false;
                proof {
                    let cur = joker_cards_below(self.cards_n, i as int + 1);
                    assert(cur =~= prev.push(i as int));
                    assert(cur.drop_last() =~= prev);
                    if prev.len() == 0 {
                        assert(s@ =~= joker_card_chars(i as int));
                    } else {
                        assert(s@ =~= joker_cards_text(prev) + seq![' '] + joker_card_chars(i as int));
                    }
                }
            }
            i = i + 1;
        }
        s
    }
}

/// Joker deck utilities.
pub struct JokerDeck;

impl JokerDeck {
    /// The two-character name of card `card_index`: "Xx" for the joker.
    pub fn card_to_string(card_index: usize) -> (s: String)
        ensures
            s@ == joker_card_chars(card_index as int),
    {
        if card_index == JOKER_DECK_JOKER {
            let mut s = String::new();
            push_char(&mut s, 'X');
            push_char(&mut s, 'x');
            proof {
                assert(s@ =~= seq!['X', 'x']);
            }
            s
        } else {
            StdDeck::card_to_string(card_index)
        }
    }

    /// The card named by a two-character string: "Xx" (any case) is the joker.
    pub fn string_to_card(in_string: &str) -> (c: Option<usize>)
        ensures
            c matches Some(v) ==> joker_string_card(in_string@) == Some(v as int),
            c is None ==> joker_string_card(in_string@) is None,
    {
        if in_string.unicode_len() == 2 {
            let a = to_ascii_lowercase(in_string.get_char(0));
            let b = to_ascii_lowercase(in_string.get_char(1));
            if a == 'x' && b == 'x' {
                return Some(JOKER_DECK_JOKER);
            }
        }
        StdDeck::string_to_card(in_string)
    }

    /// Parses a string of cards into a mask and the number of cards read, reading
    /// the characters two at a time (see `joker_parse_chunks`).
    pub fn string_to_mask(in_string: &str) -> (res: Result<(JokerDeckCardMask, usize), String>)
        ensures
            match (res, joker_parse_chunks(in_string@, 0, 0)) {
                (Ok((m, n)), Ok((sm, sn))) => m.cards_n == sm && n == sn,
                (Err(e), Err(se)) => e@ == se,
                _ => false,
            },
    {
        let len = in_string.unicode_len();
        let mut m: u64 = 0;
        let mut n: usize = 0;
        let mut i: usize = 0;
        proof {
            assert(in_string@.skip(0) =~= in_string@);
        }
        while len - i > 1
            invariant
                len == in_string@.len(),
                i <= len,
                n <= i,
                joker_parse_chunks(in_string@, 0, 0) == joker_parse_chunks(in_string@.skip(i as int), m, n as nat),
            decreases len - i,
        {
            let rc = in_string.get_char(i);
            let sc = in_string.get_char(i + 1);
            proof {
                let cs = in_string@.skip(i as int);
                assert(cs[0] == rc);
                assert(cs[1] == sc);
                assert(cs.skip(2) =~= in_string@.skip(i as int + 2));
            }
            if rc == ' ' {
            } else if to_ascii_lowercase(rc) == 'x' && to_ascii_lowercase(sc) == 'x' {
                m = m | (1u64 << 52);
                n = n + 1;
            } else {
                match crate::deck::std_deck::card_of_chars(rc, sc) {
                    Some(c) => {
                        m = m | (1u64 << (c as u64));
                        n = n + 1;
                    },
                    None => {
                        let mut e = String::new();
                        push_str(&mut e, "Unrecognized card character: ");
                        push_char(&mut e, rc);
                        push_char(&mut e, sc);
                        proof {
                            assert(e@ =~= "Unrecognized card character: "@ + seq![rc, sc]);
                        }
                        return Err(e);
                    },
                }
            }
            i = i + 2;
        }
        if i < len {
            let mut one: Vec<char> = Vec::new();
            one.push(in_string.get_char(i));
            let d = chars_debug(one.as_slice());
            let mut e = String::new();
            push_str(&mut e, "Invalid card format: ");
            push_str(&mut e, d.as_str());
            proof {
                assert(in_string@.skip(i as int) =~= one@);
                assert(e@ =~= "Invalid card format: "@ + chars_debug_text(one@));
            }
            return Err(e);
        }
        proof {
            assert(in_string@.skip(i as int) =~= Seq::<char>::empty());
        }
        Ok((JokerDeckCardMask { cards_n: m }, n))
    }
}

impl CardMask for JokerDeckCardMask {
    open spec fn can_test(&self, index: usize) -> bool {
        index < 64
    }

    open spec fn can_set(&self, index: usize) -> bool {
        index < 64
    }

    fn new() -> (m: Self)
        ensures
            m.cards_n == 0,
    {
        JokerDeckCardMask::new()
    }

    fn is_empty(&self) -> (b: bool)
        ensures
            b == (self.cards_n == 0),
    {
        JokerDeckCardMask::is_empty(self)
    }

    fn and(&mut self, other: &Self)
        ensures
            final(self).cards_n == old(self).cards_n & other.cards_n,
    {
        JokerDeckCardMask::and(self, other)
    }

    fn or(&mut self, other: &Self)
        ensures
            final(self).cards_n == old(self).cards_n | other.cards_n,
    {
        JokerDeckCardMask::or(self, other)
    }

    fn xor(&mut self, other: &Self)
        ensures
            final(self).cards_n == old(self).cards_n ^ other.cards_n,
    {
        JokerDeckCardMask::xor(self, other)
    }

    fn not(&mut self)
        ensures
            final(self).cards_n == !old(self).cards_n,
    {
        JokerDeckCardMask::not(self)
    }

    fn num_cards(&self) -> (n: usize)
        ensures
            n == joker_cards_below(self.cards_n, 53).len(),
    {
        JokerDeckCardMask::num_cards(self)
    }

    fn card_is_set(&self, index: usize) -> (b: bool)
        ensures
            b == joker_card_in(self.cards_n, index as int),
    {
        JokerDeckCardMask::card_is_set(self, index)
    }

    fn set(&mut self, index: usize)
        ensures
            final(self).cards_n == old(self).cards_n | (1u64 << (index as u64)),
    {
        JokerDeckCardMask::set(self, index)
    }

    fn mask_to_string(&self) -> (s: String)
        ensures
            s@ == joker_cards_text(joker_cards_below(self.cards_n, 53)),
    {
        JokerDeckCardMask::mask_to_string(self)
    }
}

impl Deck for JokerDeck {
    type Mask = JokerDeckCardMask;

    open spec fn can_name(card_index: usize) -> bool {
        true
    }

    fn n_cards() -> (n: usize)
        ensures
            n == 53,
    {
        JOKER_DECK_N_CARDS
    }

    fn card_to_string(card_index: usize) -> (s: String)
        ensures
            s@ == joker_card_chars(card_index as int),
    {
        JokerDeck::card_to_string(card_index)
    }

    fn string_to_card(card_str: &str) -> (c: Option<usize>)
        ensures
            c matches Some(v) ==> joker_string_card(card_str@) == Some(v as int),
            c is None ==> joker_string_card(card_str@) is None,
    {
        JokerDeck::string_to_card(card_str)
    }

    fn string_to_mask(cards_str: &str) -> (res: Result<(JokerDeckCardMask, usize), String>)
        ensures
            match (res, joker_parse_chunks(cards_str@, 0, 0)) {
                (Ok((m, n)), Ok((sm, sn))) => m.cards_n == sm && n == sn,
                (Err(e), Err(se)) => e@ == se,
                _ => false,
            },
    {
        JokerDeck::string_to_mask(cards_str)
    }
}

} // verus!

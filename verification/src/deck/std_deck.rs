//! The standard 52-card deck: ranks, suits, card masks, and parsing/printing of cards.
use vstd::prelude::*;
use crate::tables::{
    StdDeckCardMask, card_mask_value, card_in, card_bit, cards_below, cards_of, STD_DECK_N_CARDS,
    STD_DECK_RANK_COUNT,
};
use crate::bits::lemma_bit_test;
use crate::deck::traits::{CardMask, Deck};
use crate::text::{
    chars_debug, chars_debug_text, is_white_space, is_whitespace, lower, push_char, push_str,
    to_ascii_lowercase, to_ascii_uppercase, upper,
};

verus! {

/// Characters representing ranks: 2, 3, 4, 5, 6, 7, 8, 9, T, J, Q, K, A.
pub const STD_DECK_RANK_CHARS: &'static str = "23456789TJQKA";
/// Characters representing suits: h, d, c, s.
pub const STD_DECK_SUIT_CHARS: &'static str = "hdcs";

pub const STD_DECK_RANK_2: usize = 0;
pub const STD_DECK_RANK_3: usize = 1;
pub const STD_DECK_RANK_4: usize = 2;
pub const STD_DECK_RANK_5: usize = 3;
pub const STD_DECK_RANK_6: usize = 4;
pub const STD_DECK_RANK_7: usize = 5;
pub const STD_DECK_RANK_8: usize = 6;
pub const STD_DECK_RANK_9: usize = 7;
pub const STD_DECK_RANK_TEN: usize = 8;
pub const STD_DECK_RANK_JACK: usize = 9;
pub const STD_DECK_RANK_QUEEN: usize = 10;
pub const STD_DECK_RANK_KING: usize = 11;
pub const STD_DECK_RANK_ACE: usize = 12;
pub const STD_DECK_RANK_FIRST: usize = 0;
pub const STD_DECK_RANK_LAST: usize = 12;
pub const STD_DECK_SUIT_HEARTS: usize = 0;
pub const STD_DECK_SUIT_DIAMONDS: usize = 1;
pub const STD_DECK_SUIT_CLUBS: usize = 2;
pub const STD_DECK_SUIT_SPADES: usize = 3;
pub const STD_DECK_SUIT_FIRST: usize = 0;
pub const STD_DECK_SUIT_LAST: usize = 3;
/// Number of distinct 13-bit rank masks.
pub const STD_DECK_N_RANKMASKS: usize = 8192;

/// The rank of a rank character ('2'..'9', 'T', 'J', 'Q', 'K', 'A'), if it is one.
pub open spec fn rank_index(c: char) -> Option<int> {
    if c == '2' { Some(0) }
    else if c == '3' { Some(1) }
    else if c == '4' { Some(2) }
    else if c == '5' { Some(3) }
    else if c == '6' { Some(4) }
    else if c == '7' { Some(5) }
    else if c == '8' { Some(6) }
    else if c == '9' { Some(7) }
    else if c == 'T' { Some(8) }
    else if c == 'J' { Some(9) }
    else if c == 'Q' { Some(10) }
    else if c == 'K' { Some(11) }
    else if c == 'A' { Some(12) }
    else { None }
}

/// The suit of a suit character ('h', 'd', 'c', 's'), if it is one.
pub open spec fn suit_index(c: char) -> Option<int> {
    if c == 'h' { Some(0) }
    else if c == 'd' { Some(1) }
    else if c == 'c' { Some(2) }
    else if c == 's' { Some(3) }
    else { None }
}

/// The character of rank `r` (0..13), '?' past the ace.
pub open spec fn rank_char(r: int) -> char {
    if r == 0 { '2' }
    else if r == 1 { '3' }
    else if r == 2 { '4' }
    else if r == 3 { '5' }
    else if r == 4 { '6' }
    else if r == 5 { '7' }
    else if r == 6 { '8' }
    else if r == 7 { '9' }
    else if r == 8 { 'T' }
    else if r == 9 { 'J' }
    else if r == 10 { 'Q' }
    else if r == 11 { 'K' }
    else if r == 12 { 'A' }
    else { '?' }
}

/// The character of suit `s` (0..4), '?' past the spades.
pub open spec fn suit_char(s: int) -> char {
    if s == 0 { 'h' }
    else if s == 1 { 'd' }
    else if s == 2 { 'c' }
    else if s == 3 { 's' }
    else { '?' }
}

/// The card named by a rank character and a suit character, letter case ignored.
pub open spec fn parse_card(rc: char, sc: char) -> Option<int> {
    match (rank_index(upper(rc)), suit_index(lower(sc))) {
        (Some(r), Some(s)) => Some(s * 13 + r),
        _ => None,
    }
}

/// The two characters that name card `i`.
pub open spec fn card_chars(i: int) -> Seq<char> {
    seq![rank_char(i % 13), suit_char(((i / 13) as u8) as int)]
}

/// The names of the cards `idx`, separated by single spaces.
pub open spec fn cards_text(idx: Seq<int>) -> Seq<char>
    decreases idx.len(),
{
    if idx.len() == 0 {
        seq![]
    } else if idx.len() == 1 {
        card_chars(idx[0])
    } else {
        cards_text(idx.drop_last()) + seq![' '] + card_chars(idx.last())
    }
}

/// Outcome of parsing the characters `cs` two by two into the mask `m` holding
/// `n` cards: the final mask and count, or the error text.
pub open spec fn parse_pairs(cs: Seq<char>, m: u64, n: nat) -> Result<(u64, nat), Seq<char>>
    decreases cs.len(),
{
    if cs.len() == 0 {
        Ok((m, n))
    } else if cs.len() == 1 {
        Err("Invalid card format: "@ + chars_debug_text(cs))
    } else {
        match parse_card(cs[0], cs[1]) {
            Some(c) => parse_pairs(cs.skip(2), m | card_mask_value(c), n + 1),
            None => Err("Unrecognized card character: "@ + seq![cs[0], cs[1]]),
        }
    }
}

/// `cs` is a run of rank/suit character pairs that each name a card.
pub open spec fn card_pairs(cs: Seq<char>) -> bool {
    &&& cs.len() % 2 == 0
    &&& forall|j: int| 0 <= j < cs.len() / 2 ==> #[trigger] parse_card(cs[2 * j], cs[2 * j + 1]) is Some
}

/// Parsing succeeds exactly on runs of pairs that each name a card, and then
/// counts one card per pair.
pub proof fn lemma_parse_pairs_ok(cs: Seq<char>, m: u64, n: nat)
    ensures
        (parse_pairs(cs, m, n) is Ok) == card_pairs(cs),
        parse_pairs(cs, m, n) matches Ok((_, k)) ==> k == n + cs.len() / 2,
    decreases cs.len(),
{
    if cs.len() >= 2 {
        let rest = cs.skip(2);
        if let Some(c) = parse_card(cs[0], cs[1]) {
            lemma_parse_pairs_ok(rest, m | card_mask_value(c), n + 1);
        }
        if card_pairs(rest) && parse_card(cs[0], cs[1]) is Some {
            assert forall|j: int| 0 <= j < cs.len() / 2 implies #[trigger] parse_card(cs[2 * j], cs[2 * j + 1]) is Some by {
                if j > 0 {
                    assert(rest[2 * (j - 1)] == cs[2 * j]);
                    assert(rest[2 * (j - 1) + 1] == cs[2 * j + 1]);
                    assert(parse_card(rest[2 * (j - 1)], rest[2 * (j - 1) + 1]) is Some);
                }
            }
        }
        if card_pairs(cs) {
            assert(parse_card(cs[2 * 0int], cs[2 * 0int + 1]) is Some);
            assert forall|j: int| 0 <= j < rest.len() / 2 implies #[trigger] parse_card(rest[2 * j], rest[2 * j + 1]) is Some by {
                assert(rest[2 * j] == cs[2 * (j + 1)]);
                assert(rest[2 * j + 1] == cs[2 * (j + 1) + 1]);
                assert(parse_card(cs[2 * (j + 1)], cs[2 * (j + 1) + 1]) is Some);
            }
        }
    }
}

/// Some pair of `cs` names card `j`.
pub open spec fn names_card(cs: Seq<char>, j: int) -> bool {
    exists|k: int| 0 <= k < cs.len() / 2 && #[trigger] parse_card(cs[2 * k], cs[2 * k + 1]) == Some(j)
}

/// Parsing adds to the mask exactly the cards that the pairs name.
proof fn lemma_parse_pairs_mask(cs: Seq<char>, m: u64, n: nat)
    ensures
        parse_pairs(cs, m, n) matches Ok((m2, _)) ==> forall|j: int| 0 <= j < 52 ==> #[trigger] card_in(m2, j) == (card_in(m, j) || names_card(cs, j)),
    decreases cs.len(),
{
    if cs.len() >= 2 {
        if let Some(c) = parse_card(cs[0], cs[1]) {
            let rest = cs.skip(2);
            let m1 = m | card_mask_value(c);
            lemma_parse_pairs_mask(rest, m1, n + 1);
            if let Ok((m2, _)) = parse_pairs(cs, m, n) {
                assert forall|j: int| 0 <= j < 52 implies #[trigger] card_in(m2, j) == (card_in(m, j) || names_card(cs, j)) by {
                    crate::deck::reduced::lemma_card_in_or(m, c, j);
                    if names_card(rest, j) {
                        let k = choose|k: int| 0 <= k < rest.len() / 2 && #[trigger] parse_card(rest[2 * k], rest[2 * k + 1]) == Some(j);
                        assert(rest[2 * k] == cs[2 * (k + 1)] && rest[2 * k + 1] == cs[2 * (k + 1) + 1]);
                        assert(parse_card(cs[2 * (k + 1)], cs[2 * (k + 1) + 1]) == Some(j));
                    }
                    if names_card(cs, j) && c != j {
                        let k = choose|k: int| 0 <= k < cs.len() / 2 && #[trigger] parse_card(cs[2 * k], cs[2 * k + 1]) == Some(j);
                        assert(k != 0);
                        assert(rest[2 * (k - 1)] == cs[2 * k] && rest[2 * (k - 1) + 1] == cs[2 * k + 1]);
                        assert(parse_card(rest[2 * (k - 1)], rest[2 * (k - 1) + 1]) == Some(j));
                    }
                    if c == j {
                        assert(parse_card(cs[2 * 0int], cs[2 * 0int + 1]) == Some(j));
                    }
                }
            }
        }
    }
}

/// Reading a run of card characters (white space already taken out) succeeds
/// exactly when it is an even run of rank/suit pairs that each name a card; the
/// count is then the number of pairs, and the mask holds exactly the cards they name.
pub proof fn lemma_card_pairs_parse(cs: Seq<char>)
    ensures
        (parse_pairs(cs, 0, 0) is Ok) == card_pairs(cs),
        parse_pairs(cs, 0, 0) matches Ok((m, n)) ==> {
            &&& n == cs.len() / 2
            &&& forall|j: int| 0 <= j < 52 ==> #[trigger] card_in(m, j) == names_card(cs, j)
        },
{
    lemma_parse_pairs_ok(cs, 0, 0);
    lemma_parse_pairs_mask(cs, 0, 0);
    assert forall|j: int| 0 <= j < 52 implies !card_in(0u64, j) by {
        crate::deck::reduced::lemma_card_in_or(0u64, 0, j);
    }
}

/// The characters of `s` that are not white space.
pub open spec fn non_white(s: Seq<char>) -> Seq<char> {
    s.filter(|c: char| !is_white_space(c))
}

/// Parses a rank character (case-insensitive).
pub fn rank_of_char(c: char) -> (r: Option<usize>)
    ensures
        r matches Some(v) ==> rank_index(upper(c)) == Some(v as int),
        r is None ==> rank_index(upper(c)) is None,
{
    let u = to_ascii_uppercase(c);
    match u {
        '2' => Some(0),
        '3' => Some(1),
        '4' => Some(2),
        '5' => Some(3),
        '6' => Some(4),
        '7' => Some(5),
        '8' => Some(6),
        '9' => Some(7),
        'T' => Some(8),
        'J' => Some(9),
        'Q' => Some(10),
        'K' => Some(11),
        'A' => Some(12),
        _ => None,
    }
}

/// Parses a suit character (case-insensitive).
pub fn suit_of_char(c: char) -> (s: Option<usize>)
    ensures
        s matches Some(v) ==> suit_index(lower(c)) == Some(v as int),
        s is None ==> suit_index(lower(c)) is None,
{
    let l = to_ascii_lowercase(c);
    match l {
        'h' => Some(0),
        'd' => Some(1),
        'c' => Some(2),
        's' => Some(3),
        _ => None,
    }
}

/// The card named by a rank and a suit character.
pub fn card_of_chars(rc: char, sc: char) -> (c: Option<usize>)
    ensures
        c matches Some(v) ==> parse_card(rc, sc) == Some(v as int) && v < 52,
        c is None ==> parse_card(rc, sc) is None,
{
    match (rank_of_char(rc), suit_of_char(sc)) {
        (Some(r), Some(s)) => Some(s * 13 + r),
        _ => None,
    }
}

/// The character of rank `r`.
pub fn rank_to_char(r: usize) -> (c: char)
    ensures
        c == rank_char(r as int),
{
    match r {
        0 => '2',
        1 => '3',
        2 => '4',
        3 => '5',
        4 => '6',
        5 => '7',
        6 => '8',
        7 => '9',
        8 => 'T',
        9 => 'J',
        10 => 'Q',
        11 => 'K',
        12 => 'A',
        _ => '?',
    }
}

/// The character of suit `s`.
pub fn suit_to_char(s: usize) -> (c: char)
    ensures
        c == suit_char(s as int),
{
    match s {
        0 => 'h',
        1 => 'd',
        2 => 'c',
        3 => 's',
        _ => '?',
    }
}

/// The characters of `s` that are not white space.
pub fn non_white_chars(s: &str) -> (v: Vec<char>)
    ensures
        v@ == non_white(s@),
{
    let n = s.unicode_len();
    let mut v: Vec<char> = Vec::new();
    let mut i: usize = 0;
    while i < n
        invariant
            n == s@.len(),
            i <= n,
            v@ == non_white(s@.subrange(0, i as int)),
        decreases n - i,
    {
        let c = s.get_char(i);
        proof {
            let pre = s@.subrange(0, i as int);
            assert(s@.subrange(0, i as int + 1) =~= pre.push(c));
            reveal_with_fuel(Seq::filter, 1);
            assert(pre.push(c).drop_last() =~= pre);
        }
        if !is_whitespace(c) {
            v.push(c);
        }
        i = i + 1;
    }
    proof {
        assert(s@.subrange(0, n as int) =~= s@);
    }
    v
}

/// Parses the characters `cs`, two per card, as `parse_pairs` describes.
pub fn parse_card_pairs(cs: &Vec<char>) -> (res: Result<(StdDeckCardMask, usize), String>)
    ensures
        match (res, parse_pairs(cs@, 0, 0)) {
            (Ok((m, n)), Ok((sm, sn))) => m.mask == sm && n == sn,
            (Err(e), Err(se)) => e@ == se,
            _ => false,
        },
{
    let len = cs.len();
    let mut m: u64 = 0;
    let mut n: usize = 0;
    let mut i: usize = 0;
    proof {
        assert(cs@.skip(0) =~= cs@);
    }
    while i + 1 < len
        invariant
            len == cs@.len(),
            i <= len,
            i % 2 == 0,
            n == i / 2,
            parse_pairs(cs@, 0, 0) == parse_pairs(cs@.skip(i as int), m, n as nat),
        decreases len - i,
    {
        let rc = cs[i];
        let sc = cs[i + 1];
        proof {
            assert(cs@.skip(i as int)[0] == rc);
            assert(cs@.skip(i as int)[1] == sc);
            assert(cs@.skip(i as int).skip(2) =~= cs@.skip(i as int + 2));
        }
        match card_of_chars(rc, sc) {
            Some(c) => {
                m = m | (1u64 << ((c % 13) as u64 + 16 * (3 - (c / 13) as u64)));
                n = n + 1;
            },
            None => {
                let mut e = String::new();
                push_str(&mut e, "Unrecognized card character: ");
                push_char(&mut e, rc);
                push_char(&mut e, sc);
                proof {
                    assert(e@ =~= "Unrecognized card character: "@ + seq![rc, sc]);
                }
                return Err(e);
            },
        }
        i = i + 2;
    }
    if i < len {
        let mut one: Vec<char> = Vec::new();
        one.push(cs[i]);
        let d = chars_debug(one.as_slice());
        let mut e = String::new();
        push_str(&mut e, "Invalid card format: ");
        push_str(&mut e, d.as_str());
        proof {
            assert(cs@.skip(i as int) =~= one@);
            assert(e@ =~= "Invalid card format: "@ + chars_debug_text(one@));
        }
        return Err(e);
    }
    proof {
        assert(cs@.skip(i as int) =~= Seq::<char>::empty());
    }
    Ok((StdDeckCardMask { mask: m }, n))
}

pub proof fn lemma_card_bit_range(i: int)
    requires
        0 <= i < 52,
    ensures
        0 <= card_bit(i) < 64,
{
}

/// Rank of a card, 0 (deuce) to 12 (ace).
#[derive(Clone, Copy, Debug, PartialEq, Eq, Structural, PartialOrd, Ord, Hash)]
pub struct Rank(pub u8);

impl Rank {
    /// The two (Rank(0)).
    pub fn two() -> (r: Rank)
        ensures
            r.0 == 0,
    {
        Rank(0)
    }
    /// The three (Rank(1)).
    pub fn three() -> (r: Rank)
        ensures
            r.0 == 1,
    {
        Rank(1)
    }
    /// The four (Rank(2)).
    pub fn four() -> (r: Rank)
        ensures
            r.0 == 2,
    {
        Rank(2)
    }
    /// The five (Rank(3)).
    pub fn five() -> (r: Rank)
        ensures
            r.0 == 3,
    {
        Rank(3)
    }
    /// The six (Rank(4)).
    pub fn six() -> (r: Rank)
        ensures
            r.0 == 4,
    {
        Rank(4)
    }
    /// The seven (Rank(5)).
    pub fn seven() -> (r: Rank)
        ensures
            r.0 == 5,
    {
        Rank(5)
    }
    /// The eight (Rank(6)).
    pub fn eight() -> (r: Rank)
        ensures
            r.0 == 6,
    {
        Rank(6)
    }
    /// The nine (Rank(7)).
    pub fn nine() -> (r: Rank)
        ensures
            r.0 == 7,
    {
        Rank(7)
    }
    /// The ten (Rank(8)).
    pub fn ten() -> (r: Rank)
        ensures
            r.0 == 8,
    {
        Rank(8)
    }
    /// The jack (Rank(9)).
    pub fn jack() -> (r: Rank)
        ensures
            r.0 == 9,
    {
        Rank(9)
    }
    /// The queen (Rank(10)).
    pub fn queen() -> (r: Rank)
        ensures
            r.0 == 10,
    {
        Rank(10)
    }
    /// The king (Rank(11)).
    pub fn king() -> (r: Rank)
        ensures
            r.0 == 11,
    {
        Rank(11)
    }
    /// The ace (Rank(12)).
    pub fn ace() -> (r: Rank)
        ensures
            r.0 == 12,
    {
        Rank(12)
    }
    /// Total number of ranks.
    pub const COUNT: usize = 13;

    /// The rank with the given number.
    pub fn new(v: u8) -> (r: Rank)
        ensures
            r.0 == v,
    {
        Rank(v)
    }

    /// The rank as a `u8`.
    pub fn as_u8(&self) -> (v: u8)
        ensures
            v == self.0,
    {
        self.0
    }

    /// The rank as a `usize`.
    pub fn as_usize(&self) -> (v: usize)
        ensures
            v == self.0,
    {
        self.0 as usize
    }

    /// Parses a rank character (2-9, T, J, Q, K, A), letter case ignored.
    pub fn from_char(c: char) -> (r: Option<Rank>)
        ensures
            r matches Some(rk) ==> rank_index(upper(c)) == Some(rk.0 as int),
            r is None ==> rank_index(upper(c)) is None,
    {
        match rank_of_char(c) {
            Some(i) => Some(Rank(i as u8)),
            None => None,
        }
    }

    /// The character that names this rank ('?' past the ace).
    pub fn to_char(&self) -> (c: char)
        ensures
            c == rank_char(self.0 as int),
    {
        rank_to_char(self.0 as usize)
    }
}

impl From<usize> for Rank {
    fn from(v: usize) -> (r: Rank) {
        Rank(v as u8)
    }
}

impl vstd::std_specs::convert::FromSpecImpl<usize> for Rank {
    open spec fn obeys_from_spec() -> bool {
        true
    }

    open spec fn from_spec(v: usize) -> Rank {
        Rank(v as u8)
    }
}

/// Suit of a card: 0 hearts, 1 diamonds, 2 clubs, 3 spades.
#[derive(Clone, Copy, Debug, PartialEq, Eq, Structural, PartialOrd, Ord, Hash)]
pub struct Suit(pub u8);

impl Suit {
    /// The hearts (Suit(0)).
    pub fn hearts() -> (r: Suit)
        ensures
            r.0 == 0,
    {
        Suit(0)
    }
    /// The diamonds (Suit(1)).
    pub fn diamonds() -> (r: Suit)
        ensures
            r.0 == 1,
    {
        Suit(1)
    }
    /// The clubs (Suit(2)).
    pub fn clubs() -> (r: Suit)
        ensures
            r.0 == 2,
    {
        Suit(2)
    }
    /// The spades (Suit(3)).
    pub fn spades() -> (r: Suit)
        ensures
            r.0 == 3,
    {
        Suit(3)
    }
    /// Total number of suits.
    pub const COUNT: usize = 4;

    /// The suit with the given number.
    pub fn new(v: u8) -> (s: Suit)
        ensures
            s.0 == v,
    {
        Suit(v)
    }

    /// The suit as a `u8`.
    pub fn as_u8(&self) -> (v: u8)
        ensures
            v == self.0,
    {
        self.0
    }

    /// The suit as a `usize`.
    pub fn as_usize(&self) -> (v: usize)
        ensures
            v == self.0,
    {
        self.0 as usize
    }

    /// Parses a suit character (h, d, c, s), letter case ignored.
    pub fn from_char(c: char) -> (s: Option<Suit>)
        ensures
            s matches Some(st) ==> suit_index(lower(c)) == Some(st.0 as int),
            s is None ==> suit_index(lower(c)) is None,
    {
        match suit_of_char(c) {
            Some(i) => Some(Suit(i as u8)),
            None => None,
        }
    }

    /// The character that names this suit ('?' past the spades).
    pub fn to_char(&self) -> (c: char)
        ensures
            c == suit_char(self.0 as int),
    {
        suit_to_char(self.0 as usize)
    }
}

impl From<usize> for Suit {
    fn from(v: usize) -> (s: Suit) {
        Suit(v as u8)
    }
}

impl vstd::std_specs::convert::FromSpecImpl<usize> for Suit {
    open spec fn obeys_from_spec() -> bool {
        true
    }

    open spec fn from_spec(v: usize) -> Suit {
        Suit(v as u8)
    }
}

impl Default for StdDeckCardMask {
    fn default() -> (m: StdDeckCardMask)
        ensures
            m.mask == 0,
    {
        StdDeckCardMask::new()
    }
}

impl StdDeckCardMask {
    /// The names of the cards in the mask, in card-index order, separated by spaces.
    pub fn mask_to_string(&self) -> (s: String)
        ensures
            s@ == cards_text(cards_of(self.mask)),
    {
        let mut s = String::new();
        let mut i: usize = 0;
        let mut first = true;
        while i < STD_DECK_N_CARDS
            invariant
                i <= 52,
                s@ == cards_text(cards_below(self.mask, i as int)),
                first == (cards_below(self.mask, i as int).len() == 0),
            decreases 52 - i,
        {
            if self.card_is_set(i) {
                let ghost prev = cards_below(self.mask, i as int);
                if !first {
                    push_char(&mut s, ' ');
                }
                let t = StdDeck::card_to_string(i);
                push_str(&mut s, t.as_str());
                first = false;
                proof {
                    let now = cards_below(self.mask, i as int + 1);
                    assert(now =~= prev.push(i as int));
                    assert(now.drop_last() =~= prev);
                    if prev.len() == 0 {
                        assert(s@ =~= card_chars(i as int));
                    } else {
                        assert(s@ =~= cards_text(prev) + seq![' '] + card_chars(i as int));
                    }
                }
            }
            i = i + 1;
        }
        s
    }

    /// Adds spade cards from a 13-bit rank mask.
    pub fn set_spades(&mut self, ranks: u16)
        ensures
            final(self).mask == old(self).mask | (ranks as u64),
    {
        self.set_suite(ranks, 0);
        proof {
            assert((ranks as u64) << 0u64 == ranks as u64) by (bit_vector);
        }
    }

    /// The 13-bit rank mask of the spades.
    pub fn spades(&self) -> (r: u16)
        ensures
            r == (self.mask & 0x1FFF) as u16,
    {
        (self.mask & 0x1FFF) as u16
    }

    /// Adds club cards from a 13-bit rank mask.
    pub fn set_clubs(&mut self, ranks: u16)
        ensures
            final(self).mask == old(self).mask | ((ranks as u64) << 16u64),
    {
        self.set_suite(ranks, 16);
    }

    /// The 13-bit rank mask of the clubs.
    pub fn clubs(&self) -> (r: u16)
        ensures
            r == ((self.mask >> 16u64) & 0x1FFF) as u16,
    {
        ((self.mask >> 16) & 0x1FFF) as u16
    }

    /// Adds diamond cards from a 13-bit rank mask.
    pub fn set_diamonds(&mut self, ranks: u16)
        ensures
            final(self).mask == old(self).mask | ((ranks as u64) << 32u64),
    {
        self.set_suite(ranks, 32);
    }

    /// The 13-bit rank mask of the diamonds.
    pub fn diamonds(&self) -> (r: u16)
        ensures
            r == ((self.mask >> 32u64) & 0x1FFF) as u16,
    {
        ((self.mask >> 32) & 0x1FFF) as u16
    }

    /// Adds heart cards from a 13-bit rank mask.
    pub fn set_hearts(&mut self, ranks: u16)
        ensures
            final(self).mask == old(self).mask | ((ranks as u64) << 48u64),
    {
        self.set_suite(ranks, 48);
    }

    /// The 13-bit rank mask of the hearts.
    pub fn hearts(&self) -> (r: u16)
        ensures
            r == ((self.mask >> 48u64) & 0x1FFF) as u16,
    {
        ((self.mask >> 48) & 0x1FFF) as u16
    }

    /// Adds the ranks `ranks`, shifted up by `offset` bits, to the mask.
    pub fn set_suite(&mut self, ranks: u16, offset: usize)
        requires
            offset < 64,
        ensures
            final(self).mask == old(self).mask | ((ranks as u64) << (offset as u64)),
    {
        let mask: u64 = (ranks as u64) << (offset as u64);
        self.mask = self.mask | mask;
    }

    /// The 13 bits of the mask starting at bit `offset`.
    pub fn get_suite(&self, offset: usize) -> (r: u16)
        requires
            offset < 64,
        ensures
            r == ((self.mask >> (offset as u64)) & 0x1FFF) as u16,
    {
        ((self.mask >> (offset as u64)) & 0x1FFF) as u16
    }

    /// Adds the cards of `other`.
    pub fn or(&mut self, other: &StdDeckCardMask)
        ensures
            final(self).mask == old(self).mask | other.mask,
    {
        self.mask = self.mask | other.mask;
    }

    /// Keeps only the cards also in `other`.
    pub fn and(&mut self, other: &StdDeckCardMask)
        ensures
            final(self).mask == old(self).mask & other.mask,
    {
        self.mask = self.mask & other.mask;
    }

    /// Toggles the cards of `other`.
    pub fn xor(&mut self, other: &StdDeckCardMask)
        ensures
            final(self).mask == old(self).mask ^ other.mask,
    {
        self.mask = self.mask ^ other.mask;
    }

    /// Complements every bit of the mask.
    pub fn not(&mut self)
        ensures
            final(self).mask == !old(self).mask,
    {
        self.mask = !self.mask;
    }

    /// The single-card mask of card `index`.
    pub fn get_mask(index: usize) -> (m: StdDeckCardMask)
        requires
            index < 52,
        ensures
            m.mask == card_mask_value(index as int),
    {
        StdDeckCardMask::from_card_index(index)
    }

    /// Tells whether card `index` is in the mask (false for an index past the deck).
    pub fn card_is_set(&self, index: usize) -> (b: bool)
        ensures
            b == card_in(self.mask, index as int),
    {
        if index >= STD_DECK_N_CARDS {
            return false;
        }
        let card_mask = StdDeckCardMask::from_card_index(index);
        proof {
            lemma_bit_test(self.mask, card_bit(index as int) as u64);
        }
        (self.mask & card_mask.mask) != 0
    }

    /// Empties the mask.
    pub fn reset(&mut self)
        ensures
            final(self).mask == 0,
    {
        self.mask = 0;
    }

    /// Tells whether no bit of the mask is set.
    pub fn is_empty(&self) -> (b: bool)
        ensures
            b == (self.mask == 0),
    {
        self.mask == 0
    }

    /// Tells whether two masks hold the same bits.
    pub fn equals(&self, other: &Self) -> (b: bool)
        ensures
            b == (self.mask == other.mask),
    {
        self.mask == other.mask
    }

    /// The number of cards in the mask.
    pub fn num_cards(&self) -> (n: usize)
        ensures
            n == cards_of(self.mask).len(),
            n <= 52,
    {
        let mut n: usize = 0;
        let mut i: usize = 0;
        while i < STD_DECK_N_CARDS
            invariant
                i <= 52,
                n == cards_below(self.mask, i as int).len(),
                n <= i,
            decreases 52 - i,
        {
            if self.card_is_set(i) {
                n = n + 1;
            }
            i = i + 1;
        }
        n
    }

    /// Adds card `card_index`; an index past the deck leaves the mask unchanged.
    pub fn set(&mut self, card_index: usize)
        ensures
            card_index < 52 ==> final(self).mask == old(self).mask | card_mask_value(card_index as int),
            card_index >= 52 ==> final(self).mask == old(self).mask,
    {
        if card_index < STD_DECK_N_CARDS {
            let m = StdDeckCardMask::from_card_index(card_index);
            self.mask = self.mask | m.mask;
        }
    }
}

/// Standard deck utilities.
pub struct StdDeck;

/// The first card whose single-card mask is `m`, if any.
pub open spec fn index_of_mask(m: u64) -> Option<int> {
    if exists|i: int| 0 <= i < 52 && card_mask_value(i) == m {
        Some(choose|i: int| 0 <= i < 52 && card_mask_value(i) == m)
    } else {
        None
    }
}

/// The card named by the string `s` of two characters.
pub open spec fn string_card(s: Seq<char>) -> Option<int> {
    if s.len() == 2 {
        parse_card(s[0], s[1])
    } else {
        None
    }
}

/// Reading the name of a card gives back the card: `string_to_card` undoes
/// `card_to_string` on each of the 52 cards.
pub proof fn lemma_card_name_roundtrip(i: int)
    requires
        0 <= i < 52,
    ensures
        string_card(card_chars(i)) == Some(i),
{
    let r = i % 13;
    let s = i / 13;
    assert(0 <= r < 13 && 0 <= s < 4);
    assert((s as u8) as int == s);
    assert(upper(rank_char(r)) == rank_char(r));
    assert(lower(suit_char(s)) == suit_char(s));
    assert(rank_index(rank_char(r)) == Some(r));
    assert(suit_index(suit_char(s)) == Some(s));
    assert(s * 13 + r == i);
}

impl StdDeck {
    /// The card whose single-card mask is `card_mask`, if there is one.
    pub fn mask_to_index(card_mask: &StdDeckCardMask) -> (r: Option<usize>)
        ensures
            r matches Some(i) ==> i < 52 && card_mask_value(i as int) == card_mask.mask,
            r is None ==> forall|i: int| 0 <= i < 52 ==> card_mask_value(i) != card_mask.mask,
    {
        let mut i: usize = 0;
        while i < STD_DECK_N_CARDS
            invariant
                i <= 52,
                forall|j: int| 0 <= j < i ==> card_mask_value(j) != card_mask.mask,
            decreases 52 - i,
        {
            let m = StdDeckCardMask::from_card_index(i);
            if m.mask == card_mask.mask {
                return Some(i);
            }
            i = i + 1;
        }
        None
    }

    /// The rank of card `index`.
    pub fn rank(index: usize) -> (r: Rank)
        ensures
            r.0 == index % 13,
    {
        Rank((index % STD_DECK_RANK_COUNT) as u8)
    }

    /// The suit of card `index` (wrapped to a `u8`).
    pub fn suit(index: usize) -> (s: Suit)
        ensures
            s.0 == ((index / 13) as u8),
    {
        Suit((index / STD_DECK_RANK_COUNT) as u8)
    }

    /// The index of the card of rank `rank` and suit `suit`.
    pub fn make_card(rank: Rank, suit: Suit) -> (c: usize)
        ensures
            c == suit.0 * 13 + rank.0,
    {
        suit.as_usize() * STD_DECK_RANK_COUNT + rank.as_usize()
    }

    /// The two-character name of card `card_index`, such as "Ah".
    pub fn card_to_string(card_index: usize) -> (s: String)
        ensures
            s@ == card_chars(card_index as int),
    {
        let mut s = String::new();
        push_char(&mut s, Self::rank(card_index).to_char());
        push_char(&mut s, Self::suit(card_index).to_char());
        proof {
            assert(s@ =~= card_chars(card_index as int));
        }
        s
    }

    /// The card named by a two-character string such as "Ah", letter case ignored.
    pub fn string_to_card(in_string: &str) -> (c: Option<usize>)
        ensures
            c matches Some(v) ==> string_card(in_string@) == Some(v as int) && v < 52,
            c is None ==> string_card(in_string@) is None,
    {
        if in_string.unicode_len() != 2 {
            return None;
        }
        let rank_char = in_string.get_char(0);
        let suit_char = in_string.get_char(1);
        card_of_chars(rank_char, suit_char)
    }

    /// Parses a string of cards (such as "Ah Kh", white space ignored) into a
    /// mask and the number of cards read.
    pub fn string_to_mask(in_string: &str) -> (res: Result<(StdDeckCardMask, usize), String>)
        ensures
            match (res, parse_pairs(non_white(in_string@), 0, 0)) {
                (Ok((m, n)), Ok((sm, sn))) => m.mask == sm && n == sn,
                (Err(e), Err(se)) => e@ == se,
                _ => false,
            },
            res is Ok <==> card_pairs(non_white(in_string@)),
            res matches Ok((m, n)) ==> {
                &&& n == non_white(in_string@).len() / 2
                &&& forall|j: int| 0 <= j < 52 ==> #[trigger] card_in(m.mask, j) == names_card(non_white(in_string@), j)
            },
    {
        proof {
            lemma_card_pairs_parse(non_white(in_string@));
        }
        let chars = non_white_chars(in_string);
        parse_card_pairs(&chars)
    }
}

impl CardMask for StdDeckCardMask {
    open spec fn can_test(&self, index: usize) -> bool {
        true
    }

    open spec fn can_set(&self, index: usize) -> bool {
        true
    }

    fn new() -> (m: Self)
        ensures
            m.mask == 0,
    {
        StdDeckCardMask::new()
    }

    fn is_empty(&self) -> (b: bool)
        ensures
            b == (self.mask == 0),
    {
        StdDeckCardMask::is_empty(self)
    }

    fn and(&mut self, other: &Self)
        ensures
            final(self).mask == old(self).mask & other.mask,
    {
        StdDeckCardMask::and(self, other)
    }

    fn or(&mut self, other: &Self)
        ensures
            final(self).mask == old(self).mask | other.mask,
    {
        StdDeckCardMask::or(self, other)
    }

    fn xor(&mut self, other: &Self)
        ensures
            final(self).mask == old(self).mask ^ other.mask,
    {
        StdDeckCardMask::xor(self, other)
    }

    fn not(&mut self)
        ensures
            final(self).mask == !old(self).mask,
    {
        StdDeckCardMask::not(self)
    }

    fn num_cards(&self) -> (n: usize)
        ensures
            n == cards_of(self.mask).len(),
    {
        StdDeckCardMask::num_cards(self)
    }

    fn card_is_set(&self, index: usize) -> (b: bool)
        ensures
            b == card_in(self.mask, index as int),
    {
        StdDeckCardMask::card_is_set(self, index)
    }

    fn set(&mut self, index: usize)
        ensures
            index < 52 ==> final(self).mask == old(self).mask | card_mask_value(index as int),
            index >= 52 ==> final(self).mask == old(self).mask,
    {
        StdDeckCardMask::set(self, index)
    }

    fn mask_to_string(&self) -> (s: String)
        ensures
            s@ == cards_text(cards_of(self.mask)),
    {
        StdDeckCardMask::mask_to_string(self)
    }
}

impl Deck for StdDeck {
    type Mask = StdDeckCardMask;

    open spec fn can_name(card_index: usize) -> bool {
        true
    }

    fn n_cards() -> (n: usize)
        ensures
            n == 52,
    {
        STD_DECK_N_CARDS
    }

    fn card_to_string(card_index: usize) -> (s: String)
        ensures
            s@ == card_chars(card_index as int),
    {
        StdDeck::card_to_string(card_index)
    }

    fn string_to_card(card_str: &str) -> (c: Option<usize>)
        ensures
            c matches Some(v) ==> string_card(card_str@) == Some(v as int) && v < 52,
            c is None ==> string_card(card_str@) is None,
    {
        StdDeck::string_to_card(card_str)
    }

    fn string_to_mask(cards_str: &str) -> (res: Result<(StdDeckCardMask, usize), String>)
        ensures
            match (res, parse_pairs(non_white(cards_str@), 0, 0)) {
                (Ok((m, n)), Ok((sm, sn))) => m.mask == sm && n == sn,
                (Err(e), Err(se)) => e@ == se,
                _ => false,
            },
    {
        StdDeck::string_to_mask(cards_str)
    }
}

} // verus!

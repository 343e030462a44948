//! Standard high-hand evaluation of a set of cards from the 52-card deck.
use vstd::prelude::*;
use crate::handval::{HandVal, pack, lemma_pack_fields, top_field, second_field, third_field, fourth_field, fifth_field};
use crate::ranks::{
    bottom_card, bottom_rank, desc_five, n_bits, nbits, nth_or_zero, ranks_desc, straight_card, straight_top,
    top_card, top_rank, asc_below,
};
use crate::ranks::{
    bit_count, has_rank, has_run, has_wheel, lemma_asc_bounds, lemma_bit_and, lemma_count_or_le, lemma_desc_bounds, lemma_nbits_single,
    straight_below,
};
use crate::bits::{lemma_rank_masks, lemma_suit_fields};
use crate::tables::{StdDeckCardMask, card_bit, card_in, cards_below, cards_of, card_mask_value};

verus! {

/// The 13-bit rank mask of the spades of `m`.
pub open spec fn spades_of(m: u64) -> u32 {
    ((m & 0x1FFF) as u16) as u32
}

/// The 13-bit rank mask of the clubs of `m`.
pub open spec fn clubs_of(m: u64) -> u32 {
    (((m >> 16u64) & 0x1FFF) as u16) as u32
}

/// The 13-bit rank mask of the diamonds of `m`.
pub open spec fn diamonds_of(m: u64) -> u32 {
    (((m >> 32u64) & 0x1FFF) as u16) as u32
}

/// The 13-bit rank mask of the hearts of `m`.
pub open spec fn hearts_of(m: u64) -> u32 {
    (((m >> 48u64) & 0x1FFF) as u16) as u32
}

/// The `j`-th highest rank of `r` (0 past the last).
pub open spec fn top_nth(r: u32, j: int) -> int {
    nth_or_zero(ranks_desc(r), j)
}

/// Ranks present in exactly two or four suits.
pub open spec fn two_mask_of(ss: u32, sc: u32, sd: u32, sh: u32) -> u32 {
    (ss | sc | sd | sh) ^ (sc ^ sd ^ sh ^ ss)
}

/// Ranks present in at least three suits.
pub open spec fn three_mask_of(ss: u32, sc: u32, sd: u32, sh: u32) -> u32 {
    ((sc & sd) | (sh & ss)) & ((sc & sh) | (sd & ss))
}

/// The value of a flush (or straight flush) in the suit whose ranks are `suit`:
/// its five highest ranks.
pub open spec fn flush_value(suit: u32) -> int {
    pack(
        if straight_top(suit) != 0 { 8 } else { 5 },
        top_nth(suit, 0),
        top_nth(suit, 1),
        top_nth(suit, 2),
        top_nth(suit, 3),
        top_nth(suit, 4),
    )
}

/// The value of a straight whose top rank is `t`.
pub open spec fn straight_value(t: int) -> int {
    pack(
        4,
        t,
        if t > 0 { t - 1 } else { 0 },
        if t > 1 { t - 2 } else { 0 },
        if t > 2 { t - 3 } else { 0 },
        if t > 3 { t - 4 } else { 0 },
    )
}

/// The value of a hand without flush or straight, from its count of duplicated cards.
pub open spec fn dups_value(ss: u32, sc: u32, sd: u32, sh: u32, n_dups: int) -> int {
    let ranks = ss | sc | sd | sh;
    let two = two_mask_of(ss, sc, sd, sh);
    let three = three_mask_of(ss, sc, sd, sh);
    if n_dups == 0 {
        pack(0, top_nth(ranks, 0), top_nth(ranks, 1), top_nth(ranks, 2), top_nth(ranks, 3), top_nth(ranks, 4))
    } else if n_dups == 1 {
        let k = ranks ^ two;
        pack(1, top_rank(two), top_nth(k, 0), top_nth(k, 1), top_nth(k, 2), 0)
    } else if n_dups == 2 {
        if two != 0 {
            let p1 = bottom_rank(two);
            let p2 = top_rank(two ^ (1u32 << (p1 as u32)));
            let kicker = top_rank(ranks ^ two);
            pack(2, if p1 > p2 { p1 } else { p2 }, if p1 < p2 { p1 } else { p2 }, kicker, 0, 0)
        } else {
            let k = ranks ^ three;
            pack(3, top_rank(three), top_nth(k, 0), top_nth(k, 1), 0, 0)
        }
    } else {
        let four = sh & sd & sc & ss;
        if four != 0 {
            let tc = top_rank(four);
            pack(7, tc, top_rank(ranks ^ (1u32 << (tc as u32))), 0, 0, 0)
        } else if nbits(two) != n_dups {
            let tc = top_rank(three);
            pack(6, tc, top_rank((two | three) ^ (1u32 << (tc as u32))), 0, 0, 0)
        } else {
            let top = top_rank(two);
            let second = top_rank(two ^ (1u32 << (top as u32)));
            pack(
                2,
                top,
                second,
                top_rank(ranks ^ (1u32 << (top as u32)) ^ (1u32 << (second as u32))),
                0,
                0,
            )
        }
    }
}

/// The number of duplicated cards of a hand of `n_cards` cards holding `n_ranks`
/// ranks: their difference, taken modulo the machine word (`usize`) as the
/// evaluator subtracts, so that a card count below the rank count wraps around.
pub open spec fn dup_count(n_cards: int, n_ranks: int) -> int {
    if n_cards >= n_ranks {
        n_cards - n_ranks
    } else {
        n_cards - n_ranks + usize::MAX + 1
    }
}

/// The value `Eval::eval_n` gives the hand whose suits hold the ranks `ss`,
/// `sc`, `sd`, `sh` and which counts `n_cards` cards: the first suit (spades,
/// clubs, diamonds, hearts) holding five ranks makes a flush; else a straight;
/// else pairs, trips, full house or quads by the duplicated ranks.
pub open spec fn eval_value(ss: u32, sc: u32, sd: u32, sh: u32, n_cards: int) -> int {
    let ranks = ss | sc | sd | sh;
    let n_ranks = nbits(ranks);
    if n_ranks >= 5 && nbits(ss) >= 5 {
        flush_value(ss)
    } else if n_ranks >= 5 && nbits(sc) >= 5 {
        flush_value(sc)
    } else if n_ranks >= 5 && nbits(sd) >= 5 {
        flush_value(sd)
    } else if n_ranks >= 5 && nbits(sh) >= 5 {
        flush_value(sh)
    } else if n_ranks >= 5 && straight_top(ranks) != 0 {
        straight_value(straight_top(ranks))
    } else {
        dups_value(ss, sc, sd, sh, dup_count(n_cards, n_ranks as int))
    }
}

/// The value of the standard-deck hand `m` of `n_cards` cards.
pub open spec fn eval_mask_value(m: u64, n_cards: int) -> int {
    eval_value(spades_of(m), clubs_of(m), diamonds_of(m), hearts_of(m), n_cards)
}

/// The ranks present in the hand `m`, whatever their suit.
pub open spec fn ranks_of(m: u64) -> u32 {
    spades_of(m) | clubs_of(m) | diamonds_of(m) | hearts_of(m)
}

/// The number of ranks present in the hand `m`.
pub open spec fn hand_rank_count(m: u64) -> nat {
    nbits(ranks_of(m))
}

/// The ranks of a union of hands are the union of their ranks.
pub proof fn lemma_ranks_or(a: u64, b: u64)
    ensures
        ranks_of(a | b) == ranks_of(a) | ranks_of(b),
{
    assert(((((a | b) & 0x1FFF) as u16) as u32) | (((((a | b) >> 16u64) & 0x1FFF) as u16) as u32)
        | (((((a | b) >> 32u64) & 0x1FFF) as u16) as u32) | (((((a | b) >> 48u64) & 0x1FFF) as u16) as u32)
        == (((((a & 0x1FFF) as u16) as u32) | ((((a >> 16u64) & 0x1FFF) as u16) as u32)
        | ((((a >> 32u64) & 0x1FFF) as u16) as u32) | ((((a >> 48u64) & 0x1FFF) as u16) as u32))
        | ((((b & 0x1FFF) as u16) as u32) | ((((b >> 16u64) & 0x1FFF) as u16) as u32)
        | ((((b >> 32u64) & 0x1FFF) as u16) as u32) | ((((b >> 48u64) & 0x1FFF) as u16) as u32))))
        by (bit_vector);
}

/// A single card has a single rank: its own.
pub proof fn lemma_card_ranks(i: int)
    requires
        0 <= i < 52,
    ensures
        ranks_of(card_mask_value(i)) == 1u32 << ((i % 13) as u32),
        nbits(ranks_of(card_mask_value(i))) == 1,
{
    let r = (i % 13) as u64;
    let s = i / 13;
    let ru = (i % 13) as u32;
    assert(ranks_of(1u64 << (r + 48)) == 1u32 << ru && ranks_of(1u64 << (r + 32)) == 1u32 << ru
        && ranks_of(1u64 << (r + 16)) == 1u32 << ru && ranks_of(1u64 << r) == 1u32 << ru)
        by (bit_vector)
        requires r < 13u64, ru == r;
    if s == 0 {
        assert(card_mask_value(i) == 1u64 << (r + 48));
    } else if s == 1 {
        assert(card_mask_value(i) == 1u64 << (r + 32));
    } else if s == 2 {
        assert(card_mask_value(i) == 1u64 << (r + 16));
    } else {
        assert(card_mask_value(i) == 1u64 << r);
    }
    lemma_nbits_single(ru);
}

/// Rank `r` of a suit mask of `m` is set exactly when the matching card is in `m`.
pub proof fn lemma_suit_bits(m: u64, r: int)
    requires
        0 <= r < 13,
    ensures
        has_rank(hearts_of(m), r) == card_in(m, r),
        has_rank(diamonds_of(m), r) == card_in(m, 13 + r),
        has_rank(clubs_of(m), r) == card_in(m, 26 + r),
        has_rank(spades_of(m), r) == card_in(m, 39 + r),
{
    let ru = r as u32;
    let r64 = r as u64;
    assert((((((m >> 48u64) & 0x1FFF) as u16) as u32 >> ru) & 1u32 == 1u32) == ((m >> (r64 + 48u64))
        & 1u64 == 1u64) && (((((m >> 32u64) & 0x1FFF) as u16) as u32 >> ru) & 1u32 == 1u32) == ((m
        >> (r64 + 32u64)) & 1u64 == 1u64) && (((((m >> 16u64) & 0x1FFF) as u16) as u32 >> ru) & 1u32
        == 1u32) == ((m >> (r64 + 16u64)) & 1u64 == 1u64) && ((((m & 0x1FFF) as u16) as u32 >> ru)
        & 1u32 == 1u32) == ((m >> r64) & 1u64 == 1u64)) by (bit_vector)
        requires ru < 13u32, r64 == ru;
    assert((13 + r) % 13 == r && (13 + r) / 13 == 1);
    assert((26 + r) % 13 == r && (26 + r) / 13 == 2);
    assert((39 + r) % 13 == r && (39 + r) / 13 == 3);
}

proof fn lemma_suit_count(m: u64, base: int, suit: u32, k: int)
    requires
        0 <= k <= 13,
        base == 0 || base == 13 || base == 26 || base == 39,
        forall|r: int| 0 <= r < 13 ==> has_rank(suit, r) == card_in(m, base + r),
    ensures
        cards_below(m, base + k).len() == cards_below(m, base).len() + asc_below(suit, k).len(),
    decreases k,
{
    if k > 0 {
        lemma_suit_count(m, base, suit, k - 1);
    }
}

/// The cards of a hand are as many as the ranks of its four suits together.
pub proof fn lemma_cards_count(m: u64)
    ensures
        cards_of(m).len() == nbits(hearts_of(m)) + nbits(diamonds_of(m)) + nbits(clubs_of(m))
            + nbits(spades_of(m)),
{
    assert forall|r: int| 0 <= r < 13 implies has_rank(hearts_of(m), r) == card_in(m, 0 + r)
        && has_rank(diamonds_of(m), r) == card_in(m, 13 + r) && has_rank(clubs_of(m), r)
        == card_in(m, 26 + r) && has_rank(spades_of(m), r) == card_in(m, 39 + r) by {
        lemma_suit_bits(m, r);
    }
    lemma_suit_count(m, 0, hearts_of(m), 13);
    lemma_suit_count(m, 13, diamonds_of(m), 13);
    lemma_suit_count(m, 26, clubs_of(m), 13);
    lemma_suit_count(m, 39, spades_of(m), 13);
}

/// A hand has at most as many distinct ranks as cards.
pub proof fn lemma_rank_count_le_cards(m: u64)
    ensures
        hand_rank_count(m) <= cards_of(m).len(),
{
    lemma_cards_count(m);
    lemma_count_or_le(spades_of(m), clubs_of(m), 13);
    lemma_count_or_le(spades_of(m) | clubs_of(m), diamonds_of(m), 13);
    lemma_count_or_le(spades_of(m) | clubs_of(m) | diamonds_of(m), hearts_of(m), 13);
}

/// Counts the set bits of a 32-bit word.
pub fn count_bits(n: u32) -> (c: u32)
    ensures
        c == asc_below(n, 32).len(),
        c <= 32,
{
    let mut c: u32 = 0;
    let mut i: u32 = 0;
    while i < 32
        invariant
            i <= 32,
            c == asc_below(n, i as int).len(),
            c <= i,
        decreases 32 - i,
    {
        if (n >> i) & 1 == 1 {
            c = c + 1;
        }
        i = i + 1;
    }
    c
}

/// Standard high-hand evaluator.
pub struct Eval;

impl Eval {
    /// The five highest ranks of `suit_mask`, highest first, padded with zeros.
    pub fn extract_top_five_cards(suit_mask: u16) -> (t: (u8, u8, u8, u8, u8))
        ensures
            t.0 == top_nth(suit_mask as u32, 0),
            t.1 == top_nth(suit_mask as u32, 1),
            t.2 == top_nth(suit_mask as u32, 2),
            t.3 == top_nth(suit_mask as u32, 3),
            t.4 == top_nth(suit_mask as u32, 4),
            t.0 < 13 && t.1 < 13 && t.2 < 13 && t.3 < 13 && t.4 < 13,
    {
        let c = desc_five(suit_mask as u32);
        (c[0] as u8, c[1] as u8, c[2] as u8, c[3] as u8, c[4] as u8)
    }

    fn flush_hand(suit: u32) -> (h: HandVal)
        requires
            suit < 0x2000,
        ensures
            h.value == flush_value(suit),
    {
        let (top, second, third, fourth, fifth) = Self::extract_top_five_cards(suit as u16);
        proof {
            assert((suit as u16) as u32 == suit);
        }
        if straight_card(suit) != 0 {
            HandVal::new(8, top, second, third, fourth, fifth)
        } else {
            HandVal::new(5, top, second, third, fourth, fifth)
        }
    }

    fn dups_hand(ss: u32, sc: u32, sd: u32, sh: u32, n_dups: usize) -> (h: HandVal)
        requires
            ss < 0x2000,
            sc < 0x2000,
            sd < 0x2000,
            sh < 0x2000,
        ensures
            h.value == dups_value(ss, sc, sd, sh, n_dups as int),
    {
        let ranks = ss | sc | sd | sh;
        let two_mask = ranks ^ (sc ^ sd ^ sh ^ ss);
        let three_mask = ((sc & sd) | (sh & ss)) & ((sc & sh) | (sd & ss));
        if n_dups == 0 {
            let (top, second, third, fourth, fifth) = Self::extract_top_five_cards(ranks as u16);
            proof {
                lemma_rank_masks(ss, sc, sd, sh);
                assert((ranks as u16) as u32 == ranks);
            }
            HandVal::new(0, top, second, third, fourth, fifth)
        } else if n_dups == 1 {
            let pair_card = top_card(two_mask);
            let kickers_mask = ranks ^ two_mask;
            let k = desc_five(kickers_mask);
            HandVal::new(1, pair_card as u8, k[0] as u8, k[1] as u8, k[2] as u8, 0)
        } else if n_dups == 2 {
            if two_mask != 0 {
                let p1 = bottom_card(two_mask);
                let p2 = top_card(two_mask ^ (1u32 << p1));
                let kicker = top_card(ranks ^ two_mask);
                let hi = if p1 > p2 { p1 } else { p2 };
                let lo = if p1 < p2 { p1 } else { p2 };
                HandVal::new(2, hi as u8, lo as u8, kicker as u8, 0, 0)
            } else {
                let brelan = top_card(three_mask);
                let k = desc_five(ranks ^ three_mask);
                HandVal::new(3, brelan as u8, k[0] as u8, k[1] as u8, 0, 0)
            }
        } else {
            let four_mask = sh & sd & sc & ss;
            if four_mask != 0 {
                let tc = top_card(four_mask);
                let kicker = top_card(ranks ^ (1u32 << tc));
                HandVal::new(7, tc as u8, kicker as u8, 0, 0, 0)
            } else if n_bits(two_mask) as usize != n_dups {
                let tc = top_card(three_mask);
                let t = (two_mask | three_mask) ^ (1u32 << tc);
                HandVal::new(6, tc as u8, top_card(t) as u8, 0, 0, 0)
            } else {
                let top = top_card(two_mask);
                let second = top_card(two_mask ^ (1u32 << top));
                let kicker = top_card(ranks ^ (1u32 << top) ^ (1u32 << second));
                HandVal::new(2, top as u8, second as u8, kicker as u8, 0, 0)
            }
        }
    }

    /// Evaluates the high hand `cards` of `n_cards` cards (see `eval_value`). The
    /// hand type of a hand of five to seven cards is the best category (see
    /// `five_card_category`) of five of its cards.
    pub fn eval_n(cards: &StdDeckCardMask, n_cards: usize) -> (h: HandVal)
        ensures
            h.value == eval_mask_value(cards.mask, n_cards as int),
            cards_of(cards.mask).len() == 5 && n_cards == 5 ==> h.value / 0x0100_0000 == five_card_category(cards.mask),
            5 <= n_cards <= 7 && cards_of(cards.mask).len() == n_cards ==> {
                &&& exists|s: u64| s & !cards.mask == 0 && cards_of(s).len() == 5
                    && #[trigger] five_card_category(s) == h.value / 0x0100_0000
                &&& forall|s: u64| s & !cards.mask == 0 && cards_of(s).len() == 5
                    ==> #[trigger] five_card_category(s) <= h.value / 0x0100_0000
            },
    {
        proof {
            if cards_of(cards.mask).len() == 5 {
                lemma_eval_five_card_category(cards.mask);
            }
            if 5 <= n_cards <= 7 && cards_of(cards.mask).len() == n_cards {
                lemma_eval_best_five_category(cards.mask);
            }
        }
        let ss = cards.spades() as u32;
        let sc = cards.clubs() as u32;
        let sd = cards.diamonds() as u32;
        let sh = cards.hearts() as u32;
        proof {
            let m = cards.mask;
            lemma_suit_fields(m);
        }
        let ranks = ss | sc | sd | sh;
        let n_ranks = n_bits(ranks);
        if n_ranks >= 5 {
            if n_bits(ss) >= 5 {
                return Self::flush_hand(ss);
            }
            if n_bits(sc) >= 5 {
                return Self::flush_hand(sc);
            }
            if n_bits(sd) >= 5 {
                return Self::flush_hand(sd);
            }
            if n_bits(sh) >= 5 {
                return Self::flush_hand(sh);
            }
            let st = straight_card(ranks);
            if st != 0 {
                let second = if st > 0 { st - 1 } else { 0 };
                let third = if st > 1 { st - 2 } else { 0 };
                let fourth = if st > 2 { st - 3 } else { 0 };
                let fifth = if st > 3 { st - 4 } else { 0 };
                return HandVal::new(4, st as u8, second as u8, third as u8, fourth as u8, fifth as u8);
            }
        }
        Self::dups_hand(ss, sc, sd, sh, n_cards.wrapping_sub(n_ranks as usize))
    }
}

pub(crate) proof fn lemma_top_nth_bound(r: u32, j: int)
    ensures
        0 <= top_nth(r, j) < 13,
{
    lemma_desc_bounds(r, 0);
}

proof fn lemma_bottom_rank_bound(r: u32)
    ensures
        0 <= bottom_rank(r) < 13,
{
    lemma_asc_bounds(r, 13);
}

proof fn lemma_straight_below_bound(r: u32, t: int)
    requires
        t <= 12,
    ensures
        0 <= straight_below(r, t) < 13,
    decreases t,
{
    if t >= 4 && !has_run(r, t) {
        lemma_straight_below_bound(r, t - 1);
    }
}

pub(crate) proof fn lemma_pack_type(ht: int, a: int, b: int, c: int, d: int, e: int)
    requires
        0 <= ht < 16,
        0 <= a < 16,
        0 <= b < 16,
        0 <= c < 16,
        0 <= d < 16,
        0 <= e < 16,
    ensures
        pack(ht, a, b, c, d, e) / 0x0100_0000 == ht,
        pack(ht, a, b, c, d, e) >= 0,
{
    let rest = a * 0x1_0000 + b * 0x1000 + c * 0x100 + d * 0x10 + e;
    assert(0 <= rest < 0x0100_0000);
    assert((ht * 0x0100_0000 + rest) / 0x0100_0000 == ht) by (nonlinear_arith)
        requires
            0 <= rest < 0x0100_0000,
    ;
}

/// The hand type that `eval_value` packs, branch by branch.
pub(crate) open spec fn eval_type(ss: u32, sc: u32, sd: u32, sh: u32, n_cards: int) -> int {
    let ranks = ss | sc | sd | sh;
    let n_ranks = nbits(ranks);
    let n_dups = dup_count(n_cards, n_ranks as int);
    if n_ranks >= 5 && (nbits(ss) >= 5 || nbits(sc) >= 5 || nbits(sd) >= 5 || nbits(sh) >= 5) {
        let suit = if nbits(ss) >= 5 { ss } else if nbits(sc) >= 5 { sc } else if nbits(sd) >= 5 { sd } else { sh };
        if straight_top(suit) != 0 { 8 } else { 5 }
    } else if n_ranks >= 5 && straight_top(ranks) != 0 {
        4
    } else if n_dups == 0 {
        0
    } else if n_dups == 1 {
        1
    } else if n_dups == 2 {
        if two_mask_of(ss, sc, sd, sh) != 0 { 2 } else { 3 }
    } else if sh & sd & sc & ss != 0 {
        7
    } else if nbits(two_mask_of(ss, sc, sd, sh)) != n_dups {
        6
    } else {
        2
    }
}

/// Every value the high evaluation gives has a hand type from 0 (no pair) to 8
/// (straight flush).
pub proof fn lemma_eval_hand_type(ss: u32, sc: u32, sd: u32, sh: u32, n_cards: int)
    ensures
        eval_value(ss, sc, sd, sh, n_cards) >= 0,
        eval_value(ss, sc, sd, sh, n_cards) / 0x0100_0000 <= 8,
{
    lemma_eval_type(ss, sc, sd, sh, n_cards);
}

pub(crate) proof fn lemma_eval_type(ss: u32, sc: u32, sd: u32, sh: u32, n_cards: int)
    ensures
        eval_value(ss, sc, sd, sh, n_cards) >= 0,
        eval_value(ss, sc, sd, sh, n_cards) / 0x0100_0000 == eval_type(ss, sc, sd, sh, n_cards),
{
    let ranks = ss | sc | sd | sh;
    assert forall|r: u32, j: int| 0 <= #[trigger] top_nth(r, j) < 13 by {
        lemma_top_nth_bound(r, j);
    }
    assert forall|r: u32| 0 <= #[trigger] top_rank(r) < 13 by {
        lemma_top_nth_bound(r, 0);
    }
    assert forall|r: u32| 0 <= #[trigger] bottom_rank(r) < 13 by {
        lemma_bottom_rank_bound(r);
    }
    lemma_straight_below_bound(ranks, 12);
    let n_ranks = nbits(ranks);
    if n_ranks >= 5 && (nbits(ss) >= 5 || nbits(sc) >= 5 || nbits(sd) >= 5 || nbits(sh) >= 5) {
        let suit = if nbits(ss) >= 5 { ss } else if nbits(sc) >= 5 { sc } else if nbits(sd) >= 5 { sd } else { sh };
        lemma_pack_type(
            if straight_top(suit) != 0 { 8 } else { 5 },
            top_nth(suit, 0),
            top_nth(suit, 1),
            top_nth(suit, 2),
            top_nth(suit, 3),
            top_nth(suit, 4),
        );
    } else if n_ranks >= 5 && straight_top(ranks) != 0 {
        let t = straight_top(ranks);
        lemma_pack_type(
            4,
            t,
            if t > 0 { t - 1 } else { 0 },
            if t > 1 { t - 2 } else { 0 },
            if t > 2 { t - 3 } else { 0 },
            if t > 3 { t - 4 } else { 0 },
        );
    } else {
        let n_dups = dup_count(n_cards, n_ranks as int);
        let two = two_mask_of(ss, sc, sd, sh);
        let three = three_mask_of(ss, sc, sd, sh);
        if n_dups == 0 {
            lemma_pack_type(0, top_nth(ranks, 0), top_nth(ranks, 1), top_nth(ranks, 2), top_nth(ranks, 3), top_nth(ranks, 4));
        } else if n_dups == 1 {
            let k = ranks ^ two;
            lemma_pack_type(1, top_rank(two), top_nth(k, 0), top_nth(k, 1), top_nth(k, 2), 0);
        } else if n_dups == 2 {
            if two != 0 {
                let p1 = bottom_rank(two);
                let p2 = top_rank(two ^ (1u32 << (p1 as u32)));
                let kicker = top_rank(ranks ^ two);
                lemma_pack_type(2, if p1 > p2 { p1 } else { p2 }, if p1 < p2 { p1 } else { p2 }, kicker, 0, 0);
            } else {
                let k = ranks ^ three;
                lemma_pack_type(3, top_rank(three), top_nth(k, 0), top_nth(k, 1), 0, 0);
            }
        } else {
            let four = sh & sd & sc & ss;
            if four != 0 {
                let tc = top_rank(four);
                lemma_pack_type(7, tc, top_rank(ranks ^ (1u32 << (tc as u32))), 0, 0, 0);
            } else if nbits(two) != n_dups {
                let tc = top_rank(three);
                lemma_pack_type(6, tc, top_rank((two | three) ^ (1u32 << (tc as u32))), 0, 0, 0);
            } else {
                let top = top_rank(two);
                let second = top_rank(two ^ (1u32 << (top as u32)));
                lemma_pack_type(2, top, second, top_rank(ranks ^ (1u32 << (top as u32)) ^ (1u32 << (second as u32))), 0, 0);
            }
        }
    }
}


/// How many of the four suit rank masks `ss`, `sc`, `sd`, `sh` hold rank `r`.
pub open spec fn rank_mult(ss: u32, sc: u32, sd: u32, sh: u32, r: int) -> int {
    bit_count(ss, r) + bit_count(sc, r) + bit_count(sd, r) + bit_count(sh, r)
}

/// How many ranks below `k` are held in exactly `t` suits.
pub open spec fn ranks_held(ss: u32, sc: u32, sd: u32, sh: u32, t: int, k: int) -> nat
    decreases k,
{
    if k <= 0 {
        0
    } else {
        ranks_held(ss, sc, sd, sh, t, k - 1) + if rank_mult(ss, sc, sd, sh, k - 1) == t {
            1nat
        } else {
            0nat
        }
    }
}

/// Five ranks in a row are present in `r`, the ace also counting below the deuce.
pub open spec fn has_straight(r: u32) -> bool {
    has_wheel(r) || exists|t: int| 4 <= t <= 12 && #[trigger] has_run(r, t)
}

/// The category of the five-card hand `m` in the standard ranking: 8 straight
/// flush, 7 four of a kind, 6 full house, 5 flush, 4 straight, 3 three of a kind,
/// 2 two pair, 1 one pair, 0 high card.
pub open spec fn five_card_category(m: u64) -> int {
    let (ss, sc, sd, sh) = (spades_of(m), clubs_of(m), diamonds_of(m), hearts_of(m));
    let ranks = ss | sc | sd | sh;
    let flush = nbits(ss) == 5 || nbits(sc) == 5 || nbits(sd) == 5 || nbits(sh) == 5;
    let straight = nbits(ranks) == 5 && has_straight(ranks);
    let quads = ranks_held(ss, sc, sd, sh, 4, 13);
    let trips = ranks_held(ss, sc, sd, sh, 3, 13);
    let pairs = ranks_held(ss, sc, sd, sh, 2, 13);
    if straight && flush {
        8
    } else if quads > 0 {
        7
    } else if trips > 0 && pairs > 0 {
        6
    } else if flush {
        5
    } else if straight {
        4
    } else if trips > 0 {
        3
    } else if pairs >= 2 {
        2
    } else if pairs == 1 {
        1
    } else {
        0
    }
}

/// Rank `r` of the union, duplicate and three-suit masks of four suits, read
/// from how many suits hold it.
proof fn lemma_rank_mult_bits(ss: u32, sc: u32, sd: u32, sh: u32, r: int)
    requires
        0 <= r < 13,
    ensures
        0 <= rank_mult(ss, sc, sd, sh, r) <= 4,
        has_rank(ss | sc | sd | sh, r) == (rank_mult(ss, sc, sd, sh, r) >= 1),
        has_rank(two_mask_of(ss, sc, sd, sh), r) == (rank_mult(ss, sc, sd, sh, r) == 2 || rank_mult(ss, sc, sd, sh, r) == 4),
        has_rank(three_mask_of(ss, sc, sd, sh), r) == (rank_mult(ss, sc, sd, sh, r) >= 3),
        has_rank(sh & sd & sc & ss, r) == (rank_mult(ss, sc, sd, sh, r) == 4),
{
    let ru = r as u32;
    let (a, b, c, d) = ((ss >> ru) & 1u32, (sc >> ru) & 1u32, (sd >> ru) & 1u32, (sh >> ru) & 1u32);
    assert(a <= 1 && b <= 1 && c <= 1 && d <= 1
        && ((((ss | sc | sd | sh) >> ru) & 1u32 == 1u32) == (a + b + c + d >= 1))
        && (((((ss | sc | sd | sh) ^ (sc ^ sd ^ sh ^ ss)) >> ru) & 1u32 == 1u32) == (a + b + c + d == 2 || a + b + c + d == 4))
        && ((((((sc & sd) | (sh & ss)) & ((sc & sh) | (sd & ss))) >> ru) & 1u32 == 1u32) == (a + b + c + d >= 3))
        && ((((sh & sd & sc & ss) >> ru) & 1u32 == 1u32) == (a + b + c + d == 4))) by (bit_vector)
        requires
            ru < 13u32,
            a == (ss >> ru) & 1u32,
            b == (sc >> ru) & 1u32,
            c == (sd >> ru) & 1u32,
            d == (sh >> ru) & 1u32,
    ;
    assert(bit_count(ss, r) == a as int);
    assert(bit_count(sc, r) == b as int);
    assert(bit_count(sd, r) == c as int);
    assert(bit_count(sh, r) == d as int);
}

/// The suits' cards, the ranks present and the duplicate masks, counted below
/// rank `k` by how many suits hold each rank.
pub(crate) proof fn lemma_held_counts(ss: u32, sc: u32, sd: u32, sh: u32, k: int)
    requires
        0 <= k <= 13,
    ensures
        asc_below(ss, k).len() + asc_below(sc, k).len() + asc_below(sd, k).len() + asc_below(sh, k).len()
            == ranks_held(ss, sc, sd, sh, 1, k) + 2 * ranks_held(ss, sc, sd, sh, 2, k) + 3 * ranks_held(ss, sc, sd, sh, 3, k)
            + 4 * ranks_held(ss, sc, sd, sh, 4, k),
        asc_below(ss | sc | sd | sh, k).len() == ranks_held(ss, sc, sd, sh, 1, k) + ranks_held(ss, sc, sd, sh, 2, k)
            + ranks_held(ss, sc, sd, sh, 3, k) + ranks_held(ss, sc, sd, sh, 4, k),
        asc_below(two_mask_of(ss, sc, sd, sh), k).len() == ranks_held(ss, sc, sd, sh, 2, k) + ranks_held(ss, sc, sd, sh, 4, k),
        asc_below(sh & sd & sc & ss, k).len() == ranks_held(ss, sc, sd, sh, 4, k),
        asc_below(three_mask_of(ss, sc, sd, sh), k).len() == ranks_held(ss, sc, sd, sh, 3, k) + ranks_held(ss, sc, sd, sh, 4, k),
    decreases k,
{
    if k > 0 {
        lemma_held_counts(ss, sc, sd, sh, k - 1);
        lemma_rank_mult_bits(ss, sc, sd, sh, k - 1);
    }
}

/// A 13-bit mask without any rank is zero.
pub(crate) proof fn lemma_no_rank_zero(x: u32)
    requires
        x < 0x2000,
        nbits(x) == 0,
    ensures
        x == 0,
{
    assert forall|r: int| 0 <= r < 13 implies !has_rank(x, r) by {
        if has_rank(x, r) {
            lemma_rank_count_pos(x, r, 13);
        }
    }
    assert(!has_rank(x, 0) && !has_rank(x, 1) && !has_rank(x, 2) && !has_rank(x, 3) && !has_rank(x, 4));
    assert(!has_rank(x, 5) && !has_rank(x, 6) && !has_rank(x, 7) && !has_rank(x, 8) && !has_rank(x, 9));
    assert(!has_rank(x, 10) && !has_rank(x, 11) && !has_rank(x, 12));
    assert(x == 0) by (bit_vector)
        requires
            x < 0x2000,
            (x >> 0u32) & 1u32 != 1u32,
            (x >> 1u32) & 1u32 != 1u32,
            (x >> 2u32) & 1u32 != 1u32,
            (x >> 3u32) & 1u32 != 1u32,
            (x >> 4u32) & 1u32 != 1u32,
            (x >> 5u32) & 1u32 != 1u32,
            (x >> 6u32) & 1u32 != 1u32,
            (x >> 7u32) & 1u32 != 1u32,
            (x >> 8u32) & 1u32 != 1u32,
            (x >> 9u32) & 1u32 != 1u32,
            (x >> 10u32) & 1u32 != 1u32,
            (x >> 11u32) & 1u32 != 1u32,
            (x >> 12u32) & 1u32 != 1u32,
    ;
}

/// The empty mask holds no rank.
proof fn lemma_zero_count(k: int)
    ensures
        asc_below(0u32, k).len() == 0,
    decreases k,
{
    if k > 0 {
        lemma_zero_count(k - 1);
        let iu = (k - 1) as u32;
        assert((0u32 >> iu) & 1u32 == 0u32) by (bit_vector);
    }
}

/// A rank present below `k` is counted below `k`.
proof fn lemma_rank_count_pos(x: u32, r: int, k: int)
    requires
        0 <= r < k <= 13,
        has_rank(x, r),
    ensures
        asc_below(x, k).len() >= 1,
    decreases k,
{
    if k - 1 > r {
        lemma_rank_count_pos(x, r, k - 1);
    }
}

/// A mask without ranks holds no rank below 13.
proof fn lemma_no_rank(x: u32, r: int)
    requires
        nbits(x) == 0,
        0 <= r < 13,
    ensures
        !has_rank(x, r),
{
    if has_rank(x, r) {
        lemma_rank_count_pos(x, r, 13);
    }
}

/// The highest straight below `t` exists exactly when some run tops out at most
/// at `t`, or the wheel is present.
proof fn lemma_straight_below_exists(r: u32, t: int)
    requires
        t <= 12,
    ensures
        (straight_below(r, t) != 0) == (has_wheel(r) || exists|u: int| 4 <= u <= t && #[trigger] has_run(r, u)),
    decreases t,
{
    if t >= 4 {
        lemma_straight_below_exists(r, t - 1);
        if !has_run(r, t) && straight_below(r, t - 1) == 0 {
            assert forall|u: int| 4 <= u <= t implies !#[trigger] has_run(r, u) by {
                if u < t {
                    assert(!(4 <= u <= t - 1 && has_run(r, u)));
                }
            }
        }
        if has_run(r, t) {
            assert(t >= 4);
        }
    } else {
        assert forall|u: int| 4 <= u <= t implies !#[trigger] has_run(r, u) by {}
    }
}

/// Two masks that agree on ranks 0..13 hold the same straights.
proof fn lemma_straight_same(a: u32, b: u32)
    requires
        forall|r: int| 0 <= r < 13 ==> has_rank(a, r) == has_rank(b, r),
    ensures
        has_straight(a) == has_straight(b),
{
    assert forall|t: int| 4 <= t <= 12 implies #[trigger] has_run(a, t) == has_run(b, t) by {
        assert(has_rank(a, t) == has_rank(b, t));
        assert(has_rank(a, t - 1) == has_rank(b, t - 1));
        assert(has_rank(a, t - 2) == has_rank(b, t - 2));
        assert(has_rank(a, t - 3) == has_rank(b, t - 3));
        assert(has_rank(a, t - 4) == has_rank(b, t - 4));
    }
    assert(has_wheel(a) == has_wheel(b)) by {
        assert(has_rank(a, 12) == has_rank(b, 12));
        assert(has_rank(a, 0) == has_rank(b, 0));
        assert(has_rank(a, 1) == has_rank(b, 1));
        assert(has_rank(a, 2) == has_rank(b, 2));
        assert(has_rank(a, 3) == has_rank(b, 3));
    }
    if has_straight(a) && !has_wheel(a) {
        let t = choose|t: int| 4 <= t <= 12 && #[trigger] has_run(a, t);
        assert(has_run(b, t));
    }
    if has_straight(b) && !has_wheel(b) {
        let t = choose|t: int| 4 <= t <= 12 && #[trigger] has_run(b, t);
        assert(has_run(a, t));
    }
}

/// The hand type that the high evaluation gives a hand of exactly five cards is
/// the hand's category in the standard ranking (see `five_card_category`).
pub proof fn lemma_eval_five_card_category(m: u64)
    requires
        cards_of(m).len() == 5,
    ensures
        eval_mask_value(m, 5) / 0x0100_0000 == five_card_category(m),
{
    let (ss, sc, sd, sh) = (spades_of(m), clubs_of(m), diamonds_of(m), hearts_of(m));
    let ranks = ss | sc | sd | sh;
    lemma_eval_type(ss, sc, sd, sh, 5);
    lemma_cards_count(m);
    lemma_held_counts(ss, sc, sd, sh, 13);
    lemma_suit_fields(m);
    lemma_rank_masks(ss, sc, sd, sh);
    let h1 = ranks_held(ss, sc, sd, sh, 1, 13);
    let h2 = ranks_held(ss, sc, sd, sh, 2, 13);
    let h3 = ranks_held(ss, sc, sd, sh, 3, 13);
    let h4 = ranks_held(ss, sc, sd, sh, 4, 13);
    assert(h1 + 2 * h2 + 3 * h3 + 4 * h4 == 5);
    assert(nbits(ranks) == h1 + h2 + h3 + h4);
    let two = two_mask_of(ss, sc, sd, sh);
    let four = sh & sd & sc & ss;
    assert(nbits(two) == h2 + h4);
    assert(nbits(four) == h4);
    lemma_dup_masks_bound(ss, sc, sd, sh);
    if nbits(ss) >= 5 || nbits(sc) >= 5 || nbits(sd) >= 5 || nbits(sh) >= 5 {
        let suit = if nbits(ss) >= 5 { ss } else if nbits(sc) >= 5 { sc } else if nbits(sd) >= 5 { sd } else { sh };
        assert forall|r: int| 0 <= r < 13 implies has_rank(ranks, r) == has_rank(suit, r) by {
            lemma_rank_mult_bits(ss, sc, sd, sh, r);
            if suit != ss { lemma_no_rank(ss, r); }
            if suit != sc { lemma_no_rank(sc, r); }
            if suit != sd { lemma_no_rank(sd, r); }
            if suit != sh { lemma_no_rank(sh, r); }
            if nbits(ss) >= 5 {
                if nbits(sc) == 0 { lemma_no_rank(sc, r); }
                lemma_no_rank(sc, r);
                lemma_no_rank(sd, r);
                lemma_no_rank(sh, r);
            } else if nbits(sc) >= 5 {
                lemma_no_rank(ss, r);
                lemma_no_rank(sd, r);
                lemma_no_rank(sh, r);
            } else if nbits(sd) >= 5 {
                lemma_no_rank(ss, r);
                lemma_no_rank(sc, r);
                lemma_no_rank(sh, r);
            } else {
                lemma_no_rank(ss, r);
                lemma_no_rank(sc, r);
                lemma_no_rank(sd, r);
            }
            lemma_bit_and(ss, sc, r);
            lemma_bit_and(ss | sc, sd, r);
            lemma_bit_and(ss | sc | sd, sh, r);
        }
        lemma_straight_same(ranks, suit);
        lemma_straight_below_exists(suit, 12);
        crate::ranks::lemma_count_same(ranks, suit, 13);
        assert(h2 == 0 && h3 == 0 && h4 == 0);
    } else {
        lemma_straight_below_exists(ranks, 12);
        if h2 + h4 > 0 {
            if two == 0 {
                lemma_zero_count(13);
            }
        } else if two != 0 {
            lemma_no_rank_zero(two);
        }
        if h4 > 0 {
            if four == 0 {
                lemma_zero_count(13);
            }
        } else if four != 0 {
            lemma_no_rank_zero(four);
        }
    }
}


/// The 13-bit rank mask of suit `s` of `m`: 0 hearts, 1 diamonds, 2 clubs,
/// 3 spades (the order of the suit characters "hdcs").
pub open spec fn suit_ranks(m: u64, s: int) -> u32 {
    if s == 0 {
        hearts_of(m)
    } else if s == 1 {
        diamonds_of(m)
    } else if s == 2 {
        clubs_of(m)
    } else {
        spades_of(m)
    }
}

/// `p` maps the four suits one-to-one onto the four suits.
pub open spec fn is_suit_permutation(p: Seq<int>) -> bool {
    &&& p.len() == 4
    &&& forall|s: int| 0 <= s < 4 ==> 0 <= #[trigger] p[s] < 4
    &&& forall|s: int, t: int| 0 <= s < t < 4 ==> p[s] != p[t]
}

/// No two suits of `m` hold five ranks or more each (true of every hand of at
/// most nine cards).
pub open spec fn single_flush_suit(m: u64) -> bool {
    forall|s: int, t: int|
        0 <= s < t < 4 ==> !(nbits(#[trigger] suit_ranks(m, s)) >= 5 && nbits(#[trigger] suit_ranks(m, t)) >= 5)
}

/// Two 13-bit masks holding the same ranks are equal.
proof fn lemma_same_ranks_equal(a: u32, b: u32)
    requires
        a < 0x2000,
        b < 0x2000,
        forall|r: int| 0 <= r < 13 ==> has_rank(a, r) == has_rank(b, r),
    ensures
        a == b,
{
    let x = a ^ b;
    assert(x < 0x2000 && (x == 0 ==> a == b)) by (bit_vector)
        requires a < 0x2000, b < 0x2000, x == a ^ b;
    assert forall|r: int| 0 <= r < 13 implies has_rank(x, r) == has_rank(0u32, r) by {
        lemma_bit_and(a, b, r);
        let ru = r as u32;
        assert((0u32 >> ru) & 1u32 == 0u32) by (bit_vector);
    }
    crate::ranks::lemma_count_same(x, 0u32, 13);
    lemma_zero_count(13);
    lemma_no_rank_zero(x);
}

/// Renaming the suits of a hand leaves its value unchanged, when no two suits
/// hold five ranks or more each: `m2` holds in suit `p[s]` the ranks that `m`
/// holds in suit `s`.
#[verifier::rlimit(50)]
pub proof fn lemma_eval_suit_permutation(m: u64, m2: u64, p: Seq<int>, n_cards: int)
    requires
        is_suit_permutation(p),
        forall|s: int| 0 <= s < 4 ==> #[trigger] suit_ranks(m2, p[s]) == suit_ranks(m, s),
        single_flush_suit(m),
    ensures
        eval_mask_value(m2, n_cards) == eval_mask_value(m, n_cards),
{
    let (ss, sc, sd, sh) = (spades_of(m), clubs_of(m), diamonds_of(m), hearts_of(m));
    let (ts, tc, td, th) = (spades_of(m2), clubs_of(m2), diamonds_of(m2), hearts_of(m2));
    lemma_suit_fields(m);
    lemma_suit_fields(m2);
    assert(suit_ranks(m2, p[0]) == sh);
    assert(suit_ranks(m2, p[1]) == sd);
    assert(suit_ranks(m2, p[2]) == sc);
    assert(suit_ranks(m2, p[3]) == ss);
    assert(p[0] != p[1] && p[0] != p[2] && p[0] != p[3] && p[1] != p[2] && p[1] != p[3] && p[2] != p[3]);
    assert(0 <= p[0] < 4 && 0 <= p[1] < 4 && 0 <= p[2] < 4 && 0 <= p[3] < 4);
    assert forall|r: int| 0 <= r < 13 implies rank_mult(ts, tc, td, th, r) == rank_mult(ss, sc, sd, sh, r) by {}
    assert forall|r: int| 0 <= r < 13 implies #[trigger] has_rank(ts | tc | td | th, r) == has_rank(ss | sc | sd | sh, r) by {
        lemma_rank_mult_bits(ts, tc, td, th, r);
        lemma_rank_mult_bits(ss, sc, sd, sh, r);
    }
    assert forall|r: int| 0 <= r < 13 implies #[trigger] has_rank(two_mask_of(ts, tc, td, th), r) == has_rank(two_mask_of(ss, sc, sd, sh), r) by {
        lemma_rank_mult_bits(ts, tc, td, th, r);
        lemma_rank_mult_bits(ss, sc, sd, sh, r);
    }
    assert forall|r: int| 0 <= r < 13 implies #[trigger] has_rank(three_mask_of(ts, tc, td, th), r) == has_rank(three_mask_of(ss, sc, sd, sh), r) by {
        lemma_rank_mult_bits(ts, tc, td, th, r);
        lemma_rank_mult_bits(ss, sc, sd, sh, r);
    }
    assert forall|r: int| 0 <= r < 13 implies #[trigger] has_rank(th & td & tc & ts, r) == has_rank(sh & sd & sc & ss, r) by {
        lemma_rank_mult_bits(ts, tc, td, th, r);
        lemma_rank_mult_bits(ss, sc, sd, sh, r);
    }
    assert(ss | sc | sd | sh < 0x2000 && ts | tc | td | th < 0x2000
        && two_mask_of(ss, sc, sd, sh) < 0x2000 && two_mask_of(ts, tc, td, th) < 0x2000
        && three_mask_of(ss, sc, sd, sh) < 0x2000 && three_mask_of(ts, tc, td, th) < 0x2000
        && sh & sd & sc & ss < 0x2000 && th & td & tc & ts < 0x2000) by (bit_vector)
        requires
            ss < 0x2000, sc < 0x2000, sd < 0x2000, sh < 0x2000,
            ts < 0x2000, tc < 0x2000, td < 0x2000, th < 0x2000,
    ;
    lemma_same_ranks_equal(ts | tc | td | th, ss | sc | sd | sh);
    lemma_same_ranks_equal(two_mask_of(ts, tc, td, th), two_mask_of(ss, sc, sd, sh));
    lemma_same_ranks_equal(three_mask_of(ts, tc, td, th), three_mask_of(ss, sc, sd, sh));
    lemma_same_ranks_equal(th & td & tc & ts, sh & sd & sc & ss);
    assert(dups_value(ts, tc, td, th, n_cards - nbits(ss | sc | sd | sh)) == dups_value(ss, sc, sd, sh, n_cards - nbits(ss | sc | sd | sh)));
    assert(suit_ranks(m, 0) == sh && suit_ranks(m, 1) == sd && suit_ranks(m, 2) == sc && suit_ranks(m, 3) == ss);
    assert(suit_ranks(m2, 0) == th && suit_ranks(m2, 1) == td && suit_ranks(m2, 2) == tc && suit_ranks(m2, 3) == ts);
    assert(!(nbits(sh) >= 5 && nbits(sd) >= 5) && !(nbits(sh) >= 5 && nbits(sc) >= 5) && !(nbits(sh) >= 5 && nbits(ss) >= 5)
        && !(nbits(sd) >= 5 && nbits(sc) >= 5) && !(nbits(sd) >= 5 && nbits(ss) >= 5) && !(nbits(sc) >= 5 && nbits(ss) >= 5)) by {
        assert(!(nbits(suit_ranks(m, 0)) >= 5 && nbits(suit_ranks(m, 1)) >= 5));
        assert(!(nbits(suit_ranks(m, 0)) >= 5 && nbits(suit_ranks(m, 2)) >= 5));
        assert(!(nbits(suit_ranks(m, 0)) >= 5 && nbits(suit_ranks(m, 3)) >= 5));
        assert(!(nbits(suit_ranks(m, 1)) >= 5 && nbits(suit_ranks(m, 2)) >= 5));
        assert(!(nbits(suit_ranks(m, 1)) >= 5 && nbits(suit_ranks(m, 3)) >= 5));
        assert(!(nbits(suit_ranks(m, 2)) >= 5 && nbits(suit_ranks(m, 3)) >= 5));
    }
}


/// How many ranks below `k` are held in at least `t` suits.
pub open spec fn ranks_at_least(ss: u32, sc: u32, sd: u32, sh: u32, t: int, k: int) -> nat
    decreases k,
{
    if k <= 0 {
        0
    } else {
        ranks_at_least(ss, sc, sd, sh, t, k - 1) + if rank_mult(ss, sc, sd, sh, k - 1) >= t {
            1nat
        } else {
            0nat
        }
    }
}

proof fn lemma_at_least_held(ss: u32, sc: u32, sd: u32, sh: u32, k: int)
    requires
        0 <= k <= 13,
    ensures
        ranks_at_least(ss, sc, sd, sh, 4, k) == ranks_held(ss, sc, sd, sh, 4, k),
        ranks_at_least(ss, sc, sd, sh, 3, k) == ranks_held(ss, sc, sd, sh, 3, k) + ranks_held(ss, sc, sd, sh, 4, k),
        ranks_at_least(ss, sc, sd, sh, 2, k) == ranks_held(ss, sc, sd, sh, 2, k) + ranks_held(ss, sc, sd, sh, 3, k)
            + ranks_held(ss, sc, sd, sh, 4, k),
    decreases k,
{
    if k > 0 {
        lemma_at_least_held(ss, sc, sd, sh, k - 1);
        lemma_rank_mult_bits(ss, sc, sd, sh, k - 1);
    }
}

/// Holding each rank in no more suits than another hand holds it, a hand has
/// no more ranks held at least `t` times.
proof fn lemma_at_least_mono(ts: u32, tc: u32, td: u32, th: u32, ss: u32, sc: u32, sd: u32, sh: u32, t: int, k: int)
    requires
        0 <= k <= 13,
        forall|r: int| 0 <= r < 13 ==> #[trigger] rank_mult(ts, tc, td, th, r) <= rank_mult(ss, sc, sd, sh, r),
    ensures
        ranks_at_least(ts, tc, td, th, t, k) <= ranks_at_least(ss, sc, sd, sh, t, k),
    decreases k,
{
    if k > 0 {
        lemma_at_least_mono(ts, tc, td, th, ss, sc, sd, sh, t, k - 1);
        assert(rank_mult(ts, tc, td, th, k - 1) <= rank_mult(ss, sc, sd, sh, k - 1));
    }
}

/// A rank held at least `t` times, other than `r0`, when more ranks than `r0`
/// alone are.
proof fn lemma_at_least_other(ss: u32, sc: u32, sd: u32, sh: u32, t: int, k: int, r0: int) -> (r: int)
    requires
        0 <= k <= 13,
        ranks_at_least(ss, sc, sd, sh, t, k) >= 1 + if 0 <= r0 < k && rank_mult(ss, sc, sd, sh, r0) >= t { 1int } else { 0int },
    ensures
        0 <= r < k,
        r != r0,
        rank_mult(ss, sc, sd, sh, r) >= t,
    decreases k,
{
    if rank_mult(ss, sc, sd, sh, k - 1) >= t && k - 1 != r0 {
        k - 1
    } else {
        lemma_at_least_other(ss, sc, sd, sh, t, k - 1, r0)
    }
}

/// A mask counts at least the ranks `r` and `r2` it holds.
proof fn lemma_nbits_two(x: u32, r: int, r2: int, k: int)
    requires
        0 <= r < 13,
        0 <= r2 < 13,
        r != r2,
        0 <= k <= 13,
    ensures
        asc_below(x, k).len() >= (if r < k { bit_count(x, r) } else { 0 }) + (if r2 < k { bit_count(x, r2) } else { 0 }),
    decreases k,
{
    if k > 0 {
        lemma_nbits_two(x, r, r2, k - 1);
    }
}

/// Ranks held by `a` below `k` are held by `b`: `a` counts no more of them.
pub(crate) proof fn lemma_count_mono(a: u32, b: u32, k: int)
    requires
        0 <= k <= 13,
        forall|r: int| 0 <= r < 13 ==> has_rank(a, r) ==> has_rank(b, r),
    ensures
        asc_below(a, k).len() <= asc_below(b, k).len(),
    decreases k,
{
    if k > 0 {
        lemma_count_mono(a, b, k - 1);
    }
}

/// Ranks held by `a` are held by `b`: a straight of `a` is one of `b`.
proof fn lemma_straight_mono(a: u32, b: u32)
    requires
        forall|r: int| 0 <= r < 13 ==> has_rank(a, r) ==> has_rank(b, r),
    ensures
        has_straight(a) ==> has_straight(b),
{
    if has_straight(a) {
        if has_wheel(a) {
            assert(has_rank(a, 12) && has_rank(a, 0) && has_rank(a, 1) && has_rank(a, 2) && has_rank(a, 3));
        } else {
            let t = choose|t: int| 4 <= t <= 12 && #[trigger] has_run(a, t);
            assert(has_rank(a, t) && has_rank(a, t - 1) && has_rank(a, t - 2) && has_rank(a, t - 3) && has_rank(a, t - 4));
            assert(has_run(b, t));
        }
    }
}

/// The suits of a part `s` of a hand `m` hold only ranks that the same suits of
/// `m` hold.
proof fn lemma_part_suits(s: u64, m: u64, r: int)
    requires
        s & !m == 0,
        0 <= r < 13,
    ensures
        has_rank(spades_of(s), r) ==> has_rank(spades_of(m), r),
        has_rank(clubs_of(s), r) ==> has_rank(clubs_of(m), r),
        has_rank(diamonds_of(s), r) ==> has_rank(diamonds_of(m), r),
        has_rank(hearts_of(s), r) ==> has_rank(hearts_of(m), r),
{
    let ru = r as u32;
    assert(((((((s & 0x1FFF) as u16) as u32) >> ru) & 1u32 == 1u32) ==> (((((m & 0x1FFF) as u16) as u32) >> ru) & 1u32 == 1u32))
        && (((((((s >> 16u64) & 0x1FFF) as u16) as u32) >> ru) & 1u32 == 1u32) ==> ((((((m >> 16u64) & 0x1FFF) as u16) as u32) >> ru) & 1u32 == 1u32))
        && (((((((s >> 32u64) & 0x1FFF) as u16) as u32) >> ru) & 1u32 == 1u32) ==> ((((((m >> 32u64) & 0x1FFF) as u16) as u32) >> ru) & 1u32 == 1u32))
        && (((((((s >> 48u64) & 0x1FFF) as u16) as u32) >> ru) & 1u32 == 1u32) ==> ((((((m >> 48u64) & 0x1FFF) as u16) as u32) >> ru) & 1u32 == 1u32)))
        by (bit_vector)
        requires
            s & !m == 0,
            ru < 13u32,
    ;
}


proof fn lemma_dup_masks_bound(ss: u32, sc: u32, sd: u32, sh: u32)
    by (bit_vector)
    requires
        ss < 0x2000,
        sc < 0x2000,
        sd < 0x2000,
        sh < 0x2000,
    ensures
        (ss | sc | sd | sh) ^ (sc ^ sd ^ sh ^ ss) < 0x2000,
        sh & sd & sc & ss < 0x2000,
        ((sc & sd) | (sh & ss)) & ((sc & sh) | (sd & ss)) < 0x2000,
{
}

/// No five cards of a hand of at most seven cards make a better category (see
/// `five_card_category`) than the hand type that the high evaluation gives the
/// whole hand.
pub proof fn lemma_eval_no_better_five(m: u64, s: u64)
    requires
        cards_of(m).len() <= 7,
        s & !m == 0,
        cards_of(s).len() == 5,
    ensures
        five_card_category(s) <= eval_mask_value(m, cards_of(m).len() as int) / 0x0100_0000,
{
    let n = cards_of(m).len() as int;
    let (ss, sc, sd, sh) = (spades_of(m), clubs_of(m), diamonds_of(m), hearts_of(m));
    let (ts, tc, td, th) = (spades_of(s), clubs_of(s), diamonds_of(s), hearts_of(s));
    let ranks = ss | sc | sd | sh;
    let tranks = ts | tc | td | th;
    lemma_suit_fields(m);
    lemma_suit_fields(s);
    lemma_cards_count(m);
    lemma_cards_count(s);
    lemma_held_counts(ss, sc, sd, sh, 13);
    lemma_held_counts(ts, tc, td, th, 13);
    lemma_at_least_held(ss, sc, sd, sh, 13);
    lemma_at_least_held(ts, tc, td, th, 13);
    lemma_eval_type(ss, sc, sd, sh, n);
    lemma_dup_masks_bound(ss, sc, sd, sh);
    assert forall|r: int| 0 <= r < 13 implies #[trigger] rank_mult(ts, tc, td, th, r) <= rank_mult(ss, sc, sd, sh, r) by {
        lemma_part_suits(s, m, r);
    }
    assert forall|r: int| 0 <= r < 13 implies has_rank(ts, r) ==> has_rank(ss, r) by {
        lemma_part_suits(s, m, r);
        lemma_rank_mult_bits(ts, tc, td, th, r);
        lemma_rank_mult_bits(ss, sc, sd, sh, r);
    }
    assert forall|r: int| 0 <= r < 13 implies has_rank(tc, r) ==> has_rank(sc, r) by {
        lemma_part_suits(s, m, r);
        lemma_rank_mult_bits(ts, tc, td, th, r);
        lemma_rank_mult_bits(ss, sc, sd, sh, r);
    }
    assert forall|r: int| 0 <= r < 13 implies has_rank(td, r) ==> has_rank(sd, r) by {
        lemma_part_suits(s, m, r);
        lemma_rank_mult_bits(ts, tc, td, th, r);
        lemma_rank_mult_bits(ss, sc, sd, sh, r);
    }
    assert forall|r: int| 0 <= r < 13 implies has_rank(th, r) ==> has_rank(sh, r) by {
        lemma_part_suits(s, m, r);
        lemma_rank_mult_bits(ts, tc, td, th, r);
        lemma_rank_mult_bits(ss, sc, sd, sh, r);
    }
    assert forall|r: int| 0 <= r < 13 implies has_rank(tranks, r) ==> has_rank(ranks, r) by {
        lemma_part_suits(s, m, r);
        lemma_rank_mult_bits(ts, tc, td, th, r);
        lemma_rank_mult_bits(ss, sc, sd, sh, r);
    }
    assert forall|r: int| 0 <= r < 13 implies has_rank(ss, r) ==> has_rank(ranks, r) by {
        lemma_part_suits(s, m, r);
        lemma_rank_mult_bits(ts, tc, td, th, r);
        lemma_rank_mult_bits(ss, sc, sd, sh, r);
    }
    assert forall|r: int| 0 <= r < 13 implies has_rank(sc, r) ==> has_rank(ranks, r) by {
        lemma_part_suits(s, m, r);
        lemma_rank_mult_bits(ts, tc, td, th, r);
        lemma_rank_mult_bits(ss, sc, sd, sh, r);
    }
    assert forall|r: int| 0 <= r < 13 implies has_rank(sd, r) ==> has_rank(ranks, r) by {
        lemma_part_suits(s, m, r);
        lemma_rank_mult_bits(ts, tc, td, th, r);
        lemma_rank_mult_bits(ss, sc, sd, sh, r);
    }
    assert forall|r: int| 0 <= r < 13 implies has_rank(sh, r) ==> has_rank(ranks, r) by {
        lemma_part_suits(s, m, r);
        lemma_rank_mult_bits(ts, tc, td, th, r);
        lemma_rank_mult_bits(ss, sc, sd, sh, r);
    }
    lemma_at_least_mono(ts, tc, td, th, ss, sc, sd, sh, 2, 13);
    lemma_at_least_mono(ts, tc, td, th, ss, sc, sd, sh, 3, 13);
    lemma_at_least_mono(ts, tc, td, th, ss, sc, sd, sh, 4, 13);
    lemma_count_mono(ts, ss, 13);
    lemma_count_mono(tc, sc, 13);
    lemma_count_mono(td, sd, 13);
    lemma_count_mono(th, sh, 13);
    lemma_count_mono(tranks, ranks, 13);
    lemma_count_mono(ss, ranks, 13);
    lemma_count_mono(sc, ranks, 13);
    lemma_count_mono(sd, ranks, 13);
    lemma_count_mono(sh, ranks, 13);
    lemma_straight_mono(tranks, ranks);
    lemma_straight_below_exists(ranks, 12);
    let h2 = ranks_held(ss, sc, sd, sh, 2, 13);
    let h3 = ranks_held(ss, sc, sd, sh, 3, 13);
    let h4 = ranks_held(ss, sc, sd, sh, 4, 13);
    let g2 = ranks_held(ts, tc, td, th, 2, 13);
    let g3 = ranks_held(ts, tc, td, th, 3, 13);
    let g4 = ranks_held(ts, tc, td, th, 4, 13);
    let two = two_mask_of(ss, sc, sd, sh);
    let four = sh & sd & sc & ss;
    if h2 + h4 == 0 && two != 0 {
        lemma_no_rank_zero(two);
    }
    if h2 + h4 > 0 && two == 0 {
        lemma_zero_count(13);
    }
    if h4 == 0 && four != 0 {
        lemma_no_rank_zero(four);
    }
    if h4 > 0 && four == 0 {
        lemma_zero_count(13);
    }
    let t = eval_type(ss, sc, sd, sh, n);
    if nbits(ss) >= 5 || nbits(sc) >= 5 || nbits(sd) >= 5 || nbits(sh) >= 5 {
        if t == 5 {
            lemma_straight_below_exists(ss, 12);
            lemma_straight_below_exists(sc, 12);
            lemma_straight_below_exists(sd, 12);
            lemma_straight_below_exists(sh, 12);
            if nbits(ts) == 5 || nbits(tc) == 5 || nbits(td) == 5 || nbits(th) == 5 {
                let (ty, my) = if nbits(ts) == 5 { (ts, ss) } else if nbits(tc) == 5 { (tc, sc) } else if nbits(td) == 5 { (td, sd) } else { (th, sh) };
                assert forall|r: int| 0 <= r < 13 implies (has_rank(tranks, r) ==> has_rank(my, r)) by {
                    lemma_rank_mult_bits(ts, tc, td, th, r);
                    lemma_part_suits(s, m, r);
                    if ty != ts || nbits(ts) != 5 { if nbits(ts) == 0 { lemma_no_rank(ts, r); } }
                    if nbits(tc) == 0 { lemma_no_rank(tc, r); }
                    if nbits(td) == 0 { lemma_no_rank(td, r); }
                    if nbits(th) == 0 { lemma_no_rank(th, r); }
                    if nbits(ts) == 0 { lemma_no_rank(ts, r); }
                }
                lemma_straight_mono(tranks, my);
            }
            if g4 >= 1 {
                let r = lemma_at_least_other(ss, sc, sd, sh, 4, 13, -1);
                let r2 = if r == 0 { 1int } else { 0int };
                lemma_nbits_two(ss, r, r2, 13);
                lemma_nbits_two(sc, r, r2, 13);
                lemma_nbits_two(sd, r, r2, 13);
                lemma_nbits_two(sh, r, r2, 13);
                lemma_rank_mult_bits(ss, sc, sd, sh, r);
            }
            if g3 >= 1 && g2 >= 1 {
                let r = lemma_at_least_other(ss, sc, sd, sh, 3, 13, -1);
                let r2 = lemma_at_least_other(ss, sc, sd, sh, 2, 13, r);
                lemma_nbits_two(ss, r, r2, 13);
                lemma_nbits_two(sc, r, r2, 13);
                lemma_nbits_two(sd, r, r2, 13);
                lemma_nbits_two(sh, r, r2, 13);
                lemma_rank_mult_bits(ss, sc, sd, sh, r);
                lemma_rank_mult_bits(ss, sc, sd, sh, r2);
            }
        }
    }
}


/// The hand `m` without card `c`.
pub open spec fn without_card(m: u64, c: int) -> u64 {
    m & !card_mask_value(c)
}

/// The suit rank masks of a hand without card `c`: `c` alone is gone.
proof fn lemma_without_fields(m: u64, c: int, y: int)
    requires
        0 <= c < 52,
        0 <= y < 13,
    ensures
        has_rank(hearts_of(without_card(m, c)), y) == (has_rank(hearts_of(m), y) && !(c / 13 == 0 && c % 13 == y)),
        has_rank(diamonds_of(without_card(m, c)), y) == (has_rank(diamonds_of(m), y) && !(c / 13 == 1 && c % 13 == y)),
        has_rank(clubs_of(without_card(m, c)), y) == (has_rank(clubs_of(m), y) && !(c / 13 == 2 && c % 13 == y)),
        has_rank(spades_of(without_card(m, c)), y) == (has_rank(spades_of(m), y) && !(c / 13 == 3 && c % 13 == y)),
        without_card(m, c) & !m == 0,
{
    crate::deck::std_deck::lemma_card_bit_range(c);
    let b = card_bit(c) as u64;
    let x = y as u32;
    crate::bits::lemma_mask_bits(0, 0, 0, m, b, 48, x, 0, 0);
    crate::bits::lemma_mask_bits(0, 0, 0, m, b, 32, x, 0, 0);
    crate::bits::lemma_mask_bits(0, 0, 0, m, b, 16, x, 0, 0);
    crate::bits::lemma_mask_bits(0, 0, 0, m, b, 0, x, 0, 0);
}


/// Removing rank `r` (when `drop` is set) from a mask lowers its count by one
/// when it held `r`.
proof fn lemma_count_remove(a: u32, b: u32, r: int, drop: bool, k: int)
    requires
        0 <= k <= 13,
        0 <= r < 13,
        forall|y: int| 0 <= y < 13 ==> #[trigger] has_rank(a, y) == (has_rank(b, y) && !(drop && y == r)),
    ensures
        asc_below(a, k).len() + (if drop && r < k && has_rank(b, r) { 1int } else { 0int }) == asc_below(b, k).len(),
    decreases k,
{
    if k > 0 {
        lemma_count_remove(a, b, r, drop, k - 1);
        assert(has_rank(a, k - 1) == (has_rank(b, k - 1) && !(drop && k - 1 == r)));
    }
}

/// Taking one suit away from rank `r` moves that rank from the ranks held `u`
/// times to those held `u - 1` times.
proof fn lemma_held_remove(
    ts: u32, tc: u32, td: u32, th: u32,
    ss: u32, sc: u32, sd: u32, sh: u32,
    r: int, u: int, k: int,
)
    requires
        0 <= k <= 13,
        0 <= r < 13,
        forall|y: int| 0 <= y < 13 ==> #[trigger] rank_mult(ts, tc, td, th, y) == rank_mult(ss, sc, sd, sh, y) - if y == r { 1int } else { 0int },
    ensures
        ranks_held(ts, tc, td, th, u, k) == ranks_held(ss, sc, sd, sh, u, k)
            - (if r < k && rank_mult(ss, sc, sd, sh, r) == u { 1int } else { 0int })
            + (if r < k && rank_mult(ss, sc, sd, sh, r) - 1 == u { 1int } else { 0int }),
    decreases k,
{
    if k > 0 {
        lemma_held_remove(ts, tc, td, th, ss, sc, sd, sh, r, u, k - 1);
        assert(rank_mult(ts, tc, td, th, k - 1) == rank_mult(ss, sc, sd, sh, k - 1) - if k - 1 == r { 1int } else { 0int });
    }
}

/// A mask counting a rank below `k` holds one.
proof fn lemma_rank_exists(x: u32, k: int) -> (r: int)
    requires
        0 <= k <= 13,
        asc_below(x, k).len() >= 1,
    ensures
        0 <= r < k,
        has_rank(x, r),
    decreases k,
{
    if has_rank(x, k - 1) {
        k - 1
    } else {
        lemma_rank_exists(x, k - 1)
    }
}

/// A rank below `k` held exactly `t` times, when some is.
proof fn lemma_held_exists(ss: u32, sc: u32, sd: u32, sh: u32, t: int, k: int) -> (r: int)
    requires
        0 <= k <= 13,
        ranks_held(ss, sc, sd, sh, t, k) >= 1,
    ensures
        0 <= r < k,
        rank_mult(ss, sc, sd, sh, r) == t,
    decreases k,
{
    if rank_mult(ss, sc, sd, sh, k - 1) == t {
        k - 1
    } else {
        lemma_held_exists(ss, sc, sd, sh, t, k - 1)
    }
}

/// A mask whose ranks all lie in `lo ..= lo + 4` counts at most five.
proof fn lemma_interval_count(x: u32, lo: int, k: int)
    requires
        0 <= k <= 13,
        forall|y: int| 0 <= y < 13 ==> #[trigger] has_rank(x, y) ==> lo <= y <= lo + 4,
    ensures
        asc_below(x, k).len() <= if k <= lo { 0int } else if k <= lo + 5 { k - lo } else { 5int },
    decreases k,
{
    if k > 0 {
        lemma_interval_count(x, lo, k - 1);
        assert(has_rank(x, k - 1) ==> lo <= k - 1 <= lo + 4);
    }
}

/// A mask whose ranks all are wheel ranks (ace to five) counts at most five.
proof fn lemma_wheel_count(x: u32, k: int)
    requires
        0 <= k <= 13,
        forall|y: int| 0 <= y < 13 ==> #[trigger] has_rank(x, y) ==> (y <= 3 || y == 12),
    ensures
        asc_below(x, k).len() <= (if k <= 4 { k } else { 4int }) + if k > 12 { 1int } else { 0int },
    decreases k,
{
    if k > 0 {
        lemma_wheel_count(x, k - 1);
        assert(has_rank(x, k - 1) ==> (k - 1 <= 3 || k - 1 == 12));
    }
}

/// A straight holds on after removing some rank, when a mask holds six ranks or
/// more and a straight.
proof fn lemma_safe_rank(x: u32) -> (r: int)
    requires
        nbits(x) >= 6,
        has_straight(x),
    ensures
        0 <= r < 13,
        has_rank(x, r),
        forall|x2: u32| (forall|y: int| 0 <= y < 13 ==> #[trigger] has_rank(x2, y) == (has_rank(x, y) && y != r))
            ==> has_straight(x2),
{
    if exists|t: int| 4 <= t <= 12 && #[trigger] has_run(x, t) {
        let t = choose|t: int| 4 <= t <= 12 && #[trigger] has_run(x, t);
        if exists|y: int| 0 <= y < 13 && has_rank(x, y) && !(t - 4 <= y <= t) {
            let y = choose|y: int| 0 <= y < 13 && has_rank(x, y) && !(t - 4 <= y <= t);
            assert forall|x2: u32| (forall|z: int| 0 <= z < 13 ==> #[trigger] has_rank(x2, z) == (has_rank(x, z) && z != y))
                implies has_straight(x2) by {
                assert(has_rank(x2, t) && has_rank(x2, t - 1) && has_rank(x2, t - 2) && has_rank(x2, t - 3) && has_rank(x2, t - 4));
                assert(has_run(x2, t));
            }
            y
        } else {
            assert forall|y: int| 0 <= y < 13 implies #[trigger] has_rank(x, y) ==> t - 4 <= y <= t by {}
            lemma_interval_count(x, t - 4, 13);
            0
        }
    } else {
        assert(has_wheel(x));
        if exists|y: int| 4 <= y <= 11 && has_rank(x, y) {
            let y = choose|y: int| 4 <= y <= 11 && has_rank(x, y);
            assert forall|x2: u32| (forall|z: int| 0 <= z < 13 ==> #[trigger] has_rank(x2, z) == (has_rank(x, z) && z != y))
                implies has_straight(x2) by {
                assert(has_rank(x2, 12) && has_rank(x2, 0) && has_rank(x2, 1) && has_rank(x2, 2) && has_rank(x2, 3));
                assert(has_wheel(x2));
            }
            y
        } else {
            assert forall|y: int| 0 <= y < 13 implies #[trigger] has_rank(x, y) ==> (y <= 3 || y == 12) by {}
            lemma_wheel_count(x, 13);
            0
        }
    }
}


/// The hand `m` without its card of suit `yi` and rank `r`: that suit loses the
/// rank, the rank one suit, and the hand one card.
proof fn lemma_without_profile(m: u64, yi: int, r: int)
    requires
        0 <= yi < 4,
        0 <= r < 13,
        has_rank(suit_ranks(m, yi), r),
    ensures
        card_in(m, 13 * yi + r),
        without_card(m, 13 * yi + r) & !m == 0,
        cards_of(without_card(m, 13 * yi + r)).len() == cards_of(m).len() - 1,
        forall|si: int, y: int| 0 <= si < 4 && 0 <= y < 13 ==> #[trigger] has_rank(suit_ranks(without_card(m, 13 * yi + r), si), y)
            == (has_rank(suit_ranks(m, si), y) && !(si == yi && y == r)),
        forall|si: int| 0 <= si < 4 ==> #[trigger] nbits(suit_ranks(without_card(m, 13 * yi + r), si))
            == nbits(suit_ranks(m, si)) - if si == yi { 1int } else { 0int },
        forall|y: int| 0 <= y < 13 ==> #[trigger] rank_mult(
            spades_of(without_card(m, 13 * yi + r)), clubs_of(without_card(m, 13 * yi + r)),
            diamonds_of(without_card(m, 13 * yi + r)), hearts_of(without_card(m, 13 * yi + r)), y)
            == rank_mult(spades_of(m), clubs_of(m), diamonds_of(m), hearts_of(m), y) - if y == r { 1int } else { 0int },
{
    let c = 13 * yi + r;
    let mp = without_card(m, c);
    assert(c / 13 == yi && c % 13 == r) by (nonlinear_arith)
        requires c == 13 * yi + r, 0 <= r < 13, 0 <= yi < 4;
    lemma_suit_bits(m, r);
    assert forall|si: int, y: int| 0 <= si < 4 && 0 <= y < 13 implies #[trigger] has_rank(suit_ranks(mp, si), y)
        == (has_rank(suit_ranks(m, si), y) && !(si == yi && y == r)) by {
        lemma_without_fields(m, c, y);
    }
    lemma_without_fields(m, c, 0);
    assert forall|si: int| 0 <= si < 4 implies #[trigger] nbits(suit_ranks(mp, si))
        == nbits(suit_ranks(m, si)) - if si == yi { 1int } else { 0int } by {
        assert forall|y: int| 0 <= y < 13 implies #[trigger] has_rank(suit_ranks(mp, si), y)
            == (has_rank(suit_ranks(m, si), y) && !(si == yi && y == r)) by {
            lemma_without_fields(m, c, y);
        }
        lemma_count_remove(suit_ranks(mp, si), suit_ranks(m, si), r, si == yi, 13);
    }
    assert forall|y: int| 0 <= y < 13 implies #[trigger] rank_mult(spades_of(mp), clubs_of(mp), diamonds_of(mp), hearts_of(mp), y)
        == rank_mult(spades_of(m), clubs_of(m), diamonds_of(m), hearts_of(m), y) - if y == r { 1int } else { 0int } by {
        lemma_without_fields(m, c, y);
    }
    lemma_cards_count(m);
    lemma_cards_count(mp);
    assert(nbits(suit_ranks(mp, 0)) == nbits(suit_ranks(m, 0)) - if yi == 0 { 1int } else { 0int });
    assert(nbits(suit_ranks(mp, 1)) == nbits(suit_ranks(m, 1)) - if yi == 1 { 1int } else { 0int });
    assert(nbits(suit_ranks(mp, 2)) == nbits(suit_ranks(m, 2)) - if yi == 2 { 1int } else { 0int });
    assert(nbits(suit_ranks(mp, 3)) == nbits(suit_ranks(m, 3)) - if yi == 3 { 1int } else { 0int });
}


/// A suit of `m` holding rank `r`, when some suit does.
proof fn lemma_suit_holding(m: u64, r: int) -> (yi: int)
    requires
        0 <= r < 13,
        rank_mult(spades_of(m), clubs_of(m), diamonds_of(m), hearts_of(m), r) >= 1,
    ensures
        0 <= yi < 4,
        has_rank(suit_ranks(m, yi), r),
{
    if has_rank(spades_of(m), r) {
        3
    } else if has_rank(clubs_of(m), r) {
        2
    } else if has_rank(diamonds_of(m), r) {
        1
    } else {
        0
    }
}

/// The facts about the hand `m` that its hand type rests on.
pub(crate) proof fn lemma_type_facts(m: u64)
    ensures
        cards_of(m).len() == nbits(spades_of(m)) + nbits(clubs_of(m)) + nbits(diamonds_of(m)) + nbits(hearts_of(m)),
        spades_of(m) < 0x2000 && clubs_of(m) < 0x2000 && diamonds_of(m) < 0x2000 && hearts_of(m) < 0x2000,
        suit_ranks(m, 0) == hearts_of(m) && suit_ranks(m, 1) == diamonds_of(m) && suit_ranks(m, 2) == clubs_of(m)
            && suit_ranks(m, 3) == spades_of(m),
        ({
            let (ss, sc, sd, sh) = (spades_of(m), clubs_of(m), diamonds_of(m), hearts_of(m));
            let h1 = ranks_held(ss, sc, sd, sh, 1, 13);
            let h2 = ranks_held(ss, sc, sd, sh, 2, 13);
            let h3 = ranks_held(ss, sc, sd, sh, 3, 13);
            let h4 = ranks_held(ss, sc, sd, sh, 4, 13);
            &&& nbits(ss) + nbits(sc) + nbits(sd) + nbits(sh) == h1 + 2 * h2 + 3 * h3 + 4 * h4
            &&& nbits(ss | sc | sd | sh) == h1 + h2 + h3 + h4
            &&& nbits(two_mask_of(ss, sc, sd, sh)) == h2 + h4
            &&& (two_mask_of(ss, sc, sd, sh) != 0) == (h2 + h4 > 0)
            &&& ((sh & sd & sc & ss) != 0) == (h4 > 0)
            &&& (three_mask_of(ss, sc, sd, sh) != 0) == (h3 + h4 > 0)
            &&& (straight_top(ss | sc | sd | sh) != 0) == has_straight(ss | sc | sd | sh)
            &&& (straight_top(ss) != 0) == has_straight(ss)
            &&& (straight_top(sc) != 0) == has_straight(sc)
            &&& (straight_top(sd) != 0) == has_straight(sd)
            &&& (straight_top(sh) != 0) == has_straight(sh)
            &&& forall|y: int| 0 <= y < 13 ==> #[trigger] has_rank(ss | sc | sd | sh, y) == (rank_mult(ss, sc, sd, sh, y) >= 1)
            &&& forall|y: int| 0 <= y < 13 ==> 0 <= #[trigger] rank_mult(ss, sc, sd, sh, y) <= 4
        }),
{
    let (ss, sc, sd, sh) = (spades_of(m), clubs_of(m), diamonds_of(m), hearts_of(m));
    lemma_suit_fields(m);
    lemma_cards_count(m);
    lemma_held_counts(ss, sc, sd, sh, 13);
    lemma_dup_masks_bound(ss, sc, sd, sh);
    let h2 = ranks_held(ss, sc, sd, sh, 2, 13);
    let h4 = ranks_held(ss, sc, sd, sh, 4, 13);
    let two = two_mask_of(ss, sc, sd, sh);
    let four = sh & sd & sc & ss;
    if h2 + h4 == 0 && two != 0 {
        lemma_no_rank_zero(two);
    }
    if h2 + h4 > 0 && two == 0 {
        lemma_zero_count(13);
    }
    if h4 == 0 && four != 0 {
        lemma_no_rank_zero(four);
    }
    if h4 > 0 && four == 0 {
        lemma_zero_count(13);
    }
    let three = three_mask_of(ss, sc, sd, sh);
    let h3 = ranks_held(ss, sc, sd, sh, 3, 13);
    if h3 + h4 == 0 && three != 0 {
        lemma_no_rank_zero(three);
    }
    if h3 + h4 > 0 && three == 0 {
        lemma_zero_count(13);
    }
    lemma_straight_below_exists(ss | sc | sd | sh, 12);
    lemma_straight_below_exists(ss, 12);
    lemma_straight_below_exists(sc, 12);
    lemma_straight_below_exists(sd, 12);
    lemma_straight_below_exists(sh, 12);
    assert forall|y: int| 0 <= y < 13 implies #[trigger] has_rank(ss | sc | sd | sh, y) == (rank_mult(ss, sc, sd, sh, y) >= 1) by {
        lemma_rank_mult_bits(ss, sc, sd, sh, y);
    }
    assert forall|y: int| 0 <= y < 13 implies 0 <= #[trigger] rank_mult(ss, sc, sd, sh, y) <= 4 by {
        lemma_rank_mult_bits(ss, sc, sd, sh, y);
    }
}


/// A hand of six or seven cards has a card without which its hand type, as a
/// hand of one card less, stays the same.
#[verifier::rlimit(50)]
proof fn lemma_remove_keeps_type(m: u64) -> (c: int)
    requires
        6 <= cards_of(m).len() <= 7,
    ensures
        0 <= c < 52,
        without_card(m, c) & !m == 0,
        cards_of(without_card(m, c)).len() == cards_of(m).len() - 1,
        eval_type(spades_of(without_card(m, c)), clubs_of(without_card(m, c)), diamonds_of(without_card(m, c)),
            hearts_of(without_card(m, c)), cards_of(m).len() - 1)
            == eval_type(spades_of(m), clubs_of(m), diamonds_of(m), hearts_of(m), cards_of(m).len() as int),
{
    let n = cards_of(m).len() as int;
    let (ss, sc, sd, sh) = (spades_of(m), clubs_of(m), diamonds_of(m), hearts_of(m));
    let ranks = ss | sc | sd | sh;
    lemma_type_facts(m);
    lemma_at_least_held(ss, sc, sd, sh, 13);
    let h1 = ranks_held(ss, sc, sd, sh, 1, 13);
    let h2 = ranks_held(ss, sc, sd, sh, 2, 13);
    let h3 = ranks_held(ss, sc, sd, sh, 3, 13);
    let h4 = ranks_held(ss, sc, sd, sh, 4, 13);
    let fl = nbits(ss) >= 5 || nbits(sc) >= 5 || nbits(sd) >= 5 || nbits(sh) >= 5;
    let xi: int = if nbits(ss) >= 5 { 3 } else if nbits(sc) >= 5 { 2 } else if nbits(sd) >= 5 { 1 } else { 0 };
    let x = suit_ranks(m, xi);
    let (yi, r): (int, int) = if fl {
        if nbits(x) < n {
            let yi: int = if xi != 3 && nbits(ss) >= 1 { 3 } else if xi != 2 && nbits(sc) >= 1 { 2 } else if xi != 1 && nbits(sd) >= 1 { 1 } else { 0 };
            (yi, lemma_rank_exists(suit_ranks(m, yi), 13))
        } else if has_straight(x) {
            (xi, lemma_safe_rank(x))
        } else {
            (xi, lemma_rank_exists(x, 13))
        }
    } else {
        let r = if nbits(ranks) >= 5 && has_straight(ranks) {
            if h2 + h3 + h4 >= 1 {
                lemma_at_least_other(ss, sc, sd, sh, 2, 13, -1)
            } else {
                lemma_safe_rank(ranks)
            }
        } else if h1 >= 1 {
            lemma_held_exists(ss, sc, sd, sh, 1, 13)
        } else if h2 >= 1 {
            lemma_held_exists(ss, sc, sd, sh, 2, 13)
        } else {
            lemma_held_exists(ss, sc, sd, sh, 3, 13)
        };
        assert(rank_mult(ss, sc, sd, sh, r) >= 1);
        (lemma_suit_holding(m, r), r)
    };
    lemma_without_profile(m, yi, r);
    let c = 13 * yi + r;
    let mp = without_card(m, c);
    let (ts, tc, td, th) = (spades_of(mp), clubs_of(mp), diamonds_of(mp), hearts_of(mp));
    let tranks = ts | tc | td | th;
    lemma_type_facts(mp);
    lemma_held_remove(ts, tc, td, th, ss, sc, sd, sh, r, 1, 13);
    lemma_held_remove(ts, tc, td, th, ss, sc, sd, sh, r, 2, 13);
    lemma_held_remove(ts, tc, td, th, ss, sc, sd, sh, r, 3, 13);
    lemma_held_remove(ts, tc, td, th, ss, sc, sd, sh, r, 4, 13);
    assert(nbits(suit_ranks(mp, 0)) == nbits(suit_ranks(m, 0)) - if yi == 0 { 1int } else { 0int });
    assert(nbits(suit_ranks(mp, 1)) == nbits(suit_ranks(m, 1)) - if yi == 1 { 1int } else { 0int });
    assert(nbits(suit_ranks(mp, 2)) == nbits(suit_ranks(m, 2)) - if yi == 2 { 1int } else { 0int });
    assert(nbits(suit_ranks(mp, 3)) == nbits(suit_ranks(m, 3)) - if yi == 3 { 1int } else { 0int });
    assert(rank_mult(ts, tc, td, th, r) == rank_mult(ss, sc, sd, sh, r) - 1);
    if fl {
        let xp = suit_ranks(mp, xi);
        assert forall|y: int| 0 <= y < 13 implies #[trigger] has_rank(xp, y) == (has_rank(x, y) && !(xi == yi && y == r)) by {
            assert(has_rank(suit_ranks(mp, xi), y) == (has_rank(suit_ranks(m, xi), y) && !(xi == yi && y == r)));
        }
        if xi != yi {
            lemma_straight_same(xp, x);
        } else if has_straight(x) {
            assert forall|y: int| 0 <= y < 13 implies #[trigger] has_rank(xp, y) == (has_rank(x, y) && y != r) by {}
        } else {
            lemma_straight_mono(xp, x);
        }
        assert forall|y: int| 0 <= y < 13 implies has_rank(xp, y) ==> has_rank(tranks, y) by {
            lemma_rank_mult_bits(ts, tc, td, th, y);
            assert(has_rank(suit_ranks(mp, 0), y) == has_rank(th, y));
        }
        lemma_count_mono(xp, tranks, 13);
    } else if nbits(ranks) >= 5 && has_straight(ranks) {
        if h2 + h3 + h4 >= 1 {
            assert forall|y: int| 0 <= y < 13 implies has_rank(tranks, y) == has_rank(ranks, y) by {}
            lemma_straight_same(tranks, ranks);
        } else {
            assert forall|y: int| 0 <= y < 13 implies #[trigger] has_rank(tranks, y) == (has_rank(ranks, y) && y != r) by {
                assert(rank_mult(ss, sc, sd, sh, y) <= 1) by {
                    if rank_mult(ss, sc, sd, sh, y) >= 2 {
                        lemma_at_least_count_pos(ss, sc, sd, sh, 2, y, 13);
                    }
                }
            }
        }
    } else {
        assert forall|y: int| 0 <= y < 13 implies has_rank(tranks, y) ==> has_rank(ranks, y) by {}
        lemma_straight_mono(tranks, ranks);
        lemma_count_mono(tranks, ranks, 13);
    }
    c
}

/// A rank below `k` held at least `t` times is counted below `k`.
proof fn lemma_at_least_count_pos(ss: u32, sc: u32, sd: u32, sh: u32, t: int, y: int, k: int)
    requires
        0 <= y < k <= 13,
        rank_mult(ss, sc, sd, sh, y) >= t,
    ensures
        ranks_at_least(ss, sc, sd, sh, t, k) >= 1,
    decreases k,
{
    if k - 1 > y {
        lemma_at_least_count_pos(ss, sc, sd, sh, t, y, k - 1);
    }
}


/// Five cards of a hand of five to seven cards whose category is the hand type
/// that the high evaluation gives the whole hand.
proof fn lemma_eval_some_five(m: u64) -> (s: u64)
    requires
        5 <= cards_of(m).len() <= 7,
    ensures
        s & !m == 0,
        cards_of(s).len() == 5,
        five_card_category(s) == eval_mask_value(m, cards_of(m).len() as int) / 0x0100_0000,
    decreases cards_of(m).len(),
{
    let n = cards_of(m).len() as int;
    crate::bits::lemma_mask_bits(0, 0, 0, m, 0, 0, 0, 0, 0);
    if n == 5 {
        lemma_eval_five_card_category(m);
        m
    } else {
        let c = lemma_remove_keeps_type(m);
        let mp = without_card(m, c);
        let s = lemma_eval_some_five(mp);
        crate::bits::lemma_mask_bits(0, 0, 0, m, 0, 0, 0, s, mp);
        lemma_eval_type(spades_of(m), clubs_of(m), diamonds_of(m), hearts_of(m), n);
        lemma_eval_type(spades_of(mp), clubs_of(mp), diamonds_of(mp), hearts_of(mp), n - 1);
        s
    }
}

/// The hand type that the high evaluation gives a hand of five to seven cards is
/// the best category (see `five_card_category`) of its five-card hands: some five
/// of its cards make it, and no five make a better one.
pub proof fn lemma_eval_best_five_category(m: u64)
    requires
        5 <= cards_of(m).len() <= 7,
    ensures
        exists|s: u64| s & !m == 0 && cards_of(s).len() == 5
            && #[trigger] five_card_category(s) == eval_mask_value(m, cards_of(m).len() as int) / 0x0100_0000,
        forall|s: u64| s & !m == 0 && cards_of(s).len() == 5
            ==> #[trigger] five_card_category(s) <= eval_mask_value(m, cards_of(m).len() as int) / 0x0100_0000,
{
    let s = lemma_eval_some_five(m);
    assert(five_card_category(s) == eval_mask_value(m, cards_of(m).len() as int) / 0x0100_0000);
    assert forall|s2: u64| s2 & !m == 0 && cards_of(s2).len() == 5
        implies #[trigger] five_card_category(s2) <= eval_mask_value(m, cards_of(m).len() as int) / 0x0100_0000 by {
        lemma_eval_no_better_five(m, s2);
    }
}


/// Values order hands by category first: of two hands of five to seven cards,
/// the one whose five best cards make the better category has the greater value.
pub proof fn lemma_eval_orders_by_category(m1: u64, m2: u64, s1: u64)
    requires
        5 <= cards_of(m1).len() <= 7,
        5 <= cards_of(m2).len() <= 7,
        s1 & !m1 == 0,
        cards_of(s1).len() == 5,
        forall|s2: u64| s2 & !m2 == 0 && cards_of(s2).len() == 5 ==> #[trigger] five_card_category(s2) < five_card_category(s1),
    ensures
        eval_mask_value(m1, cards_of(m1).len() as int) > eval_mask_value(m2, cards_of(m2).len() as int),
{
    let v1 = eval_mask_value(m1, cards_of(m1).len() as int);
    let v2 = eval_mask_value(m2, cards_of(m2).len() as int);
    lemma_eval_best_five_category(m1);
    lemma_eval_best_five_category(m2);
    lemma_eval_hand_type(spades_of(m1), clubs_of(m1), diamonds_of(m1), hearts_of(m1), cards_of(m1).len() as int);
    lemma_eval_hand_type(spades_of(m2), clubs_of(m2), diamonds_of(m2), hearts_of(m2), cards_of(m2).len() as int);
    let w = choose|s: u64| s & !m2 == 0 && cards_of(s).len() == 5 && #[trigger] five_card_category(s) == v2 / 0x0100_0000;
    assert(five_card_category(w) < five_card_category(s1));
    assert(five_card_category(s1) <= v1 / 0x0100_0000);
    assert(v2 / 0x0100_0000 < v1 / 0x0100_0000);
    assert(v1 > v2) by (nonlinear_arith)
        requires
            v1 >= 0,
            v2 >= 0,
            v2 / 0x0100_0000 < v1 / 0x0100_0000,
    ;
}


/// The deuce-to-seven hand type that `lowball27_value` packs, branch by branch.
spec fn low27_type(ss: u32, sc: u32, sd: u32, sh: u32, n_cards: int) -> int {
    let ranks = sc | ss | sd | sh;
    let n_ranks = nbits(ranks);
    let n_dups = dup_count(n_cards, n_ranks as int);
    if n_ranks >= 5 && (nbits(ss) >= 5 || nbits(sc) >= 5 || nbits(sd) >= 5 || nbits(sh) >= 5) {
        let suit = if nbits(ss) >= 5 { ss } else if nbits(sc) >= 5 { sc } else if nbits(sd) >= 5 { sd } else { sh };
        if straight_top(suit) != 0 { 8 } else { 5 }
    } else if n_ranks >= 5 && straight_top(ranks) != 0 {
        4
    } else if n_dups == 0 {
        0
    } else if n_dups == 1 {
        1
    } else if n_dups == 2 && two_mask_of(ss, sc, sd, sh) == 0 {
        3
    } else if n_dups >= 3 && (sh & sd & sc & ss) != 0 {
        7
    } else if n_dups >= 3 && three_mask_of(ss, sc, sd, sh) != 0 {
        6
    } else {
        2
    }
}

proof fn lemma_low27_type(ss: u32, sc: u32, sd: u32, sh: u32, n_cards: int)
    ensures
        crate::eval_low27::lowball27_value(ss, sc, sd, sh, n_cards) / 0x0100_0000 == low27_type(ss, sc, sd, sh, n_cards),
{
    let ranks = sc | ss | sd | sh;
    lemma_asc_bounds(ss, 13);
    lemma_asc_bounds(sc, 13);
    lemma_asc_bounds(sd, 13);
    lemma_asc_bounds(sh, 13);
    assert forall|r: u32, j: int| 0 <= #[trigger] top_nth(r, j) < 13 by {
        lemma_top_nth_bound(r, j);
    }
    assert forall|r: u32| 0 <= #[trigger] top_rank(r) < 13 by {
        lemma_top_nth_bound(r, 0);
    }
    assert forall|r: u32, j: int| 0 <= #[trigger] crate::eval_low::low_nth(r, j) < 14 by {
        lemma_asc_bounds(r, 13);
    }
    lemma_straight_below_bound(ranks, 12);
    let n_ranks = nbits(ranks);
    let n_dups = dup_count(n_cards, n_ranks as int);
    let two = two_mask_of(ss, sc, sd, sh);
    let three = three_mask_of(ss, sc, sd, sh);
    if n_ranks >= 5 && (nbits(ss) >= 5 || nbits(sc) >= 5 || nbits(sd) >= 5 || nbits(sh) >= 5) {
        let suit = if nbits(ss) >= 5 { ss } else if nbits(sc) >= 5 { sc } else if nbits(sd) >= 5 { sd } else { sh };
        lemma_pack_type(
            if straight_top(suit) != 0 { 8 } else { 5 },
            crate::eval_low::low_nth(suit, 0),
            crate::eval_low::low_nth(suit, 1),
            crate::eval_low::low_nth(suit, 2),
            crate::eval_low::low_nth(suit, 3),
            crate::eval_low::low_nth(suit, 4),
        );
    } else if n_ranks >= 5 && straight_top(ranks) != 0 {
        let t = straight_top(ranks);
        lemma_pack_type(
            4,
            t,
            if t > 0 { t - 1 } else { 0 },
            if t > 1 { t - 2 } else { 0 },
            if t > 2 { t - 3 } else { 0 },
            if t > 3 { t - 4 } else { 0 },
        );
    } else if n_dups == 0 {
        lemma_pack_type(0, top_nth(ranks, 0), top_nth(ranks, 1), top_nth(ranks, 2), top_nth(ranks, 3), top_nth(ranks, 4));
    } else if n_dups == 1 {
        let k = ranks ^ two;
        lemma_pack_type(1, top_rank(two), top_nth(k, 0), top_nth(k, 1), top_nth(k, 2), 0);
    } else if n_dups == 2 && two == 0 {
        let k = ranks ^ three;
        lemma_pack_type(3, top_rank(three), crate::eval_low::low_nth(k, 0), crate::eval_low::low_nth(k, 1), 0, 0);
    } else if n_dups >= 3 && (sh & sd & sc & ss) != 0 {
        let q = top_rank(sh & sd & sc & ss);
        lemma_pack_type(7, q, top_rank(ranks ^ (1u32 << (q as u32))), 0, 0, 0);
    } else if n_dups >= 3 && three != 0 {
        let fh = top_rank(three);
        lemma_pack_type(6, fh, top_rank(two ^ (1u32 << (fh as u32))), 0, 0, 0);
    } else {
        let p1 = top_rank(two);
        let p2 = top_rank(two ^ (1u32 << (p1 as u32)));
        let kicker = top_rank(ranks ^ (1u32 << (p1 as u32)) ^ (1u32 << (p2 as u32)));
        lemma_pack_type(2, if p1 > p2 { p1 } else { p2 }, if p1 < p2 { p1 } else { p2 }, kicker, 0, 0);
    }
}

/// The deuce-to-seven evaluation gives a hand the same hand type as the high
/// evaluation (they differ in how ranks order hands of one type), when the card
/// count is the number of cards of the hand; for five to seven cards, that is
/// the best category of five of its cards.
pub proof fn lemma_lowball27_same_type(m: u64)
    ensures
        crate::eval_low27::lowball27_mask_value(m, cards_of(m).len() as int) / 0x0100_0000
            == eval_mask_value(m, cards_of(m).len() as int) / 0x0100_0000,
{
    let n = cards_of(m).len() as int;
    let (ss, sc, sd, sh) = (spades_of(m), clubs_of(m), diamonds_of(m), hearts_of(m));
    lemma_type_facts(m);
    lemma_eval_type(ss, sc, sd, sh, n);
    lemma_low27_type(ss, sc, sd, sh, n);
    lemma_rank_masks(ss, sc, sd, sh);
}


/// The ranks of `x`, highest first: `top_nth` lists exactly the ranks of `x`,
/// each once, in decreasing order.
pub(crate) proof fn lemma_top_facts(x: u32)
    ensures
        ranks_desc(x).len() == nbits(x),
        forall|j: int| 0 <= j < nbits(x) ==> 0 <= #[trigger] top_nth(x, j) < 13 && has_rank(x, top_nth(x, j)),
        forall|a: int, b: int| 0 <= a < b < nbits(x) ==> #[trigger] top_nth(x, a) > #[trigger] top_nth(x, b),
        forall|y: int| 0 <= y < 13 && #[trigger] has_rank(x, y) ==> exists|j: int| 0 <= j < nbits(x) && #[trigger] top_nth(x, j) == y,
{
    crate::ranks::lemma_desc_len(x, 0);
    lemma_desc_bounds(x, 0);
    assert forall|y: int| 0 <= y < 13 && #[trigger] has_rank(x, y) implies exists|j: int| 0 <= j < nbits(x) && #[trigger] top_nth(x, j) == y by {
        crate::ranks::lemma_desc_complete(x, 0, y);
        let j = choose|j: int| 0 <= j < desc_from_len(x) && #[trigger] ranks_desc(x)[j] == y;
        assert(top_nth(x, j) == y);
    }
}

/// How many ranks `x` holds, as an integer.
spec fn desc_from_len(x: u32) -> int {
    ranks_desc(x).len() as int
}

/// Removing from `r` the ranks of `x`, all of which `r` holds, leaves the other
/// ranks of `r` and lowers its count by that of `x`.
pub(crate) proof fn lemma_xor_sub(r: u32, x: u32)
    requires
        forall|i: int| 0 <= i < 13 && #[trigger] has_rank(x, i) ==> has_rank(r, i),
    ensures
        forall|i: int| 0 <= i < 13 ==> #[trigger] has_rank(r ^ x, i) == (has_rank(r, i) && !has_rank(x, i)),
        nbits(r ^ x) + nbits(x) == nbits(r),
{
    assert forall|i: int| 0 <= i < 13 implies #[trigger] has_rank(r ^ x, i) == (has_rank(r, i) && !has_rank(x, i)) by {
        lemma_bit_and(r, x, i);
    }
    assert forall|i: int| 0 <= i < 13 implies #[trigger] has_rank(r & x, i) == has_rank(x, i) by {
        lemma_bit_and(r, x, i);
    }
    assert forall|i: int| 0 <= i < 13 implies #[trigger] has_rank(r & !x, i) == has_rank(r ^ x, i) by {
        lemma_bit_and(r, x, i);
    }
    crate::ranks::lemma_count_split(r, x, 13);
    crate::ranks::lemma_count_same(r & x, x, 13);
    crate::ranks::lemma_count_same(r & !x, r ^ x, 13);
}

/// No rank below `k` is held `t` times when no such rank is counted.
proof fn lemma_held_none(ss: u32, sc: u32, sd: u32, sh: u32, t: int, k: int, y: int)
    requires
        ranks_held(ss, sc, sd, sh, t, k) == 0,
        0 <= y < k,
    ensures
        rank_mult(ss, sc, sd, sh, y) != t,
    decreases k,
{
    if y < k - 1 {
        lemma_held_none(ss, sc, sd, sh, t, k - 1, y);
    }
}

/// A hand with exactly one paired rank and no trips: the pair is the highest
/// (only) rank of the duplicate mask, and the three highest ranks of what is
/// left once it is removed are the three highest other ranks of the hand.
pub(crate) proof fn lemma_one_pair_core(ss: u32, sc: u32, sd: u32, sh: u32)
    requires
        ranks_held(ss, sc, sd, sh, 2, 13) == 1,
        ranks_held(ss, sc, sd, sh, 3, 13) == 0,
        ranks_held(ss, sc, sd, sh, 4, 13) == 0,
        nbits(ss | sc | sd | sh) >= 4,
    ensures
        ({
            let ranks = ss | sc | sd | sh;
            let two = two_mask_of(ss, sc, sd, sh);
            let p = top_rank(two);
            let k = ranks ^ two;
            &&& 0 <= p < 13
            &&& rank_mult(ss, sc, sd, sh, p) == 2
            &&& crate::ranks::highest_three_except(ranks, p, top_nth(k, 0), top_nth(k, 1), top_nth(k, 2))
        }),
{
    let ranks = ss | sc | sd | sh;
    let two = two_mask_of(ss, sc, sd, sh);
    let p = top_rank(two);
    let k = ranks ^ two;
    lemma_held_counts(ss, sc, sd, sh, 13);
    lemma_top_facts(two);
    assert forall|i: int| 0 <= i < 13 && #[trigger] has_rank(two, i) implies has_rank(ranks, i) && i == p
        && rank_mult(ss, sc, sd, sh, i) == 2 by {
        lemma_rank_mult_bits(ss, sc, sd, sh, i);
        lemma_held_none(ss, sc, sd, sh, 4, 13, i);
        let j = choose|j: int| 0 <= j < nbits(two) && #[trigger] top_nth(two, j) == i;
    }
    assert(top_nth(two, 0) == p);
    lemma_xor_sub(ranks, two);
    lemma_top_facts(k);
    let (a, b, c) = (top_nth(k, 0), top_nth(k, 1), top_nth(k, 2));
    assert(a > b > c);
    assert forall|y: int| 0 <= y < 13 && #[trigger] has_rank(ranks, y) && y != p && y != a && y != b && y != c
        implies y < c by {
        assert(has_rank(k, y));
        let j = choose|j: int| 0 <= j < nbits(k) && #[trigger] top_nth(k, j) == y;
        assert(top_nth(k, 2) > top_nth(k, j));
    }
}


/// The counts of a hand valued without flush or straight: its duplicated cards
/// number the paired ranks, twice the tripled ones and three times the quads.
proof fn lemma_dup_facts(m: u64)
    ensures
        ({
            let (ss, sc, sd, sh) = (spades_of(m), clubs_of(m), diamonds_of(m), hearts_of(m));
            let n = cards_of(m).len() as int;
            let n_ranks = nbits(ss | sc | sd | sh) as int;
            &&& n >= n_ranks
            &&& dup_count(n, n_ranks) == n - n_ranks
            &&& n - n_ranks == ranks_held(ss, sc, sd, sh, 2, 13) + 2 * ranks_held(ss, sc, sd, sh, 3, 13)
                + 3 * ranks_held(ss, sc, sd, sh, 4, 13)
        }),
{
    lemma_type_facts(m);
}

/// In a hand of at least five cards valued one pair, the pair's field holds a
/// rank held in exactly two suits, and the three kicker fields hold the three
/// highest other ranks of the hand, highest first.
pub proof fn lemma_eval_one_pair_kickers(m: u64)
    requires
        cards_of(m).len() >= 5,
        eval_mask_value(m, cards_of(m).len() as int) / 0x0100_0000 == 1,
    ensures
        ({
            let v = eval_mask_value(m, cards_of(m).len() as int);
            &&& 0 <= top_field(v) < 13 && rank_mult(spades_of(m), clubs_of(m), diamonds_of(m), hearts_of(m), top_field(v)) == 2
            &&& crate::ranks::highest_three_except(ranks_of(m), top_field(v), second_field(v), third_field(v), fourth_field(v))
            &&& v == pack(1, top_field(v), second_field(v), third_field(v), fourth_field(v), 0)
        }),
{
    let n = cards_of(m).len() as int;
    let (ss, sc, sd, sh) = (spades_of(m), clubs_of(m), diamonds_of(m), hearts_of(m));
    lemma_type_facts(m);
    lemma_dup_facts(m);
    lemma_eval_type(ss, sc, sd, sh, n);
    let ranks = ss | sc | sd | sh;
    let two = two_mask_of(ss, sc, sd, sh);
    let k = ranks ^ two;
    lemma_one_pair_core(ss, sc, sd, sh);
    lemma_top_nth_bound(two, 0);
    lemma_top_nth_bound(k, 0);
    lemma_top_nth_bound(k, 1);
    lemma_top_nth_bound(k, 2);
    lemma_pack_fields(1, top_rank(two), top_nth(k, 0), top_nth(k, 1), top_nth(k, 2), 0);
}


/// In a hand of at least five cards valued one pair by the deuce-to-seven
/// evaluation, the pair's field holds a rank held in exactly two suits, and the
/// three kicker fields hold the three highest other ranks of the hand, highest
/// first; no kicker field holds the paired rank.
pub proof fn lemma_lowball27_one_pair_kickers(m: u64)
    requires
        cards_of(m).len() >= 5,
        crate::eval_low27::lowball27_mask_value(m, cards_of(m).len() as int) / 0x0100_0000 == 1,
    ensures
        ({
            let v = crate::eval_low27::lowball27_mask_value(m, cards_of(m).len() as int);
            &&& 0 <= top_field(v) < 13 && rank_mult(spades_of(m), clubs_of(m), diamonds_of(m), hearts_of(m), top_field(v)) == 2
            &&& crate::ranks::highest_three_except(ranks_of(m), top_field(v), second_field(v), third_field(v), fourth_field(v))
            &&& v == pack(1, top_field(v), second_field(v), third_field(v), fourth_field(v), 0)
        }),
{
    let n = cards_of(m).len() as int;
    let (ss, sc, sd, sh) = (spades_of(m), clubs_of(m), diamonds_of(m), hearts_of(m));
    lemma_type_facts(m);
    lemma_dup_facts(m);
    lemma_low27_type(ss, sc, sd, sh, n);
    lemma_rank_masks(ss, sc, sd, sh);
    let ranks = ss | sc | sd | sh;
    let two = two_mask_of(ss, sc, sd, sh);
    let k = ranks ^ two;
    lemma_one_pair_core(ss, sc, sd, sh);
    lemma_top_nth_bound(two, 0);
    lemma_top_nth_bound(k, 0);
    lemma_top_nth_bound(k, 1);
    lemma_top_nth_bound(k, 2);
    lemma_pack_fields(1, top_rank(two), top_nth(k, 0), top_nth(k, 1), top_nth(k, 2), 0);
}


/// Taking a rank that `r` holds out of `r` leaves its other ranks and one rank less.
pub(crate) proof fn lemma_remove_rank(r: u32, t: int)
    requires
        0 <= t < 13,
        has_rank(r, t),
    ensures
        forall|i: int| 0 <= i < 13 ==> #[trigger] has_rank(r ^ (1u32 << (t as u32)), i) == (has_rank(r, i) && i != t),
        nbits(r ^ (1u32 << (t as u32))) + 1 == nbits(r),
{
    let b = 1u32 << (t as u32);
    assert forall|i: int| 0 <= i < 13 implies #[trigger] has_rank(b, i) == (i == t) by {
        crate::ranks::lemma_bit_single(t as u32, i);
    }
    lemma_xor_sub(r, b);
    lemma_nbits_single(t as u32);
}

/// In a hand of at least five cards valued two pair, the first two rank fields
/// hold its two highest paired ranks, each held in exactly two suits, the higher
/// first, and the third holds the highest rank of the hand outside both pairs;
/// the fields below are zero.
pub proof fn lemma_eval_two_pair_kicker(m: u64)
    requires
        cards_of(m).len() >= 5,
        eval_mask_value(m, cards_of(m).len() as int) / 0x0100_0000 == 2,
    ensures
        ({
            let v = eval_mask_value(m, cards_of(m).len() as int);
            let (ss, sc, sd, sh) = (spades_of(m), clubs_of(m), diamonds_of(m), hearts_of(m));
            &&& top_field(v) > second_field(v)
            &&& rank_mult(ss, sc, sd, sh, top_field(v)) == 2
            &&& rank_mult(ss, sc, sd, sh, second_field(v)) == 2
            &&& forall|y: int| 0 <= y < 13 && #[trigger] rank_mult(ss, sc, sd, sh, y) >= 2 && y != top_field(v)
                && y != second_field(v) ==> y < second_field(v)
            &&& crate::ranks::highest_except_two(ranks_of(m), top_field(v), second_field(v), third_field(v))
            &&& v == pack(2, top_field(v), second_field(v), third_field(v), 0, 0)
        }),
{
    let n = cards_of(m).len() as int;
    let (ss, sc, sd, sh) = (spades_of(m), clubs_of(m), diamonds_of(m), hearts_of(m));
    lemma_type_facts(m);
    lemma_dup_facts(m);
    lemma_eval_type(ss, sc, sd, sh, n);
    lemma_held_counts(ss, sc, sd, sh, 13);
    let ranks = ss | sc | sd | sh;
    let two = two_mask_of(ss, sc, sd, sh);
    let n_ranks = nbits(ranks) as int;
    let nd = n - n_ranks;
    assert forall|i: int| 0 <= i < 13 && #[trigger] has_rank(two, i) implies has_rank(ranks, i)
        && rank_mult(ss, sc, sd, sh, i) == 2 by {
        lemma_rank_mult_bits(ss, sc, sd, sh, i);
        lemma_held_none(ss, sc, sd, sh, 4, 13, i);
    }
    assert forall|i: int| 0 <= i < 13 && #[trigger] rank_mult(ss, sc, sd, sh, i) >= 2 implies has_rank(two, i) by {
        lemma_rank_mult_bits(ss, sc, sd, sh, i);
        lemma_held_none(ss, sc, sd, sh, 3, 13, i);
    }
    if nd == 2 {
        lemma_asc_bounds(two, 13);
        let p1 = bottom_rank(two);
        assert(has_rank(two, p1));
        lemma_remove_rank(two, p1);
        let two1 = two ^ (1u32 << (p1 as u32));
        lemma_top_facts(two1);
        let p2 = top_rank(two1);
        assert(top_nth(two1, 0) == p2);
        assert forall|i: int| 0 <= i < 13 && #[trigger] has_rank(two, i) implies i == p1 || i == p2 by {
            if i != p1 {
                assert(has_rank(two1, i));
                let j = choose|j: int| 0 <= j < nbits(two1) && #[trigger] top_nth(two1, j) == i;
            }
        }
        lemma_xor_sub(ranks, two);
        let k = ranks ^ two;
        lemma_top_facts(k);
        let kicker = top_rank(k);
        assert(top_nth(k, 0) == kicker);
        assert forall|y: int| 0 <= y < 13 && #[trigger] has_rank(ranks, y) && y != p1 && y != p2 implies y <= kicker by {
            assert(has_rank(k, y));
            let j = choose|j: int| 0 <= j < nbits(k) && #[trigger] top_nth(k, j) == y;
            if j > 0 {
                assert(top_nth(k, 0) > top_nth(k, j));
            }
        }
        lemma_pack_fields(2, if p1 > p2 { p1 } else { p2 }, if p1 < p2 { p1 } else { p2 }, kicker, 0, 0);
    } else {
        lemma_top_two_of(two, ranks);
        let top = top_rank(two);
        let second = top_rank(two ^ (1u32 << (top as u32)));
        let kicker = top_rank(ranks ^ (1u32 << (top as u32)) ^ (1u32 << (second as u32)));
        lemma_pack_fields(2, top, second, kicker, 0, 0);
    }
}

/// Of two hands of at least five cards valued two pair with the same two pairs,
/// the one holding an unpaired rank above every unpaired rank of the other has
/// the strictly greater value.
pub proof fn lemma_eval_two_pair_kicker_order(m1: u64, m2: u64, y: int)
    requires
        cards_of(m1).len() >= 5,
        cards_of(m2).len() >= 5,
        eval_mask_value(m1, cards_of(m1).len() as int) / 0x0100_0000 == 2,
        eval_mask_value(m2, cards_of(m2).len() as int) / 0x0100_0000 == 2,
        top_field(eval_mask_value(m1, cards_of(m1).len() as int)) == top_field(eval_mask_value(m2, cards_of(m2).len() as int)),
        second_field(eval_mask_value(m1, cards_of(m1).len() as int)) == second_field(eval_mask_value(m2, cards_of(m2).len() as int)),
        0 <= y < 13,
        has_rank(ranks_of(m1), y),
        y != top_field(eval_mask_value(m1, cards_of(m1).len() as int)),
        y != second_field(eval_mask_value(m1, cards_of(m1).len() as int)),
        forall|z: int| 0 <= z < 13 && #[trigger] has_rank(ranks_of(m2), z)
            && z != top_field(eval_mask_value(m2, cards_of(m2).len() as int))
            && z != second_field(eval_mask_value(m2, cards_of(m2).len() as int)) ==> z < y,
    ensures
        eval_mask_value(m1, cards_of(m1).len() as int) > eval_mask_value(m2, cards_of(m2).len() as int),
{
    lemma_eval_two_pair_kicker(m1);
    lemma_eval_two_pair_kicker(m2);
    let v1 = eval_mask_value(m1, cards_of(m1).len() as int);
    let v2 = eval_mask_value(m2, cards_of(m2).len() as int);
    assert(third_field(v1) >= y);
    assert(has_rank(ranks_of(m2), third_field(v2)));
    assert(third_field(v2) < y);
    assert(v1 - v2 == (third_field(v1) - third_field(v2)) * 0x100);
}


/// A rank held in at least one suit is a rank of the union of the suits.
pub(crate) proof fn lemma_rank_mult_ranks(ss: u32, sc: u32, sd: u32, sh: u32, r: int)
    requires
        0 <= r < 13,
        rank_mult(ss, sc, sd, sh, r) >= 1,
    ensures
        has_rank(ss | sc | sd | sh, r),
{
    lemma_rank_mult_bits(ss, sc, sd, sh, r);
}


/// In a hand of at least five cards valued high card, the five rank fields hold
/// the five highest ranks of the hand, highest first.
pub proof fn lemma_eval_high_card_ranks(m: u64)
    requires
        cards_of(m).len() >= 5,
        eval_mask_value(m, cards_of(m).len() as int) / 0x0100_0000 == 0,
    ensures
        ({
            let v = eval_mask_value(m, cards_of(m).len() as int);
            crate::ranks::highest_five(ranks_of(m), top_field(v), second_field(v), third_field(v), fourth_field(v), fifth_field(v))
        }),
{
    let n = cards_of(m).len() as int;
    let (ss, sc, sd, sh) = (spades_of(m), clubs_of(m), diamonds_of(m), hearts_of(m));
    lemma_type_facts(m);
    lemma_dup_facts(m);
    lemma_eval_type(ss, sc, sd, sh, n);
    let ranks = ss | sc | sd | sh;
    lemma_top_facts(ranks);
    let (a, b, c, d, e) = (top_nth(ranks, 0), top_nth(ranks, 1), top_nth(ranks, 2), top_nth(ranks, 3), top_nth(ranks, 4));
    assert(a > b && b > c && c > d && d > e);
    lemma_pack_fields(0, a, b, c, d, e);
    assert forall|y: int| 0 <= y < 13 && #[trigger] has_rank(ranks, y) && y != a && y != b && y != c && y != d && y != e
        implies y < e by {
        let j = choose|j: int| 0 <= j < nbits(ranks) && #[trigger] top_nth(ranks, j) == y;
        assert(top_nth(ranks, 4) > top_nth(ranks, j));
    }
}

/// In a hand of at least five cards valued three of a kind, the first rank field
/// holds the rank held in three suits and the next two hold the two highest
/// other ranks of the hand, highest first.
pub proof fn lemma_eval_trips_kickers(m: u64)
    requires
        cards_of(m).len() >= 5,
        eval_mask_value(m, cards_of(m).len() as int) / 0x0100_0000 == 3,
    ensures
        ({
            let v = eval_mask_value(m, cards_of(m).len() as int);
            &&& 0 <= top_field(v) < 13 && rank_mult(spades_of(m), clubs_of(m), diamonds_of(m), hearts_of(m), top_field(v)) == 3
            &&& crate::ranks::highest_two_except(ranks_of(m), top_field(v), second_field(v), third_field(v))
            &&& v == pack(3, top_field(v), second_field(v), third_field(v), 0, 0)
        }),
{
    let n = cards_of(m).len() as int;
    let (ss, sc, sd, sh) = (spades_of(m), clubs_of(m), diamonds_of(m), hearts_of(m));
    lemma_type_facts(m);
    lemma_dup_facts(m);
    lemma_eval_type(ss, sc, sd, sh, n);
    lemma_held_counts(ss, sc, sd, sh, 13);
    let ranks = ss | sc | sd | sh;
    let three = three_mask_of(ss, sc, sd, sh);
    lemma_top_facts(three);
    let t = top_rank(three);
    assert(top_nth(three, 0) == t);
    assert forall|i: int| 0 <= i < 13 && #[trigger] has_rank(three, i) implies has_rank(ranks, i) && i == t
        && rank_mult(ss, sc, sd, sh, i) == 3 by {
        lemma_rank_mult_bits(ss, sc, sd, sh, i);
        lemma_held_none(ss, sc, sd, sh, 4, 13, i);
        let j = choose|j: int| 0 <= j < nbits(three) && #[trigger] top_nth(three, j) == i;
    }
    lemma_xor_sub(ranks, three);
    let k = ranks ^ three;
    lemma_top_facts(k);
    let (a, b) = (top_nth(k, 0), top_nth(k, 1));
    assert(a > b);
    assert forall|y: int| 0 <= y < 13 && #[trigger] has_rank(ranks, y) && y != t && y != a && y != b implies y < b by {
        assert(has_rank(k, y));
        let j = choose|j: int| 0 <= j < nbits(k) && #[trigger] top_nth(k, j) == y;
        assert(top_nth(k, 1) > top_nth(k, j));
    }
    lemma_pack_fields(3, t, a, b, 0, 0);
}

/// In a hand of at least five cards valued four of a kind, the first rank field
/// holds the highest rank held in all four suits and the second the highest
/// other rank of the hand.
pub proof fn lemma_eval_quads_kicker(m: u64)
    requires
        cards_of(m).len() >= 5,
        eval_mask_value(m, cards_of(m).len() as int) / 0x0100_0000 == 7,
    ensures
        ({
            let v = eval_mask_value(m, cards_of(m).len() as int);
            let (ss, sc, sd, sh) = (spades_of(m), clubs_of(m), diamonds_of(m), hearts_of(m));
            &&& 0 <= top_field(v) < 13 && rank_mult(ss, sc, sd, sh, top_field(v)) == 4
            &&& forall|y: int| 0 <= y < 13 && #[trigger] rank_mult(ss, sc, sd, sh, y) == 4 ==> y <= top_field(v)
            &&& crate::ranks::highest_except(ranks_of(m), top_field(v), second_field(v))
            &&& v == pack(7, top_field(v), second_field(v), 0, 0, 0)
        }),
{
    let n = cards_of(m).len() as int;
    let (ss, sc, sd, sh) = (spades_of(m), clubs_of(m), diamonds_of(m), hearts_of(m));
    lemma_type_facts(m);
    lemma_dup_facts(m);
    lemma_eval_type(ss, sc, sd, sh, n);
    lemma_held_counts(ss, sc, sd, sh, 13);
    let ranks = ss | sc | sd | sh;
    let four = sh & sd & sc & ss;
    lemma_top_facts(four);
    let q = top_rank(four);
    assert(top_nth(four, 0) == q);
    assert forall|i: int| 0 <= i < 13 implies #[trigger] rank_mult(ss, sc, sd, sh, i) == 4 <==> has_rank(four, i) by {
        lemma_rank_mult_bits(ss, sc, sd, sh, i);
    }
    assert forall|i: int| 0 <= i < 13 && #[trigger] has_rank(four, i) implies i <= q by {
        let j = choose|j: int| 0 <= j < nbits(four) && #[trigger] top_nth(four, j) == i;
        if j > 0 {
            assert(top_nth(four, 0) > top_nth(four, j));
        }
    }
    lemma_rank_mult_bits(ss, sc, sd, sh, q);
    lemma_remove_rank(ranks, q);
    let r1 = ranks ^ (1u32 << (q as u32));
    lemma_top_facts(r1);
    let kicker = top_rank(r1);
    assert(top_nth(r1, 0) == kicker);
    assert forall|y: int| 0 <= y < 13 && #[trigger] has_rank(ranks, y) && y != q implies y <= kicker by {
        assert(has_rank(r1, y));
        let j = choose|j: int| 0 <= j < nbits(r1) && #[trigger] top_nth(r1, j) == y;
        if j > 0 {
            assert(top_nth(r1, 0) > top_nth(r1, j));
        }
    }
    lemma_pack_fields(7, q, kicker, 0, 0, 0);
}


/// In a hand of at least five cards valued full house, the first rank field
/// holds the highest rank held in three suits and the second the highest other
/// rank held in at least two suits.
pub proof fn lemma_eval_full_house_ranks(m: u64)
    requires
        cards_of(m).len() >= 5,
        eval_mask_value(m, cards_of(m).len() as int) / 0x0100_0000 == 6,
    ensures
        ({
            let v = eval_mask_value(m, cards_of(m).len() as int);
            let (ss, sc, sd, sh) = (spades_of(m), clubs_of(m), diamonds_of(m), hearts_of(m));
            &&& 0 <= top_field(v) < 13 && rank_mult(ss, sc, sd, sh, top_field(v)) == 3
            &&& forall|y: int| 0 <= y < 13 && #[trigger] rank_mult(ss, sc, sd, sh, y) >= 3 ==> y <= top_field(v)
            &&& 0 <= second_field(v) < 13 && second_field(v) != top_field(v) && rank_mult(ss, sc, sd, sh, second_field(v)) >= 2
            &&& forall|y: int| 0 <= y < 13 && #[trigger] rank_mult(ss, sc, sd, sh, y) >= 2 && y != top_field(v)
                ==> y <= second_field(v)
            &&& v == pack(6, top_field(v), second_field(v), 0, 0, 0)
        }),
{
    let n = cards_of(m).len() as int;
    let (ss, sc, sd, sh) = (spades_of(m), clubs_of(m), diamonds_of(m), hearts_of(m));
    lemma_type_facts(m);
    lemma_dup_facts(m);
    lemma_eval_type(ss, sc, sd, sh, n);
    lemma_held_counts(ss, sc, sd, sh, 13);
    let two = two_mask_of(ss, sc, sd, sh);
    let three = three_mask_of(ss, sc, sd, sh);
    let pairs = two | three;
    assert forall|i: int| 0 <= i < 13 implies #[trigger] has_rank(three, i) == (rank_mult(ss, sc, sd, sh, i) >= 3) by {
        lemma_rank_mult_bits(ss, sc, sd, sh, i);
    }
    assert forall|i: int| 0 <= i < 13 implies #[trigger] has_rank(two, i) == (rank_mult(ss, sc, sd, sh, i) == 2) by {
        lemma_rank_mult_bits(ss, sc, sd, sh, i);
        lemma_held_none(ss, sc, sd, sh, 4, 13, i);
    }
    assert forall|i: int| 0 <= i < 13 implies #[trigger] has_rank(pairs, i) == (rank_mult(ss, sc, sd, sh, i) >= 2) by {
        lemma_rank_mult_bits(ss, sc, sd, sh, i);
        lemma_held_none(ss, sc, sd, sh, 4, 13, i);
        lemma_bit_and(two, three, i);
    }
    lemma_top_facts(three);
    let t = top_rank(three);
    assert(top_nth(three, 0) == t);
    assert forall|i: int| 0 <= i < 13 && #[trigger] has_rank(three, i) implies i <= t by {
        let j = choose|j: int| 0 <= j < nbits(three) && #[trigger] top_nth(three, j) == i;
        if j > 0 {
            assert(top_nth(three, 0) > top_nth(three, j));
        }
    }
    assert(has_rank(three, t));
    assert(has_rank(pairs, t));
    lemma_remove_rank(pairs, t);
    let rest = pairs ^ (1u32 << (t as u32));
    if nbits(two) >= 1 {
        let y = lemma_rank_exists(two, 13);
        assert(has_rank(rest, y));
        lemma_rank_count_pos(rest, y, 13);
    } else {
        lemma_remove_rank(three, t);
        let y = lemma_rank_exists(three ^ (1u32 << (t as u32)), 13);
        assert(has_rank(three, y) && y != t);
        assert(rank_mult(ss, sc, sd, sh, y) >= 3);
        assert(has_rank(pairs, y));
        assert(has_rank(rest, y));
        lemma_rank_count_pos(rest, y, 13);
    }
    lemma_top_facts(rest);
    let p = top_rank(rest);
    assert(top_nth(rest, 0) == p);
    assert forall|y: int| 0 <= y < 13 && #[trigger] has_rank(pairs, y) && y != t implies y <= p by {
        assert(has_rank(rest, y));
        let j = choose|j: int| 0 <= j < nbits(rest) && #[trigger] top_nth(rest, j) == y;
        if j > 0 {
            assert(top_nth(rest, 0) > top_nth(rest, j));
        }
    }
    lemma_pack_fields(6, t, p, 0, 0, 0);
    assert forall|y: int| 0 <= y < 13 && #[trigger] rank_mult(ss, sc, sd, sh, y) >= 3 implies y <= t by {
        assert(has_rank(three, y));
    }
    assert forall|y: int| 0 <= y < 13 && #[trigger] rank_mult(ss, sc, sd, sh, y) >= 2 && y != t implies y <= p by {
        assert(has_rank(pairs, y));
    }
    assert(has_rank(rest, p));
    assert(has_rank(pairs, p));
    lemma_rank_mult_bits(ss, sc, sd, sh, t);
    lemma_held_none(ss, sc, sd, sh, 4, 13, t);
}


/// The straight found below `t` tops a run of five ranks (or is the wheel, topped
/// by the five), and no run tops out higher up to `t`.
proof fn lemma_straight_below_top(r: u32, t: int)
    requires
        t <= 12,
    ensures
        straight_below(r, t) != 0 ==> (4 <= straight_below(r, t) <= t && has_run(r, straight_below(r, t)))
            || (straight_below(r, t) == 3 && has_wheel(r)),
        forall|u: int| 4 <= u <= t && u > straight_below(r, t) ==> !#[trigger] has_run(r, u),
    decreases t,
{
    if t >= 4 && !has_run(r, t) {
        lemma_straight_below_top(r, t - 1);
    }
}

/// In a hand of at least five cards valued a straight, the first rank field holds
/// the top of the highest run of five ranks of the hand (the five, for the
/// wheel), and the next fields the ranks below it in turn.
pub proof fn lemma_eval_straight_top(m: u64)
    requires
        cards_of(m).len() >= 5,
        eval_mask_value(m, cards_of(m).len() as int) / 0x0100_0000 == 4,
    ensures
        ({
            let v = eval_mask_value(m, cards_of(m).len() as int);
            let t = top_field(v);
            &&& (4 <= t <= 12 && has_run(ranks_of(m), t)) || (t == 3 && has_wheel(ranks_of(m)))
            &&& forall|u: int| t < u <= 12 ==> !#[trigger] has_run(ranks_of(m), u)
            &&& v == pack(4, t, t - 1, t - 2, t - 3, if t >= 4 { t - 4 } else { 0 })
        }),
{
    let n = cards_of(m).len() as int;
    let (ss, sc, sd, sh) = (spades_of(m), clubs_of(m), diamonds_of(m), hearts_of(m));
    lemma_type_facts(m);
    lemma_eval_type(ss, sc, sd, sh, n);
    let ranks = ss | sc | sd | sh;
    lemma_straight_below_top(ranks, 12);
    let t = straight_top(ranks);
    lemma_pack_fields(4, t, t - 1, t - 2, t - 3, if t >= 4 { t - 4 } else { 0 });
}


/// The suit a flush is taken from: the first of spades, clubs, diamonds and
/// hearts holding five ranks or more.
pub open spec fn flush_suit_of(m: u64) -> u32 {
    if nbits(spades_of(m)) >= 5 {
        spades_of(m)
    } else if nbits(clubs_of(m)) >= 5 {
        clubs_of(m)
    } else if nbits(diamonds_of(m)) >= 5 {
        diamonds_of(m)
    } else {
        hearts_of(m)
    }
}

/// In a hand of at least five cards valued a flush or a straight flush, its
/// flush suit holds five ranks or more, a run of five among them exactly for the
/// straight flush, and the five rank fields hold the five highest ranks of that
/// suit, highest first.
pub proof fn lemma_eval_flush_ranks(m: u64)
    requires
        cards_of(m).len() >= 5,
        eval_mask_value(m, cards_of(m).len() as int) / 0x0100_0000 == 5
            || eval_mask_value(m, cards_of(m).len() as int) / 0x0100_0000 == 8,
    ensures
        ({
            let v = eval_mask_value(m, cards_of(m).len() as int);
            let suit = flush_suit_of(m);
            &&& nbits(suit) >= 5
            &&& has_straight(suit) == (v / 0x0100_0000 == 8)
            &&& crate::ranks::highest_five(suit, top_field(v), second_field(v), third_field(v), fourth_field(v), fifth_field(v))
        }),
{
    let n = cards_of(m).len() as int;
    let (ss, sc, sd, sh) = (spades_of(m), clubs_of(m), diamonds_of(m), hearts_of(m));
    lemma_type_facts(m);
    lemma_eval_type(ss, sc, sd, sh, n);
    let suit = flush_suit_of(m);
    lemma_top_facts(suit);
    let (a, b, c, d, e) = (top_nth(suit, 0), top_nth(suit, 1), top_nth(suit, 2), top_nth(suit, 3), top_nth(suit, 4));
    assert(a > b && b > c && c > d && d > e);
    lemma_pack_fields(if straight_top(suit) != 0 { 8 } else { 5 }, a, b, c, d, e);
    assert forall|y: int| 0 <= y < 13 && #[trigger] has_rank(suit, y) && y != a && y != b && y != c && y != d && y != e
        implies y < e by {
        let j = choose|j: int| 0 <= j < nbits(suit) && #[trigger] top_nth(suit, j) == y;
        assert(top_nth(suit, 4) > top_nth(suit, j));
    }
}


/// The two highest ranks of `two` and the highest rank of `ranks` apart from
/// them, when `ranks` holds every rank of `two` and one more.
proof fn lemma_top_two_of(two: u32, ranks: u32)
    requires
        nbits(two) >= 2,
        nbits(ranks) >= 3,
        forall|i: int| 0 <= i < 13 && #[trigger] has_rank(two, i) ==> has_rank(ranks, i),
    ensures
        ({
            let top = top_rank(two);
            let second = top_rank(two ^ (1u32 << (top as u32)));
            let kicker = top_rank(ranks ^ (1u32 << (top as u32)) ^ (1u32 << (second as u32)));
            &&& 13 > top > second >= 0
            &&& has_rank(two, top) && has_rank(two, second)
            &&& forall|y: int| 0 <= y < 13 && #[trigger] has_rank(two, y) && y != top && y != second ==> y < second
            &&& crate::ranks::highest_except_two(ranks, top, second, kicker)
        }),
{
    lemma_top_facts(two);
    let top = top_rank(two);
    assert(top_nth(two, 0) == top);
    lemma_remove_rank(two, top);
    let two1 = two ^ (1u32 << (top as u32));
    lemma_top_facts(two1);
    let second = top_rank(two1);
    assert(top_nth(two1, 0) == second);
    assert(has_rank(two, second));
    assert(top > second) by {
        let j = choose|j: int| 0 <= j < nbits(two) && #[trigger] top_nth(two, j) == second;
        assert(top_nth(two, 0) > top_nth(two, j));
    }
    assert forall|y: int| 0 <= y < 13 && #[trigger] has_rank(two, y) && y != top && y != second implies y < second by {
        assert(has_rank(two1, y));
        let j = choose|j: int| 0 <= j < nbits(two1) && #[trigger] top_nth(two1, j) == y;
        assert(top_nth(two1, 0) > top_nth(two1, j));
    }
    lemma_remove_rank(ranks, top);
    let r1 = ranks ^ (1u32 << (top as u32));
    lemma_remove_rank(r1, second);
    let r2 = r1 ^ (1u32 << (second as u32));
    lemma_top_facts(r2);
    let kicker = top_rank(r2);
    assert(top_nth(r2, 0) == kicker);
    assert forall|y: int| 0 <= y < 13 && #[trigger] has_rank(ranks, y) && y != top && y != second implies y <= kicker by {
        assert(has_rank(r1, y));
        assert(has_rank(r2, y));
        let j = choose|j: int| 0 <= j < nbits(r2) && #[trigger] top_nth(r2, j) == y;
        if j > 0 {
            assert(top_nth(r2, 0) > top_nth(r2, j));
        }
    }
}


/// In a hand of at least five cards valued high card by the deuce-to-seven
/// evaluation, the five rank fields hold the five highest ranks of the hand,
/// highest first.
pub proof fn lemma_lowball27_high_card_ranks(m: u64)
    requires
        cards_of(m).len() >= 5,
        crate::eval_low27::lowball27_mask_value(m, cards_of(m).len() as int) / 0x0100_0000 == 0,
    ensures
        ({
            let v = crate::eval_low27::lowball27_mask_value(m, cards_of(m).len() as int);
            crate::ranks::highest_five(ranks_of(m), top_field(v), second_field(v), third_field(v), fourth_field(v), fifth_field(v))
        }),
{
    let n = cards_of(m).len() as int;
    let (ss, sc, sd, sh) = (spades_of(m), clubs_of(m), diamonds_of(m), hearts_of(m));
    lemma_type_facts(m);
    lemma_dup_facts(m);
    lemma_low27_type(ss, sc, sd, sh, n);
    lemma_rank_masks(ss, sc, sd, sh);
    let ranks = ss | sc | sd | sh;
    lemma_top_facts(ranks);
    let (a, b, c, d, e) = (top_nth(ranks, 0), top_nth(ranks, 1), top_nth(ranks, 2), top_nth(ranks, 3), top_nth(ranks, 4));
    assert(a > b && b > c && c > d && d > e);
    lemma_pack_fields(0, a, b, c, d, e);
    assert forall|y: int| 0 <= y < 13 && #[trigger] has_rank(ranks, y) && y != a && y != b && y != c && y != d && y != e
        implies y < e by {
        let j = choose|j: int| 0 <= j < nbits(ranks) && #[trigger] top_nth(ranks, j) == y;
        assert(top_nth(ranks, 4) > top_nth(ranks, j));
    }
}

/// In a hand of at least five cards valued two pair by the deuce-to-seven
/// evaluation, the first two rank fields hold its two highest paired ranks, each
/// held in exactly two suits, the higher first, and the third holds the highest
/// rank of the hand outside both pairs; the fields below are zero.
pub proof fn lemma_lowball27_two_pair_kicker(m: u64)
    requires
        cards_of(m).len() >= 5,
        crate::eval_low27::lowball27_mask_value(m, cards_of(m).len() as int) / 0x0100_0000 == 2,
    ensures
        ({
            let v = crate::eval_low27::lowball27_mask_value(m, cards_of(m).len() as int);
            let (ss, sc, sd, sh) = (spades_of(m), clubs_of(m), diamonds_of(m), hearts_of(m));
            &&& top_field(v) > second_field(v)
            &&& rank_mult(ss, sc, sd, sh, top_field(v)) == 2
            &&& rank_mult(ss, sc, sd, sh, second_field(v)) == 2
            &&& forall|y: int| 0 <= y < 13 && #[trigger] rank_mult(ss, sc, sd, sh, y) >= 2 && y != top_field(v)
                && y != second_field(v) ==> y < second_field(v)
            &&& crate::ranks::highest_except_two(ranks_of(m), top_field(v), second_field(v), third_field(v))
            &&& v == pack(2, top_field(v), second_field(v), third_field(v), 0, 0)
        }),
{
    let n = cards_of(m).len() as int;
    let (ss, sc, sd, sh) = (spades_of(m), clubs_of(m), diamonds_of(m), hearts_of(m));
    lemma_type_facts(m);
    lemma_dup_facts(m);
    lemma_low27_type(ss, sc, sd, sh, n);
    lemma_rank_masks(ss, sc, sd, sh);
    lemma_held_counts(ss, sc, sd, sh, 13);
    let ranks = ss | sc | sd | sh;
    let two = two_mask_of(ss, sc, sd, sh);
    assert(ranks_held(ss, sc, sd, sh, 3, 13) == 0 && ranks_held(ss, sc, sd, sh, 4, 13) == 0);
    assert forall|i: int| 0 <= i < 13 && #[trigger] has_rank(two, i) implies has_rank(ranks, i)
        && rank_mult(ss, sc, sd, sh, i) == 2 by {
        lemma_rank_mult_bits(ss, sc, sd, sh, i);
        lemma_held_none(ss, sc, sd, sh, 4, 13, i);
    }
    assert forall|i: int| 0 <= i < 13 && #[trigger] rank_mult(ss, sc, sd, sh, i) >= 2 implies has_rank(two, i) by {
        lemma_rank_mult_bits(ss, sc, sd, sh, i);
        lemma_held_none(ss, sc, sd, sh, 3, 13, i);
        lemma_held_none(ss, sc, sd, sh, 4, 13, i);
    }
    lemma_top_two_of(two, ranks);
    let top = top_rank(two);
    let second = top_rank(two ^ (1u32 << (top as u32)));
    let kicker = top_rank(ranks ^ (1u32 << (top as u32)) ^ (1u32 << (second as u32)));
    lemma_pack_fields(2, top, second, kicker, 0, 0);
}


/// In a hand of at least five cards valued four of a kind by the deuce-to-seven
/// evaluation, the first rank field holds the highest rank held in all four
/// suits and the second the highest other rank of the hand.
pub proof fn lemma_lowball27_quads_kicker(m: u64)
    requires
        cards_of(m).len() >= 5,
        crate::eval_low27::lowball27_mask_value(m, cards_of(m).len() as int) / 0x0100_0000 == 7,
    ensures
        ({
            let v = crate::eval_low27::lowball27_mask_value(m, cards_of(m).len() as int);
            let (ss, sc, sd, sh) = (spades_of(m), clubs_of(m), diamonds_of(m), hearts_of(m));
            &&& 0 <= top_field(v) < 13 && rank_mult(ss, sc, sd, sh, top_field(v)) == 4
            &&& forall|y: int| 0 <= y < 13 && #[trigger] rank_mult(ss, sc, sd, sh, y) == 4 ==> y <= top_field(v)
            &&& crate::ranks::highest_except(ranks_of(m), top_field(v), second_field(v))
            &&& v == pack(7, top_field(v), second_field(v), 0, 0, 0)
        }),
{
    let n = cards_of(m).len() as int;
    let (ss, sc, sd, sh) = (spades_of(m), clubs_of(m), diamonds_of(m), hearts_of(m));
    lemma_type_facts(m);
    lemma_dup_facts(m);
    lemma_low27_type(ss, sc, sd, sh, n);
    lemma_rank_masks(ss, sc, sd, sh);
    lemma_held_counts(ss, sc, sd, sh, 13);
    let ranks = ss | sc | sd | sh;
    let four = sh & sd & sc & ss;
    lemma_top_facts(four);
    let q = top_rank(four);
    assert(top_nth(four, 0) == q);
    assert forall|i: int| 0 <= i < 13 implies #[trigger] rank_mult(ss, sc, sd, sh, i) == 4 <==> has_rank(four, i) by {
        lemma_rank_mult_bits(ss, sc, sd, sh, i);
    }
    assert forall|i: int| 0 <= i < 13 && #[trigger] has_rank(four, i) implies i <= q by {
        let j = choose|j: int| 0 <= j < nbits(four) && #[trigger] top_nth(four, j) == i;
        if j > 0 {
            assert(top_nth(four, 0) > top_nth(four, j));
        }
    }
    lemma_rank_mult_bits(ss, sc, sd, sh, q);
    lemma_remove_rank(ranks, q);
    let r1 = ranks ^ (1u32 << (q as u32));
    lemma_top_facts(r1);
    let kicker = top_rank(r1);
    assert(top_nth(r1, 0) == kicker);
    assert forall|y: int| 0 <= y < 13 && #[trigger] has_rank(ranks, y) && y != q implies y <= kicker by {
        assert(has_rank(r1, y));
        let j = choose|j: int| 0 <= j < nbits(r1) && #[trigger] top_nth(r1, j) == y;
        if j > 0 {
            assert(top_nth(r1, 0) > top_nth(r1, j));
        }
    }
    lemma_pack_fields(7, q, kicker, 0, 0, 0);
}

/// In a hand of at least five cards valued a straight by the deuce-to-seven
/// evaluation, the first rank field holds the top of the highest run of five
/// ranks of the hand (the five, for the wheel), and the next fields the ranks
/// below it in turn.
pub proof fn lemma_lowball27_straight_top(m: u64)
    requires
        cards_of(m).len() >= 5,
        crate::eval_low27::lowball27_mask_value(m, cards_of(m).len() as int) / 0x0100_0000 == 4,
    ensures
        ({
            let v = crate::eval_low27::lowball27_mask_value(m, cards_of(m).len() as int);
            let t = top_field(v);
            &&& (4 <= t <= 12 && has_run(ranks_of(m), t)) || (t == 3 && has_wheel(ranks_of(m)))
            &&& forall|u: int| t < u <= 12 ==> !#[trigger] has_run(ranks_of(m), u)
            &&& v == pack(4, t, t - 1, t - 2, t - 3, if t >= 4 { t - 4 } else { 0 })
        }),
{
    let n = cards_of(m).len() as int;
    let (ss, sc, sd, sh) = (spades_of(m), clubs_of(m), diamonds_of(m), hearts_of(m));
    lemma_type_facts(m);
    lemma_low27_type(ss, sc, sd, sh, n);
    lemma_rank_masks(ss, sc, sd, sh);
    let ranks = ss | sc | sd | sh;
    lemma_straight_below_top(ranks, 12);
    let t = straight_top(ranks);
    lemma_pack_fields(4, t, t - 1, t - 2, t - 3, if t >= 4 { t - 4 } else { 0 });
}

} // verus!

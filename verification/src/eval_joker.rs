//! High-hand evaluation for the joker deck: the joker stands for an ace
//! (making five aces when all four are present).
use vstd::prelude::*;
use crate::deck::joker::{joker_clubs_of, joker_diamonds_of, joker_hearts_of, joker_spades_of, joker_to_std};
use crate::eval::{Eval, dup_count, eval_mask_value, hand_rank_count, top_nth, two_mask_of, three_mask_of};
use crate::handval::{HandVal, pack, lemma_pack_fields, top_field, second_field, third_field, fourth_field};
use crate::ranks::{
    asc_below, desc_five, has_rank, joker_straight_card, lemma_count_or_le, lemma_nbits_single, n_bits, nbits,
    top_card, top_rank,
};
use crate::bits::lemma_rank_masks;
use crate::tables::{JokerDeckCardMask, joker_card_in, joker_cards_below};

verus! {

/// Hand type number of five of a kind, which only the joker deck allows.
pub const JOKER_HAND_QUINTS: u8 = 9;

/// The ace bit of a rank mask.
pub open spec fn ace_bit() -> u32 {
    1u32 << 12u32
}

/// The suits after the joker is added as an ace to the first suit (spades, clubs,
/// diamonds, hearts) lacking one; `None` when all four aces are present.
pub open spec fn add_joker_ace(ss: u32, sc: u32, sd: u32, sh: u32) -> Option<(u32, u32, u32, u32)> {
    if ss & ace_bit() == 0 {
        Some((ss | ace_bit(), sc, sd, sh))
    } else if sc & ace_bit() == 0 {
        Some((ss, sc | ace_bit(), sd, sh))
    } else if sd & ace_bit() == 0 {
        Some((ss, sc, sd | ace_bit(), sh))
    } else if sh & ace_bit() == 0 {
        Some((ss, sc, sd, sh | ace_bit()))
    } else {
        None
    }
}

/// The value of a joker hand whose suits (the joker's ace included) hold `ss`,
/// `sc`, `sd`, `sh`, from its count of duplicated cards.
pub open spec fn joker_dups_value(ss: u32, sc: u32, sd: u32, sh: u32, n_dups: int) -> int {
    let ranks = ss | sc | sd | sh;
    let two = two_mask_of(ss, sc, sd, sh);
    let three = three_mask_of(ss, sc, sd, sh);
    if n_dups == 0 {
        pack(0, top_nth(ranks, 0), top_nth(ranks, 1), top_nth(ranks, 2), top_nth(ranks, 3), top_nth(ranks, 4))
    } else if n_dups == 1 {
        let t = ranks ^ two;
        pack(1, top_rank(two), top_nth(t, 0), top_nth(t, 1), top_nth(t, 2), 0)
    } else if n_dups == 2 {
        if two != 0 {
            let tp = top_rank(two);
            let sp = top_rank(ranks ^ two);
            pack(2, tp, sp, top_rank(ranks ^ (1u32 << (tp as u32)) ^ (1u32 << (sp as u32))), 0, 0)
        } else {
            let tc = top_rank(three);
            let rem = ranks ^ three;
            let s = top_rank(rem);
            pack(3, tc, s, top_rank(rem ^ (1u32 << (s as u32))), 0, 0)
        }
    } else {
        let four = sh & sd & sc & ss;
        if four != 0 {
            let tc = top_rank(four);
            pack(7, tc, top_rank(ranks ^ (1u32 << (tc as u32))), 0, 0, 0)
        } else if nbits(two) != n_dups {
            let tc = top_rank(three);
            pack(6, tc, top_rank((two | three) ^ (1u32 << (tc as u32))), 0, 0, 0)
        } else {
            0
        }
    }
}

/// The four suits of the joker-deck mask `m`, as 13-bit rank masks.
pub open spec fn joker_suits(m: u64) -> (u32, u32, u32, u32) {
    (
        joker_spades_of(m) as u32,
        joker_clubs_of(m) as u32,
        joker_diamonds_of(m) as u32,
        joker_hearts_of(m) as u32,
    )
}

/// The number of ranks `EvalJoker::eval_n` subtracts from the card count: the
/// ranks of the standard cards, plus the joker's ace when it is used as one.
pub open spec fn joker_rank_count(m: u64) -> nat {
    let (ss, sc, sd, sh) = joker_suits(m);
    if !joker_card_in(m, 52) {
        hand_rank_count(joker_to_std(m))
    } else {
        match add_joker_ace(ss, sc, sd, sh) {
            None => 0,
            Some((a, b, c, d)) => nbits(a | b | c | d),
        }
    }
}

/// The value of the joker-deck hand `m` of `n_cards` cards: without the joker, the
/// standard value; with it, five aces when all four aces are present, else the
/// value of the hand where the joker is an ace (see `add_joker_ace`).
pub open spec fn joker_eval_value(m: u64, n_cards: int) -> int {
    let (ss, sc, sd, sh) = joker_suits(m);
    if !joker_card_in(m, 52) {
        eval_mask_value(joker_to_std(m), n_cards)
    } else {
        match add_joker_ace(ss, sc, sd, sh) {
            None => pack(9, 12, 0, 0, 0, 0),
            Some((a, b, c, d)) => joker_dups_value(a, b, c, d, dup_count(n_cards, nbits(a | b | c | d) as int)),
        }
    }
}

/// The highest rank missing from `ranks` (0 when every rank above the deuce is present).
fn top_unset(ranks: u32) -> (t: u32)
    ensures
        t < 13,
        t > 0 ==> !has_rank(ranks, t as int),
        forall|k: int| t < k < 13 ==> has_rank(ranks, k),
        t == 0 ==> forall|k: int| 0 < k < 13 ==> has_rank(ranks, k),
{
    let mut j: u32 = 13;
    while j > 0
        invariant
            j <= 13,
            forall|k: int| j <= k < 13 ==> has_rank(ranks, k),
        decreases j,
    {
        j = j - 1;
        if (ranks >> j) & 1 == 0 {
            return j;
        }
        assert((ranks >> j) & 1 != 0 ==> (ranks >> j) & 1u32 == 1u32) by (bit_vector);
        assert(has_rank(ranks, j as int));
    }
    0
}

/// A flush whose top rank is the highest rank the suit lacks.
fn flush_val(ranks: u32) -> (h: HandVal)
    ensures
        exists|t: u32| t < 13 && h.value == pack(5, t as int, 0, 0, 0, 0),
{
    let t = top_unset(ranks);
    HandVal::new(5, t as u8, 0, 0, 0, 0)
}

proof fn lemma_or_ace(x: u32)
    requires
        x < 0x2000,
    ensures
        x | (1u32 << 12u32) < 0x2000,
{
    assert(x | (1u32 << 12u32) < 0x2000) by (bit_vector)
        requires x < 0x2000u32;
}

/// High-hand evaluator for the joker deck.
pub struct EvalJoker;

impl EvalJoker {
    /// The five highest ranks of `suit_mask`, highest first, padded with zeros.
    pub fn extract_top_five_cards(suit_mask: u16) -> (t: (u8, u8, u8, u8, u8))
        ensures
            t.0 == top_nth(suit_mask as u32, 0),
            t.1 == top_nth(suit_mask as u32, 1),
            t.2 == top_nth(suit_mask as u32, 2),
            t.3 == top_nth(suit_mask as u32, 3),
            t.4 == top_nth(suit_mask as u32, 4),
            t.0 < 13 && t.1 < 13 && t.2 < 13 && t.3 < 13 && t.4 < 13,
    {
        let c = desc_five(suit_mask as u32);
        (c[0] as u8, c[1] as u8, c[2] as u8, c[3] as u8, c[4] as u8)
    }

    /// The `n` (at most three) highest ranks of the 13-bit rank mask `mask`,
    /// highest first, padded with zeros.
    pub fn extract_top_kickers(mask: u64, n: usize) -> (k: [u8; 3])
        requires
            mask < 0x2000,
        ensures
            forall|j: int| 0 <= j < 3 ==> k[j] == if j < n {
                top_nth(mask as u32, j)
            } else {
                0
            },
            k[0] < 13 && k[1] < 13 && k[2] < 13,
    {
        let c = desc_five(mask as u32);
        let mut k: [u8; 3] = [0; 3];
        if n > 0 {
            k[0] = c[0] as u8;
        }
        if n > 1 {
            k[1] = c[1] as u8;
        }
        if n > 2 {
            k[2] = c[2] as u8;
        }
        k
    }

    fn joker_dups_hand(ss: u32, sc: u32, sd: u32, sh: u32, n_dups: usize) -> (h: HandVal)
        requires
            ss < 0x2000,
            sc < 0x2000,
            sd < 0x2000,
            sh < 0x2000,
        ensures
            h.value == joker_dups_value(ss, sc, sd, sh, n_dups as int),
    {
        let ranks = ss | sc | sd | sh;
        proof {
            lemma_rank_masks(ss, sc, sd, sh);
        }
        let two_mask = ranks ^ (sc ^ sd ^ sh ^ ss);
        if n_dups == 0 {
            let (top, second, third, fourth, fifth) = Self::extract_top_five_cards(ranks as u16);
            proof {
                assert((ranks as u16) as u32 == ranks);
            }
            HandVal::new(0, top, second, third, fourth, fifth)
        } else if n_dups == 1 {
            let pair_top_card = top_card(two_mask);
            let t = ranks ^ two_mask;
            proof {
                assert(t < 0x2000);
            }
            let kickers = Self::extract_top_kickers(t as u64, 3);
            proof {
                assert((t as u64) as u32 == t);
            }
            HandVal::new(1, pair_top_card as u8, kickers[0], kickers[1], kickers[2], 0)
        } else if n_dups == 2 {
            if two_mask != 0 {
                let top_pair = top_card(two_mask);
                let t = ranks ^ two_mask;
                let second_pair = top_card(t);
                let kicker = top_card(ranks ^ (1u32 << top_pair) ^ (1u32 << second_pair));
                HandVal::new(2, top_pair as u8, second_pair as u8, kicker as u8, 0, 0)
            } else {
                let three_mask = ((sc & sd) | (sh & ss)) & ((sc & sh) | (sd & ss));
                let trip_card = top_card(three_mask);
                let remaining_mask = ranks ^ three_mask;
                let second = top_card(remaining_mask);
                let third = top_card(remaining_mask ^ (1u32 << second));
                HandVal::new(3, trip_card as u8, second as u8, third as u8, 0, 0)
            }
        } else {
            let four_mask = sh & sd & sc & ss;
            if four_mask != 0 {
                let tc = top_card(four_mask);
                return HandVal::new(7, tc as u8, top_card(ranks ^ (1u32 << tc)) as u8, 0, 0, 0);
            }
            let three_mask = ((sc & sd) | (sh & ss)) & ((sc & sh) | (sd & ss));
            if n_bits(two_mask) as usize != n_dups {
                let tc = top_card(three_mask);
                let remaining = (two_mask | three_mask) ^ (1u32 << tc);
                HandVal::new(6, tc as u8, top_card(remaining) as u8, 0, 0, 0)
            } else {
                HandVal::new(0, 0, 0, 0, 0, 0)
            }
        }
    }

    /// Evaluates the joker-deck hand `cards` of `n_cards` cards (see `joker_eval_value`).
    pub fn eval_n(cards: JokerDeckCardMask, n_cards: usize) -> (h: HandVal)
        ensures
            h.value == joker_eval_value(cards.cards_n, n_cards as int),
    {
        if !cards.is_joker_set() {
            let s_cards = cards.to_std();
            return Eval::eval_n(&s_cards, n_cards);
        }
        let mut ss = cards.spades() as u32;
        let mut sc = cards.clubs() as u32;
        let mut sd = cards.diamonds() as u32;
        let mut sh = cards.hearts() as u32;
        let ranks = ss | sc | sd | sh;
        let _n_ranks = n_bits(ranks);
        // A suit of four ranks or more is looked at for a straight flush or a
        // flush; this value is not what the evaluation returns.
        let mut _retval = HandVal::new(0, 0, 0, 0, 0, 0);
        if n_bits(ss) >= 4 {
            let straight = joker_straight_card(ss);
            _retval = if straight != 0 {
                HandVal::new(8, straight as u8, 0, 0, 0, 0)
            } else {
                flush_val(ss)
            };
        } else if n_bits(sc) >= 4 {
            let straight = joker_straight_card(ss);
            _retval = if straight != 0 {
                HandVal::new(8, straight as u8, 0, 0, 0, 0)
            } else {
                flush_val(sc)
            };
        } else if n_bits(sd) >= 4 {
            let straight = joker_straight_card(ss);
            _retval = if straight != 0 {
                HandVal::new(8, straight as u8, 0, 0, 0, 0)
            } else {
                flush_val(sd)
            };
        } else if n_bits(sh) >= 4 {
            let straight = joker_straight_card(ss);
            _retval = if straight != 0 {
                HandVal::new(8, straight as u8, 0, 0, 0, 0)
            } else {
                flush_val(sh)
            };
        } else {
            let straight = joker_straight_card(ranks);
            if straight != 0 {
                _retval = HandVal::new(4, straight as u8, 0, 0, 0, 0);
            }
        }
        let jrank: u32 = 1u32 << 12;
        proof {
            lemma_or_ace(ss);
            lemma_or_ace(sc);
            lemma_or_ace(sd);
            lemma_or_ace(sh);
        }
        if ss & jrank == 0 {
            ss = ss | jrank;
        } else if sc & jrank == 0 {
            sc = sc | jrank;
        } else if sd & jrank == 0 {
            sd = sd | jrank;
        } else if sh & jrank == 0 {
            sh = sh | jrank;
        } else {
            return HandVal::new(JOKER_HAND_QUINTS, 12, 0, 0, 0, 0);
        }
        let ranks = ss | sc | sd | sh;
        let n_ranks = n_bits(ranks);
        let n_dups = n_cards.wrapping_sub(n_ranks as usize);
        Self::joker_dups_hand(ss, sc, sd, sh, n_dups)
    }
}

proof fn lemma_joker_field_bit(m: u64, b: u64, r: u64)
    by (bit_vector)
    requires
        r < 13,
        b <= 39,
    ensures
        ((((((m >> b) & 0x1FFF) as u32) >> (r as u32)) & 1u32) == 1u32) == (((m >> (b + r)) & 1u64) == 1u64),
{
}

proof fn lemma_joker_to_std_fields(m: u64)
    by (bit_vector)
    ensures
        ((joker_to_std(m) & 0x1FFF) as u16) as u32 == ((m >> 39u64) & 0x1FFF) as u32,
        (((joker_to_std(m) >> 16u64) & 0x1FFF) as u16) as u32 == ((m >> 26u64) & 0x1FFF) as u32,
        (((joker_to_std(m) >> 32u64) & 0x1FFF) as u16) as u32 == ((m >> 13u64) & 0x1FFF) as u32,
        (((joker_to_std(m) >> 48u64) & 0x1FFF) as u16) as u32 == (m & 0x1FFF) as u32,
        m >> 0u64 == m,
{
}

proof fn lemma_joker_block(m: u64, base: int, suit: u32, k: int)
    requires
        0 <= k <= 13,
        0 <= base <= 39,
        forall|r: int| 0 <= r < 13 ==> has_rank(suit, r) == joker_card_in(m, base + r),
    ensures
        joker_cards_below(m, base + k).len() == joker_cards_below(m, base).len() + asc_below(suit, k).len(),
    decreases k,
{
    if k > 0 {
        lemma_joker_block(m, base, suit, k - 1);
    }
}

proof fn lemma_joker_suit(m: u64, base: u64, suit: u32)
    requires
        base <= 39,
        suit == ((m >> base) & 0x1FFF) as u32,
    ensures
        forall|r: int| 0 <= r < 13 ==> has_rank(suit, r) == joker_card_in(m, base + r),
{
    assert forall|r: int| 0 <= r < 13 implies has_rank(suit, r) == joker_card_in(m, base + r) by {
        lemma_joker_field_bit(m, base, r as u64);
    }
}

/// A joker-deck hand counts at least as many cards as the ranks that
/// `EvalJoker::eval_n` subtracts from the card count.
pub proof fn lemma_joker_rank_count(m: u64)
    ensures
        joker_rank_count(m) <= joker_cards_below(m, 53).len(),
{
    let (ss, sc, sd, sh) = joker_suits(m);
    lemma_joker_to_std_fields(m);
    lemma_joker_suit(m, 0, sd);
    lemma_joker_suit(m, 13, sc);
    lemma_joker_suit(m, 26, sh);
    lemma_joker_suit(m, 39, ss);
    lemma_joker_block(m, 0, sd, 13);
    lemma_joker_block(m, 13, sc, 13);
    lemma_joker_block(m, 26, sh, 13);
    lemma_joker_block(m, 39, ss, 13);
    assert(joker_cards_below(m, 0).len() == 0);
    let total = nbits(ss) + nbits(sc) + nbits(sd) + nbits(sh);
    assert(joker_cards_below(m, 52).len() == total);
    assert(joker_cards_below(m, 53).len() >= joker_cards_below(m, 52).len());
    lemma_count_or_le(ss, sc, 13);
    lemma_count_or_le(ss | sc, sd, 13);
    lemma_count_or_le(ss | sc | sd, sh, 13);
    let sm = joker_to_std(m);
    assert(crate::eval::ranks_of(sm) == ss | sc | sd | sh) by {
        assert(ss | sh | sc | sd == ss | sc | sd | sh) by (bit_vector);
    }
    if joker_card_in(m, 52) {
        assert(joker_cards_below(m, 53).len() == total + 1);
        lemma_nbits_single(12);
        let a = 1u32 << 12u32;
        lemma_count_or_le(ss | sc | sd | sh, a, 13);
        assert((ss | a) | sc | sd | sh == (ss | sc | sd | sh) | a && ss | (sc | a) | sd | sh == (ss | sc | sd | sh) | a
            && ss | sc | (sd | a) | sh == (ss | sc | sd | sh) | a && ss | sc | sd | (sh | a) == (ss | sc | sd | sh) | a)
            by (bit_vector);
    }
}


/// The ranks of the joker-deck hand `m`: those of its standard cards, and the
/// ace when it holds the joker.
pub open spec fn joker_ranks(m: u64) -> u32 {
    let (ss, sc, sd, sh) = joker_suits(m);
    if joker_card_in(m, 52) {
        (ss | sc | sd | sh) | ace_bit()
    } else {
        ss | sc | sd | sh
    }
}

/// How many cards of rank `r` the joker-deck hand `m` holds, the joker counting
/// as an ace.
pub open spec fn joker_rank_mult(m: u64, r: int) -> int {
    let (ss, sc, sd, sh) = joker_suits(m);
    crate::eval::rank_mult(ss, sc, sd, sh, r) + if joker_card_in(m, 52) && r == 12 { 1int } else { 0int }
}

/// A joker-deck hand counts the cards of its four suits, and one more for the joker.
proof fn lemma_joker_total(m: u64)
    ensures
        ({
            let (ss, sc, sd, sh) = joker_suits(m);
            &&& joker_cards_below(m, 53).len() == nbits(ss) + nbits(sc) + nbits(sd) + nbits(sh)
                + if joker_card_in(m, 52) { 1int } else { 0int }
            &&& ss < 0x2000 && sc < 0x2000 && sd < 0x2000 && sh < 0x2000
        }),
{
    let (ss, sc, sd, sh) = joker_suits(m);
    crate::bits::lemma_suit_fields(m);
    lemma_joker_to_std_fields(m);
    lemma_joker_suit(m, 0, sd);
    lemma_joker_suit(m, 13, sc);
    lemma_joker_suit(m, 26, sh);
    lemma_joker_suit(m, 39, ss);
    lemma_joker_block(m, 0, sd, 13);
    lemma_joker_block(m, 13, sc, 13);
    lemma_joker_block(m, 26, sh, 13);
    lemma_joker_block(m, 39, ss, 13);
    assert(joker_cards_below(m, 0).len() == 0);
    let total = nbits(ss) + nbits(sc) + nbits(sd) + nbits(sh);
    assert(joker_cards_below(m, 52).len() == total);
}

/// Adding the ace to a suit that lacks it adds one rank.
proof fn lemma_add_ace(x: u32)
    requires
        x & ace_bit() == 0,
    ensures
        !has_rank(x, 12),
        nbits(x | ace_bit()) == nbits(x) + 1,
        forall|i: int| 0 <= i < 13 ==> #[trigger] has_rank(x | ace_bit(), i) == (has_rank(x, i) || i == 12),
{
    let a = ace_bit();
    assert forall|i: int| 0 <= i < 13 implies #[trigger] has_rank(a, i) == (i == 12) by {
        crate::ranks::lemma_bit_single(12u32, i);
    }
    crate::ranks::lemma_bit_and(x, a, 12);
    if has_rank(x, 12) {
        crate::ranks::lemma_asc_complete(0u32, 13, 12);
        crate::eval_low::lemma_zero_empty(13);
    }
    assert forall|i: int| 0 <= i < 13 implies #[trigger] has_rank(x | a, i) == (has_rank(x, i) || i == 12) by {
        crate::ranks::lemma_bit_and(x, a, i);
    }
    crate::eval::lemma_xor_sub(x | a, a);
    assert forall|i: int| 0 <= i < 13 implies #[trigger] has_rank((x | a) ^ a, i) == has_rank(x, i) by {}
    crate::ranks::lemma_count_same((x | a) ^ a, x, 13);
    lemma_nbits_single(12);
}

/// The joker hand valued from its duplicates is one pair only for one duplicated card.
proof fn lemma_joker_dups_one_pair(ss: u32, sc: u32, sd: u32, sh: u32, n_dups: int)
    requires
        joker_dups_value(ss, sc, sd, sh, n_dups) / 0x0100_0000 == 1,
    ensures
        n_dups == 1,
{
    let ranks = ss | sc | sd | sh;
    let two = two_mask_of(ss, sc, sd, sh);
    let three = three_mask_of(ss, sc, sd, sh);
    assert forall|r: u32, j: int| 0 <= #[trigger] top_nth(r, j) < 13 by {
        crate::eval::lemma_top_nth_bound(r, j);
    }
    assert forall|r: u32| 0 <= #[trigger] top_rank(r) < 13 by {
        crate::eval::lemma_top_nth_bound(r, 0);
    }
    if n_dups == 0 {
        crate::eval::lemma_pack_type(0, top_nth(ranks, 0), top_nth(ranks, 1), top_nth(ranks, 2), top_nth(ranks, 3), top_nth(ranks, 4));
    } else if n_dups == 2 {
        if two != 0 {
            let tp = top_rank(two);
            let sp = top_rank(ranks ^ two);
            crate::eval::lemma_pack_type(2, tp, sp, top_rank(ranks ^ (1u32 << (tp as u32)) ^ (1u32 << (sp as u32))), 0, 0);
        } else {
            let tc = top_rank(three);
            let rem = ranks ^ three;
            let s = top_rank(rem);
            crate::eval::lemma_pack_type(3, tc, s, top_rank(rem ^ (1u32 << (s as u32))), 0, 0);
        }
    } else if n_dups != 1 {
        let four = sh & sd & sc & ss;
        if four != 0 {
            let tc = top_rank(four);
            crate::eval::lemma_pack_type(7, tc, top_rank(ranks ^ (1u32 << (tc as u32))), 0, 0, 0);
        } else if nbits(two) != n_dups {
            let tc = top_rank(three);
            crate::eval::lemma_pack_type(6, tc, top_rank((two | three) ^ (1u32 << (tc as u32))), 0, 0, 0);
        }
    }
}

/// In a joker-deck hand of at least five cards valued one pair (the joker
/// counting as an ace), the pair's field holds the rank the hand holds twice,
/// and the three kicker fields hold its three highest other ranks, highest first.
pub proof fn lemma_joker_one_pair_kickers(m: u64)
    requires
        joker_cards_below(m, 53).len() >= 5,
        joker_eval_value(m, joker_cards_below(m, 53).len() as int) / 0x0100_0000 == 1,
    ensures
        ({
            let v = joker_eval_value(m, joker_cards_below(m, 53).len() as int);
            &&& has_rank(joker_ranks(m), top_field(v))
            &&& joker_rank_mult(m, top_field(v)) == 2
            &&& crate::ranks::highest_three_except(joker_ranks(m), top_field(v), second_field(v), third_field(v), fourth_field(v))
            &&& v == pack(1, top_field(v), second_field(v), third_field(v), fourth_field(v), 0)
        }),
{
    let n = joker_cards_below(m, 53).len() as int;
    let (ss, sc, sd, sh) = joker_suits(m);
    lemma_joker_total(m);
    if !joker_card_in(m, 52) {
        let sm = joker_to_std(m);
        lemma_joker_to_std_fields(m);
        crate::eval::lemma_cards_count(sm);
        crate::eval::lemma_eval_one_pair_kickers(sm);
        let v = eval_mask_value(sm, n);
        let p = top_field(v);
        crate::eval::lemma_rank_mult_ranks(crate::eval::spades_of(sm), crate::eval::clubs_of(sm), crate::eval::diamonds_of(sm), crate::eval::hearts_of(sm), p);
        let rs = crate::eval::ranks_of(sm);
        let (xs, xc, xd, xh) = (crate::eval::spades_of(sm), crate::eval::clubs_of(sm), crate::eval::diamonds_of(sm), crate::eval::hearts_of(sm));
        assert forall|i: int| 0 <= i < 13 implies #[trigger] has_rank(rs, i) == has_rank(joker_ranks(m), i) by {
            crate::ranks::lemma_bit_and(xs | xc | xd, xh, i);
            crate::ranks::lemma_bit_and(xs | xc, xd, i);
            crate::ranks::lemma_bit_and(xs, xc, i);
            crate::ranks::lemma_bit_and(ss | sc | sd, sh, i);
            crate::ranks::lemma_bit_and(ss | sc, sd, i);
            crate::ranks::lemma_bit_and(ss, sc, i);
        }
        crate::ranks::lemma_highest_three_same(rs, joker_ranks(m), p, second_field(v), third_field(v), fourth_field(v));
        assert(v == joker_eval_value(m, n));
    } else {
        let (a, b, c, d) = add_joker_ace(ss, sc, sd, sh).unwrap();
        if ss & ace_bit() == 0 {
            lemma_add_ace(ss);
        } else if sc & ace_bit() == 0 {
            lemma_add_ace(sc);
        } else if sd & ace_bit() == 0 {
            lemma_add_ace(sd);
        } else {
            lemma_add_ace(sh);
        }
        let r = a | b | c | d;
        assert forall|i: int| 0 <= i < 13 implies #[trigger] has_rank(r, i) == has_rank(joker_ranks(m), i) by {
            crate::ranks::lemma_bit_and(a | b | c, d, i);
            crate::ranks::lemma_bit_and(a | b, c, i);
            crate::ranks::lemma_bit_and(a, b, i);
            crate::ranks::lemma_bit_and(ss | sc | sd, sh, i);
            crate::ranks::lemma_bit_and(ss | sc, sd, i);
            crate::ranks::lemma_bit_and(ss, sc, i);
            crate::ranks::lemma_bit_and(ss | sc | sd | sh, ace_bit(), i);
            crate::ranks::lemma_bit_single(12u32, i);
        }
        crate::eval::lemma_held_counts(a, b, c, d, 13);
        let nd = dup_count(n, nbits(r) as int);
        lemma_joker_dups_one_pair(a, b, c, d, nd);
        let two = two_mask_of(a, b, c, d);
        let k = r ^ two;
        crate::eval::lemma_one_pair_core(a, b, c, d);
        crate::eval::lemma_top_nth_bound(two, 0);
        crate::eval::lemma_top_nth_bound(k, 0);
        crate::eval::lemma_top_nth_bound(k, 1);
        crate::eval::lemma_top_nth_bound(k, 2);
        lemma_pack_fields(1, top_rank(two), top_nth(k, 0), top_nth(k, 1), top_nth(k, 2), 0);
        crate::eval::lemma_rank_mult_ranks(a, b, c, d, top_rank(two));
        crate::ranks::lemma_highest_three_same(r, joker_ranks(m), top_rank(two), top_nth(k, 0), top_nth(k, 1), top_nth(k, 2));
        assert(joker_eval_value(m, n) == joker_dups_value(a, b, c, d, nd));
        assert(has_rank(r, top_rank(two)));
    }
}


/// Of two joker-deck hands of at least five cards valued one pair with the same
/// pair, the one holding a rank outside its pair above every rank of the other
/// outside its pair has the strictly greater value.
pub proof fn lemma_joker_one_pair_order(m1: u64, m2: u64, y: int)
    requires
        joker_cards_below(m1, 53).len() >= 5,
        joker_cards_below(m2, 53).len() >= 5,
        joker_eval_value(m1, joker_cards_below(m1, 53).len() as int) / 0x0100_0000 == 1,
        joker_eval_value(m2, joker_cards_below(m2, 53).len() as int) / 0x0100_0000 == 1,
        top_field(joker_eval_value(m1, joker_cards_below(m1, 53).len() as int)) == top_field(
            joker_eval_value(m2, joker_cards_below(m2, 53).len() as int),
        ),
        0 <= y < 13,
        has_rank(joker_ranks(m1), y),
        y != top_field(joker_eval_value(m1, joker_cards_below(m1, 53).len() as int)),
        forall|z: int| 0 <= z < 13 && #[trigger] has_rank(joker_ranks(m2), z)
            && z != top_field(joker_eval_value(m2, joker_cards_below(m2, 53).len() as int)) ==> z < y,
    ensures
        joker_eval_value(m1, joker_cards_below(m1, 53).len() as int) > joker_eval_value(
            m2,
            joker_cards_below(m2, 53).len() as int,
        ),
{
    lemma_joker_one_pair_kickers(m1);
    lemma_joker_one_pair_kickers(m2);
    let v1 = joker_eval_value(m1, joker_cards_below(m1, 53).len() as int);
    let v2 = joker_eval_value(m2, joker_cards_below(m2, 53).len() as int);
    assert(second_field(v1) >= y);
    assert(has_rank(joker_ranks(m2), second_field(v2)));
    assert(second_field(v2) < y);
}

} // verus!

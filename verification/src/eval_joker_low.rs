//! Ace-to-five low evaluation for the joker deck: the joker stands for the lowest
//! rank the hand lacks.
use vstd::prelude::*;
use crate::deck::joker::{joker_to_std, JOKER_DECK_JOKER};
use crate::eval_low::{std_deck_lowball_eval, lowball_mask_value, low_rank_count};
use crate::handval::LowHandVal;
use crate::tables::{JokerDeckCardMask, joker_card_in};

verus! {

/// The bit of the lowest rank from `r` up to the king missing from `ranks`, or 0.
pub open spec fn lowest_missing_from(ranks: u64, r: int) -> u64
    decreases 12 - r,
{
    if r >= 12 || r < 0 {
        0
    } else if ranks & (1u64 << (r as u64)) == 0 {
        1u64 << (r as u64)
    } else {
        lowest_missing_from(ranks, r + 1)
    }
}

/// The rank bit the joker takes in a low hand with ranks `ranks`: the ace when
/// missing, else the lowest missing rank from the deuce up, or 0 when none is.
pub open spec fn joker_low_rank(ranks: u64) -> u64 {
    if ranks & (1u64 << 12u64) == 0 {
        1u64 << 12u64
    } else {
        lowest_missing_from(ranks, 0)
    }
}

/// The standard-deck hand that the joker-deck hand `m` (holding the joker)
/// stands for in a low evaluation: the joker's rank is added to the first suit
/// (clubs, diamonds, hearts, spades) lacking it.
pub open spec fn joker_low_std(m: u64) -> u64 {
    let s = joker_to_std(m);
    let (ss, sc, sd, sh) = (s & 0x1FFF, (s >> 16u64) & 0x1FFF, (s >> 32u64) & 0x1FFF, (s >> 48u64) & 0x1FFF);
    let rank = joker_low_rank(ss | sc | sd | sh);
    if sc & rank == 0 {
        s | (rank << 16u64)
    } else if sd & rank == 0 {
        s | (rank << 32u64)
    } else if sh & rank == 0 {
        s | (rank << 48u64)
    } else if ss & rank == 0 {
        s | rank
    } else {
        s
    }
}

/// The standard-deck hand evaluated for the low of the joker-deck hand `m`.
pub open spec fn joker_low_hand(m: u64) -> u64 {
    if joker_card_in(m, 52) {
        joker_low_std(m)
    } else {
        joker_to_std(m)
    }
}

proof fn lemma_lowest_missing(ranks: u64, r: int)
    requires
        0 <= r <= 12,
    ensures
        lowest_missing_from(ranks, r) <= 0x800,
    decreases 12 - r,
{
    if r < 12 {
        if ranks & (1u64 << (r as u64)) != 0 {
            lemma_lowest_missing(ranks, r + 1);
        } else {
            let ru = r as u64;
            assert(1u64 << ru <= 0x800) by (bit_vector)
                requires ru < 12u64;
        }
    }
}

proof fn lemma_std_layout(sp: u64, c: u64, d: u64, h: u64)
    by (bit_vector)
    ensures
        (sp | (c << 16u64) | (d << 32u64) | (h << 48u64)) & (c << 16u64) == c << 16u64,
        (sp | (c << 16u64) | (d << 32u64) | (h << 48u64)) & (d << 32u64) == d << 32u64,
        (sp | (c << 16u64) | (d << 32u64) | (h << 48u64)) & (h << 48u64) == h << 48u64,
        (sp | (c << 16u64) | (d << 32u64) | (h << 48u64)) & sp == sp,
        c | sp | d | h == sp | c | d | h,
        1u64 << 12u64 == 0x1000,
{
}

proof fn lemma_joker_std_fields(m: u64)
    by (bit_vector)
    ensures
        joker_to_std(m) == (joker_to_std(m) & 0x1FFF) | ((((joker_to_std(m) >> 16u64) & 0x1FFF)) << 16u64) | ((((
        joker_to_std(m) >> 32u64) & 0x1FFF)) << 32u64) | ((((joker_to_std(m) >> 48u64) & 0x1FFF)) << 48u64),
        ((joker_to_std(m) & 0x1FFF) as u16) as u64 == joker_to_std(m) & 0x1FFF,
        (((joker_to_std(m) >> 16u64) & 0x1FFF) as u16) as u64 == (joker_to_std(m) >> 16u64) & 0x1FFF,
        (((joker_to_std(m) >> 32u64) & 0x1FFF) as u16) as u64 == (joker_to_std(m) >> 32u64) & 0x1FFF,
        (((joker_to_std(m) >> 48u64) & 0x1FFF) as u16) as u64 == (joker_to_std(m) >> 48u64) & 0x1FFF,
        joker_to_std(m) & 0x1FFF < 0x2000,
        (joker_to_std(m) >> 16u64) & 0x1FFF < 0x2000,
        (joker_to_std(m) >> 32u64) & 0x1FFF < 0x2000,
        (joker_to_std(m) >> 48u64) & 0x1FFF < 0x2000,
{
}

proof fn lemma_add_to_suit(s0: u64, x: u64, rank: u64, off: u64)
    by (bit_vector)
    requires
        s0 & (x << off) == x << off || (off == 0 && s0 & x == x),
        x < 0x2000,
        rank <= 0x1000,
        off <= 48,
    ensures
        s0 | ((((x as u16) | (rank as u16)) as u64) << off) == s0 | (rank << off),
        off == 0 ==> s0 | (((x as u16) | (rank as u16)) as u64) == s0 | rank,
{
}

/// Evaluates the ace-to-five low of the joker-deck hand `cards` (see
/// `joker_low_hand`); the card count is not used.
pub fn joker_lowball_eval(cards: &JokerDeckCardMask, n_cards: usize) -> (h: LowHandVal)
    requires
        low_rank_count(joker_low_hand(cards.cards_n)) >= 2,
    ensures
        h.value == lowball_mask_value(joker_low_hand(cards.cards_n)),
{
    let mut s_cards = cards.to_std();
    let ss = s_cards.spades() as u64;
    let sh = s_cards.hearts() as u64;
    let sd = s_cards.diamonds() as u64;
    let sc = s_cards.clubs() as u64;
    let ranks = sc | ss | sd | sh;
    let mut rank: u64 = 0;
    if !cards.card_is_set(JOKER_DECK_JOKER) {
        return std_deck_lowball_eval(&s_cards, n_cards);
    }
    proof {
        lemma_std_layout(ss, sc, sd, sh);
        lemma_joker_std_fields(cards.cards_n);
    }
    if (ranks & (1u64 << 12)) == 0 {
        rank = 1u64 << 12;
    } else {
        let mut r: u64 = 0;
        while r <= 11
            invariant_except_break
                r <= 12,
                rank == 0,
                lowest_missing_from(ranks, 0) == lowest_missing_from(ranks, r as int),
            ensures
                rank == lowest_missing_from(ranks, 0),
            decreases 12 - r,
        {
            let bit: u64 = 1u64 << r;
            if (ranks & bit) == 0 {
                rank = bit;
                break;
            }
            r = r + 1;
        }
    }
    proof {
        lemma_lowest_missing(ranks, 0);
        assert(rank == joker_low_rank(ranks));
    }
    let rank_u16 = rank as u16;
    let ghost s0 = s_cards.mask;
    proof {
        let (sp, c, d, h) = (ss, sc, sd, sh);
        assert(s0 == sp | (c << 16u64) | (d << 32u64) | (h << 48u64));
        lemma_std_layout(sp, c, d, h);
    }
    if (sc & rank) == 0 {
        s_cards.set_clubs(sc as u16 | rank_u16);
        proof {
            let m = s_cards.mask;
            lemma_add_to_suit(s0, sc, rank, 16);
        }
    } else if (sd & rank) == 0 {
        s_cards.set_diamonds(sd as u16 | rank_u16);
        proof {
            let m = s_cards.mask;
            lemma_add_to_suit(s0, sd, rank, 32);
        }
    } else if (sh & rank) == 0 {
        s_cards.set_hearts(sh as u16 | rank_u16);
        proof {
            let m = s_cards.mask;
            lemma_add_to_suit(s0, sh, rank, 48);
        }
    } else if (ss & rank) == 0 {
        s_cards.set_spades(ss as u16 | rank_u16);
        proof {
            let m = s_cards.mask;
            lemma_add_to_suit(s0, ss, rank, 0);
        }
    }
    std_deck_lowball_eval(&s_cards, n_cards)
}

} // verus!

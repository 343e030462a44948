//! Deuce-to-seven lowball evaluation: hands are valued as high hands (aces high,
//! straights and flushes counting) and the lowest value wins.
use vstd::prelude::*;
use crate::bits::{lemma_rank_masks, lemma_suit_fields};
use crate::handval::{HandVal, pack};
use crate::ranks::{
    desc_five, n_bits, nbits, straight_card, straight_top, top_card, top_five_cards, top_five_value, top_rank,
};
use crate::eval::{
    dup_count,
    spades_of, clubs_of, diamonds_of, hearts_of, top_nth, two_mask_of, three_mask_of, straight_value,
};
use crate::eval_low::{lowest_five_ranks, low_nth};
use crate::tables::StdDeckCardMask;

verus! {

/// The value of a flush in the suit `suit`: its five lowest ranks, each plus one.
pub open spec fn flush27_value(suit: u32) -> int {
    pack(
        if straight_top(suit) != 0 { 8 } else { 5 },
        low_nth(suit, 0),
        low_nth(suit, 1),
        low_nth(suit, 2),
        low_nth(suit, 3),
        low_nth(suit, 4),
    )
}

/// The value of a hand without flush or straight, by its count of duplicated cards.
pub open spec fn dups27_value(ss: u32, sc: u32, sd: u32, sh: u32, n_dups: int) -> int {
    let ranks = sc | ss | sd | sh;
    let two = two_mask_of(ss, sc, sd, sh);
    let three = three_mask_of(ss, sc, sd, sh);
    if n_dups == 0 {
        top_five_value(ranks)
    } else if n_dups == 1 {
        let k = ranks ^ two;
        pack(1, top_rank(two), top_nth(k, 0), top_nth(k, 1), top_nth(k, 2), 0)
    } else if n_dups == 2 && two == 0 {
        let k = ranks ^ three;
        pack(3, top_rank(three), low_nth(k, 0), low_nth(k, 1), 0, 0)
    } else if n_dups >= 3 && (sh & sd & sc & ss) != 0 {
        let q = top_rank(sh & sd & sc & ss);
        pack(7, q, top_rank(ranks ^ (1u32 << (q as u32))), 0, 0, 0)
    } else if n_dups >= 3 && three != 0 {
        let fh = top_rank(three);
        pack(6, fh, top_rank(two ^ (1u32 << (fh as u32))), 0, 0, 0)
    } else {
        let p1 = top_rank(two);
        let p2 = top_rank(two ^ (1u32 << (p1 as u32)));
        let kicker = top_rank(ranks ^ (1u32 << (p1 as u32)) ^ (1u32 << (p2 as u32)));
        pack(2, if p1 > p2 { p1 } else { p2 }, if p1 < p2 { p1 } else { p2 }, kicker, 0, 0)
    }
}

/// The deuce-to-seven value of a hand with the given suit masks and `n_cards` cards.
pub open spec fn lowball27_value(ss: u32, sc: u32, sd: u32, sh: u32, n_cards: int) -> int {
    let ranks = sc | ss | sd | sh;
    let n_ranks = nbits(ranks);
    if n_ranks >= 5 && nbits(ss) >= 5 {
        flush27_value(ss)
    } else if n_ranks >= 5 && nbits(sc) >= 5 {
        flush27_value(sc)
    } else if n_ranks >= 5 && nbits(sd) >= 5 {
        flush27_value(sd)
    } else if n_ranks >= 5 && nbits(sh) >= 5 {
        flush27_value(sh)
    } else if n_ranks >= 5 && straight_top(ranks) != 0 {
        straight_value(straight_top(ranks))
    } else {
        dups27_value(ss, sc, sd, sh, dup_count(n_cards, n_ranks as int))
    }
}

/// The deuce-to-seven value of the hand `m` of `n_cards` cards.
pub open spec fn lowball27_mask_value(m: u64, n_cards: int) -> int {
    lowball27_value(spades_of(m), clubs_of(m), diamonds_of(m), hearts_of(m), n_cards)
}

fn flush27_hand(suit: u32) -> (h: HandVal)
    requires
        suit < 0x2000,
    ensures
        h.value == flush27_value(suit),
{
    let (top, second, third, fourth, fifth) = lowest_five_ranks(suit);
    if straight_card(suit) != 0 {
        HandVal::new(8, top, second, third, fourth, fifth)
    } else {
        HandVal::new(5, top, second, third, fourth, fifth)
    }
}

fn dups27_hand(ss: u32, sc: u32, sd: u32, sh: u32, n_dups: usize) -> (h: HandVal)
    requires
        ss < 0x2000,
        sc < 0x2000,
        sd < 0x2000,
        sh < 0x2000,
    ensures
        h.value == dups27_value(ss, sc, sd, sh, n_dups as int),
{
    let ranks = sc | ss | sd | sh;
    let two_mask = ranks ^ (sc ^ sd ^ sh ^ ss);
    let three_mask = ((sc & sd) | (sh & ss)) & ((sc & sh) | (sd & ss));
    proof {
        lemma_rank_masks(ss, sc, sd, sh);
    }
    if n_dups == 0 {
        return HandVal { value: top_five_cards(ranks) };
    }
    if n_dups == 1 {
        let pair_card = top_card(two_mask);
        let k = desc_five(ranks ^ two_mask);
        return HandVal::new(1, pair_card as u8, k[0] as u8, k[1] as u8, k[2] as u8, 0);
    }
    if n_dups == 2 && two_mask == 0 {
        let trips_card = top_card(three_mask);
        let (kicker1, kicker2, _, _, _) = lowest_five_ranks(ranks ^ three_mask);
        return HandVal::new(3, trips_card as u8, kicker1, kicker2, 0, 0);
    }
    if n_dups >= 3 {
        let four_mask = sh & sd & sc & ss;
        if four_mask != 0 {
            let quads_card = top_card(four_mask);
            let kicker = top_card(ranks ^ (1u32 << quads_card));
            return HandVal::new(7, quads_card as u8, kicker as u8, 0, 0, 0);
        }
        if three_mask != 0 {
            let fullhouse_card = top_card(three_mask);
            let pair_card = top_card(two_mask ^ (1u32 << fullhouse_card));
            return HandVal::new(6, fullhouse_card as u8, pair_card as u8, 0, 0, 0);
        }
    }
    let pair1 = top_card(two_mask);
    let pair2 = top_card(two_mask ^ (1u32 << pair1));
    let kicker = top_card(ranks ^ (1u32 << pair1) ^ (1u32 << pair2));
    let hi = if pair1 > pair2 { pair1 } else { pair2 };
    let lo = if pair1 < pair2 { pair1 } else { pair2 };
    HandVal::new(2, hi as u8, lo as u8, kicker as u8, 0, 0)
}

/// Evaluates the deuce-to-seven hand `cards` of `n_cards` cards (see `lowball27_value`).
pub fn std_deck_lowball27_eval(cards: &StdDeckCardMask, n_cards: usize) -> (h: HandVal)
    ensures
        h.value == lowball27_mask_value(cards.mask, n_cards as int),
{
    let ss = cards.spades() as u32;
    let sc = cards.clubs() as u32;
    let sd = cards.diamonds() as u32;
    let sh = cards.hearts() as u32;
    proof {
        let m = cards.mask;
        lemma_suit_fields(m);
    }
    let ranks = sc | ss | sd | sh;
    proof {
        lemma_rank_masks(ss, sc, sd, sh);
    }
    let n_ranks = n_bits(ranks);
    if n_ranks >= 5 {
        if n_bits(ss) >= 5 {
            return flush27_hand(ss);
        }
        if n_bits(sc) >= 5 {
            return flush27_hand(sc);
        }
        if n_bits(sd) >= 5 {
            return flush27_hand(sd);
        }
        if n_bits(sh) >= 5 {
            return flush27_hand(sh);
        }
        let st = straight_card(ranks);
        if st != 0 {
            let second = if st > 0 { st - 1 } else { 0 };
            let third = if st > 1 { st - 2 } else { 0 };
            let fourth = if st > 2 { st - 3 } else { 0 };
            let fifth = if st > 3 { st - 4 } else { 0 };
            return HandVal::new(4, st as u8, second as u8, third as u8, fourth as u8, fifth as u8);
        }
    }
    dups27_hand(ss, sc, sd, sh, n_cards.wrapping_sub(n_ranks as usize))
}

} // verus!

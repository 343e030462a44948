//! Eight-or-better ace-to-five low evaluation.
use vstd::prelude::*;
use crate::handval::{
    LowHandVal, rotate_ranks_spec, FIFTH_CARD_SHIFT, FOURTH_CARD_SHIFT, HANDTYPE_MASK, HANDTYPE_SHIFT,
    LOW_HAND_VAL_NOTHING, LOW_HAND_VAL_WORST_EIGHT, SECOND_CARD_SHIFT, THIRD_CARD_SHIFT, TOP_CARD_SHIFT,
};
use crate::ranks::{bottom_five_cards, bottom_five_value};
use crate::eval::{spades_of, clubs_of, diamonds_of, hearts_of};
use crate::tables::StdDeckCardMask;

verus! {

/// The rotated rank mask (ace lowest) of the hand `m`.
pub open spec fn low_ranks_of(m: u64) -> u32 {
    rotate_ranks_spec(clubs_of(m)) | rotate_ranks_spec(spades_of(m)) | rotate_ranks_spec(
        diamonds_of(m),
    ) | rotate_ranks_spec(hearts_of(m))
}

/// The eight-or-better low value of the hand `m`: its five lowest distinct
/// ranks when they make an 8-low or better, else `LOW_HAND_VAL_NOTHING`.
pub open spec fn lowball8_value(m: u64) -> int {
    let v = bottom_five_value(low_ranks_of(m));
    if 0 < v && v <= LOW_HAND_VAL_WORST_EIGHT {
        v
    } else {
        LOW_HAND_VAL_NOTHING as int
    }
}

/// Evaluates the eight-or-better low of `cards` (see `lowball8_value`); the
/// result is always `Some`, and the card count is not used.
pub fn std_deck_lowball8_eval(cards: &StdDeckCardMask, _n_cards: usize) -> (h: Option<LowHandVal>)
    ensures
        h == Some(LowHandVal { value: lowball8_value(cards.mask) as u32 }),
{
    let ss = LowHandVal::rotate_ranks(cards.spades() as u32);
    let sc = LowHandVal::rotate_ranks(cards.clubs() as u32);
    let sd = LowHandVal::rotate_ranks(cards.diamonds() as u32);
    let sh = LowHandVal::rotate_ranks(cards.hearts() as u32);
    let ranks = sc | ss | sd | sh;
    let retval = bottom_five_cards(ranks);
    if retval > 0 && retval <= LOW_HAND_VAL_WORST_EIGHT {
        let mut value: u32 = (0u32 << HANDTYPE_SHIFT) & HANDTYPE_MASK;
        value = value | (((retval >> TOP_CARD_SHIFT) & 0xF) << TOP_CARD_SHIFT);
        value = value | (((retval >> SECOND_CARD_SHIFT) & 0xF) << SECOND_CARD_SHIFT);
        value = value | (((retval >> THIRD_CARD_SHIFT) & 0xF) << THIRD_CARD_SHIFT);
        value = value | (((retval >> FOURTH_CARD_SHIFT) & 0xF) << FOURTH_CARD_SHIFT);
        value = value | (((retval >> FIFTH_CARD_SHIFT) & 0xF) << FIFTH_CARD_SHIFT);
        proof {
            assert(((((((0u32 << 24u32) & 0x0F00_0000u32) | (((retval >> 16u32) & 0xFu32) << 16u32))
                | (((retval >> 12u32) & 0xFu32) << 12u32)) | (((retval >> 8u32) & 0xFu32) << 8u32))
                | (((retval >> 4u32) & 0xFu32) << 4u32)) | (((retval >> 0u32) & 0xFu32) << 0u32)
                == retval) by (bit_vector)
                requires
                    retval < 0x100000u32,
            ;
        }
        Some(LowHandVal { value })
    } else {
        Some(LowHandVal { value: LOW_HAND_VAL_NOTHING })
    }
}

} // verus!

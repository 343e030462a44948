//! Eight-or-better ace-to-five low evaluation for the joker deck.
use vstd::prelude::*;
use crate::eval_joker_low::{joker_lowball_eval, joker_low_hand};
use crate::eval_low::{lowball_mask_value, low_rank_count};
use crate::handval::{LowHandVal, LOW_HAND_VAL_WORST_EIGHT};
use crate::tables::JokerDeckCardMask;

verus! {

/// Evaluates the eight-or-better low of the joker-deck hand `cards`: the joker
/// low value when it is an 8-low or better, else the value 0.
pub fn joker_lowball8_eval(cards: &JokerDeckCardMask, n_cards: usize) -> (h: LowHandVal)
    requires
        low_rank_count(joker_low_hand(cards.cards_n)) >= 2,
    ensures
        h.value == if lowball_mask_value(joker_low_hand(cards.cards_n)) <= LOW_HAND_VAL_WORST_EIGHT {
            lowball_mask_value(joker_low_hand(cards.cards_n))
        } else {
            0
        },
{
    let loval = joker_lowball_eval(cards, n_cards);
    if loval.value <= LOW_HAND_VAL_WORST_EIGHT {
        loval
    } else {
        LowHandVal { value: 0 }
    }
}

} // verus!

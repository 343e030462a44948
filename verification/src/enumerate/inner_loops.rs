//! The evaluation of every player's hand for one deal, variant by variant: each
//! function fills `hival` and `loval`, one entry per player.
use vstd::prelude::*;
use crate::errors::PokerError;
use crate::eval::{Eval, eval_mask_value, hand_rank_count, lemma_rank_count_le_cards};
use crate::eval_low::{std_deck_lowball_eval, lowball_mask_value, low_rank_count};
use crate::eval_low27::{std_deck_lowball27_eval, lowball27_mask_value};
use crate::eval_joker::{EvalJoker, joker_eval_value, lemma_joker_rank_count};
use crate::eval_joker_low::{joker_lowball_eval, joker_low_hand};
use crate::eval_joker_low8::joker_lowball8_eval;
use crate::eval_omaha::{std_deck_omaha_hi_low8_eval, omaha_high, omaha_low};
use crate::handval::{HandVal, LowHandVal, LOW_HAND_VAL_NOTHING, LOW_HAND_VAL_WORST_EIGHT};
use crate::enumerate::result::{count_where, EnumResult};
use crate::enumdefs::ENUM_MAXPLAYERS;
use crate::tables::{StdDeckCardMask, JokerDeckCardMask, cards_of, joker_cards_below};
use crate::text::{decimal, push_decimal, push_str};

verus! {

/// The cards of player `i`: their pocket together with their unshared cards.
pub open spec fn dealt(pockets: Seq<StdDeckCardMask>, unshared: Seq<StdDeckCardMask>, i: int) -> u64 {
    pockets[i].mask | unshared[i].mask
}

/// The cards of player `i` in the joker deck: their pocket with their unshared cards.
pub open spec fn joker_dealt(
    pockets: Seq<JokerDeckCardMask>,
    unshared: Seq<JokerDeckCardMask>,
    i: int,
) -> u64 {
    pockets[i].cards_n | unshared[i].cards_n
}

/// The number of players that are evaluated: those that have both a pocket and
/// unshared cards.
pub open spec fn dealt_count(npockets: nat, nunshared: nat) -> nat {
    if npockets <= nunshared {
        npockets
    } else {
        nunshared
    }
}

/// The message of the error for player `i`, who has no unshared cards.
pub open spec fn insufficient_text(i: nat) -> Seq<char> {
    "Insufficient unshared cards for index "@ + decimal(i)
}

/// `res` is what a loop over `npockets` pockets and `nunshared` unshared masks
/// answers: success when every pocket has its unshared cards, else the error
/// for the first pocket without.
pub open spec fn unshared_outcome(res: Result<(), PokerError>, npockets: nat, nunshared: nat) -> bool {
    &&& (res is Ok <==> npockets <= nunshared)
    &&& (res matches Err(e) ==> e matches PokerError::InvalidCardConfiguration(msg) && msg@
        == insufficient_text(nunshared))
}

/// The error for player `i`, who has no unshared cards.
fn insufficient_unshared(i: usize) -> (e: PokerError)
    ensures
        e matches PokerError::InvalidCardConfiguration(msg) && msg@ == insufficient_text(i as nat),
{
    let mut msg = String::new();
    push_str(&mut msg, "Insufficient unshared cards for index ");
    push_decimal(&mut msg, i);
    proof {
        assert(msg@ =~= insufficient_text(i as nat));
    }
    PokerError::InvalidCardConfiguration(msg)
}

/// What a stud-like variant of the standard deck evaluates.
#[derive(Clone, Copy)]
enum StudRule {
    /// The high hand only.
    High,
    /// The high hand and the ace-to-five low.
    HighLow,
    /// The ace-to-five low only.
    Low,
    /// The deuce-to-seven low only.
    Deuce,
}

/// What the evaluations of `rule` need of the hand `m`.
spec fn stud_ready(rule: StudRule, m: u64) -> bool {
    match rule {
        StudRule::HighLow | StudRule::Low => low_rank_count(m) >= 2,
        _ => true,
    }
}

/// The high value that `rule` gives the hand `m`.
spec fn stud_hi(rule: StudRule, m: u64) -> int {
    match rule {
        StudRule::High | StudRule::HighLow => eval_mask_value(m, cards_of(m).len() as int),
        _ => 0,
    }
}

/// The low value that `rule` gives the hand `m`.
spec fn stud_lo(rule: StudRule, m: u64) -> int {
    match rule {
        StudRule::High => 0,
        StudRule::HighLow | StudRule::Low => lowball_mask_value(m),
        StudRule::Deuce => lowball27_mask_value(m, cards_of(m).len() as int),
    }
}

/// Evaluates, under `rule`, the hand of each player that has unshared cards.
fn stud_loop(
    rule: StudRule,
    pockets: &[StdDeckCardMask],
    unshared_cards: &[StdDeckCardMask],
    hival: &mut [HandVal],
    loval: &mut [LowHandVal],
) -> (res: Result<(), PokerError>)
    requires
        old(hival)@.len() >= dealt_count(pockets@.len(), unshared_cards@.len()),
        old(loval)@.len() >= dealt_count(pockets@.len(), unshared_cards@.len()),
        forall|i: int|
            0 <= i < dealt_count(pockets@.len(), unshared_cards@.len()) ==> stud_ready(
                rule,
                #[trigger] dealt(pockets@, unshared_cards@, i),
            ),
    ensures
        unshared_outcome(res, pockets@.len(), unshared_cards@.len()),
        final(hival)@.len() == old(hival)@.len(),
        final(loval)@.len() == old(loval)@.len(),
        forall|i: int|
            0 <= i < dealt_count(pockets@.len(), unshared_cards@.len())
                ==> (#[trigger] final(hival)@[i]).value == stud_hi(rule, dealt(pockets@, unshared_cards@, i)),
        forall|i: int|
            0 <= i < dealt_count(pockets@.len(), unshared_cards@.len())
                ==> (#[trigger] final(loval)@[i]).value == stud_lo(rule, dealt(pockets@, unshared_cards@, i)),
        forall|i: int|
            dealt_count(pockets@.len(), unshared_cards@.len()) <= i < old(hival)@.len()
                ==> #[trigger] final(hival)@[i] == old(hival)@[i],
        forall|i: int|
            dealt_count(pockets@.len(), unshared_cards@.len()) <= i < old(loval)@.len()
                ==> #[trigger] final(loval)@[i] == old(loval)@[i],
{
    let n = pockets.len();
    let ghost count = dealt_count(pockets@.len(), unshared_cards@.len());
    let mut i: usize = 0;
    while i < n
        invariant
            n == pockets@.len(),
            count == dealt_count(pockets@.len(), unshared_cards@.len()),
            i <= n,
            i <= unshared_cards@.len(),
            hival@.len() == old(hival)@.len(),
            loval@.len() == old(loval)@.len(),
            hival@.len() >= count,
            loval@.len() >= count,
            forall|j: int| 0 <= j < count ==> stud_ready(rule, #[trigger] dealt(pockets@, unshared_cards@, j)),
            forall|j: int|
                0 <= j < i ==> (#[trigger] hival@[j]).value == stud_hi(rule, dealt(pockets@, unshared_cards@, j)),
            forall|j: int|
                0 <= j < i ==> (#[trigger] loval@[j]).value == stud_lo(rule, dealt(pockets@, unshared_cards@, j)),
            forall|j: int| i <= j < hival@.len() ==> #[trigger] hival@[j] == old(hival)@[j],
            forall|j: int| i <= j < loval@.len() ==> #[trigger] loval@[j] == old(loval)@[j],
        decreases n - i,
    {
        if i >= unshared_cards.len() {
            return Err(insufficient_unshared(i));
        }
        let hand = StdDeckCardMask { mask: pockets[i].mask | unshared_cards[i].mask };
        let ncards = hand.num_cards();
        proof {
            assert(hand.mask == dealt(pockets@, unshared_cards@, i as int));
            assert(stud_ready(rule, hand.mask));
            lemma_rank_count_le_cards(hand.mask);
        }
        let hi: u32 = match rule {
            StudRule::High | StudRule::HighLow => Eval::eval_n(&hand, ncards).value,
            _ => 0,
        };
        let lo: u32 = match rule {
            StudRule::High => 0,
            StudRule::HighLow | StudRule::Low => std_deck_lowball_eval(&hand, ncards).value,
            StudRule::Deuce => std_deck_lowball27_eval(&hand, ncards).value,
        };
        hival[i] = HandVal { value: hi };
        loval[i] = LowHandVal { value: lo };
        i = i + 1;
    }
    Ok(())
}

/// Evaluates, in seven-card stud, high only, the hand of each player: their pocket with their unshared
/// cards; the low values are 0.
pub fn inner_loop_7stud(
    pockets: &[StdDeckCardMask],
    unshared_cards: &[StdDeckCardMask],
    hival: &mut [HandVal],
    loval: &mut [LowHandVal],
) -> (res: Result<(), PokerError>)
    requires
        old(hival)@.len() >= dealt_count(pockets@.len(), unshared_cards@.len()),
        old(loval)@.len() >= dealt_count(pockets@.len(), unshared_cards@.len()),
    ensures
        unshared_outcome(res, pockets@.len(), unshared_cards@.len()),
        final(hival)@.len() == old(hival)@.len(),
        final(loval)@.len() == old(loval)@.len(),
        forall|i: int|
            0 <= i < dealt_count(pockets@.len(), unshared_cards@.len())
                ==> (#[trigger] final(hival)@[i]).value == eval_mask_value(dealt(pockets@, unshared_cards@, i), cards_of(dealt(pockets@, unshared_cards@, i)).len() as int),
        forall|i: int|
            0 <= i < dealt_count(pockets@.len(), unshared_cards@.len())
                ==> (#[trigger] final(loval)@[i]).value == 0,
        forall|i: int|
            dealt_count(pockets@.len(), unshared_cards@.len()) <= i < old(hival)@.len()
                ==> #[trigger] final(hival)@[i] == old(hival)@[i],
        forall|i: int|
            dealt_count(pockets@.len(), unshared_cards@.len()) <= i < old(loval)@.len()
                ==> #[trigger] final(loval)@[i] == old(loval)@[i],
{
    let res = stud_loop(StudRule::High, pockets, unshared_cards, hival, loval);
    proof {
        assert forall|i: int| 0 <= i < dealt_count(pockets@.len(), unshared_cards@.len()) implies
            hival@[i].value == stud_hi(StudRule::High, dealt(pockets@, unshared_cards@, i)) by {}
        assert forall|i: int| 0 <= i < dealt_count(pockets@.len(), unshared_cards@.len()) implies
            loval@[i].value == stud_lo(StudRule::High, dealt(pockets@, unshared_cards@, i)) by {}
    }
    res
}

/// Evaluates, in seven-card stud high-low without qualifier, the hand of each player: their pocket with their unshared
/// cards.
pub fn inner_loop_7studnsq(
    pockets: &[StdDeckCardMask],
    unshared_cards: &[StdDeckCardMask],
    hival: &mut [HandVal],
    loval: &mut [LowHandVal],
) -> (res: Result<(), PokerError>)
    requires
        old(hival)@.len() >= dealt_count(pockets@.len(), unshared_cards@.len()),
        old(loval)@.len() >= dealt_count(pockets@.len(), unshared_cards@.len()),
        forall|i: int|
            0 <= i < dealt_count(pockets@.len(), unshared_cards@.len()) ==> low_rank_count(
                #[trigger] dealt(pockets@, unshared_cards@, i),
            ) >= 2,
    ensures
        unshared_outcome(res, pockets@.len(), unshared_cards@.len()),
        final(hival)@.len() == old(hival)@.len(),
        final(loval)@.len() == old(loval)@.len(),
        forall|i: int|
            0 <= i < dealt_count(pockets@.len(), unshared_cards@.len())
                ==> (#[trigger] final(hival)@[i]).value == eval_mask_value(dealt(pockets@, unshared_cards@, i), cards_of(dealt(pockets@, unshared_cards@, i)).len() as int),
        forall|i: int|
            0 <= i < dealt_count(pockets@.len(), unshared_cards@.len())
                ==> (#[trigger] final(loval)@[i]).value == lowball_mask_value(dealt(pockets@, unshared_cards@, i)),
        forall|i: int|
            dealt_count(pockets@.len(), unshared_cards@.len()) <= i < old(hival)@.len()
                ==> #[trigger] final(hival)@[i] == old(hival)@[i],
        forall|i: int|
            dealt_count(pockets@.len(), unshared_cards@.len()) <= i < old(loval)@.len()
                ==> #[trigger] final(loval)@[i] == old(loval)@[i],
{
    let res = stud_loop(StudRule::HighLow, pockets, unshared_cards, hival, loval);
    proof {
        assert forall|i: int| 0 <= i < dealt_count(pockets@.len(), unshared_cards@.len()) implies
            hival@[i].value == stud_hi(StudRule::HighLow, dealt(pockets@, unshared_cards@, i)) by {}
        assert forall|i: int| 0 <= i < dealt_count(pockets@.len(), unshared_cards@.len()) implies
            loval@[i].value == stud_lo(StudRule::HighLow, dealt(pockets@, unshared_cards@, i)) by {}
    }
    res
}

/// Evaluates, in razz (ace-to-five low), the hand of each player: their pocket with their unshared
/// cards; the high values are 0.
pub fn inner_loop_razz(
    pockets: &[StdDeckCardMask],
    unshared_cards: &[StdDeckCardMask],
    hival: &mut [HandVal],
    loval: &mut [LowHandVal],
) -> (res: Result<(), PokerError>)
    requires
        old(hival)@.len() >= dealt_count(pockets@.len(), unshared_cards@.len()),
        old(loval)@.len() >= dealt_count(pockets@.len(), unshared_cards@.len()),
        forall|i: int|
            0 <= i < dealt_count(pockets@.len(), unshared_cards@.len()) ==> low_rank_count(
                #[trigger] dealt(pockets@, unshared_cards@, i),
            ) >= 2,
    ensures
        unshared_outcome(res, pockets@.len(), unshared_cards@.len()),
        final(hival)@.len() == old(hival)@.len(),
        final(loval)@.len() == old(loval)@.len(),
        forall|i: int|
            0 <= i < dealt_count(pockets@.len(), unshared_cards@.len())
                ==> (#[trigger] final(hival)@[i]).value == 0,
        forall|i: int|
            0 <= i < dealt_count(pockets@.len(), unshared_cards@.len())
                ==> (#[trigger] final(loval)@[i]).value == lowball_mask_value(dealt(pockets@, unshared_cards@, i)),
        forall|i: int|
            dealt_count(pockets@.len(), unshared_cards@.len()) <= i < old(hival)@.len()
                ==> #[trigger] final(hival)@[i] == old(hival)@[i],
        forall|i: int|
            dealt_count(pockets@.len(), unshared_cards@.len()) <= i < old(loval)@.len()
                ==> #[trigger] final(loval)@[i] == old(loval)@[i],
{
    let res = stud_loop(StudRule::Low, pockets, unshared_cards, hival, loval);
    proof {
        assert forall|i: int| 0 <= i < dealt_count(pockets@.len(), unshared_cards@.len()) implies
            hival@[i].value == stud_hi(StudRule::Low, dealt(pockets@, unshared_cards@, i)) by {}
        assert forall|i: int| 0 <= i < dealt_count(pockets@.len(), unshared_cards@.len()) implies
            loval@[i].value == stud_lo(StudRule::Low, dealt(pockets@, unshared_cards@, i)) by {}
    }
    res
}

/// Evaluates, in deuce-to-seven lowball, the hand of each player: their pocket with their unshared
/// cards; the high values are 0.
pub fn inner_loop_lowball27(
    pockets: &[StdDeckCardMask],
    unshared_cards: &[StdDeckCardMask],
    hival: &mut [HandVal],
    loval: &mut [LowHandVal],
) -> (res: Result<(), PokerError>)
    requires
        old(hival)@.len() >= dealt_count(pockets@.len(), unshared_cards@.len()),
        old(loval)@.len() >= dealt_count(pockets@.len(), unshared_cards@.len()),
    ensures
        unshared_outcome(res, pockets@.len(), unshared_cards@.len()),
        final(hival)@.len() == old(hival)@.len(),
        final(loval)@.len() == old(loval)@.len(),
        forall|i: int|
            0 <= i < dealt_count(pockets@.len(), unshared_cards@.len())
                ==> (#[trigger] final(hival)@[i]).value == 0,
        forall|i: int|
            0 <= i < dealt_count(pockets@.len(), unshared_cards@.len())
                ==> (#[trigger] final(loval)@[i]).value == lowball27_mask_value(dealt(pockets@, unshared_cards@, i), cards_of(dealt(pockets@, unshared_cards@, i)).len() as int),
        forall|i: int|
            dealt_count(pockets@.len(), unshared_cards@.len()) <= i < old(hival)@.len()
                ==> #[trigger] final(hival)@[i] == old(hival)@[i],
        forall|i: int|
            dealt_count(pockets@.len(), unshared_cards@.len()) <= i < old(loval)@.len()
                ==> #[trigger] final(loval)@[i] == old(loval)@[i],
{
    let res = stud_loop(StudRule::Deuce, pockets, unshared_cards, hival, loval);
    proof {
        assert forall|i: int| 0 <= i < dealt_count(pockets@.len(), unshared_cards@.len()) implies
            hival@[i].value == stud_hi(StudRule::Deuce, dealt(pockets@, unshared_cards@, i)) by {}
        assert forall|i: int| 0 <= i < dealt_count(pockets@.len(), unshared_cards@.len()) implies
            loval@[i].value == stud_lo(StudRule::Deuce, dealt(pockets@, unshared_cards@, i)) by {}
    }
    res
}

/// What a draw variant of the joker deck evaluates.
#[derive(Clone, Copy)]
enum DrawRule {
    /// The high hand only.
    High,
    /// The high hand and the eight-or-better ace-to-five low.
    HighLow8,
    /// The high hand and the ace-to-five low.
    HighLow,
    /// The ace-to-five low only.
    Low,
}

/// What the evaluations of `rule` need of the joker-deck hand `m`.
spec fn draw_ready(rule: DrawRule, m: u64) -> bool {
    match rule {
        DrawRule::High => true,
        _ => low_rank_count(joker_low_hand(m)) >= 2,
    }
}

/// The eight-or-better low value of the joker-deck hand `m`: its ace-to-five low
/// value when it is an eight low or better, else 0.
pub open spec fn joker_low8_value(m: u64) -> int {
    let v = lowball_mask_value(joker_low_hand(m));
    if v <= LOW_HAND_VAL_WORST_EIGHT {
        v
    } else {
        0
    }
}

/// The high value that `rule` gives the joker-deck hand `m`.
spec fn draw_hi(rule: DrawRule, m: u64) -> int {
    match rule {
        DrawRule::Low => 0,
        _ => joker_eval_value(m, joker_cards_below(m, 53).len() as int),
    }
}

/// The low value that `rule` gives the joker-deck hand `m`.
spec fn draw_lo(rule: DrawRule, m: u64) -> int {
    match rule {
        DrawRule::High => 0,
        DrawRule::HighLow8 => joker_low8_value(m),
        _ => lowball_mask_value(joker_low_hand(m)),
    }
}

/// Evaluates, under `rule`, the joker-deck hand of each player that has unshared cards.
fn draw_loop(
    rule: DrawRule,
    pockets: &[JokerDeckCardMask],
    unshared_cards: &[JokerDeckCardMask],
    hival: &mut [HandVal],
    loval: &mut [LowHandVal],
) -> (res: Result<(), PokerError>)
    requires
        old(hival)@.len() >= dealt_count(pockets@.len(), unshared_cards@.len()),
        old(loval)@.len() >= dealt_count(pockets@.len(), unshared_cards@.len()),
        forall|i: int|
            0 <= i < dealt_count(pockets@.len(), unshared_cards@.len()) ==> draw_ready(
                rule,
                #[trigger] joker_dealt(pockets@, unshared_cards@, i),
            ),
    ensures
        unshared_outcome(res, pockets@.len(), unshared_cards@.len()),
        final(hival)@.len() == old(hival)@.len(),
        final(loval)@.len() == old(loval)@.len(),
        forall|i: int|
            0 <= i < dealt_count(pockets@.len(), unshared_cards@.len())
                ==> (#[trigger] final(hival)@[i]).value == draw_hi(rule, joker_dealt(pockets@, unshared_cards@, i)),
        forall|i: int|
            0 <= i < dealt_count(pockets@.len(), unshared_cards@.len())
                ==> (#[trigger] final(loval)@[i]).value == draw_lo(rule, joker_dealt(pockets@, unshared_cards@, i)),
        forall|i: int|
            dealt_count(pockets@.len(), unshared_cards@.len()) <= i < old(hival)@.len()
                ==> #[trigger] final(hival)@[i] == old(hival)@[i],
        forall|i: int|
            dealt_count(pockets@.len(), unshared_cards@.len()) <= i < old(loval)@.len()
                ==> #[trigger] final(loval)@[i] == old(loval)@[i],
{
    let n = pockets.len();
    let ghost count = dealt_count(pockets@.len(), unshared_cards@.len());
    let mut i: usize = 0;
    while i < n
        invariant
            n == pockets@.len(),
            count == dealt_count(pockets@.len(), unshared_cards@.len()),
            i <= n,
            i <= unshared_cards@.len(),
            hival@.len() == old(hival)@.len(),
            loval@.len() == old(loval)@.len(),
            hival@.len() >= count,
            loval@.len() >= count,
            forall|j: int|
                0 <= j < count ==> draw_ready(rule, #[trigger] joker_dealt(pockets@, unshared_cards@, j)),
            forall|j: int|
                0 <= j < i ==> (#[trigger] hival@[j]).value == draw_hi(rule, joker_dealt(pockets@, unshared_cards@, j)),
            forall|j: int|
                0 <= j < i ==> (#[trigger] loval@[j]).value == draw_lo(rule, joker_dealt(pockets@, unshared_cards@, j)),
            forall|j: int| i <= j < hival@.len() ==> #[trigger] hival@[j] == old(hival)@[j],
            forall|j: int| i <= j < loval@.len() ==> #[trigger] loval@[j] == old(loval)@[j],
        decreases n - i,
    {
        if i >= unshared_cards.len() {
            return Err(insufficient_unshared(i));
        }
        let hand = JokerDeckCardMask { cards_n: pockets[i].cards_n | unshared_cards[i].cards_n };
        let ncards = hand.num_cards();
        proof {
            assert(hand.cards_n == joker_dealt(pockets@, unshared_cards@, i as int));
            assert(draw_ready(rule, hand.cards_n));
            lemma_joker_rank_count(hand.cards_n);
        }
        let hi: u32 = match rule {
            DrawRule::Low => 0,
            _ => EvalJoker::eval_n(hand, ncards).value,
        };
        let lo: u32 = match rule {
            DrawRule::High => 0,
            DrawRule::HighLow8 => joker_lowball8_eval(&hand, ncards).value,
            _ => joker_lowball_eval(&hand, ncards).value,
        };
        hival[i] = HandVal { value: hi };
        loval[i] = LowHandVal { value: lo };
        i = i + 1;
    }
    Ok(())
}

/// Evaluates, in five-card draw, high only, the joker-deck hand of each player: their pocket with
/// their unshared cards; the low values are 0.
pub fn inner_loop_5draw(
    pockets: &[JokerDeckCardMask],
    unshared_cards: &[JokerDeckCardMask],
    hival: &mut [HandVal],
    loval: &mut [LowHandVal],
) -> (res: Result<(), PokerError>)
    requires
        old(hival)@.len() >= dealt_count(pockets@.len(), unshared_cards@.len()),
        old(loval)@.len() >= dealt_count(pockets@.len(), unshared_cards@.len()),
    ensures
        unshared_outcome(res, pockets@.len(), unshared_cards@.len()),
        final(hival)@.len() == old(hival)@.len(),
        final(loval)@.len() == old(loval)@.len(),
        forall|i: int|
            0 <= i < dealt_count(pockets@.len(), unshared_cards@.len())
                ==> (#[trigger] final(hival)@[i]).value == joker_eval_value(joker_dealt(pockets@, unshared_cards@, i), joker_cards_below(joker_dealt(pockets@, unshared_cards@, i), 53).len() as int),
        forall|i: int|
            0 <= i < dealt_count(pockets@.len(), unshared_cards@.len())
                ==> (#[trigger] final(loval)@[i]).value == 0,
        forall|i: int|
            dealt_count(pockets@.len(), unshared_cards@.len()) <= i < old(hival)@.len()
                ==> #[trigger] final(hival)@[i] == old(hival)@[i],
        forall|i: int|
            dealt_count(pockets@.len(), unshared_cards@.len()) <= i < old(loval)@.len()
                ==> #[trigger] final(loval)@[i] == old(loval)@[i],
{
    let res = draw_loop(DrawRule::High, pockets, unshared_cards, hival, loval);
    proof {
        assert forall|i: int| 0 <= i < dealt_count(pockets@.len(), unshared_cards@.len()) implies
            hival@[i].value == draw_hi(DrawRule::High, joker_dealt(pockets@, unshared_cards@, i)) by {}
        assert forall|i: int| 0 <= i < dealt_count(pockets@.len(), unshared_cards@.len()) implies
            loval@[i].value == draw_lo(DrawRule::High, joker_dealt(pockets@, unshared_cards@, i)) by {}
    }
    res
}

/// Evaluates, in five-card draw high-low, eight or better, the joker-deck hand of each player: their pocket with
/// their unshared cards.
pub fn inner_loop_5draw8(
    pockets: &[JokerDeckCardMask],
    unshared_cards: &[JokerDeckCardMask],
    hival: &mut [HandVal],
    loval: &mut [LowHandVal],
) -> (res: Result<(), PokerError>)
    requires
        old(hival)@.len() >= dealt_count(pockets@.len(), unshared_cards@.len()),
        old(loval)@.len() >= dealt_count(pockets@.len(), unshared_cards@.len()),
        forall|i: int|
            0 <= i < dealt_count(pockets@.len(), unshared_cards@.len()) ==> low_rank_count(
                joker_low_hand(#[trigger] joker_dealt(pockets@, unshared_cards@, i)),
            ) >= 2,
    ensures
        unshared_outcome(res, pockets@.len(), unshared_cards@.len()),
        final(hival)@.len() == old(hival)@.len(),
        final(loval)@.len() == old(loval)@.len(),
        forall|i: int|
            0 <= i < dealt_count(pockets@.len(), unshared_cards@.len())
                ==> (#[trigger] final(hival)@[i]).value == joker_eval_value(joker_dealt(pockets@, unshared_cards@, i), joker_cards_below(joker_dealt(pockets@, unshared_cards@, i), 53).len() as int),
        forall|i: int|
            0 <= i < dealt_count(pockets@.len(), unshared_cards@.len())
                ==> (#[trigger] final(loval)@[i]).value == joker_low8_value(joker_dealt(pockets@, unshared_cards@, i)),
        forall|i: int|
            dealt_count(pockets@.len(), unshared_cards@.len()) <= i < old(hival)@.len()
                ==> #[trigger] final(hival)@[i] == old(hival)@[i],
        forall|i: int|
            dealt_count(pockets@.len(), unshared_cards@.len()) <= i < old(loval)@.len()
                ==> #[trigger] final(loval)@[i] == old(loval)@[i],
{
    let res = draw_loop(DrawRule::HighLow8, pockets, unshared_cards, hival, loval);
    proof {
        assert forall|i: int| 0 <= i < dealt_count(pockets@.len(), unshared_cards@.len()) implies
            hival@[i].value == draw_hi(DrawRule::HighLow8, joker_dealt(pockets@, unshared_cards@, i)) by {}
        assert forall|i: int| 0 <= i < dealt_count(pockets@.len(), unshared_cards@.len()) implies
            loval@[i].value == draw_lo(DrawRule::HighLow8, joker_dealt(pockets@, unshared_cards@, i)) by {}
    }
    res
}

/// Evaluates, in five-card draw high-low without qualifier, the joker-deck hand of each player: their pocket with
/// their unshared cards.
pub fn inner_loop_5drawnsq(
    pockets: &[JokerDeckCardMask],
    unshared_cards: &[JokerDeckCardMask],
    hival: &mut [HandVal],
    loval: &mut [LowHandVal],
) -> (res: Result<(), PokerError>)
    requires
        old(hival)@.len() >= dealt_count(pockets@.len(), unshared_cards@.len()),
        old(loval)@.len() >= dealt_count(pockets@.len(), unshared_cards@.len()),
        forall|i: int|
            0 <= i < dealt_count(pockets@.len(), unshared_cards@.len()) ==> low_rank_count(
                joker_low_hand(#[trigger] joker_dealt(pockets@, unshared_cards@, i)),
            ) >= 2,
    ensures
        unshared_outcome(res, pockets@.len(), unshared_cards@.len()),
        final(hival)@.len() == old(hival)@.len(),
        final(loval)@.len() == old(loval)@.len(),
        forall|i: int|
            0 <= i < dealt_count(pockets@.len(), unshared_cards@.len())
                ==> (#[trigger] final(hival)@[i]).value == joker_eval_value(joker_dealt(pockets@, unshared_cards@, i), joker_cards_below(joker_dealt(pockets@, unshared_cards@, i), 53).len() as int),
        forall|i: int|
            0 <= i < dealt_count(pockets@.len(), unshared_cards@.len())
                ==> (#[trigger] final(loval)@[i]).value == lowball_mask_value(joker_low_hand(joker_dealt(pockets@, unshared_cards@, i))),
        forall|i: int|
            dealt_count(pockets@.len(), unshared_cards@.len()) <= i < old(hival)@.len()
                ==> #[trigger] final(hival)@[i] == old(hival)@[i],
        forall|i: int|
            dealt_count(pockets@.len(), unshared_cards@.len()) <= i < old(loval)@.len()
                ==> #[trigger] final(loval)@[i] == old(loval)@[i],
{
    let res = draw_loop(DrawRule::HighLow, pockets, unshared_cards, hival, loval);
    proof {
        assert forall|i: int| 0 <= i < dealt_count(pockets@.len(), unshared_cards@.len()) implies
            hival@[i].value == draw_hi(DrawRule::HighLow, joker_dealt(pockets@, unshared_cards@, i)) by {}
        assert forall|i: int| 0 <= i < dealt_count(pockets@.len(), unshared_cards@.len()) implies
            loval@[i].value == draw_lo(DrawRule::HighLow, joker_dealt(pockets@, unshared_cards@, i)) by {}
    }
    res
}

/// Evaluates, in ace-to-five lowball, the joker-deck hand of each player: their pocket with
/// their unshared cards; the high values are 0.
pub fn inner_loop_lowball(
    pockets: &[JokerDeckCardMask],
    unshared_cards: &[JokerDeckCardMask],
    hival: &mut [HandVal],
    loval: &mut [LowHandVal],
) -> (res: Result<(), PokerError>)
    requires
        old(hival)@.len() >= dealt_count(pockets@.len(), unshared_cards@.len()),
        old(loval)@.len() >= dealt_count(pockets@.len(), unshared_cards@.len()),
        forall|i: int|
            0 <= i < dealt_count(pockets@.len(), unshared_cards@.len()) ==> low_rank_count(
                joker_low_hand(#[trigger] joker_dealt(pockets@, unshared_cards@, i)),
            ) >= 2,
    ensures
        unshared_outcome(res, pockets@.len(), unshared_cards@.len()),
        final(hival)@.len() == old(hival)@.len(),
        final(loval)@.len() == old(loval)@.len(),
        forall|i: int|
            0 <= i < dealt_count(pockets@.len(), unshared_cards@.len())
                ==> (#[trigger] final(hival)@[i]).value == 0,
        forall|i: int|
            0 <= i < dealt_count(pockets@.len(), unshared_cards@.len())
                ==> (#[trigger] final(loval)@[i]).value == lowball_mask_value(joker_low_hand(joker_dealt(pockets@, unshared_cards@, i))),
        forall|i: int|
            dealt_count(pockets@.len(), unshared_cards@.len()) <= i < old(hival)@.len()
                ==> #[trigger] final(hival)@[i] == old(hival)@[i],
        forall|i: int|
            dealt_count(pockets@.len(), unshared_cards@.len()) <= i < old(loval)@.len()
                ==> #[trigger] final(loval)@[i] == old(loval)@[i],
{
    let res = draw_loop(DrawRule::Low, pockets, unshared_cards, hival, loval);
    proof {
        assert forall|i: int| 0 <= i < dealt_count(pockets@.len(), unshared_cards@.len()) implies
            hival@[i].value == draw_hi(DrawRule::Low, joker_dealt(pockets@, unshared_cards@, i)) by {}
        assert forall|i: int| 0 <= i < dealt_count(pockets@.len(), unshared_cards@.len()) implies
            loval@[i].value == draw_lo(DrawRule::Low, joker_dealt(pockets@, unshared_cards@, i)) by {}
    }
    res
}

/// Evaluates, in Texas hold'em, the hand of each player: their pocket with the
/// board and the shared cards, counted as the cards of the board and shared cards
/// plus two hole cards. The low values are 0.
pub fn inner_loop_holdem(
    pockets: &[StdDeckCardMask],
    board: &StdDeckCardMask,
    shared_cards: &StdDeckCardMask,
    hival: &mut [HandVal],
    loval: &mut [LowHandVal],
) -> (res: Result<(), PokerError>)
    requires
        old(hival)@.len() >= pockets@.len(),
        old(loval)@.len() >= pockets@.len(),
        forall|i: int|
            0 <= i < pockets@.len() ==> hand_rank_count(
                #[trigger] pockets@[i].mask | (board.mask | shared_cards.mask),
            ) <= cards_of(board.mask | shared_cards.mask).len() + 2,
    ensures
        res is Ok,
        final(hival)@.len() == old(hival)@.len(),
        final(loval)@.len() == old(loval)@.len(),
        forall|i: int|
            0 <= i < pockets@.len() ==> (#[trigger] final(hival)@[i]).value == eval_mask_value(
                pockets@[i].mask | (board.mask | shared_cards.mask),
                cards_of(board.mask | shared_cards.mask).len() + 2int,
            ),
        forall|i: int| 0 <= i < pockets@.len() ==> (#[trigger] final(loval)@[i]).value == 0,
        forall|i: int| pockets@.len() <= i < old(hival)@.len() ==> #[trigger] final(hival)@[i] == old(hival)@[i],
        forall|i: int| pockets@.len() <= i < old(loval)@.len() ==> #[trigger] final(loval)@[i] == old(loval)@[i],
{
    let final_board = StdDeckCardMask { mask: board.mask | shared_cards.mask };
    let ncards = final_board.num_cards() + 2;
    let n = pockets.len();
    let mut i: usize = 0;
    while i < n
        invariant
            n == pockets@.len(),
            i <= n,
            final_board.mask == board.mask | shared_cards.mask,
            ncards == cards_of(final_board.mask).len() + 2,
            hival@.len() == old(hival)@.len(),
            loval@.len() == old(loval)@.len(),
            hival@.len() >= n,
            loval@.len() >= n,
            forall|j: int|
                0 <= j < n ==> hand_rank_count(#[trigger] pockets@[j].mask | (board.mask | shared_cards.mask))
                    <= cards_of(board.mask | shared_cards.mask).len() + 2,
            forall|j: int|
                0 <= j < i ==> (#[trigger] hival@[j]).value == eval_mask_value(
                    pockets@[j].mask | (board.mask | shared_cards.mask),
                    cards_of(board.mask | shared_cards.mask).len() + 2int,
                ),
            forall|j: int| 0 <= j < i ==> (#[trigger] loval@[j]).value == 0,
            forall|j: int| i <= j < hival@.len() ==> #[trigger] hival@[j] == old(hival)@[j],
            forall|j: int| i <= j < loval@.len() ==> #[trigger] loval@[j] == old(loval)@[j],
        decreases n - i,
    {
        let hand = StdDeckCardMask { mask: pockets[i].mask | final_board.mask };
        proof {
            assert(hand_rank_count(pockets@[i as int].mask | (board.mask | shared_cards.mask))
                <= cards_of(board.mask | shared_cards.mask).len() + 2);
        }
        hival[i] = Eval::eval_n(&hand, ncards);
        loval[i] = LowHandVal { value: 0 };
        i = i + 1;
    }
    Ok(())
}

/// `o`'s value when it has one, else `keep`.
pub open spec fn value_or<A>(o: Option<A>, keep: A) -> A {
    match o {
        Some(a) => a,
        None => keep,
    }
}

/// Evaluates each player's Omaha hand: their pocket as hole cards, the board and
/// the shared cards as board. The high value is stored when there is one; the low
/// value too when `use_low` holds, else the low values are 0.
fn inner_loop_omaha_generic(
    pockets: &[StdDeckCardMask],
    board: &StdDeckCardMask,
    shared_cards: &StdDeckCardMask,
    hival: &mut [HandVal],
    loval: &mut [LowHandVal],
    use_low: bool,
) -> (res: Result<(), PokerError>)
    requires
        old(hival)@.len() >= pockets@.len(),
        old(loval)@.len() >= pockets@.len(),
    ensures
        res is Ok,
        final(hival)@.len() == old(hival)@.len(),
        final(loval)@.len() == old(loval)@.len(),
        forall|i: int|
            0 <= i < pockets@.len() ==> #[trigger] final(hival)@[i] == value_or(
                omaha_high(pockets@[i].mask, board.mask | shared_cards.mask),
                old(hival)@[i],
            ),
        forall|i: int|
            0 <= i < pockets@.len() ==> #[trigger] final(loval)@[i] == if use_low {
                value_or(omaha_low(pockets@[i].mask, board.mask | shared_cards.mask), old(loval)@[i])
            } else {
                (LowHandVal { value: 0 })
            },
        forall|i: int| pockets@.len() <= i < old(hival)@.len() ==> #[trigger] final(hival)@[i] == old(hival)@[i],
        forall|i: int| pockets@.len() <= i < old(loval)@.len() ==> #[trigger] final(loval)@[i] == old(loval)@[i],
{
    let final_board = StdDeckCardMask { mask: board.mask | shared_cards.mask };
    let n = pockets.len();
    let mut i: usize = 0;
    while i < n
        invariant
            n == pockets@.len(),
            i <= n,
            final_board.mask == board.mask | shared_cards.mask,
            hival@.len() == old(hival)@.len(),
            loval@.len() == old(loval)@.len(),
            hival@.len() >= n,
            loval@.len() >= n,
            forall|j: int|
                0 <= j < i ==> #[trigger] hival@[j] == value_or(
                    omaha_high(pockets@[j].mask, board.mask | shared_cards.mask),
                    old(hival)@[j],
                ),
            forall|j: int|
                0 <= j < i ==> #[trigger] loval@[j] == if use_low {
                    value_or(omaha_low(pockets@[j].mask, board.mask | shared_cards.mask), old(loval)@[j])
                } else {
                    (LowHandVal { value: 0 })
                },
            forall|j: int| i <= j < hival@.len() ==> #[trigger] hival@[j] == old(hival)@[j],
            forall|j: int| i <= j < loval@.len() ==> #[trigger] loval@[j] == old(loval)@[j],
        decreases n - i,
    {
        let mut high: Option<HandVal> = None;
        let mut low: Option<LowHandVal> = None;
        let _ = std_deck_omaha_hi_low8_eval(pockets[i], final_board, &mut high, &mut low);
        if let Some(h) = high {
            hival[i] = h;
        }
        if use_low {
            if let Some(l) = low {
                loval[i] = l;
            }
        } else {
            loval[i] = LowHandVal { value: 0 };
        }
        i = i + 1;
    }
    Ok(())
}

/// Evaluates, in Omaha, high only, each player's hand: their pocket as hole cards, the board
/// and the shared cards as board (see `omaha_high`). A player with no
/// combination keeps their entry; the low values are 0.
pub fn inner_loop_omaha(
    pockets: &[StdDeckCardMask],
    board: &StdDeckCardMask,
    shared_cards: &StdDeckCardMask,
    hival: &mut [HandVal],
    loval: &mut [LowHandVal],
) -> (res: Result<(), PokerError>)
    requires
        old(hival)@.len() >= pockets@.len(),
        old(loval)@.len() >= pockets@.len(),
    ensures
        res is Ok,
        final(hival)@.len() == old(hival)@.len(),
        final(loval)@.len() == old(loval)@.len(),
        forall|i: int|
            0 <= i < pockets@.len() ==> #[trigger] final(hival)@[i] == value_or(
                omaha_high(pockets@[i].mask, board.mask | shared_cards.mask),
                old(hival)@[i],
            ),
        forall|i: int|
            0 <= i < pockets@.len() ==> #[trigger] final(loval)@[i] == (LowHandVal { value: 0 }),
        forall|i: int| pockets@.len() <= i < old(hival)@.len() ==> #[trigger] final(hival)@[i] == old(hival)@[i],
        forall|i: int| pockets@.len() <= i < old(loval)@.len() ==> #[trigger] final(loval)@[i] == old(loval)@[i],
{
    inner_loop_omaha_generic(pockets, board, shared_cards, hival, loval, false)
}

/// Evaluates, in five-card Omaha, high only, each player's hand: their pocket as hole cards, the board
/// and the shared cards as board (see `omaha_high`). A player with no
/// combination keeps their entry; the low values are 0.
pub fn inner_loop_omaha5(
    pockets: &[StdDeckCardMask],
    board: &StdDeckCardMask,
    shared_cards: &StdDeckCardMask,
    hival: &mut [HandVal],
    loval: &mut [LowHandVal],
) -> (res: Result<(), PokerError>)
    requires
        old(hival)@.len() >= pockets@.len(),
        old(loval)@.len() >= pockets@.len(),
    ensures
        res is Ok,
        final(hival)@.len() == old(hival)@.len(),
        final(loval)@.len() == old(loval)@.len(),
        forall|i: int|
            0 <= i < pockets@.len() ==> #[trigger] final(hival)@[i] == value_or(
                omaha_high(pockets@[i].mask, board.mask | shared_cards.mask),
                old(hival)@[i],
            ),
        forall|i: int|
            0 <= i < pockets@.len() ==> #[trigger] final(loval)@[i] == (LowHandVal { value: 0 }),
        forall|i: int| pockets@.len() <= i < old(hival)@.len() ==> #[trigger] final(hival)@[i] == old(hival)@[i],
        forall|i: int| pockets@.len() <= i < old(loval)@.len() ==> #[trigger] final(loval)@[i] == old(loval)@[i],
{
    inner_loop_omaha_generic(pockets, board, shared_cards, hival, loval, false)
}

/// Evaluates, in six-card Omaha, high only, each player's hand: their pocket as hole cards, the board
/// and the shared cards as board (see `omaha_high`). A player with no
/// combination keeps their entry; the low values are 0.
pub fn inner_loop_omaha6(
    pockets: &[StdDeckCardMask],
    board: &StdDeckCardMask,
    shared_cards: &StdDeckCardMask,
    hival: &mut [HandVal],
    loval: &mut [LowHandVal],
) -> (res: Result<(), PokerError>)
    requires
        old(hival)@.len() >= pockets@.len(),
        old(loval)@.len() >= pockets@.len(),
    ensures
        res is Ok,
        final(hival)@.len() == old(hival)@.len(),
        final(loval)@.len() == old(loval)@.len(),
        forall|i: int|
            0 <= i < pockets@.len() ==> #[trigger] final(hival)@[i] == value_or(
                omaha_high(pockets@[i].mask, board.mask | shared_cards.mask),
                old(hival)@[i],
            ),
        forall|i: int|
            0 <= i < pockets@.len() ==> #[trigger] final(loval)@[i] == (LowHandVal { value: 0 }),
        forall|i: int| pockets@.len() <= i < old(hival)@.len() ==> #[trigger] final(hival)@[i] == old(hival)@[i],
        forall|i: int| pockets@.len() <= i < old(loval)@.len() ==> #[trigger] final(loval)@[i] == old(loval)@[i],
{
    inner_loop_omaha_generic(pockets, board, shared_cards, hival, loval, false)
}

/// Evaluates, in Omaha high-low, eight or better, each player's hand: their pocket as hole cards, the board
/// and the shared cards as board (see `omaha_high` and `omaha_low`). A player with no
/// combination keeps their entry.
pub fn inner_loop_omaha8(
    pockets: &[StdDeckCardMask],
    board: &StdDeckCardMask,
    shared_cards: &StdDeckCardMask,
    hival: &mut [HandVal],
    loval: &mut [LowHandVal],
) -> (res: Result<(), PokerError>)
    requires
        old(hival)@.len() >= pockets@.len(),
        old(loval)@.len() >= pockets@.len(),
    ensures
        res is Ok,
        final(hival)@.len() == old(hival)@.len(),
        final(loval)@.len() == old(loval)@.len(),
        forall|i: int|
            0 <= i < pockets@.len() ==> #[trigger] final(hival)@[i] == value_or(
                omaha_high(pockets@[i].mask, board.mask | shared_cards.mask),
                old(hival)@[i],
            ),
        forall|i: int|
            0 <= i < pockets@.len() ==> #[trigger] final(loval)@[i] == value_or(omaha_low(pockets@[i].mask, board.mask | shared_cards.mask), old(loval)@[i]),
        forall|i: int| pockets@.len() <= i < old(hival)@.len() ==> #[trigger] final(hival)@[i] == old(hival)@[i],
        forall|i: int| pockets@.len() <= i < old(loval)@.len() ==> #[trigger] final(loval)@[i] == old(loval)@[i],
{
    inner_loop_omaha_generic(pockets, board, shared_cards, hival, loval, true)
}

/// Evaluates, in five-card Omaha high-low, eight or better, each player's hand: their pocket as hole cards, the board
/// and the shared cards as board (see `omaha_high` and `omaha_low`). A player with no
/// combination keeps their entry.
pub fn inner_loop_omaha85(
    pockets: &[StdDeckCardMask],
    board: &StdDeckCardMask,
    shared_cards: &StdDeckCardMask,
    hival: &mut [HandVal],
    loval: &mut [LowHandVal],
) -> (res: Result<(), PokerError>)
    requires
        old(hival)@.len() >= pockets@.len(),
        old(loval)@.len() >= pockets@.len(),
    ensures
        res is Ok,
        final(hival)@.len() == old(hival)@.len(),
        final(loval)@.len() == old(loval)@.len(),
        forall|i: int|
            0 <= i < pockets@.len() ==> #[trigger] final(hival)@[i] == value_or(
                omaha_high(pockets@[i].mask, board.mask | shared_cards.mask),
                old(hival)@[i],
            ),
        forall|i: int|
            0 <= i < pockets@.len() ==> #[trigger] final(loval)@[i] == value_or(omaha_low(pockets@[i].mask, board.mask | shared_cards.mask), old(loval)@[i]),
        forall|i: int| pockets@.len() <= i < old(hival)@.len() ==> #[trigger] final(hival)@[i] == old(hival)@[i],
        forall|i: int| pockets@.len() <= i < old(loval)@.len() ==> #[trigger] final(loval)@[i] == old(loval)@[i],
{
    inner_loop_omaha_generic(pockets, board, shared_cards, hival, loval, true)
}

/// The high value of an evaluation: 0, the value of no hand, when it failed.
pub open spec fn high_or_nothing(h: Option<HandVal>) -> u32 {
    match h {
        Some(v) => v.value,
        None => 0,
    }
}

/// The low value of an evaluation: `LOW_HAND_VAL_NOTHING` when it failed.
pub open spec fn low_or_nothing(l: Option<LowHandVal>) -> u32 {
    match l {
        Some(v) => v.value,
        None => LOW_HAND_VAL_NOTHING,
    }
}

/// The best of the first `k` high values, 0 when none is above 0.
pub open spec fn best_high(h: Seq<u32>, k: int) -> u32
    decreases k,
{
    if k <= 0 {
        0
    } else if h[k - 1] != 0 && h[k - 1] > best_high(h, k - 1) {
        h[k - 1]
    } else {
        best_high(h, k - 1)
    }
}

/// The best (smallest) of the first `k` lows, `LOW_HAND_VAL_NOTHING` when none
/// is below it.
pub open spec fn best_low(v: Seq<u32>, k: int) -> u32
    decreases k,
{
    if k <= 0 {
        LOW_HAND_VAL_NOTHING
    } else if v[k - 1] != LOW_HAND_VAL_NOTHING && v[k - 1] < best_low(v, k - 1) {
        v[k - 1]
    } else {
        best_low(v, k - 1)
    }
}

/// The number of the first `k` players whose high is the best and above 0.
pub open spec fn high_sharers(h: Seq<u32>, k: int) -> nat {
    count_where(k, |j: int| h[j] != 0 && h[j] == best_high(h, k))
}

/// The number of the first `k` players whose low is the best and qualifies.
pub open spec fn low_sharers(v: Seq<u32>, k: int) -> nat {
    count_where(k, |j: int| v[j] != LOW_HAND_VAL_NOTHING && v[j] == best_low(v, k))
}

/// The high pot outcome of player `i` among `n`: 0 a win, 1 a tie, 2 a loss, 3
/// none (no hand while another has the best).
pub open spec fn high_pot(h: Seq<u32>, n: int, i: int) -> int {
    if h[i] == best_high(h, n) {
        if high_sharers(h, n) == 1 { 0 } else { 1 }
    } else if h[i] != 0 {
        2
    } else {
        3
    }
}

/// The low pot outcome of player `i` among `n`, as `high_pot`.
pub open spec fn low_pot(v: Seq<u32>, n: int, i: int) -> int {
    if v[i] == best_low(v, n) {
        if low_sharers(v, n) == 1 { 0 } else { 1 }
    } else if v[i] != LOW_HAND_VAL_NOTHING {
        2
    } else {
        3
    }
}

/// Entry `x` of the win, tie and loss counts of `r` is that of `before` plus one
/// for the pot outcome of player `x`, when `x` is among the first `k` players
/// counted.
pub open spec fn pot_counted(r: EnumResult, before: EnumResult, h: Seq<u32>, v: Seq<u32>, n: int, k: int, x: int) -> bool {
    &&& r.nwinhi@[x] == before.nwinhi@[x] + if x < k && high_pot(h, n, x) == 0 { 1int } else { 0int }
    &&& r.ntiehi@[x] == before.ntiehi@[x] + if x < k && high_pot(h, n, x) == 1 { 1int } else { 0int }
    &&& r.nlosehi@[x] == before.nlosehi@[x] + if x < k && high_pot(h, n, x) == 2 { 1int } else { 0int }
    &&& r.nwinlo@[x] == before.nwinlo@[x] + if x < k && low_pot(v, n, x) == 0 { 1int } else { 0int }
    &&& r.ntielo@[x] == before.ntielo@[x] + if x < k && low_pot(v, n, x) == 1 { 1int } else { 0int }
    &&& r.nloselo@[x] == before.nloselo@[x] + if x < k && low_pot(v, n, x) == 2 { 1int } else { 0int }
}

/// `pot_counted` holds for every player entry.
pub open spec fn pots_counted(r: EnumResult, before: EnumResult, h: Seq<u32>, v: Seq<u32>, n: int, k: int) -> bool {
    forall|x: int| 0 <= x < 12 ==> #[trigger] pot_counted(r, before, h, v, n, k, x)
}

/// Counts one sample from the evaluations of the first `npockets` players: for
/// each pot, the best value among the hands that have one takes it, alone (a
/// win) or shared (a tie); the others with a hand lose. When no player has a
/// hand for a pot, every player ties it. The histogram of orderings, when one is
/// kept, is left to the caller.
pub fn inner_loop(npockets: usize, hi: &[Option<HandVal>], lo: &[Option<LowHandVal>], result: &mut EnumResult)
    requires
        npockets <= ENUM_MAXPLAYERS,
        npockets <= hi@.len(),
        npockets <= lo@.len(),
        old(result).nsamples < u32::MAX,
        forall|i: int| 0 <= i < npockets ==> {
            &&& #[trigger] old(result).nwinhi@[i] < u32::MAX
            &&& old(result).ntiehi@[i] < u32::MAX
            &&& old(result).nlosehi@[i] < u32::MAX
            &&& old(result).nwinlo@[i] < u32::MAX
            &&& old(result).ntielo@[i] < u32::MAX
            &&& old(result).nloselo@[i] < u32::MAX
        },
    ensures
        ({
            let h = hi@.map_values(|x: Option<HandVal>| high_or_nothing(x));
            let v = lo@.map_values(|x: Option<LowHandVal>| low_or_nothing(x));
            let n = npockets as int;
            pots_counted(*final(result), *old(result), h, v, n, n)
        }),
        final(result).nsamples == old(result).nsamples + 1,
        final(result).nscoop == old(result).nscoop,
        final(result).game == old(result).game,
        final(result).sample_type == old(result).sample_type,
        final(result).nplayers == old(result).nplayers,
        final(result).nsharehi == old(result).nsharehi,
        final(result).nsharelo == old(result).nsharelo,
        final(result).nshare == old(result).nshare,
        final(result).ordering == old(result).ordering,
{
    let ghost h = hi@.map_values(|x: Option<HandVal>| high_or_nothing(x));
    let ghost v = lo@.map_values(|x: Option<LowHandVal>| low_or_nothing(x));
    let ghost n = npockets as int;
    let mut hival: Vec<u32> = Vec::new();
    let mut loval: Vec<u32> = Vec::new();
    let mut besthi: u32 = 0;
    let mut bestlo: u32 = LOW_HAND_VAL_NOTHING;
    let mut i: usize = 0;
    while i < npockets
        invariant
            i <= npockets,
            npockets <= hi@.len(),
            npockets <= lo@.len(),
            h == hi@.map_values(|x: Option<HandVal>| high_or_nothing(x)),
            v == lo@.map_values(|x: Option<LowHandVal>| low_or_nothing(x)),
            hival@ == h.take(i as int),
            loval@ == v.take(i as int),
            besthi == best_high(h, i as int),
            bestlo == best_low(v, i as int),
        decreases npockets - i,
    {
        let hv: u32 = match hi[i] {
            Some(x) => x.value,
            None => 0,
        };
        let lv: u32 = match lo[i] {
            Some(x) => x.value,
            None => LOW_HAND_VAL_NOTHING,
        };
        if hv != 0 && hv > besthi {
            besthi = hv;
        }
        if lv != LOW_HAND_VAL_NOTHING && lv < bestlo {
            bestlo = lv;
        }
        hival.push(hv);
        loval.push(lv);
        proof {
            assert(hival@ =~= h.take(i as int + 1));
            assert(loval@ =~= v.take(i as int + 1));
        }
        i = i + 1;
    }
    let mut hishare: u32 = 0;
    let mut loshare: u32 = 0;
    let mut j: usize = 0;
    while j < npockets
        invariant
            j <= npockets,
            npockets <= 12,
            hival@ == h.take(n),
            loval@ == v.take(n),
            n == npockets,
            npockets <= h.len(),
            npockets <= v.len(),
            besthi == best_high(h, n),
            bestlo == best_low(v, n),
            hishare <= j,
            loshare <= j,
            hishare == count_where(j as int, |x: int| h[x] != 0 && h[x] == best_high(h, n)),
            loshare == count_where(j as int, |x: int| v[x] != LOW_HAND_VAL_NOTHING && v[x] == best_low(v, n)),
        decreases npockets - j,
    {
        if hival[j] != 0 && hival[j] == besthi {
            hishare = hishare + 1;
        }
        if loval[j] != LOW_HAND_VAL_NOTHING && loval[j] == bestlo {
            loshare = loshare + 1;
        }
        j = j + 1;
    }
    let ghost before = *result;
    let mut k: usize = 0;
    proof {
        assert forall|x: int| 0 <= x < 12 implies #[trigger] pot_counted(*result, before, h, v, n, 0, x) by {}
    }
    while k < npockets
        invariant
            k <= npockets,
            npockets <= 12,
            hival@ == h.take(n),
            loval@ == v.take(n),
            n == npockets,
            npockets <= h.len(),
            npockets <= v.len(),
            besthi == best_high(h, n),
            bestlo == best_low(v, n),
            hishare == high_sharers(h, n),
            loshare == low_sharers(v, n),
            before == *old(result),
            result.nsamples == before.nsamples,
            result.nscoop == before.nscoop,
            result.game == before.game,
            result.sample_type == before.sample_type,
            result.nplayers == before.nplayers,
            result.nsharehi == before.nsharehi,
            result.nsharelo == before.nsharelo,
            result.nshare == before.nshare,
            result.ordering == before.ordering,
            forall|x: int| 0 <= x < npockets ==> {
                &&& #[trigger] before.nwinhi@[x] < u32::MAX
                &&& before.ntiehi@[x] < u32::MAX
                &&& before.nlosehi@[x] < u32::MAX
                &&& before.nwinlo@[x] < u32::MAX
                &&& before.ntielo@[x] < u32::MAX
                &&& before.nloselo@[x] < u32::MAX
            },
            pots_counted(*result, before, h, v, n, k as int),
        decreases npockets - k,
    {
        proof {
            assert(before.nwinhi@[k as int] < u32::MAX);
            assert(pot_counted(*result, before, h, v, n, k as int, k as int));
            assert(hival@[k as int] == h[k as int] && loval@[k as int] == v[k as int]);
        }
        let ghost prev = *result;
        if hival[k] == besthi {
            if hishare == 1 {
                result.nwinhi[k] = result.nwinhi[k] + 1;
            } else {
                result.ntiehi[k] = result.ntiehi[k] + 1;
            }
        } else if hival[k] != 0 {
            result.nlosehi[k] = result.nlosehi[k] + 1;
        }
        if loval[k] == bestlo {
            if loshare == 1 {
                result.nwinlo[k] = result.nwinlo[k] + 1;
            } else {
                result.ntielo[k] = result.ntielo[k] + 1;
            }
        } else if loval[k] != LOW_HAND_VAL_NOTHING {
            result.nloselo[k] = result.nloselo[k] + 1;
        }
        proof {
            assert forall|x: int| 0 <= x < 12 implies #[trigger] pot_counted(*result, before, h, v, n, k as int + 1, x) by {
                assert(pot_counted(prev, before, h, v, n, k as int, x));
            }
        }
        k = k + 1;
    }
    let ghost pre = *result;
    result.nsamples = result.nsamples + 1;
    proof {
        assert forall|x: int| 0 <= x < 12 implies #[trigger] pot_counted(*result, *old(result), h, v, n, n, x) by {
            assert(pot_counted(pre, before, h, v, n, n, x));
        }
    }
}

} // verus!

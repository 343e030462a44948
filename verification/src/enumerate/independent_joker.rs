//! Monte Carlo evaluation of the draw variants (five-card draw and ace-to-five
//! lowball), played with the joker deck: each sample draws, from the live cards
//! of the joker deck, the cards that every player lacks, and counts the hands.
//!
//! The pockets are given as standard-deck masks; their bits are taken as they
//! stand as joker-deck cards, and so are the cards they exclude from the deck.
//! As for the stud variants, the counts that a sample adds depend on the variant
//! of the result being filled (see `comparison_of`).
use vstd::prelude::*;
use crate::enumdefs::{Game, ENUM_MAXPLAYERS};
use crate::enumerate::independent::{
    comparison_of_game, excluded_first, game_contrib, lemma_game_contrib_bound, lemma_needed_before_bound,
    lemma_needed_before_mono, low_contrib, needed, needed_before, not_enough_cards, not_enough_text,
};
use crate::enumerate::inner_loops::{
    joker_dealt, joker_low8_value, inner_loop_5draw, inner_loop_5draw8, inner_loop_5drawnsq,
    inner_loop_lowball,
};
use crate::enumerate::montecarlo::{deck_montecarlo_n_cards_joker, live_joker_cards, DrawSource};
use crate::enumerate::result::{
    counter, counts_plus, counts_room, hi_values, lo_values, sum_to, EnumResult, fits, added, zero_rows,
    lemma_can_merge_counts, lemma_merge_zero_shares,
};
use crate::enumerate::sampling::{
    high_contrib, hilo_contrib, lemma_counts_plus_same, lemma_sum_bound, lemma_sum_to_ext, zero_highs,
    zero_lows,
};
use crate::eval_joker::joker_eval_value;
use crate::eval_joker_low::joker_low_hand;
use crate::eval_low::{lowball_mask_value, low_rank_count};
use crate::errors::PokerError;
use crate::tables::{JokerDeckCardMask, StdDeckCardMask, joker_cards_below, joker_deck_card_masks_table};

verus! {

/// The cards of the joker-deck masks `s`, together.
pub open spec fn joker_or_masks(s: Seq<JokerDeckCardMask>) -> u64
    decreases s.len(),
{
    if s.len() == 0 {
        0
    } else {
        joker_or_masks(s.drop_last()) | s.last().cards_n
    }
}

/// The 53 single-card masks of the joker deck, in card-index order.
pub open spec fn joker_table() -> Seq<JokerDeckCardMask> {
    Seq::new(53, |k: int| JokerDeckCardMask { cards_n: 1u64 << (k as u64) })
}

/// The joker-deck cards that `excl`, read as a joker-deck mask, does not hold.
pub open spec fn joker_deck_left(excl: u64) -> Seq<JokerDeckCardMask> {
    joker_table().filter(|c: JokerDeckCardMask| c.cards_n & excl == 0)
}

/// `draw` is a draw of `k` of the cards of `live`, none taken more often than
/// `live` holds it.
pub open spec fn is_joker_draw(draw: Seq<JokerDeckCardMask>, live: Seq<JokerDeckCardMask>, k: nat) -> bool {
    &&& draw.len() == k
    &&& draw.to_multiset().subset_of(live.to_multiset())
}

/// The joker-deck hands of the first `n` players after the draw `draw`: each
/// pocket's bits with the cards it lacks, taken in turn from the draw.
pub open spec fn joker_dealt_hands(pockets: Seq<StdDeckCardMask>, target: nat, draw: Seq<JokerDeckCardMask>, n: int) -> Seq<u64> {
    Seq::new(
        n as nat,
        |i: int| {
            let start = needed_before(pockets, target, i);
            pockets[i].mask | joker_or_masks(draw.subrange(start as int, (start + needed(pockets, target, i)) as int))
        },
    )
}

/// `hands` are the hands of the first `n` players after some draw of the cards
/// they lack from `live`.
pub open spec fn joker_hands_from(hands: Seq<u64>, pockets: Seq<StdDeckCardMask>, target: nat, live: Seq<JokerDeckCardMask>, n: int) -> bool {
    exists|draw: Seq<JokerDeckCardMask>| #[trigger] is_joker_draw(draw, live, needed_before(pockets, target, n)) && hands == joker_dealt_hands(pockets, target, draw, n)
}

/// `new` is `old` with one sample counted on each of the deals `deals` (see
/// `deals_on`, here with joker-deck draws).
pub open spec fn joker_deals_on(
    new: EnumResult,
    old: EnumResult,
    deals: Seq<Seq<u64>>,
    live: Seq<JokerDeckCardMask>,
    pockets: Seq<StdDeckCardMask>,
    target: nat,
    n: int,
    niter: nat,
    gain: spec_fn(Seq<u64>, int, int) -> nat,
) -> bool {
    &&& deals.len() == (if needed_before(pockets, target, n) <= live.len() { niter } else { 0 })
    &&& forall|j: int| 0 <= j < deals.len() ==> joker_hands_from(#[trigger] deals[j], pockets, target, live, n)
    &&& new.nsamples == old.nsamples + deals.len()
    &&& forall|kind: int, i: int|
        0 <= kind < 7 && 0 <= i < 12 ==> #[trigger] counter(new, kind)[i] == if i < n {
            (counter(old, kind)[i] + sum_to(deals.len() as int, |j: int| gain(deals[j], i, kind))) as u32
        } else {
            counter(old, kind)[i]
        }
}

/// `new` is `old` with the samples of some deals counted (see `joker_deals_on`).
pub open spec fn joker_deals_counted(
    new: EnumResult,
    old: EnumResult,
    live: Seq<JokerDeckCardMask>,
    pockets: Seq<StdDeckCardMask>,
    target: nat,
    n: int,
    niter: nat,
    gain: spec_fn(Seq<u64>, int, int) -> nat,
) -> bool {
    exists|deals: Seq<Seq<u64>>| #[trigger] joker_deals_on(new, old, deals, live, pockets, target, n, niter, gain)
}

/// Every hand that a draw of the cards the players lack can give them has at
/// least two ranks of the ace-to-five low, the joker counted as its low card.
pub open spec fn joker_low_ready(pockets: Seq<StdDeckCardMask>, target: nat, live: Seq<JokerDeckCardMask>, n: int) -> bool {
    forall|draw: Seq<JokerDeckCardMask>, i: int|
        is_joker_draw(draw, live, needed_before(pockets, target, n)) && 0 <= i < n ==> low_rank_count(
            joker_low_hand(#[trigger] joker_dealt_hands(pockets, target, draw, n)[i]),
        ) >= 2
}

/// The high value of the whole joker-deck hand `m`, all its cards counted.
pub open spec fn draw_high(m: u64) -> u32 {
    joker_eval_value(m, joker_cards_below(m, 53).len() as int) as u32
}

/// The ace-to-five low of the joker-deck hand `m`.
pub open spec fn draw_low(m: u64) -> u32 {
    lowball_mask_value(joker_low_hand(m)) as u32
}

/// How the hands of a sample are evaluated.
#[derive(Clone, Copy)]
enum DrawGame {
    /// High only, low 0.
    Draw,
    /// High, and the eight-or-better low.
    Draw8,
    /// High, and the ace-to-five low.
    DrawNsq,
    /// The ace-to-five low only, high 0.
    Lowball,
}

spec fn draw_rule_high(rule: DrawGame, m: u64) -> u32 {
    match rule {
        DrawGame::Lowball => 0,
        _ => draw_high(m),
    }
}

spec fn draw_rule_low(rule: DrawGame, m: u64) -> u32 {
    match rule {
        DrawGame::Draw => 0,
        DrawGame::Draw8 => joker_low8_value(m) as u32,
        _ => draw_low(m),
    }
}

spec fn draw_rule_ready(rule: DrawGame, m: u64) -> bool {
    match rule {
        DrawGame::Draw => true,
        _ => low_rank_count(joker_low_hand(m)) >= 2,
    }
}

/// What a sample of hands `hands` adds under `rule`, in a result of variant
/// `game`, to the counts of kind `kind` of player `i` among `n`.
spec fn draw_contrib(rule: DrawGame, game: Game, hands: Seq<u64>, n: int, i: int, kind: int) -> nat {
    game_contrib(
        game,
        Seq::new(n as nat, |j: int| draw_rule_high(rule, hands[j])),
        Seq::new(n as nat, |j: int| draw_rule_low(rule, hands[j])),
        n,
        i,
        kind,
    )
}

spec fn draw_gain(rule: DrawGame, game: Game, hands: Seq<u64>, n: int) -> spec_fn(int, int) -> nat {
    |i: int, kind: int| draw_contrib(rule, game, hands, n, i, kind)
}

/// The masks of the hands of each deal.
pub open spec fn joker_deal_masks(deals: Seq<Vec<JokerDeckCardMask>>) -> Seq<Seq<u64>> {
    deals.map_values(|d: Vec<JokerDeckCardMask>| d@.map_values(|h: JokerDeckCardMask| h.cards_n))
}

spec fn draw_deals_gain(rule: DrawGame, game: Game, deals: Seq<Seq<u64>>, n: int, m: int) -> spec_fn(int, int) -> nat {
    |i: int, kind: int| sum_to(m, |j: int| draw_contrib(rule, game, deals[j], n, i, kind))
}

/// `n` joker-deck masks with no card.
fn empty_joker_masks(n: usize) -> (v: Vec<JokerDeckCardMask>)
    ensures
        v@.len() == n,
        forall|i: int| 0 <= i < n ==> (#[trigger] v@[i]).cards_n == 0,
{
    let mut v: Vec<JokerDeckCardMask> = Vec::new();
    let mut i: usize = 0;
    while i < n
        invariant
            i <= n,
            v@.len() == i,
            forall|x: int| 0 <= x < i ==> (#[trigger] v@[x]).cards_n == 0,
        decreases n - i,
    {
        v.push(JokerDeckCardMask { cards_n: 0 });
        i = i + 1;
    }
    v
}

/// The joker-deck cards that `excl` does not hold.
fn joker_deck_without(excl: u64) -> (deck: Vec<JokerDeckCardMask>)
    ensures
        deck@ == joker_deck_left(excl),
{
    let table = joker_deck_card_masks_table();
    let ghost pred = |c: JokerDeckCardMask| c.cards_n & excl == 0;
    proof {
        assert(table@ =~= joker_table());
    }
    let mut deck: Vec<JokerDeckCardMask> = Vec::new();
    let mut i: usize = 0;
    while i < table.len()
        invariant
            i <= table@.len(),
            table@ == joker_table(),
            pred == (|c: JokerDeckCardMask| c.cards_n & excl == 0),
            deck@ == table@.take(i as int).filter(pred),
        decreases table@.len() - i,
    {
        let card = table[i];
        proof {
            table@.take(i as int).lemma_filter_push(card, pred);
            assert(table@.take(i as int + 1) =~= table@.take(i as int).push(card));
        }
        if card.cards_n & excl == 0 {
            deck.push(card);
        }
        i = i + 1;
    }
    proof {
        assert(table@.take(table@.len() as int) =~= table@);
    }
    deck
}

/// The joker-deck hands of the first `npockets` players after the draw `draw`.
fn deal_joker_hands(pockets: &[StdDeckCardMask], needs: &Vec<usize>, draw: &Vec<JokerDeckCardMask>, npockets: usize, Ghost(target): Ghost<nat>) -> (hands: Vec<JokerDeckCardMask>)
    requires
        npockets <= pockets@.len(),
        needs@.len() == npockets,
        forall|i: int| 0 <= i < npockets ==> #[trigger] needs@[i] == needed(pockets@, target, i),
        draw@.len() == needed_before(pockets@, target, npockets as int),
    ensures
        hands@.map_values(|h: JokerDeckCardMask| h.cards_n) == joker_dealt_hands(pockets@, target, draw@, npockets as int),
        hands@.len() == npockets,
{
    let mut hands: Vec<JokerDeckCardMask> = Vec::new();
    let mut idx: usize = 0;
    let mut i: usize = 0;
    while i < npockets
        invariant
            i <= npockets,
            npockets <= pockets@.len(),
            needs@.len() == npockets,
            forall|x: int| 0 <= x < npockets ==> #[trigger] needs@[x] == needed(pockets@, target, x),
            draw@.len() == needed_before(pockets@, target, npockets as int),
            idx == needed_before(pockets@, target, i as int),
            hands@.len() == i,
            forall|x: int| 0 <= x < i ==> (#[trigger] hands@[x]).cards_n == joker_dealt_hands(pockets@, target, draw@, npockets as int)[x],
        decreases npockets - i,
    {
        proof {
            lemma_needed_before_mono(pockets@, target, i as int + 1, npockets as int);
        }
        let mut hand = pockets[i].mask;
        let start = idx;
        let need = needs[i];
        let dl = draw.len();
        proof {
            assert(draw@.subrange(start as int, start as int) =~= Seq::<JokerDeckCardMask>::empty());
            let a = pockets@[i as int].mask;
            assert(a | 0u64 == a) by (bit_vector);
        }
        let mut c: usize = 0;
        while c < need
            invariant
                dl == draw@.len(),
                c <= need,
                start == needed_before(pockets@, target, i as int),
                need == needed(pockets@, target, i as int),
                start + need <= draw@.len(),
                idx == start + c,
                hand == pockets@[i as int].mask | joker_or_masks(draw@.subrange(start as int, idx as int)),
            decreases need - c,
        {
            proof {
                assert(draw@.subrange(start as int, idx as int + 1).drop_last() =~= draw@.subrange(start as int, idx as int));
                let (a, b, d) = (pockets@[i as int].mask, joker_or_masks(draw@.subrange(start as int, idx as int)), draw@[idx as int].cards_n);
                assert((a | b) | d == a | (b | d)) by (bit_vector);
            }
            hand = hand | draw[idx].cards_n;
            idx = idx + 1;
            c = c + 1;
        }
        hands.push(JokerDeckCardMask { cards_n: hand });
        i = i + 1;
    }
    proof {
        assert(hands@.map_values(|h: JokerDeckCardMask| h.cards_n) =~= joker_dealt_hands(pockets@, target, draw@, npockets as int));
    }
    hands
}

impl EnumResult {
    /// Counts one sample of the joker-deck hands `hands` under `rule`, comparing
    /// them as the variant of this result asks.
    fn count_joker_hands(&mut self, rule: DrawGame, hands: &Vec<JokerDeckCardMask>, npockets: usize)
        requires
            npockets <= ENUM_MAXPLAYERS,
            hands@.len() == npockets,
            forall|i: int| 0 <= i < npockets ==> draw_rule_ready(rule, #[trigger] hands@[i].cards_n),
            old(self).nsamples < u32::MAX,
            counts_room(*old(self), npockets as int, draw_gain(rule, old(self).game, hands@.map_values(|h: JokerDeckCardMask| h.cards_n), npockets as int)),
        ensures
            final(self).game == old(self).game,
            final(self).sample_type == old(self).sample_type,
            final(self).nplayers == old(self).nplayers,
            final(self).nsharehi == old(self).nsharehi,
            final(self).nsharelo == old(self).nsharelo,
            final(self).nshare == old(self).nshare,
            final(self).ordering == old(self).ordering,
            final(self).nsamples == old(self).nsamples + 1,
            counts_plus(*final(self), *old(self), npockets as int, draw_gain(rule, old(self).game, hands@.map_values(|h: JokerDeckCardMask| h.cards_n), npockets as int)),
    {
        let ghost n = npockets as int;
        let ghost ms = hands@.map_values(|h: JokerDeckCardMask| h.cards_n);
        let ghost f = draw_gain(rule, self.game, ms, n);
        let ghost start = *self;
        let mut hival = zero_highs(npockets);
        let mut loval = zero_lows(npockets);
        let empties = empty_joker_masks(npockets);
        proof {
            assert forall|i: int| 0 <= i < npockets implies #[trigger] joker_dealt(hands@, empties@, i) == ms[i] by {
                let m = hands@[i].cards_n;
                assert(m | 0u64 == m) by (bit_vector);
            }
        }
        match rule {
            DrawGame::Draw => {
                let _ = inner_loop_5draw(hands.as_slice(), empties.as_slice(), hival.as_mut_slice(), loval.as_mut_slice());
            },
            DrawGame::Draw8 => {
                let _ = inner_loop_5draw8(hands.as_slice(), empties.as_slice(), hival.as_mut_slice(), loval.as_mut_slice());
            },
            DrawGame::DrawNsq => {
                let _ = inner_loop_5drawnsq(hands.as_slice(), empties.as_slice(), hival.as_mut_slice(), loval.as_mut_slice());
            },
            DrawGame::Lowball => {
                let _ = inner_loop_lowball(hands.as_slice(), empties.as_slice(), hival.as_mut_slice(), loval.as_mut_slice());
            },
        }
        let ghost hv = Seq::new(npockets as nat, |j: int| draw_rule_high(rule, ms[j]));
        let ghost lv = Seq::new(npockets as nat, |j: int| draw_rule_low(rule, ms[j]));
        proof {
            assert(hi_values(hival@) =~= hv);
            assert(lo_values(loval@) =~= lv);
        }
        if comparison_of_game(self.game) == 1 {
            proof {
                assert forall|i: int, kind: int| 0 <= kind < 7 && 0 <= i < n implies counter(*self, kind)[i]
                    + #[trigger] low_contrib(lo_values(loval@), n, i, kind) <= u32::MAX by {
                    assert(counter(*self, kind)[i] + f(i, kind) <= u32::MAX);
                }
            }
            self.add_low_sample(&loval, npockets);
            proof {
                lemma_counts_plus_same(*self, start, n, |i: int, kind: int| low_contrib(lo_values(loval@), n, i, kind), f);
            }
        } else if comparison_of_game(self.game) == 2 {
            proof {
                assert forall|i: int, kind: int| 0 <= kind < 7 && 0 <= i < n implies counter(*self, kind)[i]
                    + #[trigger] hilo_contrib(hi_values(hival@), lo_values(loval@), n, i, kind) <= u32::MAX by {
                    assert(counter(*self, kind)[i] + f(i, kind) <= u32::MAX);
                }
            }
            self.add_hilo_sample(&hival, &loval, npockets);
            proof {
                lemma_counts_plus_same(*self, start, n, |i: int, kind: int| hilo_contrib(hi_values(hival@), lo_values(loval@), n, i, kind), f);
            }
        } else {
            proof {
                assert forall|i: int, kind: int| 0 <= kind < 7 && 0 <= i < n implies counter(*self, kind)[i]
                    + #[trigger] high_contrib(hi_values(hival@), n, i, kind) <= u32::MAX by {
                    assert(counter(*self, kind)[i] + f(i, kind) <= u32::MAX);
                }
            }
            self.add_high_sample(&hival, npockets);
            proof {
                lemma_counts_plus_same(*self, start, n, |i: int, kind: int| high_contrib(hi_values(hival@), n, i, kind), f);
            }
        }
        let ghost pre = *self;
        self.nsamples = self.nsamples + 1;
        proof {
            assert forall|kind: int, i: int| 0 <= kind < 7 && 0 <= i < 12 implies #[trigger] counter(*self, kind)[i] == if i < n {
                (counter(*old(self), kind)[i] + f(i, kind)) as u32
            } else {
                counter(*old(self), kind)[i]
            } by {
                assert(counter(*self, kind) == counter(pre, kind));
            }
        }
    }
}

impl EnumResult {
    /// Counts one sample on each deal of `deals` under `rule`.
    fn count_joker_deals(&mut self, rule: DrawGame, deals: &Vec<Vec<JokerDeckCardMask>>, npockets: usize)
        requires
            npockets <= ENUM_MAXPLAYERS,
            forall|j: int| 0 <= j < deals@.len() ==> (#[trigger] deals@[j])@.len() == npockets,
            forall|j: int, i: int| 0 <= j < deals@.len() && 0 <= i < npockets ==> draw_rule_ready(rule, #[trigger] deals@[j]@[i].cards_n),
            old(self).nsamples + deals@.len() <= u32::MAX,
            forall|kind: int, i: int| 0 <= kind < 7 && 0 <= i < npockets ==> #[trigger] counter(*old(self), kind)[i] + deals@.len() * npockets <= u32::MAX,
        ensures
            final(self).game == old(self).game,
            final(self).sample_type == old(self).sample_type,
            final(self).nplayers == old(self).nplayers,
            final(self).nsharehi == old(self).nsharehi,
            final(self).nsharelo == old(self).nsharelo,
            final(self).nshare == old(self).nshare,
            final(self).ordering == old(self).ordering,
            final(self).nsamples == old(self).nsamples + deals@.len(),
            counts_plus(*final(self), *old(self), npockets as int, draw_deals_gain(rule, old(self).game, joker_deal_masks(deals@), npockets as int, deals@.len() as int)),
    {
        let ghost n = npockets as int;
        let ghost start = *self;
        let ghost len = deals@.len() as int;
        let ghost dm = joker_deal_masks(deals@);
        let mut t: usize = 0;
        proof {
            assert forall|kind: int, i: int| 0 <= kind < 7 && 0 <= i < 12 implies #[trigger] counter(*self, kind)[i] == if i < n {
                (counter(start, kind)[i] + draw_deals_gain(rule, start.game, dm, n, 0)(i, kind)) as u32
            } else {
                counter(start, kind)[i]
            } by {}
        }
        while t < deals.len()
            invariant
                t <= deals@.len(),
                len == deals@.len(),
                n == npockets,
                dm == joker_deal_masks(deals@),
                npockets <= ENUM_MAXPLAYERS,
                forall|j: int| 0 <= j < deals@.len() ==> (#[trigger] deals@[j])@.len() == npockets,
                forall|j: int, i: int| 0 <= j < deals@.len() && 0 <= i < npockets ==> draw_rule_ready(rule, #[trigger] deals@[j]@[i].cards_n),
                start.nsamples + deals@.len() <= u32::MAX,
                forall|kind: int, i: int| 0 <= kind < 7 && 0 <= i < npockets ==> #[trigger] counter(start, kind)[i] + deals@.len() * npockets <= u32::MAX,
                self.game == start.game,
                self.sample_type == start.sample_type,
                self.nplayers == start.nplayers,
                self.nsharehi == start.nsharehi,
                self.nsharelo == start.nsharelo,
                self.nshare == start.nshare,
                self.ordering == start.ordering,
                self.nsamples == start.nsamples + t,
                counts_plus(*self, start, n, draw_deals_gain(rule, start.game, dm, n, t as int)),
            decreases deals@.len() - t,
        {
            let ghost before = *self;
            let ghost g = draw_gain(rule, start.game, deals@[t as int]@.map_values(|h: JokerDeckCardMask| h.cards_n), n);
            let ghost total = draw_deals_gain(rule, start.game, dm, n, t as int);
            let ghost next = draw_deals_gain(rule, start.game, dm, n, t as int + 1);
            proof {
                assert(dm[t as int] == deals@[t as int]@.map_values(|h: JokerDeckCardMask| h.cards_n));
                assert forall|kind: int, i: int| 0 <= kind < 7 && 0 <= i < n implies counter(*self, kind)[i] + #[trigger] g(i, kind) <= u32::MAX by {
                    let h = |j: int| draw_contrib(rule, start.game, dm[j], n, i, kind);
                    assert forall|j: int| 0 <= j < t + 1 implies #[trigger] h(j) <= n by {
                        lemma_game_contrib_bound(
                            start.game,
                            Seq::new(n as nat, |x: int| draw_rule_high(rule, dm[j][x])),
                            Seq::new(n as nat, |x: int| draw_rule_low(rule, dm[j][x])),
                            n,
                            i,
                            kind,
                        );
                    }
                    lemma_sum_bound(t as int + 1, h, n);
                    assert(sum_to(t as int + 1, h) == sum_to(t as int, h) + h(t as int));
                    assert((t as int + 1) * n <= len * n) by (nonlinear_arith)
                        requires
                            t + 1 <= len,
                            0 <= n,
                    ;
                    assert(counter(start, kind)[i] + len * npockets <= u32::MAX);
                    assert(total(i, kind) == sum_to(t as int, h));
                    assert(counter(*self, kind)[i] == (counter(start, kind)[i] + total(i, kind)) as u32);
                    assert(g(i, kind) == h(t as int));
                }
                assert forall|i: int| 0 <= i < npockets implies draw_rule_ready(rule, #[trigger] deals@[t as int]@[i].cards_n) by {}
            }
            self.count_joker_hands(rule, &deals[t], npockets);
            proof {
                assert forall|kind: int, i: int| 0 <= kind < 7 && 0 <= i < 12 implies #[trigger] counter(*self, kind)[i] == if i < n {
                    (counter(start, kind)[i] + next(i, kind)) as u32
                } else {
                    counter(start, kind)[i]
                } by {
                    assert(counter(before, kind)[i] == if i < n { (counter(start, kind)[i] + total(i, kind)) as u32 } else { counter(start, kind)[i] });
                    assert(counter(*self, kind)[i] == if i < n { (counter(before, kind)[i] + g(i, kind)) as u32 } else { counter(before, kind)[i] });
                    if i < n {
                        let h = |j: int| draw_contrib(rule, start.game, dm[j], n, i, kind);
                        assert forall|j: int| 0 <= j < t + 1 implies #[trigger] h(j) <= n by {
                            lemma_game_contrib_bound(
                                start.game,
                                Seq::new(n as nat, |x: int| draw_rule_high(rule, dm[j][x])),
                                Seq::new(n as nat, |x: int| draw_rule_low(rule, dm[j][x])),
                                n,
                                i,
                                kind,
                            );
                        }
                        lemma_sum_bound(t as int + 1, h, n);
                        assert(sum_to(t as int + 1, h) == sum_to(t as int, h) + h(t as int));
                        assert((t as int + 1) * n <= len * n) by (nonlinear_arith)
                            requires
                                t + 1 <= len,
                                0 <= n,
                        ;
                        assert(counter(start, kind)[i] + len * npockets <= u32::MAX);
                        assert(total(i, kind) == sum_to(t as int, h));
                        assert(next(i, kind) == sum_to(t as int + 1, h));
                        assert(g(i, kind) == h(t as int));
                    }
                }
            }
            t = t + 1;
        }
    }
}

impl EnumResult {
    /// Counts `niter` random joker-deck deals under `rule`, each player's hand
    /// completed to `target` cards (see the public simulations).
    fn simulate_joker_game(
        &mut self,
        rule: DrawGame,
        pockets: &[StdDeckCardMask],
        dead: StdDeckCardMask,
        npockets: usize,
        target: usize,
        niter: usize,
        source: &DrawSource,
    ) -> (res: Result<(), PokerError>)
        requires
            target <= 7,
            npockets <= ENUM_MAXPLAYERS ==> npockets <= pockets@.len(),
            npockets <= ENUM_MAXPLAYERS && niter > 0 ==> {
                let live = live_joker_cards(joker_deck_left(excluded_first(pockets@, dead.mask, npockets as int)), 0);
                &&& forall|draw: Seq<JokerDeckCardMask>, i: int|
                    is_joker_draw(draw, live, needed_before(pockets@, target as nat, npockets as int)) && 0 <= i < npockets
                        ==> draw_rule_ready(rule, #[trigger] joker_dealt_hands(pockets@, target as nat, draw, npockets as int)[i])
                &&& old(self).nsamples + niter <= u32::MAX
                &&& forall|kind: int, i: int| 0 <= kind < 7 && 0 <= i < npockets ==> #[trigger] counter(*old(self), kind)[i] + niter * npockets <= u32::MAX
            },
        ensures
            npockets > ENUM_MAXPLAYERS ==> res == Err::<(), PokerError>(PokerError::TooManyPlayers) && *final(self) == *old(self),
            npockets <= ENUM_MAXPLAYERS && needed_before(pockets@, target as nat, npockets as int) > joker_deck_left(excluded_first(pockets@, dead.mask, npockets as int)).len() ==> {
                &&& res matches Err(e) && e matches PokerError::InvalidCardConfiguration(msg) && msg@ == not_enough_text(
                    needed_before(pockets@, target as nat, npockets as int),
                    joker_deck_left(excluded_first(pockets@, dead.mask, npockets as int)).len(),
                )
                &&& *final(self) == *old(self)
            },
            npockets <= ENUM_MAXPLAYERS && needed_before(pockets@, target as nat, npockets as int) <= joker_deck_left(excluded_first(pockets@, dead.mask, npockets as int)).len() ==> {
                &&& res is Ok
                &&& final(self).game == old(self).game
                &&& final(self).sample_type == old(self).sample_type
                &&& final(self).nplayers == old(self).nplayers
                &&& final(self).nsharehi == old(self).nsharehi
                &&& final(self).nsharelo == old(self).nsharelo
                &&& final(self).nshare == old(self).nshare
                &&& final(self).ordering == old(self).ordering
                &&& joker_deals_counted(*final(self), *old(self), live_joker_cards(joker_deck_left(excluded_first(pockets@, dead.mask, npockets as int)), 0),
                    pockets@, target as nat, npockets as int, niter as nat,
                    |hands: Seq<u64>, i: int, kind: int| draw_contrib(rule, old(self).game, hands, npockets as int, i, kind))
            },
    {
        if npockets > ENUM_MAXPLAYERS {
            return Err(PokerError::TooManyPlayers);
        }
        let ghost n = npockets as int;
        let ghost tg = target as nat;
        let mut excl = dead.mask;
        let mut needs: Vec<usize> = Vec::new();
        let mut total: usize = 0;
        let mut i: usize = 0;
        while i < npockets
            invariant
                i <= npockets,
                npockets <= ENUM_MAXPLAYERS,
                npockets <= pockets@.len(),
                target <= 7,
                tg == target,
                excl == excluded_first(pockets@, dead.mask, i as int),
                needs@.len() == i,
                forall|x: int| 0 <= x < i ==> #[trigger] needs@[x] == needed(pockets@, tg, x),
                total == needed_before(pockets@, tg, i as int),
            decreases npockets - i,
        {
            proof {
                lemma_needed_before_bound(pockets@, tg, i as int + 1);
                assert((i as int + 1) * tg <= 12 * 7) by (nonlinear_arith)
                    requires
                        i + 1 <= 12,
                        tg <= 7,
                ;
            }
            excl = excl | pockets[i].mask;
            let have = pockets[i].num_cards();
            let need = if have < target { target - have } else { 0 };
            needs.push(need);
            total = total + need;
            i = i + 1;
        }
        let deck = joker_deck_without(excl);
        if deck.len() < total {
            return Err(not_enough_cards(total, deck.len()));
        }
        let ghost live = live_joker_cards(deck@, 0);
        let draws = deck_montecarlo_n_cards_joker(deck.as_slice(), JokerDeckCardMask { cards_n: 0 }, total, niter, source);
        let mut deals: Vec<Vec<JokerDeckCardMask>> = Vec::new();
        let mut k: usize = 0;
        while k < draws.len()
            invariant
                k <= draws@.len(),
                npockets <= pockets@.len(),
                needs@.len() == npockets,
                forall|x: int| 0 <= x < npockets ==> #[trigger] needs@[x] == needed(pockets@, tg, x),
                total == needed_before(pockets@, tg, npockets as int),
                crate::enumerate::montecarlo::draws_of(draws@, live, total as nat, niter as nat),
                deals@.len() == k,
                forall|x: int| 0 <= x < k ==> (#[trigger] deals@[x])@.map_values(|h: JokerDeckCardMask| h.cards_n)
                    == joker_dealt_hands(pockets@, tg, draws@[x]@, npockets as int),
                forall|x: int| 0 <= x < k ==> (#[trigger] deals@[x])@.len() == npockets,
            decreases draws@.len() - k,
        {
            let hands = deal_joker_hands(pockets, &needs, &draws[k], npockets, Ghost(tg));
            deals.push(hands);
            k = k + 1;
        }
        let ghost dm = joker_deal_masks(deals@);
        proof {
            assert forall|x: int| 0 <= x < dm.len() implies joker_hands_from(#[trigger] dm[x], pockets@, tg, live, n) by {
                assert(draws@[x]@.len() == total && draws@[x]@.to_multiset().subset_of(live.to_multiset()));
                assert(is_joker_draw(draws@[x]@, live, needed_before(pockets@, tg, n)));
                assert(dm[x] == joker_dealt_hands(pockets@, tg, draws@[x]@, n));
            }
            if niter > 0 {
                assert forall|j: int, x: int| 0 <= j < deals@.len() && 0 <= x < npockets implies draw_rule_ready(rule, #[trigger] deals@[j]@[x].cards_n) by {
                    assert(is_joker_draw(draws@[j]@, live, needed_before(pockets@, tg, n)));
                    assert(deals@[j]@.map_values(|h: JokerDeckCardMask| h.cards_n)[x] == deals@[j]@[x].cards_n);
                    assert(draw_rule_ready(rule, joker_dealt_hands(pockets@, tg, draws@[j]@, n)[x]));
                }
            }
        }
        let mut local = EnumResult::new(self.game);
        local.nplayers = npockets as u32;
        proof {
            assert forall|kind: int, x: int| 0 <= kind < 7 && 0 <= x < npockets implies #[trigger] counter(local, kind)[x] + deals@.len() * npockets <= u32::MAX by {
                assert(counter(local, kind)[x] == 0);
                assert(deals@.len() * npockets <= niter * npockets) by (nonlinear_arith)
                    requires
                        deals@.len() <= niter,
                ;
                assert(counter(*self, kind)[x] + niter * npockets <= u32::MAX);
            }
        }
        let ghost zero = local;
        local.count_joker_deals(rule, &deals, npockets);
        let ghost sums = draw_deals_gain(rule, zero.game, dm, n, deals@.len() as int);
        proof {
            assert forall|kind: int| 0 <= kind < 7 implies fits(#[trigger] counter(*self, kind), counter(local, kind)) by {
                assert forall|x: int| 0 <= x < counter(*self, kind).len() && x < counter(local, kind).len() implies #[trigger] counter(*self, kind)[x]
                    + counter(local, kind)[x] <= u32::MAX by {
                    assert(counter(zero, kind)[x] == 0);
                    if x < n {
                        let h = |j: int| draw_contrib(rule, zero.game, dm[j], n, x, kind);
                        assert forall|j: int| 0 <= j < deals@.len() implies #[trigger] h(j) <= n by {
                            lemma_game_contrib_bound(
                                zero.game,
                                Seq::new(n as nat, |y: int| draw_rule_high(rule, dm[j][y])),
                                Seq::new(n as nat, |y: int| draw_rule_low(rule, dm[j][y])),
                                n,
                                x,
                                kind,
                            );
                        }
                        lemma_sum_bound(deals@.len() as int, h, n);
                        assert(deals@.len() * npockets <= niter * npockets) by (nonlinear_arith)
                            requires
                                deals@.len() <= niter,
                        ;
                        assert(counter(*self, kind)[x] + niter * npockets <= u32::MAX);
                        assert(sums(x, kind) == sum_to(deals@.len() as int, h));
                    }
                }
            }
            assert(zero_rows(local.nsharehi@));
            lemma_can_merge_counts(*self, local);
        }
        let ghost pre = *self;
        self.merge(&local);
        proof {
            lemma_merge_zero_shares(*self, pre, local);
            assert(self.nsharehi@ =~= pre.nsharehi@);
            let gain = |hands: Seq<u64>, x: int, kind: int| draw_contrib(rule, old(self).game, hands, n, x, kind);
            assert forall|kind: int, x: int| 0 <= kind < 7 && 0 <= x < 12 implies #[trigger] counter(*self, kind)[x] == if x < n {
                (counter(*old(self), kind)[x] + sum_to(dm.len() as int, |j: int| gain(dm[j], x, kind))) as u32
            } else {
                counter(*old(self), kind)[x]
            } by {
                assert(added(counter(*self, kind), counter(pre, kind), counter(local, kind)));
                assert(counter(zero, kind)[x] == 0);
                if x < n {
                    let h = |j: int| draw_contrib(rule, zero.game, dm[j], n, x, kind);
                    lemma_sum_to_ext(dm.len() as int, h, |j: int| gain(dm[j], x, kind));
                    assert(sums(x, kind) == sum_to(deals@.len() as int, h));
                    assert forall|j: int| 0 <= j < deals@.len() implies #[trigger] h(j) <= n by {
                        lemma_game_contrib_bound(
                            zero.game,
                            Seq::new(n as nat, |y: int| draw_rule_high(rule, dm[j][y])),
                            Seq::new(n as nat, |y: int| draw_rule_low(rule, dm[j][y])),
                            n,
                            x,
                            kind,
                        );
                    }
                    lemma_sum_bound(deals@.len() as int, h, n);
                    assert(deals@.len() * npockets <= niter * npockets) by (nonlinear_arith)
                        requires
                            deals@.len() <= niter,
                    ;
                    assert(counter(pre, kind)[x] + niter * npockets <= u32::MAX);
                }
            }
            assert(joker_deals_on(*self, *old(self), dm, live, pockets@, tg, n, niter as nat, gain));
        }
        Ok(())
    }
}

/// Deals counted with a gain are counted with any gain equal to it.
pub(crate) proof fn lemma_joker_deals_counted_same(
    new: EnumResult,
    old: EnumResult,
    live: Seq<JokerDeckCardMask>,
    pockets: Seq<StdDeckCardMask>,
    target: nat,
    n: int,
    niter: nat,
    g1: spec_fn(Seq<u64>, int, int) -> nat,
    g2: spec_fn(Seq<u64>, int, int) -> nat,
)
    requires
        joker_deals_counted(new, old, live, pockets, target, n, niter, g1),
        forall|h: Seq<u64>, i: int, kind: int| #[trigger] g1(h, i, kind) == g2(h, i, kind),
    ensures
        joker_deals_counted(new, old, live, pockets, target, n, niter, g2),
{
    let deals = choose|deals: Seq<Seq<u64>>| #[trigger] joker_deals_on(new, old, deals, live, pockets, target, n, niter, g1);
    assert forall|kind: int, i: int| 0 <= kind < 7 && 0 <= i < 12 implies #[trigger] counter(new, kind)[i] == if i < n {
        (counter(old, kind)[i] + sum_to(deals.len() as int, |j: int| g2(deals[j], i, kind))) as u32
    } else {
        counter(old, kind)[i]
    } by {
        lemma_sum_to_ext(deals.len() as int, |j: int| g1(deals[j], i, kind), |j: int| g2(deals[j], i, kind));
    }
    assert(joker_deals_on(new, old, deals, live, pockets, target, n, niter, g2));
}

impl EnumResult {
    /// Counts random deals of five-card draw with the joker, high hands only.
    ///
    /// Each of the `niter` samples completes the hand of each of the first
    /// `npockets` players to five cards with joker-deck cards drawn at random from
    /// those that neither `dead` nor one of these pockets holds (read as joker-deck
    /// masks), and counts the hands as the variant of this result compares them
    /// (see `comparison_of`). More players than `ENUM_MAXPLAYERS` is an error; so is
    /// a deck with fewer cards left than the players lack; nothing changes then.
    /// The cards of the deals come from `source` (see `draw_cards`).
    pub fn simulate_draw_game(&mut self, pockets: &[StdDeckCardMask], dead: StdDeckCardMask, npockets: usize, niter: usize, source: &DrawSource) -> (res: Result<(), PokerError>)
        requires
            npockets <= ENUM_MAXPLAYERS ==> npockets <= pockets@.len(),
            npockets <= ENUM_MAXPLAYERS && niter > 0 ==> {
                &&& old(self).nsamples + niter <= u32::MAX
                &&& forall|kind: int, i: int| 0 <= kind < 7 && 0 <= i < npockets ==> #[trigger] counter(*old(self), kind)[i] + niter * npockets <= u32::MAX
            },
        ensures
            npockets > ENUM_MAXPLAYERS ==> res == Err::<(), PokerError>(PokerError::TooManyPlayers) && *final(self) == *old(self),
            npockets <= ENUM_MAXPLAYERS && needed_before(pockets@, 5, npockets as int) > joker_deck_left(excluded_first(pockets@, dead.mask, npockets as int)).len() ==> {
                &&& res matches Err(e) && e matches PokerError::InvalidCardConfiguration(msg) && msg@ == not_enough_text(
                    needed_before(pockets@, 5, npockets as int),
                    joker_deck_left(excluded_first(pockets@, dead.mask, npockets as int)).len(),
                )
                &&& *final(self) == *old(self)
            },
            npockets <= ENUM_MAXPLAYERS && needed_before(pockets@, 5, npockets as int) <= joker_deck_left(excluded_first(pockets@, dead.mask, npockets as int)).len() ==> {
                &&& res is Ok
                &&& final(self).game == old(self).game
                &&& final(self).sample_type == old(self).sample_type
                &&& final(self).nplayers == old(self).nplayers
                &&& final(self).nsharehi == old(self).nsharehi
                &&& final(self).nsharelo == old(self).nsharelo
                &&& final(self).nshare == old(self).nshare
                &&& final(self).ordering == old(self).ordering
                &&& joker_deals_counted(*final(self), *old(self), live_joker_cards(joker_deck_left(excluded_first(pockets@, dead.mask, npockets as int)), 0),
                    pockets@, 5, npockets as int, niter as nat,
                    |hands: Seq<u64>, i: int, kind: int| game_contrib(old(self).game, Seq::new(npockets as nat, |j: int| draw_high(hands[j])), Seq::new(npockets as nat, |j: int| 0u32), npockets as int, i, kind))
            },
    {
        proof {
        }
        let res = self.simulate_joker_game(DrawGame::Draw, pockets, dead, npockets, 5, niter, source);
        proof {
            if npockets <= ENUM_MAXPLAYERS && needed_before(pockets@, 5, npockets as int) <= joker_deck_left(excluded_first(pockets@, dead.mask, npockets as int)).len() {
                let g1 = |hands: Seq<u64>, i: int, kind: int| draw_contrib(DrawGame::Draw, old(self).game, hands, npockets as int, i, kind);
                let g2 = |hands: Seq<u64>, i: int, kind: int| game_contrib(old(self).game, Seq::new(npockets as nat, |j: int| draw_high(hands[j])), Seq::new(npockets as nat, |j: int| 0u32), npockets as int, i, kind);
                assert forall|hands: Seq<u64>, i: int, kind: int| #[trigger] g1(hands, i, kind) == g2(hands, i, kind) by {
                    assert(Seq::new(npockets as nat, |j: int| draw_rule_high(DrawGame::Draw, hands[j])) =~= Seq::new(npockets as nat, |j: int| draw_high(hands[j])));
                    assert(Seq::new(npockets as nat, |j: int| draw_rule_low(DrawGame::Draw, hands[j])) =~= Seq::new(npockets as nat, |j: int| 0u32));
                }
                lemma_joker_deals_counted_same(*self, *old(self), live_joker_cards(joker_deck_left(excluded_first(pockets@, dead.mask, npockets as int)), 0),
                    pockets@, 5, npockets as int, niter as nat, g1, g2);
            }
        }
        res
    }

    /// Counts random deals of five-card draw high-low, eight-or-better, with the joker.
    ///
    /// Each of the `niter` samples completes the hand of each of the first
    /// `npockets` players to five cards with joker-deck cards drawn at random from
    /// those that neither `dead` nor one of these pockets holds (read as joker-deck
    /// masks), and counts the hands as the variant of this result compares them
    /// (see `comparison_of`). More players than `ENUM_MAXPLAYERS` is an error; so is
    /// a deck with fewer cards left than the players lack; nothing changes then.
    /// The cards of the deals come from `source` (see `draw_cards`).
    pub fn simulate_draw8_game(&mut self, pockets: &[StdDeckCardMask], dead: StdDeckCardMask, npockets: usize, niter: usize, source: &DrawSource) -> (res: Result<(), PokerError>)
        requires
            npockets <= ENUM_MAXPLAYERS ==> npockets <= pockets@.len(),
            npockets <= ENUM_MAXPLAYERS && niter > 0 ==> {
                &&& joker_low_ready(pockets@, 5, live_joker_cards(joker_deck_left(excluded_first(pockets@, dead.mask, npockets as int)), 0), npockets as int)
                &&& old(self).nsamples + niter <= u32::MAX
                &&& forall|kind: int, i: int| 0 <= kind < 7 && 0 <= i < npockets ==> #[trigger] counter(*old(self), kind)[i] + niter * npockets <= u32::MAX
            },
        ensures
            npockets > ENUM_MAXPLAYERS ==> res == Err::<(), PokerError>(PokerError::TooManyPlayers) && *final(self) == *old(self),
            npockets <= ENUM_MAXPLAYERS && needed_before(pockets@, 5, npockets as int) > joker_deck_left(excluded_first(pockets@, dead.mask, npockets as int)).len() ==> {
                &&& res matches Err(e) && e matches PokerError::InvalidCardConfiguration(msg) && msg@ == not_enough_text(
                    needed_before(pockets@, 5, npockets as int),
                    joker_deck_left(excluded_first(pockets@, dead.mask, npockets as int)).len(),
                )
                &&& *final(self) == *old(self)
            },
            npockets <= ENUM_MAXPLAYERS && needed_before(pockets@, 5, npockets as int) <= joker_deck_left(excluded_first(pockets@, dead.mask, npockets as int)).len() ==> {
                &&& res is Ok
                &&& final(self).game == old(self).game
                &&& final(self).sample_type == old(self).sample_type
                &&& final(self).nplayers == old(self).nplayers
                &&& final(self).nsharehi == old(self).nsharehi
                &&& final(self).nsharelo == old(self).nsharelo
                &&& final(self).nshare == old(self).nshare
                &&& final(self).ordering == old(self).ordering
                &&& joker_deals_counted(*final(self), *old(self), live_joker_cards(joker_deck_left(excluded_first(pockets@, dead.mask, npockets as int)), 0),
                    pockets@, 5, npockets as int, niter as nat,
                    |hands: Seq<u64>, i: int, kind: int| game_contrib(old(self).game, Seq::new(npockets as nat, |j: int| draw_high(hands[j])), Seq::new(npockets as nat, |j: int| joker_low8_value(hands[j]) as u32), npockets as int, i, kind))
            },
    {
        proof {
            if npockets <= ENUM_MAXPLAYERS && niter > 0 {
                let live = live_joker_cards(joker_deck_left(excluded_first(pockets@, dead.mask, npockets as int)), 0);
                assert forall|draw: Seq<JokerDeckCardMask>, i: int|
                    is_joker_draw(draw, live, needed_before(pockets@, 5 as nat, npockets as int)) && 0 <= i < npockets
                        implies draw_rule_ready(DrawGame::Draw8, #[trigger] joker_dealt_hands(pockets@, 5 as nat, draw, npockets as int)[i]) by {
                    assert(low_rank_count(joker_low_hand(joker_dealt_hands(pockets@, 5, draw, npockets as int)[i])) >= 2);
                }
            }
        }
        let res = self.simulate_joker_game(DrawGame::Draw8, pockets, dead, npockets, 5, niter, source);
        proof {
            if npockets <= ENUM_MAXPLAYERS && needed_before(pockets@, 5, npockets as int) <= joker_deck_left(excluded_first(pockets@, dead.mask, npockets as int)).len() {
                let g1 = |hands: Seq<u64>, i: int, kind: int| draw_contrib(DrawGame::Draw8, old(self).game, hands, npockets as int, i, kind);
                let g2 = |hands: Seq<u64>, i: int, kind: int| game_contrib(old(self).game, Seq::new(npockets as nat, |j: int| draw_high(hands[j])), Seq::new(npockets as nat, |j: int| joker_low8_value(hands[j]) as u32), npockets as int, i, kind);
                assert forall|hands: Seq<u64>, i: int, kind: int| #[trigger] g1(hands, i, kind) == g2(hands, i, kind) by {
                    assert(Seq::new(npockets as nat, |j: int| draw_rule_high(DrawGame::Draw8, hands[j])) =~= Seq::new(npockets as nat, |j: int| draw_high(hands[j])));
                    assert(Seq::new(npockets as nat, |j: int| draw_rule_low(DrawGame::Draw8, hands[j])) =~= Seq::new(npockets as nat, |j: int| joker_low8_value(hands[j]) as u32));
                }
                lemma_joker_deals_counted_same(*self, *old(self), live_joker_cards(joker_deck_left(excluded_first(pockets@, dead.mask, npockets as int)), 0),
                    pockets@, 5, npockets as int, niter as nat, g1, g2);
            }
        }
        res
    }

    /// Counts random deals of five-card draw high-low without qualifier, with the joker.
    ///
    /// Each of the `niter` samples completes the hand of each of the first
    /// `npockets` players to five cards with joker-deck cards drawn at random from
    /// those that neither `dead` nor one of these pockets holds (read as joker-deck
    /// masks), and counts the hands as the variant of this result compares them
    /// (see `comparison_of`). More players than `ENUM_MAXPLAYERS` is an error; so is
    /// a deck with fewer cards left than the players lack; nothing changes then.
    /// The cards of the deals come from `source` (see `draw_cards`).
    pub fn simulate_drawnsq_game(&mut self, pockets: &[StdDeckCardMask], dead: StdDeckCardMask, npockets: usize, niter: usize, source: &DrawSource) -> (res: Result<(), PokerError>)
        requires
            npockets <= ENUM_MAXPLAYERS ==> npockets <= pockets@.len(),
            npockets <= ENUM_MAXPLAYERS && niter > 0 ==> {
                &&& joker_low_ready(pockets@, 5, live_joker_cards(joker_deck_left(excluded_first(pockets@, dead.mask, npockets as int)), 0), npockets as int)
                &&& old(self).nsamples + niter <= u32::MAX
                &&& forall|kind: int, i: int| 0 <= kind < 7 && 0 <= i < npockets ==> #[trigger] counter(*old(self), kind)[i] + niter * npockets <= u32::MAX
            },
        ensures
            npockets > ENUM_MAXPLAYERS ==> res == Err::<(), PokerError>(PokerError::TooManyPlayers) && *final(self) == *old(self),
            npockets <= ENUM_MAXPLAYERS && needed_before(pockets@, 5, npockets as int) > joker_deck_left(excluded_first(pockets@, dead.mask, npockets as int)).len() ==> {
                &&& res matches Err(e) && e matches PokerError::InvalidCardConfiguration(msg) && msg@ == not_enough_text(
                    needed_before(pockets@, 5, npockets as int),
                    joker_deck_left(excluded_first(pockets@, dead.mask, npockets as int)).len(),
                )
                &&& *final(self) == *old(self)
            },
            npockets <= ENUM_MAXPLAYERS && needed_before(pockets@, 5, npockets as int) <= joker_deck_left(excluded_first(pockets@, dead.mask, npockets as int)).len() ==> {
                &&& res is Ok
                &&& final(self).game == old(self).game
                &&& final(self).sample_type == old(self).sample_type
                &&& final(self).nplayers == old(self).nplayers
                &&& final(self).nsharehi == old(self).nsharehi
                &&& final(self).nsharelo == old(self).nsharelo
                &&& final(self).nshare == old(self).nshare
                &&& final(self).ordering == old(self).ordering
                &&& joker_deals_counted(*final(self), *old(self), live_joker_cards(joker_deck_left(excluded_first(pockets@, dead.mask, npockets as int)), 0),
                    pockets@, 5, npockets as int, niter as nat,
                    |hands: Seq<u64>, i: int, kind: int| game_contrib(old(self).game, Seq::new(npockets as nat, |j: int| draw_high(hands[j])), Seq::new(npockets as nat, |j: int| draw_low(hands[j])), npockets as int, i, kind))
            },
    {
        proof {
            if npockets <= ENUM_MAXPLAYERS && niter > 0 {
                let live = live_joker_cards(joker_deck_left(excluded_first(pockets@, dead.mask, npockets as int)), 0);
                assert forall|draw: Seq<JokerDeckCardMask>, i: int|
                    is_joker_draw(draw, live, needed_before(pockets@, 5 as nat, npockets as int)) && 0 <= i < npockets
                        implies draw_rule_ready(DrawGame::DrawNsq, #[trigger] joker_dealt_hands(pockets@, 5 as nat, draw, npockets as int)[i]) by {
                    assert(low_rank_count(joker_low_hand(joker_dealt_hands(pockets@, 5, draw, npockets as int)[i])) >= 2);
                }
            }
        }
        let res = self.simulate_joker_game(DrawGame::DrawNsq, pockets, dead, npockets, 5, niter, source);
        proof {
            if npockets <= ENUM_MAXPLAYERS && needed_before(pockets@, 5, npockets as int) <= joker_deck_left(excluded_first(pockets@, dead.mask, npockets as int)).len() {
                let g1 = |hands: Seq<u64>, i: int, kind: int| draw_contrib(DrawGame::DrawNsq, old(self).game, hands, npockets as int, i, kind);
                let g2 = |hands: Seq<u64>, i: int, kind: int| game_contrib(old(self).game, Seq::new(npockets as nat, |j: int| draw_high(hands[j])), Seq::new(npockets as nat, |j: int| draw_low(hands[j])), npockets as int, i, kind);
                assert forall|hands: Seq<u64>, i: int, kind: int| #[trigger] g1(hands, i, kind) == g2(hands, i, kind) by {
                    assert(Seq::new(npockets as nat, |j: int| draw_rule_high(DrawGame::DrawNsq, hands[j])) =~= Seq::new(npockets as nat, |j: int| draw_high(hands[j])));
                    assert(Seq::new(npockets as nat, |j: int| draw_rule_low(DrawGame::DrawNsq, hands[j])) =~= Seq::new(npockets as nat, |j: int| draw_low(hands[j])));
                }
                lemma_joker_deals_counted_same(*self, *old(self), live_joker_cards(joker_deck_left(excluded_first(pockets@, dead.mask, npockets as int)), 0),
                    pockets@, 5, npockets as int, niter as nat, g1, g2);
            }
        }
        res
    }

    /// Counts random deals of ace-to-five lowball with the joker.
    ///
    /// Each of the `niter` samples completes the hand of each of the first
    /// `npockets` players to five cards with joker-deck cards drawn at random from
    /// those that neither `dead` nor one of these pockets holds (read as joker-deck
    /// masks), and counts the hands as the variant of this result compares them
    /// (see `comparison_of`). More players than `ENUM_MAXPLAYERS` is an error; so is
    /// a deck with fewer cards left than the players lack; nothing changes then.
    /// The cards of the deals come from `source` (see `draw_cards`).
    pub fn simulate_lowball_game(&mut self, pockets: &[StdDeckCardMask], dead: StdDeckCardMask, npockets: usize, niter: usize, source: &DrawSource) -> (res: Result<(), PokerError>)
        requires
            npockets <= ENUM_MAXPLAYERS ==> npockets <= pockets@.len(),
            npockets <= ENUM_MAXPLAYERS && niter > 0 ==> {
                &&& joker_low_ready(pockets@, 5, live_joker_cards(joker_deck_left(excluded_first(pockets@, dead.mask, npockets as int)), 0), npockets as int)
                &&& old(self).nsamples + niter <= u32::MAX
                &&& forall|kind: int, i: int| 0 <= kind < 7 && 0 <= i < npockets ==> #[trigger] counter(*old(self), kind)[i] + niter * npockets <= u32::MAX
            },
        ensures
            npockets > ENUM_MAXPLAYERS ==> res == Err::<(), PokerError>(PokerError::TooManyPlayers) && *final(self) == *old(self),
            npockets <= ENUM_MAXPLAYERS && needed_before(pockets@, 5, npockets as int) > joker_deck_left(excluded_first(pockets@, dead.mask, npockets as int)).len() ==> {
                &&& res matches Err(e) && e matches PokerError::InvalidCardConfiguration(msg) && msg@ == not_enough_text(
                    needed_before(pockets@, 5, npockets as int),
                    joker_deck_left(excluded_first(pockets@, dead.mask, npockets as int)).len(),
                )
                &&& *final(self) == *old(self)
            },
            npockets <= ENUM_MAXPLAYERS && needed_before(pockets@, 5, npockets as int) <= joker_deck_left(excluded_first(pockets@, dead.mask, npockets as int)).len() ==> {
                &&& res is Ok
                &&& final(self).game == old(self).game
                &&& final(self).sample_type == old(self).sample_type
                &&& final(self).nplayers == old(self).nplayers
                &&& final(self).nsharehi == old(self).nsharehi
                &&& final(self).nsharelo == old(self).nsharelo
                &&& final(self).nshare == old(self).nshare
                &&& final(self).ordering == old(self).ordering
                &&& joker_deals_counted(*final(self), *old(self), live_joker_cards(joker_deck_left(excluded_first(pockets@, dead.mask, npockets as int)), 0),
                    pockets@, 5, npockets as int, niter as nat,
                    |hands: Seq<u64>, i: int, kind: int| game_contrib(old(self).game, Seq::new(npockets as nat, |j: int| 0u32), Seq::new(npockets as nat, |j: int| draw_low(hands[j])), npockets as int, i, kind))
            },
    {
        proof {
            if npockets <= ENUM_MAXPLAYERS && niter > 0 {
                let live = live_joker_cards(joker_deck_left(excluded_first(pockets@, dead.mask, npockets as int)), 0);
                assert forall|draw: Seq<JokerDeckCardMask>, i: int|
                    is_joker_draw(draw, live, needed_before(pockets@, 5 as nat, npockets as int)) && 0 <= i < npockets
                        implies draw_rule_ready(DrawGame::Lowball, #[trigger] joker_dealt_hands(pockets@, 5 as nat, draw, npockets as int)[i]) by {
                    assert(low_rank_count(joker_low_hand(joker_dealt_hands(pockets@, 5, draw, npockets as int)[i])) >= 2);
                }
            }
        }
        let res = self.simulate_joker_game(DrawGame::Lowball, pockets, dead, npockets, 5, niter, source);
        proof {
            if npockets <= ENUM_MAXPLAYERS && needed_before(pockets@, 5, npockets as int) <= joker_deck_left(excluded_first(pockets@, dead.mask, npockets as int)).len() {
                let g1 = |hands: Seq<u64>, i: int, kind: int| draw_contrib(DrawGame::Lowball, old(self).game, hands, npockets as int, i, kind);
                let g2 = |hands: Seq<u64>, i: int, kind: int| game_contrib(old(self).game, Seq::new(npockets as nat, |j: int| 0u32), Seq::new(npockets as nat, |j: int| draw_low(hands[j])), npockets as int, i, kind);
                assert forall|hands: Seq<u64>, i: int, kind: int| #[trigger] g1(hands, i, kind) == g2(hands, i, kind) by {
                    assert(Seq::new(npockets as nat, |j: int| draw_rule_high(DrawGame::Lowball, hands[j])) =~= Seq::new(npockets as nat, |j: int| 0u32));
                    assert(Seq::new(npockets as nat, |j: int| draw_rule_low(DrawGame::Lowball, hands[j])) =~= Seq::new(npockets as nat, |j: int| draw_low(hands[j])));
                }
                lemma_joker_deals_counted_same(*self, *old(self), live_joker_cards(joker_deck_left(excluded_first(pockets@, dead.mask, npockets as int)), 0),
                    pockets@, 5, npockets as int, niter as nat, g1, g2);
            }
        }
        res
    }
}

} // verus!

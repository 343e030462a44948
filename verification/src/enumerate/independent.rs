//! Monte Carlo evaluation of the variants where each player's hand is completed
//! on its own (stud, razz, deuce-to-seven): each sample draws, from the live
//! cards, the cards that every player lacks, and counts the hands.
//!
//! The counts that a sample adds depend on the variant of the result being
//! filled: a low variant compares lows, a high-low variant both, any other the
//! high hands.
use vstd::prelude::*;
use crate::enumdefs::{Game, ENUM_MAXPLAYERS};
use crate::enumerate::inner_loops::{
    dealt, inner_loop_7stud, inner_loop_7studnsq, inner_loop_lowball27, inner_loop_razz,
};
use crate::enumerate::montecarlo::{deck_montecarlo_n_cards_d, live_std_cards, DrawSource};
use crate::enumerate::result::{
    above, below, counter, counts_plus, counts_room, hi_values, level, lo_values, or_masks, sum_to, EnumResult,
    fits, added, zero_rows, lemma_can_merge_counts, lemma_merge_zero_shares, live_deck, live_masks,
};
use crate::enumerate::sampling::{
    high_contrib, hilo_contrib, is_draw, lemma_count_bound_all, lemma_counts_plus_same, lemma_sum_bound,
    lemma_sum_to_ext, zero_highs, zero_lows,
};
use crate::errors::PokerError;
use crate::text::{decimal, push_decimal, push_str};
use crate::eval::{Eval, eval_mask_value, lemma_rank_count_le_cards};
use crate::eval_low::{lowball_mask_value, low_rank_count};
use crate::eval_low27::lowball27_mask_value;
use crate::eval_low8::{lowball8_value, std_deck_lowball8_eval};
use crate::handval::LowHandVal;
use crate::tables::{StdDeckCardMask, cards_of};

verus! {

/// What a sample adds to the counts of kind `kind` of player `i` among `n`, when
/// only the lows `v` are compared (smaller wins): nothing with fewer than two
/// players.
pub open spec fn low_contrib(v: Seq<u32>, n: int, i: int, kind: int) -> nat {
    if n <= 1 {
        0
    } else if kind == 3 {
        below(v, i, n)
    } else if kind == 4 {
        level(v, i, n)
    } else if kind == 5 {
        above(v, i, n)
    } else {
        0
    }
}

/// How a result of variant `game` compares the hands of a sample: 1 the lows
/// only, 2 highs and lows, 0 the highs only.
pub open spec fn comparison_of(game: Game) -> int {
    match game {
        Game::Razz | Game::Lowball | Game::Lowball27 => 1,
        Game::Stud78 | Game::Stud7nsq | Game::Omaha8 | Game::Omaha85 | Game::Draw58 | Game::Draw5nsq => 2,
        _ => 0,
    }
}

/// What a sample with high values `h` and lows `v` adds, in a result of variant
/// `game`, to the counts of kind `kind` of player `i` among `n`.
pub open spec fn game_contrib(game: Game, h: Seq<u32>, v: Seq<u32>, n: int, i: int, kind: int) -> nat {
    if comparison_of(game) == 1 {
        low_contrib(v, n, i, kind)
    } else if comparison_of(game) == 2 {
        hilo_contrib(h, v, n, i, kind)
    } else {
        high_contrib(h, n, i, kind)
    }
}

/// The high value of the whole hand `m`, all its cards counted.
pub open spec fn stud_high(m: u64) -> u32 {
    eval_mask_value(m, cards_of(m).len() as int) as u32
}

/// How the hands of a sample are evaluated.
#[derive(Clone, Copy)]
enum HandRule {
    /// High only, low 0.
    Stud,
    /// High, and the eight-or-better low.
    Stud8,
    /// High, and the ace-to-five low.
    StudNsq,
    /// The ace-to-five low only, high 0.
    Razz,
    /// The deuce-to-seven low only, high 0.
    Deuce,
}

/// The high value that `rule` gives the hand `m`.
spec fn rule_high(rule: HandRule, m: u64) -> u32 {
    match rule {
        HandRule::Razz | HandRule::Deuce => 0,
        _ => stud_high(m),
    }
}

/// The low value that `rule` gives the hand `m`.
spec fn rule_low(rule: HandRule, m: u64) -> u32 {
    match rule {
        HandRule::Stud => 0,
        HandRule::Stud8 => lowball8_value(m) as u32,
        HandRule::StudNsq | HandRule::Razz => lowball_mask_value(m) as u32,
        HandRule::Deuce => lowball27_mask_value(m, cards_of(m).len() as int) as u32,
    }
}

/// What the evaluations of `rule` need of the hand `m`.
spec fn rule_ready(rule: HandRule, m: u64) -> bool {
    match rule {
        HandRule::StudNsq | HandRule::Razz => low_rank_count(m) >= 2,
        _ => true,
    }
}

/// What a sample of hands `hands` adds under `rule`, in a result of variant
/// `game`, to the counts of kind `kind` of player `i` among `n`.
spec fn hands_contrib(rule: HandRule, game: Game, hands: Seq<u64>, n: int, i: int, kind: int) -> nat {
    game_contrib(
        game,
        Seq::new(n as nat, |j: int| rule_high(rule, hands[j])),
        Seq::new(n as nat, |j: int| rule_low(rule, hands[j])),
        n,
        i,
        kind,
    )
}

/// What a sample of hands `hands` adds under `rule`, in a result of variant
/// `game`, to the counts of each kind and player.
spec fn hands_gain(rule: HandRule, game: Game, hands: Seq<u64>, n: int) -> spec_fn(int, int) -> nat {
    |i: int, kind: int| hands_contrib(rule, game, hands, n, i, kind)
}

/// Each count adds at most `n` per sample.
pub(crate) proof fn lemma_game_contrib_bound(game: Game, h: Seq<u32>, v: Seq<u32>, n: int, i: int, kind: int)
    requires
        0 <= n,
    ensures
        game_contrib(game, h, v, n, i, kind) <= n,
{
    lemma_count_bound_all(n);
}

/// `n` masks with no card.
fn empty_masks(n: usize) -> (v: Vec<StdDeckCardMask>)
    ensures
        v@.len() == n,
        forall|i: int| 0 <= i < n ==> (#[trigger] v@[i]).mask == 0,
{
    let mut v: Vec<StdDeckCardMask> = Vec::new();
    let mut i: usize = 0;
    while i < n
        invariant
            i <= n,
            v@.len() == i,
            forall|x: int| 0 <= x < i ==> (#[trigger] v@[x]).mask == 0,
        decreases n - i,
    {
        v.push(StdDeckCardMask::new());
        i = i + 1;
    }
    v
}

impl EnumResult {
    /// Compares the first `npockets` lows of `loval` (see
    /// `update_statistics_batched_lo`).
    pub(crate) fn add_low_sample(&mut self, loval: &Vec<LowHandVal>, npockets: usize)
        requires
            npockets <= ENUM_MAXPLAYERS,
            loval@.len() == npockets,
            counts_room(*old(self), npockets as int, |i: int, kind: int| low_contrib(lo_values(loval@), npockets as int, i, kind)),
        ensures
            final(self).game == old(self).game,
            final(self).sample_type == old(self).sample_type,
            final(self).nplayers == old(self).nplayers,
            final(self).nsharehi == old(self).nsharehi,
            final(self).nsharelo == old(self).nsharelo,
            final(self).nshare == old(self).nshare,
            final(self).ordering == old(self).ordering,
            final(self).nsamples == old(self).nsamples,
            counts_plus(*final(self), *old(self), npockets as int, |i: int, kind: int| low_contrib(lo_values(loval@), npockets as int, i, kind)),
    {
        let ghost n = npockets as int;
        let ghost v = lo_values(loval@);
        let ghost f = |i: int, kind: int| low_contrib(v, n, i, kind);
        proof {
            if npockets > 1 {
                assert forall|i: int| 0 <= i < n implies self.nwinlo@[i] + #[trigger] below(v, i, n) <= u32::MAX by {
                    assert(counter(*self, 3)[i] + f(i, 3) <= u32::MAX);
                }
                assert forall|i: int| 0 <= i < n implies self.ntielo@[i] + #[trigger] level(v, i, n) <= u32::MAX by {
                    assert(counter(*self, 4)[i] + f(i, 4) <= u32::MAX);
                }
                assert forall|i: int| 0 <= i < n implies self.nloselo@[i] + #[trigger] above(v, i, n) <= u32::MAX by {
                    assert(counter(*self, 5)[i] + f(i, 5) <= u32::MAX);
                }
            }
        }
        self.update_statistics_batched_lo(loval.as_slice(), npockets);
        proof {
            assert forall|kind: int, i: int| 0 <= kind < 7 && 0 <= i < 12 implies #[trigger] counter(*self, kind)[i] == if i < n {
                (counter(*old(self), kind)[i] + f(i, kind)) as u32
            } else {
                counter(*old(self), kind)[i]
            } by {
                if npockets > 1 {
                    if kind == 3 {
                        assert(self.nwinlo@[i] == (if i < n { (old(self).nwinlo@[i] + below(v, i, n)) as u32 } else { old(self).nwinlo@[i] }));
                    } else if kind == 4 {
                        assert(self.ntielo@[i] == (if i < n { (old(self).ntielo@[i] + level(v, i, n)) as u32 } else { old(self).ntielo@[i] }));
                    } else if kind == 5 {
                        assert(self.nloselo@[i] == (if i < n { (old(self).nloselo@[i] + above(v, i, n)) as u32 } else { old(self).nloselo@[i] }));
                    }
                }
            }
        }
    }

    /// Counts one sample of the hands `hands` under `rule`, comparing them as the
    /// variant of this result asks (see `comparison_of`).
    fn count_hands(&mut self, rule: HandRule, hands: &Vec<StdDeckCardMask>, npockets: usize)
        requires
            npockets <= ENUM_MAXPLAYERS,
            hands@.len() == npockets,
            forall|i: int| 0 <= i < npockets ==> rule_ready(rule, #[trigger] hands@[i].mask),
            old(self).nsamples < u32::MAX,
            counts_room(*old(self), npockets as int, hands_gain(rule, old(self).game, hands@.map_values(|h: StdDeckCardMask| h.mask), npockets as int)),
        ensures
            final(self).game == old(self).game,
            final(self).sample_type == old(self).sample_type,
            final(self).nplayers == old(self).nplayers,
            final(self).nsharehi == old(self).nsharehi,
            final(self).nsharelo == old(self).nsharelo,
            final(self).nshare == old(self).nshare,
            final(self).ordering == old(self).ordering,
            final(self).nsamples == old(self).nsamples + 1,
            counts_plus(*final(self), *old(self), npockets as int, hands_gain(rule, old(self).game, hands@.map_values(|h: StdDeckCardMask| h.mask), npockets as int)),
    {
        let ghost n = npockets as int;
        let ghost ms = hands@.map_values(|h: StdDeckCardMask| h.mask);
        let ghost f = hands_gain(rule, self.game, ms, n);
        let ghost start = *self;
        let mut hival = zero_highs(npockets);
        let mut loval = zero_lows(npockets);
        let empties = empty_masks(npockets);
        proof {
            assert forall|i: int| 0 <= i < npockets implies #[trigger] dealt(hands@, empties@, i) == ms[i] by {
                let m = hands@[i].mask;
                assert(m | 0u64 == m) by (bit_vector);
            }
        }
        match rule {
            HandRule::Stud => {
                let _ = inner_loop_7stud(hands.as_slice(), empties.as_slice(), hival.as_mut_slice(), loval.as_mut_slice());
            },
            HandRule::StudNsq => {
                let _ = inner_loop_7studnsq(hands.as_slice(), empties.as_slice(), hival.as_mut_slice(), loval.as_mut_slice());
            },
            HandRule::Razz => {
                let _ = inner_loop_razz(hands.as_slice(), empties.as_slice(), hival.as_mut_slice(), loval.as_mut_slice());
            },
            HandRule::Deuce => {
                let _ = inner_loop_lowball27(hands.as_slice(), empties.as_slice(), hival.as_mut_slice(), loval.as_mut_slice());
            },
            HandRule::Stud8 => {
                let mut i: usize = 0;
                while i < npockets
                    invariant
                        i <= npockets,
                        hands@.len() == npockets,
                        hival@.len() == npockets,
                        loval@.len() == npockets,
                        ms == hands@.map_values(|h: StdDeckCardMask| h.mask),
                        forall|x: int| 0 <= x < i ==> (#[trigger] hival@[x]).value == stud_high(ms[x]),
                        forall|x: int| 0 <= x < i ==> (#[trigger] loval@[x]).value == lowball8_value(ms[x]) as u32,
                    decreases npockets - i,
                {
                    let hand = hands[i];
                    let ncards = hand.num_cards();
                    proof {
                        lemma_rank_count_le_cards(hand.mask);
                    }
                    let h = Eval::eval_n(&hand, ncards);
                    let l = match std_deck_lowball8_eval(&hand, ncards) {
                        Some(l) => l,
                        None => LowHandVal { value: 0 },
                    };
                    hival.set(i, h);
                    loval.set(i, l);
                    i = i + 1;
                }
            },
        }
        let ghost hv = Seq::new(npockets as nat, |j: int| rule_high(rule, ms[j]));
        let ghost lv = Seq::new(npockets as nat, |j: int| rule_low(rule, ms[j]));
        proof {
            assert(hi_values(hival@) =~= hv);
            assert(lo_values(loval@) =~= lv);
        }
        if comparison_of_game(self.game) == 1 {
            proof {
                assert forall|i: int, kind: int| 0 <= kind < 7 && 0 <= i < n implies counter(*self, kind)[i]
                    + #[trigger] low_contrib(lo_values(loval@), n, i, kind) <= u32::MAX by {
                    assert(counter(*self, kind)[i] + f(i, kind) <= u32::MAX);
                }
            }
            self.add_low_sample(&loval, npockets);
            proof {
                lemma_counts_plus_same(*self, start, n, |i: int, kind: int| low_contrib(lo_values(loval@), n, i, kind), f);
            }
        } else if comparison_of_game(self.game) == 2 {
            proof {
                assert forall|i: int, kind: int| 0 <= kind < 7 && 0 <= i < n implies counter(*self, kind)[i]
                    + #[trigger] hilo_contrib(hi_values(hival@), lo_values(loval@), n, i, kind) <= u32::MAX by {
                    assert(counter(*self, kind)[i] + f(i, kind) <= u32::MAX);
                }
            }
            self.add_hilo_sample(&hival, &loval, npockets);
            proof {
                lemma_counts_plus_same(*self, start, n, |i: int, kind: int| hilo_contrib(hi_values(hival@), lo_values(loval@), n, i, kind), f);
            }
        } else {
            proof {
                assert forall|i: int, kind: int| 0 <= kind < 7 && 0 <= i < n implies counter(*self, kind)[i]
                    + #[trigger] high_contrib(hi_values(hival@), n, i, kind) <= u32::MAX by {
                    assert(counter(*self, kind)[i] + f(i, kind) <= u32::MAX);
                }
            }
            self.add_high_sample(&hival, npockets);
            proof {
                lemma_counts_plus_same(*self, start, n, |i: int, kind: int| high_contrib(hi_values(hival@), n, i, kind), f);
            }
        }
        let ghost pre = *self;
        self.nsamples = self.nsamples + 1;
        proof {
            assert forall|kind: int, i: int| 0 <= kind < 7 && 0 <= i < 12 implies #[trigger] counter(*self, kind)[i] == if i < n {
                (counter(*old(self), kind)[i] + f(i, kind)) as u32
            } else {
                counter(*old(self), kind)[i]
            } by {
                assert(counter(*self, kind) == counter(pre, kind));
            }
        }
    }
}

/// How a result of variant `game` compares the hands of a sample (see
/// `comparison_of`).
pub(crate) fn comparison_of_game(game: Game) -> (c: u8)
    ensures
        c == comparison_of(game),
{
    match game {
        Game::Razz | Game::Lowball | Game::Lowball27 => 1,
        Game::Stud78 | Game::Stud7nsq | Game::Omaha8 | Game::Omaha85 | Game::Draw58 | Game::Draw5nsq => 2,
        _ => 0,
    }
}

/// The cards that player `i` lacks to hold `target` cards.
pub open spec fn needed(pockets: Seq<StdDeckCardMask>, target: nat, i: int) -> nat {
    let have = cards_of(pockets[i].mask).len();
    if have < target {
        (target - have) as nat
    } else {
        0
    }
}

/// The cards that the first `i` players lack together: where player `i`'s cards
/// start in a draw.
pub open spec fn needed_before(pockets: Seq<StdDeckCardMask>, target: nat, i: int) -> nat
    decreases i,
{
    if i <= 0 {
        0
    } else {
        needed_before(pockets, target, i - 1) + needed(pockets, target, i - 1)
    }
}

/// The hands of the first `n` players after the draw `draw`: each pocket with
/// the cards it lacks, taken in turn from the draw.
pub open spec fn dealt_hands(pockets: Seq<StdDeckCardMask>, target: nat, draw: Seq<StdDeckCardMask>, n: int) -> Seq<u64> {
    Seq::new(
        n as nat,
        |i: int| {
            let start = needed_before(pockets, target, i);
            pockets[i].mask | or_masks(draw.subrange(start as int, (start + needed(pockets, target, i)) as int))
        },
    )
}

/// The cards of `dead` and of the first `n` pockets.
pub open spec fn excluded_first(pockets: Seq<StdDeckCardMask>, dead: u64, n: int) -> u64
    decreases n,
{
    if n <= 0 {
        dead
    } else {
        excluded_first(pockets, dead, n - 1) | pockets[n - 1].mask
    }
}

/// The cards that the samples draw from: those that neither `dead` nor one of the
/// first `n` pockets holds.
pub open spec fn dealt_live(pockets: Seq<StdDeckCardMask>, dead: u64, n: int) -> Seq<StdDeckCardMask> {
    live_masks(excluded_first(pockets, dead, n), 52)
}

/// `hands` are the hands of the first `n` players after some draw of the cards
/// they lack from `live`.
pub open spec fn hands_from(hands: Seq<u64>, pockets: Seq<StdDeckCardMask>, target: nat, live: Seq<StdDeckCardMask>, n: int) -> bool {
    exists|draw: Seq<StdDeckCardMask>| #[trigger] is_draw(draw, live, needed_before(pockets, target, n)) && hands == dealt_hands(pockets, target, draw, n)
}

/// `new` is `old` with one sample counted on each of the deals `deals`: `niter`
/// of them (none when `live` holds fewer cards than the players lack), each
/// the hands after a draw from `live`, each adding `gain(hands, i, kind)` to the
/// count of kind `kind` of player `i` among the first `n`.
pub open spec fn deals_on(
    new: EnumResult,
    old: EnumResult,
    deals: Seq<Seq<u64>>,
    live: Seq<StdDeckCardMask>,
    pockets: Seq<StdDeckCardMask>,
    target: nat,
    n: int,
    niter: nat,
    gain: spec_fn(Seq<u64>, int, int) -> nat,
) -> bool {
    &&& deals.len() == (if needed_before(pockets, target, n) <= live.len() { niter } else { 0 })
    &&& forall|j: int| 0 <= j < deals.len() ==> hands_from(#[trigger] deals[j], pockets, target, live, n)
    &&& new.nsamples == old.nsamples + deals.len()
    &&& forall|kind: int, i: int|
        0 <= kind < 7 && 0 <= i < 12 ==> #[trigger] counter(new, kind)[i] == if i < n {
            (counter(old, kind)[i] + sum_to(deals.len() as int, |j: int| gain(deals[j], i, kind))) as u32
        } else {
            counter(old, kind)[i]
        }
}

/// `new` is `old` with the samples of some deals counted (see `deals_on`).
pub open spec fn deals_counted(
    new: EnumResult,
    old: EnumResult,
    live: Seq<StdDeckCardMask>,
    pockets: Seq<StdDeckCardMask>,
    target: nat,
    n: int,
    niter: nat,
    gain: spec_fn(Seq<u64>, int, int) -> nat,
) -> bool {
    exists|deals: Seq<Seq<u64>>| #[trigger] deals_on(new, old, deals, live, pockets, target, n, niter, gain)
}

/// Every hand that a draw of the cards the players lack can give them has at
/// least two ranks of the ace-to-five low.
pub open spec fn dealt_low_ready(pockets: Seq<StdDeckCardMask>, target: nat, live: Seq<StdDeckCardMask>, n: int) -> bool {
    forall|draw: Seq<StdDeckCardMask>, i: int|
        is_draw(draw, live, needed_before(pockets, target, n)) && 0 <= i < n ==> low_rank_count(
            #[trigger] dealt_hands(pockets, target, draw, n)[i],
        ) >= 2
}

/// The message of the error when `needed` cards are lacking and `available` are
/// left.
pub open spec fn not_enough_text(needed: nat, available: nat) -> Seq<char> {
    "Not enough cards in deck. Needed "@ + decimal(needed) + ", available "@ + decimal(available)
}

/// `needed_before` grows with the players counted.
pub(crate) proof fn lemma_needed_before_mono(pockets: Seq<StdDeckCardMask>, target: nat, i: int, j: int)
    requires
        0 <= i <= j,
    ensures
        needed_before(pockets, target, i) <= needed_before(pockets, target, j),
    decreases j - i,
{
    if i < j {
        lemma_needed_before_mono(pockets, target, i, j - 1);
    }
}

/// `needed_before` is at most `target` per player.
pub(crate) proof fn lemma_needed_before_bound(pockets: Seq<StdDeckCardMask>, target: nat, i: int)
    requires
        0 <= i,
    ensures
        needed_before(pockets, target, i) <= i * target,
    decreases i,
{
    if i > 0 {
        lemma_needed_before_bound(pockets, target, i - 1);
        assert((i - 1) * target + target == i * target) by (nonlinear_arith);
    }
}

/// The hands of the first `npockets` players after the draw `draw`.
fn deal_hands(pockets: &[StdDeckCardMask], needs: &Vec<usize>, draw: &Vec<StdDeckCardMask>, npockets: usize, Ghost(target): Ghost<nat>) -> (hands: Vec<StdDeckCardMask>)
    requires
        npockets <= pockets@.len(),
        needs@.len() == npockets,
        forall|i: int| 0 <= i < npockets ==> #[trigger] needs@[i] == needed(pockets@, target, i),
        draw@.len() == needed_before(pockets@, target, npockets as int),
    ensures
        hands@.map_values(|h: StdDeckCardMask| h.mask) == dealt_hands(pockets@, target, draw@, npockets as int),
        hands@.len() == npockets,
{
    let mut hands: Vec<StdDeckCardMask> = Vec::new();
    let mut idx: usize = 0;
    let mut i: usize = 0;
    while i < npockets
        invariant
            i <= npockets,
            npockets <= pockets@.len(),
            needs@.len() == npockets,
            forall|x: int| 0 <= x < npockets ==> #[trigger] needs@[x] == needed(pockets@, target, x),
            draw@.len() == needed_before(pockets@, target, npockets as int),
            idx == needed_before(pockets@, target, i as int),
            hands@.len() == i,
            forall|x: int| 0 <= x < i ==> (#[trigger] hands@[x]).mask == dealt_hands(pockets@, target, draw@, npockets as int)[x],
        decreases npockets - i,
    {
        proof {
            lemma_needed_before_mono(pockets@, target, i as int + 1, npockets as int);
        }
        let mut hand = pockets[i].mask;
        let start = idx;
        let need = needs[i];
        let dl = draw.len();
        proof {
            assert(draw@.subrange(start as int, start as int) =~= Seq::<StdDeckCardMask>::empty());
            let a = pockets@[i as int].mask;
            assert(a | 0u64 == a) by (bit_vector);
        }
        let mut c: usize = 0;
        while c < need
            invariant
                dl == draw@.len(),
                c <= need,
                start == needed_before(pockets@, target, i as int),
                need == needed(pockets@, target, i as int),
                start + need <= draw@.len(),
                idx == start + c,
                hand == pockets@[i as int].mask | or_masks(draw@.subrange(start as int, idx as int)),
            decreases need - c,
        {
            proof {
                assert(draw@.subrange(start as int, idx as int + 1).drop_last() =~= draw@.subrange(start as int, idx as int));
                let (a, b, d) = (pockets@[i as int].mask, or_masks(draw@.subrange(start as int, idx as int)), draw@[idx as int].mask);
                assert((a | b) | d == a | (b | d)) by (bit_vector);
            }
            hand = hand | draw[idx].mask;
            idx = idx + 1;
            c = c + 1;
        }
        hands.push(StdDeckCardMask { mask: hand });
        i = i + 1;
    }
    proof {
        assert(hands@.map_values(|h: StdDeckCardMask| h.mask) =~= dealt_hands(pockets@, target, draw@, npockets as int));
    }
    hands
}

/// The masks of the hands of each deal.
pub open spec fn deal_masks(deals: Seq<Vec<StdDeckCardMask>>) -> Seq<Seq<u64>> {
    deals.map_values(|d: Vec<StdDeckCardMask>| d@.map_values(|h: StdDeckCardMask| h.mask))
}

/// What the samples of the first `m` deals add under `rule`, in a result of
/// variant `game`, to the counts of each kind and player.
spec fn deals_gain(rule: HandRule, game: Game, deals: Seq<Seq<u64>>, n: int, m: int) -> spec_fn(int, int) -> nat {
    |i: int, kind: int| sum_to(m, |j: int| hands_contrib(rule, game, deals[j], n, i, kind))
}

/// Deals counted with a gain are counted with any gain equal to it.
pub(crate) proof fn lemma_deals_counted_same(
    new: EnumResult,
    old: EnumResult,
    live: Seq<StdDeckCardMask>,
    pockets: Seq<StdDeckCardMask>,
    target: nat,
    n: int,
    niter: nat,
    g1: spec_fn(Seq<u64>, int, int) -> nat,
    g2: spec_fn(Seq<u64>, int, int) -> nat,
)
    requires
        deals_counted(new, old, live, pockets, target, n, niter, g1),
        forall|h: Seq<u64>, i: int, kind: int| #[trigger] g1(h, i, kind) == g2(h, i, kind),
    ensures
        deals_counted(new, old, live, pockets, target, n, niter, g2),
{
    let deals = choose|deals: Seq<Seq<u64>>| #[trigger] deals_on(new, old, deals, live, pockets, target, n, niter, g1);
    assert forall|kind: int, i: int| 0 <= kind < 7 && 0 <= i < 12 implies #[trigger] counter(new, kind)[i] == if i < n {
        (counter(old, kind)[i] + sum_to(deals.len() as int, |j: int| g2(deals[j], i, kind))) as u32
    } else {
        counter(old, kind)[i]
    } by {
        lemma_sum_to_ext(deals.len() as int, |j: int| g1(deals[j], i, kind), |j: int| g2(deals[j], i, kind));
    }
    assert(deals_on(new, old, deals, live, pockets, target, n, niter, g2));
}

impl EnumResult {
    /// Counts one sample on each deal of `deals` under `rule`.
    fn count_deals(&mut self, rule: HandRule, deals: &Vec<Vec<StdDeckCardMask>>, npockets: usize)
        requires
            npockets <= ENUM_MAXPLAYERS,
            forall|j: int| 0 <= j < deals@.len() ==> (#[trigger] deals@[j])@.len() == npockets,
            forall|j: int, i: int| 0 <= j < deals@.len() && 0 <= i < npockets ==> rule_ready(rule, #[trigger] deals@[j]@[i].mask),
            old(self).nsamples + deals@.len() <= u32::MAX,
            forall|kind: int, i: int| 0 <= kind < 7 && 0 <= i < npockets ==> #[trigger] counter(*old(self), kind)[i] + deals@.len() * npockets <= u32::MAX,
        ensures
            final(self).game == old(self).game,
            final(self).sample_type == old(self).sample_type,
            final(self).nplayers == old(self).nplayers,
            final(self).nsharehi == old(self).nsharehi,
            final(self).nsharelo == old(self).nsharelo,
            final(self).nshare == old(self).nshare,
            final(self).ordering == old(self).ordering,
            final(self).nsamples == old(self).nsamples + deals@.len(),
            counts_plus(*final(self), *old(self), npockets as int, deals_gain(rule, old(self).game, deal_masks(deals@), npockets as int, deals@.len() as int)),
    {
        let ghost n = npockets as int;
        let ghost start = *self;
        let ghost len = deals@.len() as int;
        let ghost dm = deal_masks(deals@);
        let mut t: usize = 0;
        proof {
            assert forall|kind: int, i: int| 0 <= kind < 7 && 0 <= i < 12 implies #[trigger] counter(*self, kind)[i] == if i < n {
                (counter(start, kind)[i] + deals_gain(rule, start.game, dm, n, 0)(i, kind)) as u32
            } else {
                counter(start, kind)[i]
            } by {}
        }
        while t < deals.len()
            invariant
                t <= deals@.len(),
                len == deals@.len(),
                n == npockets,
                dm == deal_masks(deals@),
                npockets <= ENUM_MAXPLAYERS,
                forall|j: int| 0 <= j < deals@.len() ==> (#[trigger] deals@[j])@.len() == npockets,
                forall|j: int, i: int| 0 <= j < deals@.len() && 0 <= i < npockets ==> rule_ready(rule, #[trigger] deals@[j]@[i].mask),
                start.nsamples + deals@.len() <= u32::MAX,
                forall|kind: int, i: int| 0 <= kind < 7 && 0 <= i < npockets ==> #[trigger] counter(start, kind)[i] + deals@.len() * npockets <= u32::MAX,
                self.game == start.game,
                self.sample_type == start.sample_type,
                self.nplayers == start.nplayers,
                self.nsharehi == start.nsharehi,
                self.nsharelo == start.nsharelo,
                self.nshare == start.nshare,
                self.ordering == start.ordering,
                self.nsamples == start.nsamples + t,
                counts_plus(*self, start, n, deals_gain(rule, start.game, dm, n, t as int)),
            decreases deals@.len() - t,
        {
            let ghost before = *self;
            let ghost g = hands_gain(rule, start.game, deals@[t as int]@.map_values(|h: StdDeckCardMask| h.mask), n);
            let ghost total = deals_gain(rule, start.game, dm, n, t as int);
            let ghost next = deals_gain(rule, start.game, dm, n, t as int + 1);
            proof {
                assert(dm[t as int] == deals@[t as int]@.map_values(|h: StdDeckCardMask| h.mask));
                assert forall|kind: int, i: int| 0 <= kind < 7 && 0 <= i < n implies counter(*self, kind)[i] + #[trigger] g(i, kind) <= u32::MAX by {
                    let h = |j: int| hands_contrib(rule, start.game, dm[j], n, i, kind);
                    assert forall|j: int| 0 <= j < t + 1 implies #[trigger] h(j) <= n by {
                        lemma_game_contrib_bound(
                            start.game,
                            Seq::new(n as nat, |x: int| rule_high(rule, dm[j][x])),
                            Seq::new(n as nat, |x: int| rule_low(rule, dm[j][x])),
                            n,
                            i,
                            kind,
                        );
                    }
                    lemma_sum_bound(t as int + 1, h, n);
                    assert(sum_to(t as int + 1, h) == sum_to(t as int, h) + h(t as int));
                    assert((t as int + 1) * n <= len * n) by (nonlinear_arith)
                        requires
                            t + 1 <= len,
                            0 <= n,
                    ;
                    assert(counter(start, kind)[i] + len * npockets <= u32::MAX);
                    assert(total(i, kind) == sum_to(t as int, h));
                    assert(counter(*self, kind)[i] == (counter(start, kind)[i] + total(i, kind)) as u32);
                    assert(g(i, kind) == h(t as int));
                }
                assert forall|i: int| 0 <= i < npockets implies rule_ready(rule, #[trigger] deals@[t as int]@[i].mask) by {}
            }
            self.count_hands(rule, &deals[t], npockets);
            proof {
                assert forall|kind: int, i: int| 0 <= kind < 7 && 0 <= i < 12 implies #[trigger] counter(*self, kind)[i] == if i < n {
                    (counter(start, kind)[i] + next(i, kind)) as u32
                } else {
                    counter(start, kind)[i]
                } by {
                    assert(counter(before, kind)[i] == if i < n { (counter(start, kind)[i] + total(i, kind)) as u32 } else { counter(start, kind)[i] });
                    assert(counter(*self, kind)[i] == if i < n { (counter(before, kind)[i] + g(i, kind)) as u32 } else { counter(before, kind)[i] });
                    if i < n {
                        let h = |j: int| hands_contrib(rule, start.game, dm[j], n, i, kind);
                        assert forall|j: int| 0 <= j < t + 1 implies #[trigger] h(j) <= n by {
                            lemma_game_contrib_bound(
                                start.game,
                                Seq::new(n as nat, |x: int| rule_high(rule, dm[j][x])),
                                Seq::new(n as nat, |x: int| rule_low(rule, dm[j][x])),
                                n,
                                i,
                                kind,
                            );
                        }
                        lemma_sum_bound(t as int + 1, h, n);
                        assert(sum_to(t as int + 1, h) == sum_to(t as int, h) + h(t as int));
                        assert((t as int + 1) * n <= len * n) by (nonlinear_arith)
                            requires
                                t + 1 <= len,
                                0 <= n,
                        ;
                        assert(counter(start, kind)[i] + len * npockets <= u32::MAX);
                        assert(total(i, kind) == sum_to(t as int, h));
                        assert(next(i, kind) == sum_to(t as int + 1, h));
                        assert(g(i, kind) == h(t as int));
                    }
                }
            }
            t = t + 1;
        }
    }
}

/// The error for `needed` cards lacking where `available` are left.
pub(crate) fn not_enough_cards(needed: usize, available: usize) -> (e: PokerError)
    ensures
        e matches PokerError::InvalidCardConfiguration(msg) && msg@ == not_enough_text(needed as nat, available as nat),
{
    let mut msg = String::new();
    push_str(&mut msg, "Not enough cards in deck. Needed ");
    push_decimal(&mut msg, needed);
    push_str(&mut msg, ", available ");
    push_decimal(&mut msg, available);
    proof {
        assert(msg@ =~= not_enough_text(needed as nat, available as nat));
    }
    PokerError::InvalidCardConfiguration(msg)
}

impl EnumResult {
    /// Counts `niter` random deals under `rule`, each player's hand completed to
    /// `target` cards (see the public simulations).
    fn simulate_dealt_game(
        &mut self,
        rule: HandRule,
        pockets: &[StdDeckCardMask],
        dead: StdDeckCardMask,
        npockets: usize,
        target: usize,
        niter: usize,
        source: &DrawSource,
    ) -> (res: Result<(), PokerError>)
        requires
            target <= 7,
            npockets <= ENUM_MAXPLAYERS ==> npockets <= pockets@.len(),
            npockets <= ENUM_MAXPLAYERS && niter > 0 ==> {
                let live = live_std_cards(dealt_live(pockets@, dead.mask, npockets as int), 0);
                &&& forall|draw: Seq<StdDeckCardMask>, i: int|
                    is_draw(draw, live, needed_before(pockets@, target as nat, npockets as int)) && 0 <= i < npockets
                        ==> rule_ready(rule, #[trigger] dealt_hands(pockets@, target as nat, draw, npockets as int)[i])
                &&& old(self).nsamples + niter <= u32::MAX
                &&& forall|kind: int, i: int| 0 <= kind < 7 && 0 <= i < npockets ==> #[trigger] counter(*old(self), kind)[i] + niter * npockets <= u32::MAX
            },
        ensures
            npockets > ENUM_MAXPLAYERS ==> res == Err::<(), PokerError>(PokerError::TooManyPlayers) && *final(self) == *old(self),
            npockets <= ENUM_MAXPLAYERS && needed_before(pockets@, target as nat, npockets as int) > dealt_live(pockets@, dead.mask, npockets as int).len() ==> {
                &&& res matches Err(e) && e matches PokerError::InvalidCardConfiguration(msg) && msg@ == not_enough_text(
                    needed_before(pockets@, target as nat, npockets as int),
                    dealt_live(pockets@, dead.mask, npockets as int).len(),
                )
                &&& *final(self) == *old(self)
            },
            npockets <= ENUM_MAXPLAYERS && needed_before(pockets@, target as nat, npockets as int) <= dealt_live(pockets@, dead.mask, npockets as int).len() ==> {
                &&& res is Ok
                &&& final(self).game == old(self).game
                &&& final(self).sample_type == old(self).sample_type
                &&& final(self).nplayers == old(self).nplayers
                &&& final(self).nsharehi == old(self).nsharehi
                &&& final(self).nsharelo == old(self).nsharelo
                &&& final(self).nshare == old(self).nshare
                &&& final(self).ordering == old(self).ordering
                &&& deals_counted(*final(self), *old(self), live_std_cards(dealt_live(pockets@, dead.mask, npockets as int), 0),
                    pockets@, target as nat, npockets as int, niter as nat,
                    |hands: Seq<u64>, i: int, kind: int| hands_contrib(rule, old(self).game, hands, npockets as int, i, kind))
            },
    {
        if npockets > ENUM_MAXPLAYERS {
            return Err(PokerError::TooManyPlayers);
        }
        let ghost n = npockets as int;
        let ghost tg = target as nat;
        let mut excl = dead.mask;
        let mut needs: Vec<usize> = Vec::new();
        let mut total: usize = 0;
        let mut i: usize = 0;
        while i < npockets
            invariant
                i <= npockets,
                npockets <= ENUM_MAXPLAYERS,
                npockets <= pockets@.len(),
                target <= 7,
                tg == target,
                excl == excluded_first(pockets@, dead.mask, i as int),
                needs@.len() == i,
                forall|x: int| 0 <= x < i ==> #[trigger] needs@[x] == needed(pockets@, tg, x),
                total == needed_before(pockets@, tg, i as int),
            decreases npockets - i,
        {
            proof {
                lemma_needed_before_bound(pockets@, tg, i as int + 1);
                assert((i as int + 1) * tg <= 12 * 7) by (nonlinear_arith)
                    requires
                        i + 1 <= 12,
                        tg <= 7,
                ;
            }
            excl = excl | pockets[i].mask;
            let have = pockets[i].num_cards();
            let need = if have < target { target - have } else { 0 };
            needs.push(need);
            total = total + need;
            i = i + 1;
        }
        let deck = live_deck(excl);
        if deck.len() < total {
            return Err(not_enough_cards(total, deck.len()));
        }
        let ghost live = live_std_cards(deck@, 0);
        let draws = deck_montecarlo_n_cards_d(deck.as_slice(), StdDeckCardMask::new(), total, niter, source);
        let mut deals: Vec<Vec<StdDeckCardMask>> = Vec::new();
        let mut k: usize = 0;
        while k < draws.len()
            invariant
                k <= draws@.len(),
                npockets <= pockets@.len(),
                needs@.len() == npockets,
                forall|x: int| 0 <= x < npockets ==> #[trigger] needs@[x] == needed(pockets@, tg, x),
                total == needed_before(pockets@, tg, npockets as int),
                crate::enumerate::montecarlo::draws_of(draws@, live, total as nat, niter as nat),
                deals@.len() == k,
                forall|x: int| 0 <= x < k ==> (#[trigger] deals@[x])@.map_values(|h: StdDeckCardMask| h.mask)
                    == dealt_hands(pockets@, tg, draws@[x]@, npockets as int),
                forall|x: int| 0 <= x < k ==> (#[trigger] deals@[x])@.len() == npockets,
            decreases draws@.len() - k,
        {
            let hands = deal_hands(pockets, &needs, &draws[k], npockets, Ghost(tg));
            deals.push(hands);
            k = k + 1;
        }
        let ghost dm = deal_masks(deals@);
        proof {
            assert forall|x: int| 0 <= x < dm.len() implies hands_from(#[trigger] dm[x], pockets@, tg, live, n) by {
                assert(draws@[x]@.len() == total && draws@[x]@.to_multiset().subset_of(live.to_multiset()));
                assert(is_draw(draws@[x]@, live, needed_before(pockets@, tg, n)));
                assert(dm[x] == dealt_hands(pockets@, tg, draws@[x]@, n));
            }
            if niter > 0 {
                assert forall|j: int, x: int| 0 <= j < deals@.len() && 0 <= x < npockets implies rule_ready(rule, #[trigger] deals@[j]@[x].mask) by {
                    assert(is_draw(draws@[j]@, live, needed_before(pockets@, tg, n)));
                    assert(deals@[j]@.map_values(|h: StdDeckCardMask| h.mask)[x] == deals@[j]@[x].mask);
                    assert(rule_ready(rule, dealt_hands(pockets@, tg, draws@[j]@, n)[x]));
                }
            }
        }
        let mut local = EnumResult::new(self.game);
        local.nplayers = npockets as u32;
        proof {
            assert forall|kind: int, x: int| 0 <= kind < 7 && 0 <= x < npockets implies #[trigger] counter(local, kind)[x] + deals@.len() * npockets <= u32::MAX by {
                assert(counter(local, kind)[x] == 0);
                assert(deals@.len() * npockets <= niter * npockets) by (nonlinear_arith)
                    requires
                        deals@.len() <= niter,
                ;
                assert(counter(*self, kind)[x] + niter * npockets <= u32::MAX);
            }
        }
        let ghost zero = local;
        local.count_deals(rule, &deals, npockets);
        let ghost sums = deals_gain(rule, zero.game, dm, n, deals@.len() as int);
        proof {
            assert forall|kind: int| 0 <= kind < 7 implies fits(#[trigger] counter(*self, kind), counter(local, kind)) by {
                assert forall|x: int| 0 <= x < counter(*self, kind).len() && x < counter(local, kind).len() implies #[trigger] counter(*self, kind)[x]
                    + counter(local, kind)[x] <= u32::MAX by {
                    assert(counter(zero, kind)[x] == 0);
                    if x < n {
                        let h = |j: int| hands_contrib(rule, zero.game, dm[j], n, x, kind);
                        assert forall|j: int| 0 <= j < deals@.len() implies #[trigger] h(j) <= n by {
                            lemma_game_contrib_bound(
                                zero.game,
                                Seq::new(n as nat, |y: int| rule_high(rule, dm[j][y])),
                                Seq::new(n as nat, |y: int| rule_low(rule, dm[j][y])),
                                n,
                                x,
                                kind,
                            );
                        }
                        lemma_sum_bound(deals@.len() as int, h, n);
                        assert(deals@.len() * npockets <= niter * npockets) by (nonlinear_arith)
                            requires
                                deals@.len() <= niter,
                        ;
                        assert(counter(*self, kind)[x] + niter * npockets <= u32::MAX);
                        assert(sums(x, kind) == sum_to(deals@.len() as int, h));
                    }
                }
            }
            assert(zero_rows(local.nsharehi@));
            lemma_can_merge_counts(*self, local);
        }
        let ghost pre = *self;
        self.merge(&local);
        proof {
            lemma_merge_zero_shares(*self, pre, local);
            assert(self.nsharehi@ =~= pre.nsharehi@);
            let gain = |hands: Seq<u64>, x: int, kind: int| hands_contrib(rule, old(self).game, hands, n, x, kind);
            assert forall|kind: int, x: int| 0 <= kind < 7 && 0 <= x < 12 implies #[trigger] counter(*self, kind)[x] == if x < n {
                (counter(*old(self), kind)[x] + sum_to(dm.len() as int, |j: int| gain(dm[j], x, kind))) as u32
            } else {
                counter(*old(self), kind)[x]
            } by {
                assert(added(counter(*self, kind), counter(pre, kind), counter(local, kind)));
                assert(counter(zero, kind)[x] == 0);
                if x < n {
                    let h = |j: int| hands_contrib(rule, zero.game, dm[j], n, x, kind);
                    lemma_sum_to_ext(dm.len() as int, h, |j: int| gain(dm[j], x, kind));
                    assert(sums(x, kind) == sum_to(deals@.len() as int, h));
                    assert forall|j: int| 0 <= j < deals@.len() implies #[trigger] h(j) <= n by {
                        lemma_game_contrib_bound(
                            zero.game,
                            Seq::new(n as nat, |y: int| rule_high(rule, dm[j][y])),
                            Seq::new(n as nat, |y: int| rule_low(rule, dm[j][y])),
                            n,
                            x,
                            kind,
                        );
                    }
                    lemma_sum_bound(deals@.len() as int, h, n);
                    assert(deals@.len() * npockets <= niter * npockets) by (nonlinear_arith)
                        requires
                            deals@.len() <= niter,
                    ;
                    assert(counter(pre, kind)[x] + niter * npockets <= u32::MAX);
                }
            }
            assert(deals_on(*self, *old(self), dm, live, pockets@, tg, n, niter as nat, gain));
        }
        Ok(())
    }
}

impl EnumResult {
    /// Counts random deals of seven-card stud, high hands only.
    ///
    /// Each of the `niter` samples completes the hand of each of the first
    /// `npockets` players to 7 cards with cards drawn at random from those
    /// that neither `dead` nor one of these pockets holds, and counts the hands as
    /// the variant of this result compares them (see `comparison_of`). More
    /// players than `ENUM_MAXPLAYERS` is an error; so is a deck with fewer cards
    /// left than the players lack; nothing changes then.
    /// The cards of the deals come from `source` (see `draw_cards`).
    pub fn simulate_stud_game(&mut self, pockets: &[StdDeckCardMask], dead: StdDeckCardMask, npockets: usize, niter: usize, source: &DrawSource) -> (res: Result<(), PokerError>)
        requires
            npockets <= ENUM_MAXPLAYERS ==> npockets <= pockets@.len(),
            npockets <= ENUM_MAXPLAYERS && niter > 0 ==> {
                &&& old(self).nsamples + niter <= u32::MAX
                &&& forall|kind: int, i: int| 0 <= kind < 7 && 0 <= i < npockets ==> #[trigger] counter(*old(self), kind)[i] + niter * npockets <= u32::MAX
            },
        ensures
            npockets > ENUM_MAXPLAYERS ==> res == Err::<(), PokerError>(PokerError::TooManyPlayers) && *final(self) == *old(self),
            npockets <= ENUM_MAXPLAYERS && needed_before(pockets@, 7, npockets as int) > dealt_live(pockets@, dead.mask, npockets as int).len() ==> {
                &&& res matches Err(e) && e matches PokerError::InvalidCardConfiguration(msg) && msg@ == not_enough_text(
                    needed_before(pockets@, 7, npockets as int),
                    dealt_live(pockets@, dead.mask, npockets as int).len(),
                )
                &&& *final(self) == *old(self)
            },
            npockets <= ENUM_MAXPLAYERS && needed_before(pockets@, 7, npockets as int) <= dealt_live(pockets@, dead.mask, npockets as int).len() ==> {
                &&& res is Ok
                &&& final(self).game == old(self).game
                &&& final(self).sample_type == old(self).sample_type
                &&& final(self).nplayers == old(self).nplayers
                &&& final(self).nsharehi == old(self).nsharehi
                &&& final(self).nsharelo == old(self).nsharelo
                &&& final(self).nshare == old(self).nshare
                &&& final(self).ordering == old(self).ordering
                &&& deals_counted(*final(self), *old(self), live_std_cards(dealt_live(pockets@, dead.mask, npockets as int), 0),
                    pockets@, 7, npockets as int, niter as nat,
                    |hands: Seq<u64>, i: int, kind: int| game_contrib(old(self).game, Seq::new(npockets as nat, |j: int| stud_high(hands[j])), Seq::new(npockets as nat, |j: int| 0u32), npockets as int, i, kind))
            },
    {
        proof {
        }
        let res = self.simulate_dealt_game(HandRule::Stud, pockets, dead, npockets, 7, niter, source);
        proof {
            if npockets <= ENUM_MAXPLAYERS && needed_before(pockets@, 7, npockets as int) <= dealt_live(pockets@, dead.mask, npockets as int).len() {
                let g1 = |hands: Seq<u64>, i: int, kind: int| hands_contrib(HandRule::Stud, old(self).game, hands, npockets as int, i, kind);
                let g2 = |hands: Seq<u64>, i: int, kind: int| game_contrib(old(self).game, Seq::new(npockets as nat, |j: int| stud_high(hands[j])), Seq::new(npockets as nat, |j: int| 0u32), npockets as int, i, kind);
                assert forall|hands: Seq<u64>, i: int, kind: int| #[trigger] g1(hands, i, kind) == g2(hands, i, kind) by {
                    assert(Seq::new(npockets as nat, |j: int| rule_high(HandRule::Stud, hands[j])) =~= Seq::new(npockets as nat, |j: int| stud_high(hands[j])));
                    assert(Seq::new(npockets as nat, |j: int| rule_low(HandRule::Stud, hands[j])) =~= Seq::new(npockets as nat, |j: int| 0u32));
                }
                lemma_deals_counted_same(*self, *old(self), live_std_cards(dealt_live(pockets@, dead.mask, npockets as int), 0),
                    pockets@, 7, npockets as int, niter as nat, g1, g2);
            }
        }
        res
    }

    /// Counts random deals of seven-card stud high-low, eight-or-better.
    ///
    /// Each of the `niter` samples completes the hand of each of the first
    /// `npockets` players to 7 cards with cards drawn at random from those
    /// that neither `dead` nor one of these pockets holds, and counts the hands as
    /// the variant of this result compares them (see `comparison_of`). More
    /// players than `ENUM_MAXPLAYERS` is an error; so is a deck with fewer cards
    /// left than the players lack; nothing changes then.
    /// The cards of the deals come from `source` (see `draw_cards`).
    pub fn simulate_stud8_game(&mut self, pockets: &[StdDeckCardMask], dead: StdDeckCardMask, npockets: usize, niter: usize, source: &DrawSource) -> (res: Result<(), PokerError>)
        requires
            npockets <= ENUM_MAXPLAYERS ==> npockets <= pockets@.len(),
            npockets <= ENUM_MAXPLAYERS && niter > 0 ==> {
                &&& old(self).nsamples + niter <= u32::MAX
                &&& forall|kind: int, i: int| 0 <= kind < 7 && 0 <= i < npockets ==> #[trigger] counter(*old(self), kind)[i] + niter * npockets <= u32::MAX
            },
        ensures
            npockets > ENUM_MAXPLAYERS ==> res == Err::<(), PokerError>(PokerError::TooManyPlayers) && *final(self) == *old(self),
            npockets <= ENUM_MAXPLAYERS && needed_before(pockets@, 7, npockets as int) > dealt_live(pockets@, dead.mask, npockets as int).len() ==> {
                &&& res matches Err(e) && e matches PokerError::InvalidCardConfiguration(msg) && msg@ == not_enough_text(
                    needed_before(pockets@, 7, npockets as int),
                    dealt_live(pockets@, dead.mask, npockets as int).len(),
                )
                &&& *final(self) == *old(self)
            },
            npockets <= ENUM_MAXPLAYERS && needed_before(pockets@, 7, npockets as int) <= dealt_live(pockets@, dead.mask, npockets as int).len() ==> {
                &&& res is Ok
                &&& final(self).game == old(self).game
                &&& final(self).sample_type == old(self).sample_type
                &&& final(self).nplayers == old(self).nplayers
                &&& final(self).nsharehi == old(self).nsharehi
                &&& final(self).nsharelo == old(self).nsharelo
                &&& final(self).nshare == old(self).nshare
                &&& final(self).ordering == old(self).ordering
                &&& deals_counted(*final(self), *old(self), live_std_cards(dealt_live(pockets@, dead.mask, npockets as int), 0),
                    pockets@, 7, npockets as int, niter as nat,
                    |hands: Seq<u64>, i: int, kind: int| game_contrib(old(self).game, Seq::new(npockets as nat, |j: int| stud_high(hands[j])), Seq::new(npockets as nat, |j: int| lowball8_value(hands[j]) as u32), npockets as int, i, kind))
            },
    {
        proof {
        }
        let res = self.simulate_dealt_game(HandRule::Stud8, pockets, dead, npockets, 7, niter, source);
        proof {
            if npockets <= ENUM_MAXPLAYERS && needed_before(pockets@, 7, npockets as int) <= dealt_live(pockets@, dead.mask, npockets as int).len() {
                let g1 = |hands: Seq<u64>, i: int, kind: int| hands_contrib(HandRule::Stud8, old(self).game, hands, npockets as int, i, kind);
                let g2 = |hands: Seq<u64>, i: int, kind: int| game_contrib(old(self).game, Seq::new(npockets as nat, |j: int| stud_high(hands[j])), Seq::new(npockets as nat, |j: int| lowball8_value(hands[j]) as u32), npockets as int, i, kind);
                assert forall|hands: Seq<u64>, i: int, kind: int| #[trigger] g1(hands, i, kind) == g2(hands, i, kind) by {
                    assert(Seq::new(npockets as nat, |j: int| rule_high(HandRule::Stud8, hands[j])) =~= Seq::new(npockets as nat, |j: int| stud_high(hands[j])));
                    assert(Seq::new(npockets as nat, |j: int| rule_low(HandRule::Stud8, hands[j])) =~= Seq::new(npockets as nat, |j: int| lowball8_value(hands[j]) as u32));
                }
                lemma_deals_counted_same(*self, *old(self), live_std_cards(dealt_live(pockets@, dead.mask, npockets as int), 0),
                    pockets@, 7, npockets as int, niter as nat, g1, g2);
            }
        }
        res
    }

    /// Counts random deals of seven-card stud high-low without qualifier.
    ///
    /// Each of the `niter` samples completes the hand of each of the first
    /// `npockets` players to 7 cards with cards drawn at random from those
    /// that neither `dead` nor one of these pockets holds, and counts the hands as
    /// the variant of this result compares them (see `comparison_of`). More
    /// players than `ENUM_MAXPLAYERS` is an error; so is a deck with fewer cards
    /// left than the players lack; nothing changes then.
    /// The cards of the deals come from `source` (see `draw_cards`).
    pub fn simulate_studnsq_game(&mut self, pockets: &[StdDeckCardMask], dead: StdDeckCardMask, npockets: usize, niter: usize, source: &DrawSource) -> (res: Result<(), PokerError>)
        requires
            npockets <= ENUM_MAXPLAYERS ==> npockets <= pockets@.len(),
            npockets <= ENUM_MAXPLAYERS && niter > 0 ==> {
                &&& dealt_low_ready(pockets@, 7, live_std_cards(dealt_live(pockets@, dead.mask, npockets as int), 0), npockets as int)
                &&& old(self).nsamples + niter <= u32::MAX
                &&& forall|kind: int, i: int| 0 <= kind < 7 && 0 <= i < npockets ==> #[trigger] counter(*old(self), kind)[i] + niter * npockets <= u32::MAX
            },
        ensures
            npockets > ENUM_MAXPLAYERS ==> res == Err::<(), PokerError>(PokerError::TooManyPlayers) && *final(self) == *old(self),
            npockets <= ENUM_MAXPLAYERS && needed_before(pockets@, 7, npockets as int) > dealt_live(pockets@, dead.mask, npockets as int).len() ==> {
                &&& res matches Err(e) && e matches PokerError::InvalidCardConfiguration(msg) && msg@ == not_enough_text(
                    needed_before(pockets@, 7, npockets as int),
                    dealt_live(pockets@, dead.mask, npockets as int).len(),
                )
                &&& *final(self) == *old(self)
            },
            npockets <= ENUM_MAXPLAYERS && needed_before(pockets@, 7, npockets as int) <= dealt_live(pockets@, dead.mask, npockets as int).len() ==> {
                &&& res is Ok
                &&& final(self).game == old(self).game
                &&& final(self).sample_type == old(self).sample_type
                &&& final(self).nplayers == old(self).nplayers
                &&& final(self).nsharehi == old(self).nsharehi
                &&& final(self).nsharelo == old(self).nsharelo
                &&& final(self).nshare == old(self).nshare
                &&& final(self).ordering == old(self).ordering
                &&& deals_counted(*final(self), *old(self), live_std_cards(dealt_live(pockets@, dead.mask, npockets as int), 0),
                    pockets@, 7, npockets as int, niter as nat,
                    |hands: Seq<u64>, i: int, kind: int| game_contrib(old(self).game, Seq::new(npockets as nat, |j: int| stud_high(hands[j])), Seq::new(npockets as nat, |j: int| lowball_mask_value(hands[j]) as u32), npockets as int, i, kind))
            },
    {
        proof {
            if npockets <= ENUM_MAXPLAYERS && niter > 0 {
                let live = live_std_cards(dealt_live(pockets@, dead.mask, npockets as int), 0);
                assert forall|draw: Seq<StdDeckCardMask>, i: int|
                    is_draw(draw, live, needed_before(pockets@, 7 as nat, npockets as int)) && 0 <= i < npockets
                        implies rule_ready(HandRule::StudNsq, #[trigger] dealt_hands(pockets@, 7 as nat, draw, npockets as int)[i]) by {
                    assert(low_rank_count(dealt_hands(pockets@, 7, draw, npockets as int)[i]) >= 2);
                }
            }
        }
        let res = self.simulate_dealt_game(HandRule::StudNsq, pockets, dead, npockets, 7, niter, source);
        proof {
            if npockets <= ENUM_MAXPLAYERS && needed_before(pockets@, 7, npockets as int) <= dealt_live(pockets@, dead.mask, npockets as int).len() {
                let g1 = |hands: Seq<u64>, i: int, kind: int| hands_contrib(HandRule::StudNsq, old(self).game, hands, npockets as int, i, kind);
                let g2 = |hands: Seq<u64>, i: int, kind: int| game_contrib(old(self).game, Seq::new(npockets as nat, |j: int| stud_high(hands[j])), Seq::new(npockets as nat, |j: int| lowball_mask_value(hands[j]) as u32), npockets as int, i, kind);
                assert forall|hands: Seq<u64>, i: int, kind: int| #[trigger] g1(hands, i, kind) == g2(hands, i, kind) by {
                    assert(Seq::new(npockets as nat, |j: int| rule_high(HandRule::StudNsq, hands[j])) =~= Seq::new(npockets as nat, |j: int| stud_high(hands[j])));
                    assert(Seq::new(npockets as nat, |j: int| rule_low(HandRule::StudNsq, hands[j])) =~= Seq::new(npockets as nat, |j: int| lowball_mask_value(hands[j]) as u32));
                }
                lemma_deals_counted_same(*self, *old(self), live_std_cards(dealt_live(pockets@, dead.mask, npockets as int), 0),
                    pockets@, 7, npockets as int, niter as nat, g1, g2);
            }
        }
        res
    }

    /// Counts random deals of razz: ace-to-five lows.
    ///
    /// Each of the `niter` samples completes the hand of each of the first
    /// `npockets` players to 7 cards with cards drawn at random from those
    /// that neither `dead` nor one of these pockets holds, and counts the hands as
    /// the variant of this result compares them (see `comparison_of`). More
    /// players than `ENUM_MAXPLAYERS` is an error; so is a deck with fewer cards
    /// left than the players lack; nothing changes then.
    /// The cards of the deals come from `source` (see `draw_cards`).
    pub fn simulate_razz_game(&mut self, pockets: &[StdDeckCardMask], dead: StdDeckCardMask, npockets: usize, niter: usize, source: &DrawSource) -> (res: Result<(), PokerError>)
        requires
            npockets <= ENUM_MAXPLAYERS ==> npockets <= pockets@.len(),
            npockets <= ENUM_MAXPLAYERS && niter > 0 ==> {
                &&& dealt_low_ready(pockets@, 7, live_std_cards(dealt_live(pockets@, dead.mask, npockets as int), 0), npockets as int)
                &&& old(self).nsamples + niter <= u32::MAX
                &&& forall|kind: int, i: int| 0 <= kind < 7 && 0 <= i < npockets ==> #[trigger] counter(*old(self), kind)[i] + niter * npockets <= u32::MAX
            },
        ensures
            npockets > ENUM_MAXPLAYERS ==> res == Err::<(), PokerError>(PokerError::TooManyPlayers) && *final(self) == *old(self),
            npockets <= ENUM_MAXPLAYERS && needed_before(pockets@, 7, npockets as int) > dealt_live(pockets@, dead.mask, npockets as int).len() ==> {
                &&& res matches Err(e) && e matches PokerError::InvalidCardConfiguration(msg) && msg@ == not_enough_text(
                    needed_before(pockets@, 7, npockets as int),
                    dealt_live(pockets@, dead.mask, npockets as int).len(),
                )
                &&& *final(self) == *old(self)
            },
            npockets <= ENUM_MAXPLAYERS && needed_before(pockets@, 7, npockets as int) <= dealt_live(pockets@, dead.mask, npockets as int).len() ==> {
                &&& res is Ok
                &&& final(self).game == old(self).game
                &&& final(self).sample_type == old(self).sample_type
                &&& final(self).nplayers == old(self).nplayers
                &&& final(self).nsharehi == old(self).nsharehi
                &&& final(self).nsharelo == old(self).nsharelo
                &&& final(self).nshare == old(self).nshare
                &&& final(self).ordering == old(self).ordering
                &&& deals_counted(*final(self), *old(self), live_std_cards(dealt_live(pockets@, dead.mask, npockets as int), 0),
                    pockets@, 7, npockets as int, niter as nat,
                    |hands: Seq<u64>, i: int, kind: int| game_contrib(old(self).game, Seq::new(npockets as nat, |j: int| 0u32), Seq::new(npockets as nat, |j: int| lowball_mask_value(hands[j]) as u32), npockets as int, i, kind))
            },
    {
        proof {
            if npockets <= ENUM_MAXPLAYERS && niter > 0 {
                let live = live_std_cards(dealt_live(pockets@, dead.mask, npockets as int), 0);
                assert forall|draw: Seq<StdDeckCardMask>, i: int|
                    is_draw(draw, live, needed_before(pockets@, 7 as nat, npockets as int)) && 0 <= i < npockets
                        implies rule_ready(HandRule::Razz, #[trigger] dealt_hands(pockets@, 7 as nat, draw, npockets as int)[i]) by {
                    assert(low_rank_count(dealt_hands(pockets@, 7, draw, npockets as int)[i]) >= 2);
                }
            }
        }
        let res = self.simulate_dealt_game(HandRule::Razz, pockets, dead, npockets, 7, niter, source);
        proof {
            if npockets <= ENUM_MAXPLAYERS && needed_before(pockets@, 7, npockets as int) <= dealt_live(pockets@, dead.mask, npockets as int).len() {
                let g1 = |hands: Seq<u64>, i: int, kind: int| hands_contrib(HandRule::Razz, old(self).game, hands, npockets as int, i, kind);
                let g2 = |hands: Seq<u64>, i: int, kind: int| game_contrib(old(self).game, Seq::new(npockets as nat, |j: int| 0u32), Seq::new(npockets as nat, |j: int| lowball_mask_value(hands[j]) as u32), npockets as int, i, kind);
                assert forall|hands: Seq<u64>, i: int, kind: int| #[trigger] g1(hands, i, kind) == g2(hands, i, kind) by {
                    assert(Seq::new(npockets as nat, |j: int| rule_high(HandRule::Razz, hands[j])) =~= Seq::new(npockets as nat, |j: int| 0u32));
                    assert(Seq::new(npockets as nat, |j: int| rule_low(HandRule::Razz, hands[j])) =~= Seq::new(npockets as nat, |j: int| lowball_mask_value(hands[j]) as u32));
                }
                lemma_deals_counted_same(*self, *old(self), live_std_cards(dealt_live(pockets@, dead.mask, npockets as int), 0),
                    pockets@, 7, npockets as int, niter as nat, g1, g2);
            }
        }
        res
    }

    /// Counts random deals of deuce-to-seven lowball.
    ///
    /// Each of the `niter` samples completes the hand of each of the first
    /// `npockets` players to 5 cards with cards drawn at random from those
    /// that neither `dead` nor one of these pockets holds, and counts the hands as
    /// the variant of this result compares them (see `comparison_of`). More
    /// players than `ENUM_MAXPLAYERS` is an error; so is a deck with fewer cards
    /// left than the players lack; nothing changes then.
    /// The cards of the deals come from `source` (see `draw_cards`).
    pub fn simulate_lowball27_game(&mut self, pockets: &[StdDeckCardMask], dead: StdDeckCardMask, npockets: usize, niter: usize, source: &DrawSource) -> (res: Result<(), PokerError>)
        requires
            npockets <= ENUM_MAXPLAYERS ==> npockets <= pockets@.len(),
            npockets <= ENUM_MAXPLAYERS && niter > 0 ==> {
                &&& old(self).nsamples + niter <= u32::MAX
                &&& forall|kind: int, i: int| 0 <= kind < 7 && 0 <= i < npockets ==> #[trigger] counter(*old(self), kind)[i] + niter * npockets <= u32::MAX
            },
        ensures
            npockets > ENUM_MAXPLAYERS ==> res == Err::<(), PokerError>(PokerError::TooManyPlayers) && *final(self) == *old(self),
            npockets <= ENUM_MAXPLAYERS && needed_before(pockets@, 5, npockets as int) > dealt_live(pockets@, dead.mask, npockets as int).len() ==> {
                &&& res matches Err(e) && e matches PokerError::InvalidCardConfiguration(msg) && msg@ == not_enough_text(
                    needed_before(pockets@, 5, npockets as int),
                    dealt_live(pockets@, dead.mask, npockets as int).len(),
                )
                &&& *final(self) == *old(self)
            },
            npockets <= ENUM_MAXPLAYERS && needed_before(pockets@, 5, npockets as int) <= dealt_live(pockets@, dead.mask, npockets as int).len() ==> {
                &&& res is Ok
                &&& final(self).game == old(self).game
                &&& final(self).sample_type == old(self).sample_type
                &&& final(self).nplayers == old(self).nplayers
                &&& final(self).nsharehi == old(self).nsharehi
                &&& final(self).nsharelo == old(self).nsharelo
                &&& final(self).nshare == old(self).nshare
                &&& final(self).ordering == old(self).ordering
                &&& deals_counted(*final(self), *old(self), live_std_cards(dealt_live(pockets@, dead.mask, npockets as int), 0),
                    pockets@, 5, npockets as int, niter as nat,
                    |hands: Seq<u64>, i: int, kind: int| game_contrib(old(self).game, Seq::new(npockets as nat, |j: int| 0u32), Seq::new(npockets as nat, |j: int| lowball27_mask_value(hands[j], cards_of(hands[j]).len() as int) as u32), npockets as int, i, kind))
            },
    {
        proof {
        }
        let res = self.simulate_dealt_game(HandRule::Deuce, pockets, dead, npockets, 5, niter, source);
        proof {
            if npockets <= ENUM_MAXPLAYERS && needed_before(pockets@, 5, npockets as int) <= dealt_live(pockets@, dead.mask, npockets as int).len() {
                let g1 = |hands: Seq<u64>, i: int, kind: int| hands_contrib(HandRule::Deuce, old(self).game, hands, npockets as int, i, kind);
                let g2 = |hands: Seq<u64>, i: int, kind: int| game_contrib(old(self).game, Seq::new(npockets as nat, |j: int| 0u32), Seq::new(npockets as nat, |j: int| lowball27_mask_value(hands[j], cards_of(hands[j]).len() as int) as u32), npockets as int, i, kind);
                assert forall|hands: Seq<u64>, i: int, kind: int| #[trigger] g1(hands, i, kind) == g2(hands, i, kind) by {
                    assert(Seq::new(npockets as nat, |j: int| rule_high(HandRule::Deuce, hands[j])) =~= Seq::new(npockets as nat, |j: int| 0u32));
                    assert(Seq::new(npockets as nat, |j: int| rule_low(HandRule::Deuce, hands[j])) =~= Seq::new(npockets as nat, |j: int| lowball27_mask_value(hands[j], cards_of(hands[j]).len() as int) as u32));
                }
                lemma_deals_counted_same(*self, *old(self), live_std_cards(dealt_live(pockets@, dead.mask, npockets as int), 0),
                    pockets@, 5, npockets as int, niter as nat, g1, g2);
            }
        }
        res
    }
}

} // verus!

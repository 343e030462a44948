//! Monte Carlo evaluation of the board variants: random completions of the board
//! are dealt from the live cards, and each is counted as one sample.
//!
//! Which completions come out depends on the generator; what is stated of them
//! is that each adds the right number of live cards to the board, and that the
//! counts are those of the completions that came out.
use vstd::prelude::*;
use crate::enumdefs::ENUM_MAXPLAYERS;
use crate::enumerate::inner_loops::inner_loop_holdem;
use crate::enumerate::montecarlo::{deck_montecarlo_n_cards_d, live_std_cards, DrawSource};
use crate::enumerate::result::{
    above, below, count_where, counter, counts_plus, counts_room, excluded, exclusion_mask, hi_values,
    lemma_count_where_bound, lemma_can_merge_counts, lemma_merge_zero_shares, fits, zero_rows, added, level,
    live_deck, live_masks, lo_values, low_losses, low_player, low_ties, low_wins, or_masks, scoops, sum_to,
    EnumResult,
};
use crate::eval::{Eval, eval_mask_value, hand_rank_count};
use crate::eval_low8::{lowball8_value, std_deck_lowball8_eval};
use crate::eval_omaha::{omaha_high, omaha_low, std_deck_omaha_hi_eval, std_deck_omaha_hi_low8_eval};
use crate::handval::{HandVal, LowHandVal};
use crate::tables::{StdDeckCardMask, cards_of};
use crate::errors::PokerError;

verus! {

/// What a sample adds to the counts of kind `kind` of player `i` among `n`, when
/// only the high hands `h` are compared (greater wins): nothing with fewer than
/// two players.
pub open spec fn high_contrib(h: Seq<u32>, n: int, i: int, kind: int) -> nat {
    if n <= 1 {
        0
    } else if kind == 0 {
        above(h, i, n)
    } else if kind == 1 {
        level(h, i, n)
    } else if kind == 2 {
        below(h, i, n)
    } else {
        0
    }
}

/// What a sample adds to the counts of kind `kind` of player `i` among `n`, when
/// the high hands `h` and the lows `v` are compared (see
/// `update_statistics_batched_hilo`): nothing with fewer than two players.
pub open spec fn hilo_contrib(h: Seq<u32>, v: Seq<u32>, n: int, i: int, kind: int) -> nat {
    if n <= 1 {
        0
    } else if kind == 0 {
        above(h, i, n)
    } else if kind == 1 {
        level(h, i, n)
    } else if kind == 2 {
        below(h, i, n)
    } else if kind == 3 {
        crate::enumerate::result::when(low_player(v, i, n), low_wins(v, i, n))
    } else if kind == 4 {
        crate::enumerate::result::when(low_player(v, i, n), low_ties(v, i, n))
    } else if kind == 5 {
        crate::enumerate::result::when(low_player(v, i, n), low_losses(v, i, n))
    } else {
        crate::enumerate::result::when(scoops(h, v, i, n), 1)
    }
}

/// The hold'em values of the first `n` players on the board `board`, counted as
/// the board's cards and two hole cards; 0 past the pockets given.
pub open spec fn sampled_holdem_highs(pockets: Seq<StdDeckCardMask>, board: u64, n: int) -> Seq<u32> {
    Seq::new(
        n as nat,
        |i: int| if i < pockets.len() {
            eval_mask_value(pockets[i].mask | board, cards_of(board).len() + 2int) as u32
        } else {
            0u32
        },
    )
}

/// The seven-card hold'em values of the first `n` pockets on the board `board`.
pub open spec fn sampled_seven_highs(pockets: Seq<StdDeckCardMask>, board: u64, n: int) -> Seq<u32> {
    Seq::new(n as nat, |i: int| eval_mask_value(pockets[i].mask | board, 7) as u32)
}

/// The eight-or-better lows of the first `n` pockets on the board `board`.
pub open spec fn sampled_eight_lows(pockets: Seq<StdDeckCardMask>, board: u64, n: int) -> Seq<u32> {
    Seq::new(n as nat, |i: int| lowball8_value(pockets[i].mask | board) as u32)
}

/// The Omaha high values of the first `n` pockets on the board `board`, 0 where
/// there is none.
pub open spec fn sampled_omaha_highs(pockets: Seq<StdDeckCardMask>, board: u64, n: int) -> Seq<u32> {
    Seq::new(
        n as nat,
        |i: int| match omaha_high(pockets[i].mask, board) {
            Some(h) => h.value,
            None => 0u32,
        },
    )
}

/// The Omaha eight-or-better lows of the first `n` pockets on the board `board`,
/// 0 where there is none.
pub open spec fn sampled_omaha_lows(pockets: Seq<StdDeckCardMask>, board: u64, n: int) -> Seq<u32> {
    Seq::new(
        n as nat,
        |i: int| match omaha_low(pockets[i].mask, board) {
            Some(l) => l.value,
            None => 0u32,
        },
    )
}

/// How a sampled board is evaluated.
#[derive(Clone, Copy)]
enum BoardRule {
    Holdem,
    Omaha,
    Holdem8,
    Omaha8,
}

/// What a sample on `board` adds under `rule` to the counts of kind `kind` of
/// player `i` among `n`.
spec fn board_contrib(rule: BoardRule, pockets: Seq<StdDeckCardMask>, board: u64, n: int, i: int, kind: int) -> nat {
    match rule {
        BoardRule::Holdem => high_contrib(sampled_holdem_highs(pockets, board, n), n, i, kind),
        BoardRule::Omaha => high_contrib(sampled_omaha_highs(pockets, board, n), n, i, kind),
        BoardRule::Holdem8 => hilo_contrib(sampled_seven_highs(pockets, board, n), sampled_eight_lows(pockets, board, n), n, i, kind),
        BoardRule::Omaha8 => hilo_contrib(sampled_omaha_highs(pockets, board, n), sampled_omaha_lows(pockets, board, n), n, i, kind),
    }
}

/// What a sample on `board` adds under `rule` to the counts of each kind and player.
spec fn board_gain(rule: BoardRule, pockets: Seq<StdDeckCardMask>, board: u64, n: int) -> spec_fn(int, int) -> nat {
    |i: int, kind: int| board_contrib(rule, pockets, board, n, i, kind)
}

/// Counts that grew by `g` grew by any `f` equal to it.
pub(crate) proof fn lemma_counts_plus_same(new: EnumResult, old: EnumResult, n: int, g: spec_fn(int, int) -> nat, f: spec_fn(int, int) -> nat)
    requires
        counts_plus(new, old, n, g),
        forall|i: int, kind: int| #[trigger] g(i, kind) == f(i, kind),
    ensures
        counts_plus(new, old, n, f),
{
    assert forall|kind: int, i: int| 0 <= kind < 7 && 0 <= i < 12 implies #[trigger] counter(new, kind)[i] == if i < n {
        (counter(old, kind)[i] + f(i, kind)) as u32
    } else {
        counter(old, kind)[i]
    } by {
        assert(g(i, kind) == f(i, kind));
    }
}

/// The hold'em pockets can be evaluated on `board`: no more than `n` of them, and
/// none makes a hand of more ranks than the board's cards and two.
pub open spec fn holdem_board_ready(pockets: Seq<StdDeckCardMask>, board: u64, n: int) -> bool {
    &&& pockets.len() <= n
    &&& forall|i: int| 0 <= i < pockets.len() ==> hand_rank_count(#[trigger] pockets[i].mask | board) <= cards_of(board).len() + 2
}

/// The first `n` pockets make no hand of more than seven ranks with `board`.
pub open spec fn seven_board_ready(pockets: Seq<StdDeckCardMask>, board: u64, n: int) -> bool {
    &&& n <= pockets.len()
    &&& forall|i: int| 0 <= i < n ==> hand_rank_count(#[trigger] pockets[i].mask | board) <= 7
}

/// What the evaluations of `rule` need of the pockets on `board`.
spec fn board_ready(rule: BoardRule, pockets: Seq<StdDeckCardMask>, board: u64, n: int) -> bool {
    match rule {
        BoardRule::Holdem => holdem_board_ready(pockets, board, n),
        BoardRule::Holdem8 => seven_board_ready(pockets, board, n),
        _ => n <= pockets.len(),
    }
}

/// Each count of kind below 7 adds at most `n` per sample.
proof fn lemma_board_contrib_bound(rule: BoardRule, pockets: Seq<StdDeckCardMask>, board: u64, n: int, i: int, kind: int)
    requires
        0 <= n,
    ensures
        board_contrib(rule, pockets, board, n, i, kind) <= n,
{
    match rule {
        BoardRule::Holdem => lemma_high_contrib_bound(sampled_holdem_highs(pockets, board, n), n, i, kind),
        BoardRule::Omaha => lemma_high_contrib_bound(sampled_omaha_highs(pockets, board, n), n, i, kind),
        BoardRule::Holdem8 => lemma_hilo_contrib_bound(sampled_seven_highs(pockets, board, n), sampled_eight_lows(pockets, board, n), n, i, kind),
        BoardRule::Omaha8 => lemma_hilo_contrib_bound(sampled_omaha_highs(pockets, board, n), sampled_omaha_lows(pockets, board, n), n, i, kind),
    }
}

pub(crate) proof fn lemma_count_bound_all(k: int)
    requires
        0 <= k,
    ensures
        forall|p: spec_fn(int) -> bool| #[trigger] count_where(k, p) <= k,
{
    assert forall|p: spec_fn(int) -> bool| #[trigger] count_where(k, p) <= k by {
        lemma_count_where_bound(k, p);
    }
}

pub(crate) proof fn lemma_high_contrib_bound(h: Seq<u32>, n: int, i: int, kind: int)
    requires
        0 <= n,
    ensures
        high_contrib(h, n, i, kind) <= n,
{
    lemma_count_bound_all(n);
}

pub(crate) proof fn lemma_hilo_contrib_bound(h: Seq<u32>, v: Seq<u32>, n: int, i: int, kind: int)
    requires
        0 <= n,
    ensures
        hilo_contrib(h, v, n, i, kind) <= n,
{
    lemma_count_bound_all(n);
}

/// `n` hands of value 0.
pub(crate) fn zero_highs(n: usize) -> (v: Vec<HandVal>)
    ensures
        v@.len() == n,
        forall|i: int| 0 <= i < n ==> (#[trigger] v@[i]).value == 0,
{
    let mut v: Vec<HandVal> = Vec::new();
    let mut i: usize = 0;
    while i < n
        invariant
            i <= n,
            v@.len() == i,
            forall|x: int| 0 <= x < i ==> (#[trigger] v@[x]).value == 0,
        decreases n - i,
    {
        v.push(HandVal { value: 0 });
        i = i + 1;
    }
    v
}

/// `n` low hands of value 0.
pub(crate) fn zero_lows(n: usize) -> (v: Vec<LowHandVal>)
    ensures
        v@.len() == n,
        forall|i: int| 0 <= i < n ==> (#[trigger] v@[i]).value == 0,
{
    let mut v: Vec<LowHandVal> = Vec::new();
    let mut i: usize = 0;
    while i < n
        invariant
            i <= n,
            v@.len() == i,
            forall|x: int| 0 <= x < i ==> (#[trigger] v@[x]).value == 0,
        decreases n - i,
    {
        v.push(LowHandVal { value: 0 });
        i = i + 1;
    }
    v
}

impl EnumResult {
    /// Compares the first `npockets` high hands of `hival` (see
    /// `update_statistics_batched`).
    pub(crate) fn add_high_sample(&mut self, hival: &Vec<HandVal>, npockets: usize)
        requires
            npockets <= ENUM_MAXPLAYERS,
            hival@.len() == npockets,
            counts_room(*old(self), npockets as int, |i: int, kind: int| high_contrib(hi_values(hival@), npockets as int, i, kind)),
        ensures
            final(self).game == old(self).game,
            final(self).sample_type == old(self).sample_type,
            final(self).nplayers == old(self).nplayers,
            final(self).nsharehi == old(self).nsharehi,
            final(self).nsharelo == old(self).nsharelo,
            final(self).nshare == old(self).nshare,
            final(self).ordering == old(self).ordering,
            final(self).nsamples == old(self).nsamples,
            counts_plus(*final(self), *old(self), npockets as int, |i: int, kind: int| high_contrib(hi_values(hival@), npockets as int, i, kind)),
    {
        let ghost n = npockets as int;
        let ghost h = hi_values(hival@);
        let ghost f = |i: int, kind: int| high_contrib(h, n, i, kind);
        proof {
            if npockets > 1 {
                assert forall|i: int| 0 <= i < n implies self.nwinhi@[i] + #[trigger] above(h, i, n) <= u32::MAX by {
                    assert(counter(*self, 0)[i] + f(i, 0) <= u32::MAX);
                }
                assert forall|i: int| 0 <= i < n implies self.ntiehi@[i] + #[trigger] level(h, i, n) <= u32::MAX by {
                    assert(counter(*self, 1)[i] + f(i, 1) <= u32::MAX);
                }
                assert forall|i: int| 0 <= i < n implies self.nlosehi@[i] + #[trigger] below(h, i, n) <= u32::MAX by {
                    assert(counter(*self, 2)[i] + f(i, 2) <= u32::MAX);
                }
            }
        }
        self.update_statistics_batched(hival.as_slice(), npockets);
        proof {
            assert forall|kind: int, i: int| 0 <= kind < 7 && 0 <= i < 12 implies #[trigger] counter(*self, kind)[i] == if i < n {
                (counter(*old(self), kind)[i] + f(i, kind)) as u32
            } else {
                counter(*old(self), kind)[i]
            } by {
                if npockets > 1 && kind < 3 {
                    if kind == 0 {
                        assert(self.nwinhi@[i] == (if i < n { (old(self).nwinhi@[i] + above(h, i, n)) as u32 } else { old(self).nwinhi@[i] }));
                    } else if kind == 1 {
                        assert(self.ntiehi@[i] == (if i < n { (old(self).ntiehi@[i] + level(h, i, n)) as u32 } else { old(self).ntiehi@[i] }));
                    } else {
                        assert(self.nlosehi@[i] == (if i < n { (old(self).nlosehi@[i] + below(h, i, n)) as u32 } else { old(self).nlosehi@[i] }));
                    }
                }
            }
        }
    }

    /// Compares the first `npockets` high hands of `hival` and lows of `loval`
    /// (see `update_statistics_batched_hilo`).
    pub(crate) fn add_hilo_sample(&mut self, hival: &Vec<HandVal>, loval: &Vec<LowHandVal>, npockets: usize)
        requires
            npockets <= ENUM_MAXPLAYERS,
            hival@.len() == npockets,
            loval@.len() == npockets,
            counts_room(*old(self), npockets as int, |i: int, kind: int| hilo_contrib(hi_values(hival@), lo_values(loval@), npockets as int, i, kind)),
        ensures
            final(self).game == old(self).game,
            final(self).sample_type == old(self).sample_type,
            final(self).nplayers == old(self).nplayers,
            final(self).nsharehi == old(self).nsharehi,
            final(self).nsharelo == old(self).nsharelo,
            final(self).nshare == old(self).nshare,
            final(self).ordering == old(self).ordering,
            final(self).nsamples == old(self).nsamples,
            counts_plus(*final(self), *old(self), npockets as int, |i: int, kind: int| hilo_contrib(hi_values(hival@), lo_values(loval@), npockets as int, i, kind)),
    {
        let ghost n = npockets as int;
        let ghost h = hi_values(hival@);
        let ghost v = lo_values(loval@);
        let ghost f = |i: int, kind: int| hilo_contrib(h, v, n, i, kind);
        proof {
            if npockets > 1 {
                assert forall|i: int| 0 <= i < n implies self.nwinhi@[i] + #[trigger] above(h, i, n) <= u32::MAX by {
                    assert(counter(*self, 0)[i] + f(i, 0) <= u32::MAX);
                }
                assert forall|i: int| 0 <= i < n implies self.ntiehi@[i] + #[trigger] level(h, i, n) <= u32::MAX by {
                    assert(counter(*self, 1)[i] + f(i, 1) <= u32::MAX);
                }
                assert forall|i: int| 0 <= i < n implies self.nlosehi@[i] + #[trigger] below(h, i, n) <= u32::MAX by {
                    assert(counter(*self, 2)[i] + f(i, 2) <= u32::MAX);
                }
                assert forall|i: int| 0 <= i < n implies self.nwinlo@[i] + #[trigger] crate::enumerate::result::when(low_player(v, i, n), low_wins(v, i, n)) <= u32::MAX by {
                    assert(counter(*self, 3)[i] + f(i, 3) <= u32::MAX);
                }
                assert forall|i: int| 0 <= i < n implies self.ntielo@[i] + #[trigger] crate::enumerate::result::when(low_player(v, i, n), low_ties(v, i, n)) <= u32::MAX by {
                    assert(counter(*self, 4)[i] + f(i, 4) <= u32::MAX);
                }
                assert forall|i: int| 0 <= i < n implies self.nloselo@[i] + #[trigger] crate::enumerate::result::when(low_player(v, i, n), low_losses(v, i, n)) <= u32::MAX by {
                    assert(counter(*self, 5)[i] + f(i, 5) <= u32::MAX);
                }
                assert forall|i: int| 0 <= i < n implies self.nscoop@[i] + #[trigger] crate::enumerate::result::when(scoops(h, v, i, n), 1) <= u32::MAX by {
                    assert(counter(*self, 6)[i] + f(i, 6) <= u32::MAX);
                }
            }
        }
        self.update_statistics_batched_hilo(hival.as_slice(), loval.as_slice(), npockets);
        proof {
            assert forall|kind: int, i: int| 0 <= kind < 7 && 0 <= i < 12 implies #[trigger] counter(*self, kind)[i] == if i < n {
                (counter(*old(self), kind)[i] + f(i, kind)) as u32
            } else {
                counter(*old(self), kind)[i]
            } by {
                if npockets > 1 {
                    if kind == 0 {
                        assert(self.nwinhi@[i] == (if i < n { (old(self).nwinhi@[i] + above(h, i, n)) as u32 } else { old(self).nwinhi@[i] }));
                    } else if kind == 1 {
                        assert(self.ntiehi@[i] == (if i < n { (old(self).ntiehi@[i] + level(h, i, n)) as u32 } else { old(self).ntiehi@[i] }));
                    } else if kind == 2 {
                        assert(self.nlosehi@[i] == (if i < n { (old(self).nlosehi@[i] + below(h, i, n)) as u32 } else { old(self).nlosehi@[i] }));
                    } else if kind == 3 {
                        assert(self.nwinlo@[i] == (if i < n { (old(self).nwinlo@[i] + crate::enumerate::result::when(low_player(v, i, n), low_wins(v, i, n))) as u32 } else { old(self).nwinlo@[i] }));
                    } else if kind == 4 {
                        assert(self.ntielo@[i] == (if i < n { (old(self).ntielo@[i] + crate::enumerate::result::when(low_player(v, i, n), low_ties(v, i, n))) as u32 } else { old(self).ntielo@[i] }));
                    } else if kind == 5 {
                        assert(self.nloselo@[i] == (if i < n { (old(self).nloselo@[i] + crate::enumerate::result::when(low_player(v, i, n), low_losses(v, i, n))) as u32 } else { old(self).nloselo@[i] }));
                    } else {
                        assert(self.nscoop@[i] == (if i < n { (old(self).nscoop@[i] + crate::enumerate::result::when(scoops(h, v, i, n), 1)) as u32 } else { old(self).nscoop@[i] }));
                    }
                }
            }
        }
    }

    /// Counts one sample on `board` under `rule`.
    fn count_board(&mut self, rule: BoardRule, pockets: &[StdDeckCardMask], board: &StdDeckCardMask, npockets: usize)
        requires
            npockets <= ENUM_MAXPLAYERS,
            board_ready(rule, pockets@, board.mask, npockets as int),
            old(self).nsamples < u32::MAX,
            counts_room(*old(self), npockets as int, board_gain(rule, pockets@, board.mask, npockets as int)),
        ensures
            final(self).game == old(self).game,
            final(self).sample_type == old(self).sample_type,
            final(self).nplayers == old(self).nplayers,
            final(self).nsharehi == old(self).nsharehi,
            final(self).nsharelo == old(self).nsharelo,
            final(self).nshare == old(self).nshare,
            final(self).ordering == old(self).ordering,
            final(self).nsamples == old(self).nsamples + 1,
            counts_plus(*final(self), *old(self), npockets as int, board_gain(rule, pockets@, board.mask, npockets as int)),
    {
        let ghost n = npockets as int;
        let ghost f = board_gain(rule, pockets@, board.mask, n);
        let ghost start = *self;
        match rule {
            BoardRule::Holdem => {
                let mut hival = zero_highs(npockets);
                let mut loval = zero_lows(npockets);
                let empty = StdDeckCardMask::new();
                proof {
                    let b = board.mask;
                    assert(b | 0u64 == b) by (bit_vector);
                }
                let _ = inner_loop_holdem(pockets, board, &empty, &mut hival, &mut loval);
                proof {
                    assert(hi_values(hival@) =~= sampled_holdem_highs(pockets@, board.mask, n));
                    assert((|i: int, kind: int| high_contrib(hi_values(hival@), n, i, kind)) =~= f);
                }
                proof {
                    assert forall|i: int, kind: int| 0 <= kind < 7 && 0 <= i < n implies counter(*self, kind)[i]
                        + #[trigger] high_contrib(hi_values(hival@), n, i, kind) <= u32::MAX by {
                        assert(counter(*self, kind)[i] + f(i, kind) <= u32::MAX);
                    }
                }
                self.add_high_sample(&hival, npockets);
                proof {
                    lemma_counts_plus_same(*self, start, n, |i: int, kind: int| high_contrib(hi_values(hival@), n, i, kind), f);
                }
            },
            BoardRule::Omaha => {
                let mut hival: Vec<HandVal> = Vec::new();
                let mut i: usize = 0;
                while i < npockets
                    invariant
                        i <= npockets,
                        npockets <= pockets@.len(),
                        hival@.len() == i,
                        forall|x: int| 0 <= x < i ==> (#[trigger] hival@[x]).value == sampled_omaha_highs(pockets@, board.mask, npockets as int)[x],
                    decreases npockets - i,
                {
                    let mut val: Option<HandVal> = None;
                    let _ = std_deck_omaha_hi_eval(pockets[i], *board, &mut val);
                    let h = match val {
                        Some(h) => h,
                        None => HandVal { value: 0 },
                    };
                    hival.push(h);
                    i = i + 1;
                }
                proof {
                    assert(hi_values(hival@) =~= sampled_omaha_highs(pockets@, board.mask, n));
                    assert((|i: int, kind: int| high_contrib(hi_values(hival@), n, i, kind)) =~= f);
                }
                proof {
                    assert forall|i: int, kind: int| 0 <= kind < 7 && 0 <= i < n implies counter(*self, kind)[i]
                        + #[trigger] high_contrib(hi_values(hival@), n, i, kind) <= u32::MAX by {
                        assert(counter(*self, kind)[i] + f(i, kind) <= u32::MAX);
                    }
                }
                self.add_high_sample(&hival, npockets);
                proof {
                    lemma_counts_plus_same(*self, start, n, |i: int, kind: int| high_contrib(hi_values(hival@), n, i, kind), f);
                }
            },
            BoardRule::Holdem8 => {
                let mut hival: Vec<HandVal> = Vec::new();
                let mut loval: Vec<LowHandVal> = Vec::new();
                let mut i: usize = 0;
                while i < npockets
                    invariant
                        i <= npockets,
                        seven_board_ready(pockets@, board.mask, npockets as int),
                        hival@.len() == i,
                        loval@.len() == i,
                        forall|x: int| 0 <= x < i ==> (#[trigger] hival@[x]).value == sampled_seven_highs(pockets@, board.mask, npockets as int)[x],
                        forall|x: int| 0 <= x < i ==> (#[trigger] loval@[x]).value == sampled_eight_lows(pockets@, board.mask, npockets as int)[x],
                    decreases npockets - i,
                {
                    let hand = StdDeckCardMask { mask: pockets[i].mask | board.mask };
                    proof {
                        assert(hand_rank_count(pockets@[i as int].mask | board.mask) <= 7);
                    }
                    hival.push(Eval::eval_n(&hand, 7));
                    let lo = match std_deck_lowball8_eval(&hand, 7) {
                        Some(l) => l,
                        None => LowHandVal { value: 0 },
                    };
                    loval.push(lo);
                    i = i + 1;
                }
                proof {
                    assert(hi_values(hival@) =~= sampled_seven_highs(pockets@, board.mask, n));
                    assert(lo_values(loval@) =~= sampled_eight_lows(pockets@, board.mask, n));
                    assert((|i: int, kind: int| hilo_contrib(hi_values(hival@), lo_values(loval@), n, i, kind)) =~= f);
                }
                proof {
                    assert forall|i: int, kind: int| 0 <= kind < 7 && 0 <= i < n implies counter(*self, kind)[i]
                        + #[trigger] hilo_contrib(hi_values(hival@), lo_values(loval@), n, i, kind) <= u32::MAX by {
                        assert(counter(*self, kind)[i] + f(i, kind) <= u32::MAX);
                    }
                }
                self.add_hilo_sample(&hival, &loval, npockets);
                proof {
                    lemma_counts_plus_same(*self, start, n, |i: int, kind: int| hilo_contrib(hi_values(hival@), lo_values(loval@), n, i, kind), f);
                }
            },
            BoardRule::Omaha8 => {
                let mut hival: Vec<HandVal> = Vec::new();
                let mut loval: Vec<LowHandVal> = Vec::new();
                let mut i: usize = 0;
                while i < npockets
                    invariant
                        i <= npockets,
                        npockets <= pockets@.len(),
                        hival@.len() == i,
                        loval@.len() == i,
                        forall|x: int| 0 <= x < i ==> (#[trigger] hival@[x]).value == sampled_omaha_highs(pockets@, board.mask, npockets as int)[x],
                        forall|x: int| 0 <= x < i ==> (#[trigger] loval@[x]).value == sampled_omaha_lows(pockets@, board.mask, npockets as int)[x],
                    decreases npockets - i,
                {
                    let mut hi: Option<HandVal> = None;
                    let mut lo: Option<LowHandVal> = None;
                    let _ = std_deck_omaha_hi_low8_eval(pockets[i], *board, &mut hi, &mut lo);
                    let h = match hi {
                        Some(h) => h,
                        None => HandVal { value: 0 },
                    };
                    let l = match lo {
                        Some(l) => l,
                        None => LowHandVal { value: 0 },
                    };
                    hival.push(h);
                    loval.push(l);
                    i = i + 1;
                }
                proof {
                    assert(hi_values(hival@) =~= sampled_omaha_highs(pockets@, board.mask, n));
                    assert(lo_values(loval@) =~= sampled_omaha_lows(pockets@, board.mask, n));
                    assert((|i: int, kind: int| hilo_contrib(hi_values(hival@), lo_values(loval@), n, i, kind)) =~= f);
                }
                proof {
                    assert forall|i: int, kind: int| 0 <= kind < 7 && 0 <= i < n implies counter(*self, kind)[i]
                        + #[trigger] hilo_contrib(hi_values(hival@), lo_values(loval@), n, i, kind) <= u32::MAX by {
                        assert(counter(*self, kind)[i] + f(i, kind) <= u32::MAX);
                    }
                }
                self.add_hilo_sample(&hival, &loval, npockets);
                proof {
                    lemma_counts_plus_same(*self, start, n, |i: int, kind: int| hilo_contrib(hi_values(hival@), lo_values(loval@), n, i, kind), f);
                }
            },
        }
        let ghost pre = *self;
        self.nsamples = self.nsamples + 1;
        proof {
            assert forall|kind: int, i: int| 0 <= kind < 7 && 0 <= i < 12 implies #[trigger] counter(*self, kind)[i] == if i < n {
                (counter(*old(self), kind)[i] + f(i, kind)) as u32
            } else {
                counter(*old(self), kind)[i]
            } by {
                assert(counter(*self, kind) == counter(pre, kind));
            }
        }
    }
}

/// What the samples on `boards` (the first `m`) add under `rule` to the counts of
/// each kind and player.
spec fn boards_gain(rule: BoardRule, pockets: Seq<StdDeckCardMask>, boards: Seq<StdDeckCardMask>, n: int, m: int) -> spec_fn(int, int) -> nat {
    |i: int, kind: int| sum_to(m, |j: int| board_contrib(rule, pockets, boards[j].mask, n, i, kind))
}

/// A sum of `m` terms of at most `b` is at most `m * b`.
pub(crate) proof fn lemma_sum_bound(m: int, f: spec_fn(int) -> nat, b: int)
    requires
        0 <= m,
        0 <= b,
        forall|j: int| 0 <= j < m ==> #[trigger] f(j) <= b,
    ensures
        sum_to(m, f) <= m * b,
    decreases m,
{
    if m > 0 {
        lemma_sum_bound(m - 1, f, b);
        assert(f(m - 1) <= b);
        assert((m - 1) * b + b == m * b) by (nonlinear_arith);
    }
}

impl EnumResult {
    /// Counts one sample on each board of `boards` under `rule`.
    fn count_boards(&mut self, rule: BoardRule, pockets: &[StdDeckCardMask], boards: &Vec<StdDeckCardMask>, npockets: usize)
        requires
            npockets <= ENUM_MAXPLAYERS,
            forall|j: int| 0 <= j < boards@.len() ==> board_ready(rule, pockets@, #[trigger] boards@[j].mask, npockets as int),
            old(self).nsamples + boards@.len() <= u32::MAX,
            forall|kind: int, i: int| 0 <= kind < 7 && 0 <= i < npockets ==> #[trigger] counter(*old(self), kind)[i] + boards@.len() * npockets <= u32::MAX,
        ensures
            final(self).game == old(self).game,
            final(self).sample_type == old(self).sample_type,
            final(self).nplayers == old(self).nplayers,
            final(self).nsharehi == old(self).nsharehi,
            final(self).nsharelo == old(self).nsharelo,
            final(self).nshare == old(self).nshare,
            final(self).ordering == old(self).ordering,
            final(self).nsamples == old(self).nsamples + boards@.len(),
            counts_plus(*final(self), *old(self), npockets as int, boards_gain(rule, pockets@, boards@, npockets as int, boards@.len() as int)),
    {
        let ghost n = npockets as int;
        let ghost start = *self;
        let ghost len = boards@.len() as int;
        let mut t: usize = 0;
        proof {
            assert forall|kind: int, i: int| 0 <= kind < 7 && 0 <= i < 12 implies #[trigger] counter(*self, kind)[i] == if i < n {
                (counter(start, kind)[i] + boards_gain(rule, pockets@, boards@, n, 0)(i, kind)) as u32
            } else {
                counter(start, kind)[i]
            } by {}
        }
        while t < boards.len()
            invariant
                t <= boards@.len(),
                len == boards@.len(),
                n == npockets,
                npockets <= ENUM_MAXPLAYERS,
                forall|j: int| 0 <= j < boards@.len() ==> board_ready(rule, pockets@, #[trigger] boards@[j].mask, npockets as int),
                start.nsamples + boards@.len() <= u32::MAX,
                forall|kind: int, i: int| 0 <= kind < 7 && 0 <= i < npockets ==> #[trigger] counter(start, kind)[i] + boards@.len() * npockets <= u32::MAX,
                self.game == start.game,
                self.sample_type == start.sample_type,
                self.nplayers == start.nplayers,
                self.nsharehi == start.nsharehi,
                self.nsharelo == start.nsharelo,
                self.nshare == start.nshare,
                self.ordering == start.ordering,
                self.nsamples == start.nsamples + t,
                counts_plus(*self, start, n, boards_gain(rule, pockets@, boards@, n, t as int)),
            decreases boards@.len() - t,
        {
            let ghost before = *self;
            let ghost g = board_gain(rule, pockets@, boards@[t as int].mask, n);
            let ghost total = boards_gain(rule, pockets@, boards@, n, t as int);
            let ghost next = boards_gain(rule, pockets@, boards@, n, t as int + 1);
            proof {
                assert forall|kind: int, i: int| 0 <= kind < 7 && 0 <= i < n implies counter(*self, kind)[i] + #[trigger] g(i, kind) <= u32::MAX by {
                    let h = |j: int| board_contrib(rule, pockets@, boards@[j].mask, n, i, kind);
                    assert forall|j: int| 0 <= j < t + 1 implies #[trigger] h(j) <= n by {
                        lemma_board_contrib_bound(rule, pockets@, boards@[j].mask, n, i, kind);
                    }
                    lemma_sum_bound(t as int + 1, h, n);
                    assert(sum_to(t as int + 1, h) == sum_to(t as int, h) + h(t as int));
                    assert((t as int + 1) * n <= len * n) by (nonlinear_arith)
                        requires
                            t + 1 <= len,
                            0 <= n,
                    ;
                    assert(counter(start, kind)[i] + len * npockets <= u32::MAX);
                    assert(total(i, kind) == sum_to(t as int, h));
                    assert(counter(*self, kind)[i] == (counter(start, kind)[i] + total(i, kind)) as u32);
                    assert(g(i, kind) == h(t as int));
                }
            }
            self.count_board(rule, pockets, &boards[t], npockets);
            proof {
                assert forall|kind: int, i: int| 0 <= kind < 7 && 0 <= i < 12 implies #[trigger] counter(*self, kind)[i] == if i < n {
                    (counter(start, kind)[i] + next(i, kind)) as u32
                } else {
                    counter(start, kind)[i]
                } by {
                    assert(counter(before, kind)[i] == if i < n { (counter(start, kind)[i] + total(i, kind)) as u32 } else { counter(start, kind)[i] });
                    assert(counter(*self, kind)[i] == if i < n { (counter(before, kind)[i] + g(i, kind)) as u32 } else { counter(before, kind)[i] });
                    if i < n {
                        let h = |j: int| board_contrib(rule, pockets@, boards@[j].mask, n, i, kind);
                        assert forall|j: int| 0 <= j < t + 1 implies #[trigger] h(j) <= n by {
                            lemma_board_contrib_bound(rule, pockets@, boards@[j].mask, n, i, kind);
                        }
                        lemma_sum_bound(t as int + 1, h, n);
                        assert(sum_to(t as int + 1, h) == sum_to(t as int, h) + h(t as int));
                        assert((t as int + 1) * n <= len * n) by (nonlinear_arith)
                            requires
                                t + 1 <= len,
                                0 <= n,
                        ;
                        assert(counter(start, kind)[i] + len * npockets <= u32::MAX);
                        assert(total(i, kind) == sum_to(t as int, h));
                        assert(next(i, kind) == sum_to(t as int + 1, h));
                        assert(g(i, kind) == h(t as int));
                    }
                }
            }
            t = t + 1;
        }
    }
}

/// `draw` is a draw of `k` of the cards of `live`, none taken more often than
/// `live` holds it.
pub open spec fn is_draw(draw: Seq<StdDeckCardMask>, live: Seq<StdDeckCardMask>, k: nat) -> bool {
    &&& draw.len() == k
    &&& draw.to_multiset().subset_of(live.to_multiset())
}

/// `b` is `board` with a draw of `k` cards of `live` added.
pub open spec fn completes(b: u64, board: u64, live: Seq<StdDeckCardMask>, k: nat) -> bool {
    exists|draw: Seq<StdDeckCardMask>| #[trigger] is_draw(draw, live, k) && b == board | or_masks(draw)
}

/// The cards that a sample draws from: the cards that no pocket, the board nor
/// `dead` holds.
pub open spec fn sample_live(pockets: Seq<StdDeckCardMask>, board: u64, dead: u64) -> Seq<StdDeckCardMask> {
    live_std_cards(live_masks(excluded(pockets, board, dead), 52), 0)
}

/// `new` is `old` with one sample counted on each board of `boards`: `niter` of
/// them, each `board` with `k` cards of `live` (none when `live` holds fewer),
/// each adding `gain(b, i, kind)` to the count of kind `kind` of player `i` among
/// the first `n`.
pub open spec fn samples_on(
    new: EnumResult,
    old: EnumResult,
    boards: Seq<u64>,
    live: Seq<StdDeckCardMask>,
    board: u64,
    k: nat,
    niter: nat,
    n: int,
    gain: spec_fn(u64, int, int) -> nat,
) -> bool {
    &&& boards.len() == (if k <= live.len() { niter } else { 0 })
    &&& forall|j: int| 0 <= j < boards.len() ==> completes(#[trigger] boards[j], board, live, k)
    &&& new.nsamples == old.nsamples + boards.len()
    &&& forall|kind: int, i: int|
        0 <= kind < 7 && 0 <= i < 12 ==> #[trigger] counter(new, kind)[i] == if i < n {
            (counter(old, kind)[i] + sum_to(boards.len() as int, |j: int| gain(boards[j], i, kind))) as u32
        } else {
            counter(old, kind)[i]
        }
}

/// `new` is `old` with the samples of some boards counted (see `samples_on`).
pub open spec fn samples_counted(
    new: EnumResult,
    old: EnumResult,
    live: Seq<StdDeckCardMask>,
    board: u64,
    k: nat,
    niter: nat,
    n: int,
    gain: spec_fn(u64, int, int) -> nat,
) -> bool {
    exists|boards: Seq<u64>| #[trigger] samples_on(new, old, boards, live, board, k, niter, n, gain)
}

/// Sums of equal terms are equal.
pub(crate) proof fn lemma_sum_to_ext(m: int, f: spec_fn(int) -> nat, g: spec_fn(int) -> nat)
    requires
        forall|j: int| 0 <= j < m ==> #[trigger] f(j) == g(j),
    ensures
        sum_to(m, f) == sum_to(m, g),
    decreases m,
{
    if m > 0 {
        lemma_sum_to_ext(m - 1, f, g);
        assert(f(m - 1) == g(m - 1));
    }
}

/// The cards of `cards`, together.
pub(crate) fn or_all(cards: &Vec<StdDeckCardMask>) -> (m: u64)
    ensures
        m == or_masks(cards@),
{
    let mut m: u64 = 0;
    let mut i: usize = 0;
    while i < cards.len()
        invariant
            i <= cards@.len(),
            m == or_masks(cards@.take(i as int)),
        decreases cards@.len() - i,
    {
        proof {
            assert(cards@.take(i as int + 1).drop_last() =~= cards@.take(i as int));
        }
        m = m | cards[i].mask;
        i = i + 1;
    }
    proof {
        assert(cards@.take(cards@.len() as int) =~= cards@);
    }
    m
}

impl EnumResult {
    /// Counts `niter` random completions of `board` under `rule` (see the public
    /// simulations).
    fn simulate_board_game(
        &mut self,
        rule: BoardRule,
        pockets: &[StdDeckCardMask],
        board: StdDeckCardMask,
        dead: StdDeckCardMask,
        npockets: usize,
        nboard: usize,
        niter: usize,
        source: &DrawSource,
    ) -> (res: Result<(), PokerError>)
        requires
            nboard <= 5,
            npockets <= ENUM_MAXPLAYERS && niter > 0 ==> {
                let live = sample_live(pockets@, board.mask, dead.mask);
                &&& forall|draw: Seq<StdDeckCardMask>| is_draw(draw, live, (5 - nboard) as nat)
                    ==> board_ready(rule, pockets@, board.mask | #[trigger] or_masks(draw), npockets as int)
                &&& old(self).nsamples + niter <= u32::MAX
                &&& forall|kind: int, i: int| 0 <= kind < 7 && 0 <= i < npockets ==> #[trigger] counter(*old(self), kind)[i] + niter * npockets <= u32::MAX
            },
        ensures
            npockets > ENUM_MAXPLAYERS ==> res == Err::<(), PokerError>(PokerError::TooManyPlayers) && *final(self) == *old(self),
            npockets <= ENUM_MAXPLAYERS ==> {
                &&& res is Ok
                &&& final(self).game == old(self).game
                &&& final(self).sample_type == old(self).sample_type
                &&& final(self).nplayers == old(self).nplayers
                &&& final(self).nsharehi == old(self).nsharehi
                &&& final(self).nsharelo == old(self).nsharelo
                &&& final(self).nshare == old(self).nshare
                &&& final(self).ordering == old(self).ordering
                &&& samples_counted(*final(self), *old(self), sample_live(pockets@, board.mask, dead.mask), board.mask,
                    (5 - nboard) as nat, niter as nat, npockets as int,
                    |b: u64, i: int, kind: int| board_contrib(rule, pockets@, b, npockets as int, i, kind))
            },
    {
        if npockets > ENUM_MAXPLAYERS {
            return Err(PokerError::TooManyPlayers);
        }
        let ghost n = npockets as int;
        let ghost live = sample_live(pockets@, board.mask, dead.mask);
        let ghost k = (5 - nboard) as nat;
        let excl = exclusion_mask(pockets, board.mask, dead.mask);
        let deck = live_deck(excl);
        let num = 5 - nboard;
        let draws = deck_montecarlo_n_cards_d(deck.as_slice(), StdDeckCardMask::new(), num, niter, source);
        let mut boards: Vec<StdDeckCardMask> = Vec::new();
        let mut j: usize = 0;
        while j < draws.len()
            invariant
                j <= draws@.len(),
                live == live_std_cards(deck@, 0),
                crate::enumerate::montecarlo::draws_of(draws@, live, k, niter as nat),
                boards@.len() == j,
                forall|x: int| 0 <= x < j ==> (#[trigger] boards@[x]).mask == board.mask | or_masks(draws@[x]@),
            decreases draws@.len() - j,
        {
            let picked = or_all(&draws[j]);
            boards.push(StdDeckCardMask { mask: board.mask | picked });
            j = j + 1;
        }
        proof {
            assert forall|x: int| 0 <= x < boards@.len() implies completes(#[trigger] boards@[x].mask, board.mask, live, k) by {
                assert(draws@[x]@.len() == k && draws@[x]@.to_multiset().subset_of(live.to_multiset()));
                assert(is_draw(draws@[x]@, live, k));
            }
            if niter > 0 {
                assert forall|x: int| 0 <= x < boards@.len() implies board_ready(rule, pockets@, #[trigger] boards@[x].mask, n) by {
                    assert(is_draw(draws@[x]@, live, k));
                    assert(board_ready(rule, pockets@, board.mask | or_masks(draws@[x]@), n));
                }
            }
        }
        let mut local = EnumResult::new(self.game);
        local.nplayers = npockets as u32;
        proof {
            assert forall|kind: int, i: int| 0 <= kind < 7 && 0 <= i < npockets implies #[trigger] counter(local, kind)[i] + boards@.len() * npockets <= u32::MAX by {
                assert(counter(local, kind)[i] == 0);
                assert(boards@.len() * npockets <= niter * npockets) by (nonlinear_arith)
                    requires
                        boards@.len() <= niter,
                ;
                assert(counter(*self, kind)[i] + niter * npockets <= u32::MAX);
            }
        }
        let ghost zero = local;
        local.count_boards(rule, pockets, &boards, npockets);
        let ghost total = boards_gain(rule, pockets@, boards@, n, boards@.len() as int);
        proof {
            assert forall|kind: int| 0 <= kind < 7 implies fits(#[trigger] counter(*self, kind), counter(local, kind)) by {
                assert forall|i: int| 0 <= i < counter(*self, kind).len() && i < counter(local, kind).len() implies #[trigger] counter(*self, kind)[i]
                    + counter(local, kind)[i] <= u32::MAX by {
                    if i < n {
                        let h = |j: int| board_contrib(rule, pockets@, boards@[j].mask, n, i, kind);
                        assert forall|j: int| 0 <= j < boards@.len() implies #[trigger] h(j) <= n by {
                            lemma_board_contrib_bound(rule, pockets@, boards@[j].mask, n, i, kind);
                        }
                        lemma_sum_bound(boards@.len() as int, h, n);
                        assert(boards@.len() * npockets <= niter * npockets) by (nonlinear_arith)
                            requires
                                boards@.len() <= niter,
                        ;
                        assert(counter(*self, kind)[i] + niter * npockets <= u32::MAX);
                        assert(total(i, kind) == sum_to(boards@.len() as int, h));
                        assert(counter(zero, kind)[i] == 0);
                    } else {
                        assert(counter(zero, kind)[i] == 0);
                    }
                }
            }
            assert(zero_rows(local.nsharehi@));
            lemma_can_merge_counts(*self, local);
        }
        let ghost pre = *self;
        self.merge(&local);
        proof {
            lemma_merge_zero_shares(*self, pre, local);
            assert(self.nsharehi@ =~= pre.nsharehi@);
            let bm = boards@.map_values(|b: StdDeckCardMask| b.mask);
            let gain = |b: u64, i: int, kind: int| board_contrib(rule, pockets@, b, n, i, kind);
            assert forall|kind: int, i: int| 0 <= kind < 7 && 0 <= i < 12 implies #[trigger] counter(*self, kind)[i] == if i < n {
                (counter(*old(self), kind)[i] + sum_to(bm.len() as int, |j: int| gain(bm[j], i, kind))) as u32
            } else {
                counter(*old(self), kind)[i]
            } by {
                assert(added(counter(*self, kind), counter(pre, kind), counter(local, kind)));
                assert(counter(zero, kind)[i] == 0);
                if i < n {
                    let h = |j: int| board_contrib(rule, pockets@, boards@[j].mask, n, i, kind);
                    lemma_sum_to_ext(bm.len() as int, h, |j: int| gain(bm[j], i, kind));
                    assert(total(i, kind) == sum_to(boards@.len() as int, h));
                    assert forall|j: int| 0 <= j < boards@.len() implies #[trigger] h(j) <= n by {
                        lemma_board_contrib_bound(rule, pockets@, boards@[j].mask, n, i, kind);
                    }
                    lemma_sum_bound(boards@.len() as int, h, n);
                    assert(boards@.len() * npockets <= niter * npockets) by (nonlinear_arith)
                        requires
                            boards@.len() <= niter,
                    ;
                    assert(counter(pre, kind)[i] + niter * npockets <= u32::MAX);
                }
            }
            assert forall|x: int| 0 <= x < bm.len() implies completes(#[trigger] bm[x], board.mask, live, k) by {
                assert(completes(boards@[x].mask, board.mask, live, k));
            }
            assert(samples_on(*self, *old(self), bm, live, board.mask, k, niter as nat, n, gain));
        }
        Ok(())
    }
}

/// Samples counted with a gain are counted with any gain equal to it.
pub(crate) proof fn lemma_samples_counted_same(
    new: EnumResult,
    old: EnumResult,
    live: Seq<StdDeckCardMask>,
    board: u64,
    k: nat,
    niter: nat,
    n: int,
    g1: spec_fn(u64, int, int) -> nat,
    g2: spec_fn(u64, int, int) -> nat,
)
    requires
        samples_counted(new, old, live, board, k, niter, n, g1),
        forall|b: u64, i: int, kind: int| #[trigger] g1(b, i, kind) == g2(b, i, kind),
    ensures
        samples_counted(new, old, live, board, k, niter, n, g2),
{
    let boards = choose|boards: Seq<u64>| #[trigger] samples_on(new, old, boards, live, board, k, niter, n, g1);
    assert forall|kind: int, i: int| 0 <= kind < 7 && 0 <= i < 12 implies #[trigger] counter(new, kind)[i] == if i < n {
        (counter(old, kind)[i] + sum_to(boards.len() as int, |j: int| g2(boards[j], i, kind))) as u32
    } else {
        counter(old, kind)[i]
    } by {
        lemma_sum_to_ext(boards.len() as int, |j: int| g1(boards[j], i, kind), |j: int| g2(boards[j], i, kind));
    }
    assert(samples_on(new, old, boards, live, board, k, niter, n, g2));
}

impl EnumResult {
    /// Counts random hold'em completions of the board.
    ///
    /// `nboard` cards of the board are known; each of the `niter` samples adds
    /// `5 - nboard` cards drawn at random from the cards that no pocket, the board
    /// nor `dead` holds, and is counted (no sample when fewer cards are left). More
    /// players than `ENUM_MAXPLAYERS` is an error, and nothing changes then.
    /// The cards of the deals come from `source` (see `draw_cards`).
    pub fn simulate_holdem_game(
        &mut self,
        pockets: &[StdDeckCardMask],
        board: StdDeckCardMask,
        dead: StdDeckCardMask,
        npockets: usize,
        nboard: usize,
        niter: usize,
        source: &DrawSource,
    ) -> (res: Result<(), PokerError>)
        requires
            nboard <= 5,
            npockets <= ENUM_MAXPLAYERS && niter > 0 ==> {
                &&& forall|draw: Seq<StdDeckCardMask>| is_draw(draw, sample_live(pockets@, board.mask, dead.mask), (5 - nboard) as nat)
                    ==> holdem_board_ready(pockets@, board.mask | #[trigger] or_masks(draw), npockets as int)
                &&& old(self).nsamples + niter <= u32::MAX
                &&& forall|kind: int, i: int| 0 <= kind < 7 && 0 <= i < npockets ==> #[trigger] counter(*old(self), kind)[i] + niter * npockets <= u32::MAX
            },
        ensures
            npockets > ENUM_MAXPLAYERS ==> res == Err::<(), PokerError>(PokerError::TooManyPlayers) && *final(self) == *old(self),
            npockets <= ENUM_MAXPLAYERS ==> {
                &&& res is Ok
                &&& final(self).game == old(self).game
                &&& final(self).sample_type == old(self).sample_type
                &&& final(self).nplayers == old(self).nplayers
                &&& final(self).nsharehi == old(self).nsharehi
                &&& final(self).nsharelo == old(self).nsharelo
                &&& final(self).nshare == old(self).nshare
                &&& final(self).ordering == old(self).ordering
                &&& samples_counted(*final(self), *old(self), sample_live(pockets@, board.mask, dead.mask), board.mask,
                    (5 - nboard) as nat, niter as nat, npockets as int,
                    |b: u64, i: int, kind: int| high_contrib(sampled_holdem_highs(pockets@, b, npockets as int), npockets as int, i, kind))
            },
    {
        let res = self.simulate_board_game(BoardRule::Holdem, pockets, board, dead, npockets, nboard, niter, source);
        proof {
            if npockets <= ENUM_MAXPLAYERS {
                lemma_samples_counted_same(*self, *old(self), sample_live(pockets@, board.mask, dead.mask), board.mask,
                    (5 - nboard) as nat, niter as nat, npockets as int,
                    |b: u64, i: int, kind: int| board_contrib(BoardRule::Holdem, pockets@, b, npockets as int, i, kind),
                    |b: u64, i: int, kind: int| high_contrib(sampled_holdem_highs(pockets@, b, npockets as int), npockets as int, i, kind));
            }
        }
        res
    }

    /// Counts random Omaha completions of the board; the first `npockets` pockets play.
    ///
    /// `nboard` cards of the board are known; each of the `niter` samples adds
    /// `5 - nboard` cards drawn at random from the cards that no pocket, the board
    /// nor `dead` holds, and is counted (no sample when fewer cards are left). More
    /// players than `ENUM_MAXPLAYERS` is an error, and nothing changes then.
    /// The cards of the deals come from `source` (see `draw_cards`).
    pub fn simulate_omaha_game(
        &mut self,
        pockets: &[StdDeckCardMask],
        board: StdDeckCardMask,
        dead: StdDeckCardMask,
        npockets: usize,
        nboard: usize,
        niter: usize,
        source: &DrawSource,
    ) -> (res: Result<(), PokerError>)
        requires
            nboard <= 5,
            npockets <= ENUM_MAXPLAYERS && niter > 0 ==> {
                &&& npockets <= pockets@.len()
                &&& old(self).nsamples + niter <= u32::MAX
                &&& forall|kind: int, i: int| 0 <= kind < 7 && 0 <= i < npockets ==> #[trigger] counter(*old(self), kind)[i] + niter * npockets <= u32::MAX
            },
        ensures
            npockets > ENUM_MAXPLAYERS ==> res == Err::<(), PokerError>(PokerError::TooManyPlayers) && *final(self) == *old(self),
            npockets <= ENUM_MAXPLAYERS ==> {
                &&& res is Ok
                &&& final(self).game == old(self).game
                &&& final(self).sample_type == old(self).sample_type
                &&& final(self).nplayers == old(self).nplayers
                &&& final(self).nsharehi == old(self).nsharehi
                &&& final(self).nsharelo == old(self).nsharelo
                &&& final(self).nshare == old(self).nshare
                &&& final(self).ordering == old(self).ordering
                &&& samples_counted(*final(self), *old(self), sample_live(pockets@, board.mask, dead.mask), board.mask,
                    (5 - nboard) as nat, niter as nat, npockets as int,
                    |b: u64, i: int, kind: int| high_contrib(sampled_omaha_highs(pockets@, b, npockets as int), npockets as int, i, kind))
            },
    {
        let res = self.simulate_board_game(BoardRule::Omaha, pockets, board, dead, npockets, nboard, niter, source);
        proof {
            if npockets <= ENUM_MAXPLAYERS {
                lemma_samples_counted_same(*self, *old(self), sample_live(pockets@, board.mask, dead.mask), board.mask,
                    (5 - nboard) as nat, niter as nat, npockets as int,
                    |b: u64, i: int, kind: int| board_contrib(BoardRule::Omaha, pockets@, b, npockets as int, i, kind),
                    |b: u64, i: int, kind: int| high_contrib(sampled_omaha_highs(pockets@, b, npockets as int), npockets as int, i, kind));
            }
        }
        res
    }

    /// Counts random five-card Omaha completions of the board, as `simulate_omaha_game` does.
    ///
    /// `nboard` cards of the board are known; each of the `niter` samples adds
    /// `5 - nboard` cards drawn at random from the cards that no pocket, the board
    /// nor `dead` holds, and is counted (no sample when fewer cards are left). More
    /// players than `ENUM_MAXPLAYERS` is an error, and nothing changes then.
    /// The cards of the deals come from `source` (see `draw_cards`).
    pub fn simulate_omaha5_game(
        &mut self,
        pockets: &[StdDeckCardMask],
        board: StdDeckCardMask,
        dead: StdDeckCardMask,
        npockets: usize,
        nboard: usize,
        niter: usize,
        source: &DrawSource,
    ) -> (res: Result<(), PokerError>)
        requires
            nboard <= 5,
            npockets <= ENUM_MAXPLAYERS && niter > 0 ==> {
                &&& npockets <= pockets@.len()
                &&& old(self).nsamples + niter <= u32::MAX
                &&& forall|kind: int, i: int| 0 <= kind < 7 && 0 <= i < npockets ==> #[trigger] counter(*old(self), kind)[i] + niter * npockets <= u32::MAX
            },
        ensures
            npockets > ENUM_MAXPLAYERS ==> res == Err::<(), PokerError>(PokerError::TooManyPlayers) && *final(self) == *old(self),
            npockets <= ENUM_MAXPLAYERS ==> {
                &&& res is Ok
                &&& final(self).game == old(self).game
                &&& final(self).sample_type == old(self).sample_type
                &&& final(self).nplayers == old(self).nplayers
                &&& final(self).nsharehi == old(self).nsharehi
                &&& final(self).nsharelo == old(self).nsharelo
                &&& final(self).nshare == old(self).nshare
                &&& final(self).ordering == old(self).ordering
                &&& samples_counted(*final(self), *old(self), sample_live(pockets@, board.mask, dead.mask), board.mask,
                    (5 - nboard) as nat, niter as nat, npockets as int,
                    |b: u64, i: int, kind: int| high_contrib(sampled_omaha_highs(pockets@, b, npockets as int), npockets as int, i, kind))
            },
    {
        self.simulate_omaha_game(pockets, board, dead, npockets, nboard, niter, source)
    }

    /// Counts random six-card Omaha completions of the board, as `simulate_omaha_game` does.
    ///
    /// `nboard` cards of the board are known; each of the `niter` samples adds
    /// `5 - nboard` cards drawn at random from the cards that no pocket, the board
    /// nor `dead` holds, and is counted (no sample when fewer cards are left). More
    /// players than `ENUM_MAXPLAYERS` is an error, and nothing changes then.
    /// The cards of the deals come from `source` (see `draw_cards`).
    pub fn simulate_omaha6_game(
        &mut self,
        pockets: &[StdDeckCardMask],
        board: StdDeckCardMask,
        dead: StdDeckCardMask,
        npockets: usize,
        nboard: usize,
        niter: usize,
        source: &DrawSource,
    ) -> (res: Result<(), PokerError>)
        requires
            nboard <= 5,
            npockets <= ENUM_MAXPLAYERS && niter > 0 ==> {
                &&& npockets <= pockets@.len()
                &&& old(self).nsamples + niter <= u32::MAX
                &&& forall|kind: int, i: int| 0 <= kind < 7 && 0 <= i < npockets ==> #[trigger] counter(*old(self), kind)[i] + niter * npockets <= u32::MAX
            },
        ensures
            npockets > ENUM_MAXPLAYERS ==> res == Err::<(), PokerError>(PokerError::TooManyPlayers) && *final(self) == *old(self),
            npockets <= ENUM_MAXPLAYERS ==> {
                &&& res is Ok
                &&& final(self).game == old(self).game
                &&& final(self).sample_type == old(self).sample_type
                &&& final(self).nplayers == old(self).nplayers
                &&& final(self).nsharehi == old(self).nsharehi
                &&& final(self).nsharelo == old(self).nsharelo
                &&& final(self).nshare == old(self).nshare
                &&& final(self).ordering == old(self).ordering
                &&& samples_counted(*final(self), *old(self), sample_live(pockets@, board.mask, dead.mask), board.mask,
                    (5 - nboard) as nat, niter as nat, npockets as int,
                    |b: u64, i: int, kind: int| high_contrib(sampled_omaha_highs(pockets@, b, npockets as int), npockets as int, i, kind))
            },
    {
        self.simulate_omaha_game(pockets, board, dead, npockets, nboard, niter, source)
    }

    /// Counts random hold'em high-low eight-or-better completions of the board; the first `npockets` pockets play.
    ///
    /// `nboard` cards of the board are known; each of the `niter` samples adds
    /// `5 - nboard` cards drawn at random from the cards that no pocket, the board
    /// nor `dead` holds, and is counted (no sample when fewer cards are left). More
    /// players than `ENUM_MAXPLAYERS` is an error, and nothing changes then.
    /// The cards of the deals come from `source` (see `draw_cards`).
    pub fn simulate_holdem8_game(
        &mut self,
        pockets: &[StdDeckCardMask],
        board: StdDeckCardMask,
        dead: StdDeckCardMask,
        npockets: usize,
        nboard: usize,
        niter: usize,
        source: &DrawSource,
    ) -> (res: Result<(), PokerError>)
        requires
            nboard <= 5,
            npockets <= ENUM_MAXPLAYERS && niter > 0 ==> {
                &&& forall|draw: Seq<StdDeckCardMask>| is_draw(draw, sample_live(pockets@, board.mask, dead.mask), (5 - nboard) as nat)
                    ==> seven_board_ready(pockets@, board.mask | #[trigger] or_masks(draw), npockets as int)
                &&& old(self).nsamples + niter <= u32::MAX
                &&& forall|kind: int, i: int| 0 <= kind < 7 && 0 <= i < npockets ==> #[trigger] counter(*old(self), kind)[i] + niter * npockets <= u32::MAX
            },
        ensures
            npockets > ENUM_MAXPLAYERS ==> res == Err::<(), PokerError>(PokerError::TooManyPlayers) && *final(self) == *old(self),
            npockets <= ENUM_MAXPLAYERS ==> {
                &&& res is Ok
                &&& final(self).game == old(self).game
                &&& final(self).sample_type == old(self).sample_type
                &&& final(self).nplayers == old(self).nplayers
                &&& final(self).nsharehi == old(self).nsharehi
                &&& final(self).nsharelo == old(self).nsharelo
                &&& final(self).nshare == old(self).nshare
                &&& final(self).ordering == old(self).ordering
                &&& samples_counted(*final(self), *old(self), sample_live(pockets@, board.mask, dead.mask), board.mask,
                    (5 - nboard) as nat, niter as nat, npockets as int,
                    |b: u64, i: int, kind: int| hilo_contrib(sampled_seven_highs(pockets@, b, npockets as int), sampled_eight_lows(pockets@, b, npockets as int), npockets as int, i, kind))
            },
    {
        let res = self.simulate_board_game(BoardRule::Holdem8, pockets, board, dead, npockets, nboard, niter, source);
        proof {
            if npockets <= ENUM_MAXPLAYERS {
                lemma_samples_counted_same(*self, *old(self), sample_live(pockets@, board.mask, dead.mask), board.mask,
                    (5 - nboard) as nat, niter as nat, npockets as int,
                    |b: u64, i: int, kind: int| board_contrib(BoardRule::Holdem8, pockets@, b, npockets as int, i, kind),
                    |b: u64, i: int, kind: int| hilo_contrib(sampled_seven_highs(pockets@, b, npockets as int), sampled_eight_lows(pockets@, b, npockets as int), npockets as int, i, kind));
            }
        }
        res
    }

    /// Counts random Omaha high-low eight-or-better completions of the board; the first `npockets` pockets play.
    ///
    /// `nboard` cards of the board are known; each of the `niter` samples adds
    /// `5 - nboard` cards drawn at random from the cards that no pocket, the board
    /// nor `dead` holds, and is counted (no sample when fewer cards are left). More
    /// players than `ENUM_MAXPLAYERS` is an error, and nothing changes then.
    /// The cards of the deals come from `source` (see `draw_cards`).
    pub fn simulate_omaha8_game(
        &mut self,
        pockets: &[StdDeckCardMask],
        board: StdDeckCardMask,
        dead: StdDeckCardMask,
        npockets: usize,
        nboard: usize,
        niter: usize,
        source: &DrawSource,
    ) -> (res: Result<(), PokerError>)
        requires
            nboard <= 5,
            npockets <= ENUM_MAXPLAYERS && niter > 0 ==> {
                &&& npockets <= pockets@.len()
                &&& old(self).nsamples + niter <= u32::MAX
                &&& forall|kind: int, i: int| 0 <= kind < 7 && 0 <= i < npockets ==> #[trigger] counter(*old(self), kind)[i] + niter * npockets <= u32::MAX
            },
        ensures
            npockets > ENUM_MAXPLAYERS ==> res == Err::<(), PokerError>(PokerError::TooManyPlayers) && *final(self) == *old(self),
            npockets <= ENUM_MAXPLAYERS ==> {
                &&& res is Ok
                &&& final(self).game == old(self).game
                &&& final(self).sample_type == old(self).sample_type
                &&& final(self).nplayers == old(self).nplayers
                &&& final(self).nsharehi == old(self).nsharehi
                &&& final(self).nsharelo == old(self).nsharelo
                &&& final(self).nshare == old(self).nshare
                &&& final(self).ordering == old(self).ordering
                &&& samples_counted(*final(self), *old(self), sample_live(pockets@, board.mask, dead.mask), board.mask,
                    (5 - nboard) as nat, niter as nat, npockets as int,
                    |b: u64, i: int, kind: int| hilo_contrib(sampled_omaha_highs(pockets@, b, npockets as int), sampled_omaha_lows(pockets@, b, npockets as int), npockets as int, i, kind))
            },
    {
        let res = self.simulate_board_game(BoardRule::Omaha8, pockets, board, dead, npockets, nboard, niter, source);
        proof {
            if npockets <= ENUM_MAXPLAYERS {
                lemma_samples_counted_same(*self, *old(self), sample_live(pockets@, board.mask, dead.mask), board.mask,
                    (5 - nboard) as nat, niter as nat, npockets as int,
                    |b: u64, i: int, kind: int| board_contrib(BoardRule::Omaha8, pockets@, b, npockets as int, i, kind),
                    |b: u64, i: int, kind: int| hilo_contrib(sampled_omaha_highs(pockets@, b, npockets as int), sampled_omaha_lows(pockets@, b, npockets as int), npockets as int, i, kind));
            }
        }
        res
    }
}

} // verus!

//! The counts of an enumeration: samples, and for each player the comparisons won,
//! tied and lost, high and low, and the pots scooped.
//!
//! A player's expected share of the pot follows from these counts: each sample
//! adds, per opponent, 1 for a won comparison and 1/2 for a tie, high and low,
//! divided by the number of opponents.
use vstd::prelude::*;
use crate::enumdefs::{Game, SampleType, ENUM_MAXPLAYERS};
use crate::enumord::{
    nbits_for, EnumOrdering, EnumOrderingMode, ENUM_ORDERING_MAXPLAYERS, ENUM_ORDERING_MAXPLAYERS_HILO,
};
use crate::errors::PokerError;
use crate::handval::{HandVal, LowHandVal, LOW_HAND_VAL_NOTHING};
use crate::text::{decimal, push_decimal, push_str};
use crate::eval::{Eval, eval_mask_value, hand_rank_count};
use crate::tables::{StdDeckCardMask, card_in, card_mask_value};
use crate::combinations::{
    advance_indices, binomial, comb_weight, lemma_binomial_small, first_indices, first_combination,
    is_combination, lemma_next_combination, lemma_next_weight, lemma_weight_bound, next_combination,
};
use crate::combinaison::{lemma_nth_combination_bound, lemma_nth_combination_exists, nth_combination};
use crate::enumerate::card_enum::hand_of;
use crate::eval_low8::{lowball8_value, std_deck_lowball8_eval};
use crate::eval_omaha::{omaha_high, std_deck_omaha_hi_eval};
use vstd::arithmetic::power::pow;

verus! {

/// The counts of an enumeration (see the module's description).
pub struct EnumResult {
    /// The variant.
    pub game: Game,
    /// How the deals were visited.
    pub sample_type: SampleType,
    /// The number of deals counted.
    pub nsamples: u32,
    /// The number of players.
    pub nplayers: u32,
    /// Per player: high comparisons won, tied and lost.
    pub nwinhi: [u32; 12],
    pub ntiehi: [u32; 12],
    pub nlosehi: [u32; 12],
    /// Per player: low comparisons won, tied and lost.
    pub nwinlo: [u32; 12],
    pub ntielo: [u32; 12],
    pub nloselo: [u32; 12],
    /// Per player: deals where they won high and low outright.
    pub nscoop: [u32; 12],
    /// Per player and number of sharers: high and low pots shared.
    pub nsharehi: [[u32; 13]; 12],
    pub nsharelo: [[u32; 13]; 12],
    /// Per player and numbers of high and low sharers: pots shared.
    pub nshare: Box<[[[u32; 13]; 13]; 12]>,
    /// The histogram of final hand orderings, when one is kept.
    pub ordering: Option<Box<EnumOrdering>>,
}

/// An array of twelve zeros.
pub open spec fn zeros12() -> Seq<u32> {
    Seq::new(12, |i: int| 0u32)
}

/// `a` is all zeros.
pub open spec fn all_zero(a: Seq<u32>) -> bool {
    forall|i: int| 0 <= i < a.len() ==> #[trigger] a[i] == 0
}

/// The rows of `a` are all zeros.
pub open spec fn zero_rows(a: Seq<[u32; 13]>) -> bool {
    forall|i: int| 0 <= i < a.len() ==> all_zero(#[trigger] a[i]@)
}

/// The planes of `a` are all zeros.
pub open spec fn zero_planes(a: Seq<[[u32; 13]; 13]>) -> bool {
    forall|i: int| 0 <= i < a.len() ==> zero_rows(#[trigger] a[i]@)
}

/// `new` is `old` plus `other`, entry by entry.
pub open spec fn added(new: Seq<u32>, old: Seq<u32>, other: Seq<u32>) -> bool {
    &&& new.len() == old.len()
    &&& forall|i: int| 0 <= i < new.len() ==> #[trigger] new[i] == old[i] + other[i]
}

/// Adding `b` to `a` entry by entry stays within `u32`.
pub open spec fn fits(a: Seq<u32>, b: Seq<u32>) -> bool {
    forall|i: int| 0 <= i < a.len() && i < b.len() ==> #[trigger] a[i] + b[i] <= u32::MAX
}

/// `new` is `old` plus `other`, row by row.
pub open spec fn rows_added(new: Seq<[u32; 13]>, old: Seq<[u32; 13]>, other: Seq<[u32; 13]>) -> bool {
    &&& new.len() == old.len()
    &&& forall|i: int| 0 <= i < new.len() ==> added(#[trigger] new[i]@, old[i]@, other[i]@)
}

/// Adding `b` to `a` row by row stays within `u32`.
pub open spec fn rows_fit(a: Seq<[u32; 13]>, b: Seq<[u32; 13]>) -> bool {
    forall|i: int| 0 <= i < a.len() && i < b.len() ==> fits(#[trigger] a[i]@, b[i]@)
}

/// `new` is `old` plus `other`, plane by plane.
pub open spec fn planes_added(
    new: Seq<[[u32; 13]; 13]>,
    old: Seq<[[u32; 13]; 13]>,
    other: Seq<[[u32; 13]; 13]>,
) -> bool {
    &&& new.len() == old.len()
    &&& forall|i: int| 0 <= i < new.len() ==> rows_added(#[trigger] new[i]@, old[i]@, other[i]@)
}

/// Adding `b` to `a` plane by plane stays within `u32`.
pub open spec fn planes_fit(a: Seq<[[u32; 13]; 13]>, b: Seq<[[u32; 13]; 13]>) -> bool {
    forall|i: int| 0 <= i < a.len() && i < b.len() ==> rows_fit(#[trigger] a[i]@, b[i]@)
}

impl EnumResult {
    /// The counts are all zero and no ordering is kept.
    pub open spec fn is_clear(&self) -> bool {
        &&& self.nsamples == 0
        &&& self.nplayers == 0
        &&& all_zero(self.nwinhi@)
        &&& all_zero(self.ntiehi@)
        &&& all_zero(self.nlosehi@)
        &&& all_zero(self.nwinlo@)
        &&& all_zero(self.ntielo@)
        &&& all_zero(self.nloselo@)
        &&& all_zero(self.nscoop@)
        &&& zero_rows(self.nsharehi@)
        &&& zero_rows(self.nsharelo@)
        &&& zero_planes(self.nshare@)
        &&& self.ordering is None
    }

    /// Empty counts for the variant `game`, exhaustive.
    pub fn new(game: Game) -> (r: EnumResult)
        ensures
            r.is_clear(),
            r.game == game,
            r.sample_type == SampleType::Exhaustive,
    {
        let mut res = EnumResult {
            game,
            sample_type: SampleType::Exhaustive,
            nsamples: 0,
            nplayers: 0,
            nwinhi: [0; 12],
            ntiehi: [0; 12],
            nlosehi: [0; 12],
            nwinlo: [0; 12],
            ntielo: [0; 12],
            nloselo: [0; 12],
            nscoop: [0; 12],
            nsharehi: [[0; 13]; 12],
            nsharelo: [[0; 13]; 12],
            nshare: Box::new([[[0; 13]; 13]; 12]),
            ordering: None,
        };
        res.clear();
        res.game = game;
        res
    }

    /// Resets the counts to zero, the variant to hold'em, the sampling to exhaustive,
    /// and drops the ordering.
    pub fn clear(&mut self)
        ensures
            final(self).is_clear(),
            final(self).game == Game::Holdem,
            final(self).sample_type == SampleType::Exhaustive,
    {
        self.game = Game::Holdem;
        self.sample_type = SampleType::Exhaustive;
        self.nsamples = 0;
        self.nplayers = 0;
        self.nwinhi = [0; 12];
        self.ntiehi = [0; 12];
        self.nlosehi = [0; 12];
        self.nwinlo = [0; 12];
        self.ntielo = [0; 12];
        self.nloselo = [0; 12];
        self.nscoop = [0; 12];
        self.nsharehi = [[0; 13]; 12];
        self.nsharelo = [[0; 13]; 12];
        self.nshare = Box::new([[[0; 13]; 13]; 12]);
        self.ordering = None;
    }
}

impl EnumResult {
    /// Adding the counts of `other` to these stays within `u32`.
    pub open spec fn can_merge(&self, other: &EnumResult) -> bool {
        &&& self.nsamples + other.nsamples <= u32::MAX
        &&& fits(self.nwinhi@, other.nwinhi@)
        &&& fits(self.ntiehi@, other.ntiehi@)
        &&& fits(self.nlosehi@, other.nlosehi@)
        &&& fits(self.nwinlo@, other.nwinlo@)
        &&& fits(self.ntielo@, other.ntielo@)
        &&& fits(self.nloselo@, other.nloselo@)
        &&& fits(self.nscoop@, other.nscoop@)
        &&& rows_fit(self.nsharehi@, other.nsharehi@)
        &&& rows_fit(self.nsharelo@, other.nsharelo@)
        &&& planes_fit(self.nshare@, other.nshare@)
        &&& match (self.ordering, other.ordering) {
            (Some(s), Some(o)) => fits(s.hist@, o.hist@),
            _ => true,
        }
    }

    /// Adds the counts of `other` to these; when both keep an ordering, its
    /// histogram too, over the entries both have.
    pub fn merge(&mut self, other: &Self)
        requires
            old(self).can_merge(other),
        ensures
            final(self).game == old(self).game,
            final(self).sample_type == old(self).sample_type,
            final(self).nplayers == old(self).nplayers,
            final(self).nsamples == old(self).nsamples + other.nsamples,
            added(final(self).nwinhi@, old(self).nwinhi@, other.nwinhi@),
            added(final(self).ntiehi@, old(self).ntiehi@, other.ntiehi@),
            added(final(self).nlosehi@, old(self).nlosehi@, other.nlosehi@),
            added(final(self).nwinlo@, old(self).nwinlo@, other.nwinlo@),
            added(final(self).ntielo@, old(self).ntielo@, other.ntielo@),
            added(final(self).nloselo@, old(self).nloselo@, other.nloselo@),
            added(final(self).nscoop@, old(self).nscoop@, other.nscoop@),
            rows_added(final(self).nsharehi@, old(self).nsharehi@, other.nsharehi@),
            rows_added(final(self).nsharelo@, old(self).nsharelo@, other.nsharelo@),
            planes_added(final(self).nshare@, old(self).nshare@, other.nshare@),
            match (old(self).ordering, other.ordering) {
                (Some(s), Some(o)) => final(self).ordering matches Some(f) && f.mode == s.mode && f.nplayers
                    == s.nplayers && f.nentries == s.nentries && f.hist@.len() == s.hist@.len() && (forall|i: int|
                    0 <= i < s.hist@.len() ==> #[trigger] f.hist@[i] == if i < o.hist@.len() {
                        (s.hist@[i] + o.hist@[i]) as u32
                    } else {
                        s.hist@[i]
                    }),
                _ => final(self).ordering == old(self).ordering,
            },
    {
        self.nsamples = self.nsamples + other.nsamples;
        self.nwinhi = add_counts(&self.nwinhi, &other.nwinhi);
        self.ntiehi = add_counts(&self.ntiehi, &other.ntiehi);
        self.nlosehi = add_counts(&self.nlosehi, &other.nlosehi);
        self.nwinlo = add_counts(&self.nwinlo, &other.nwinlo);
        self.ntielo = add_counts(&self.ntielo, &other.ntielo);
        self.nloselo = add_counts(&self.nloselo, &other.nloselo);
        self.nscoop = add_counts(&self.nscoop, &other.nscoop);
        self.nsharehi = add_rows(&self.nsharehi, &other.nsharehi);
        self.nsharelo = add_rows(&self.nsharelo, &other.nsharelo);
        let mut planes: [[[u32; 13]; 13]; 12] = *self.nshare;
        let mut i: usize = 0;
        while i < 12
            invariant
                i <= 12,
                planes@.len() == 12,
                planes_fit(old(self).nshare@, other.nshare@),
                forall|x: int| 0 <= x < i ==> rows_added(#[trigger] planes@[x]@, old(self).nshare@[x]@, other.nshare@[x]@),
                forall|x: int| i <= x < 12 ==> #[trigger] planes@[x] == old(self).nshare@[x],
            decreases 12 - i,
        {
            let p = add_rows(&planes[i], &other.nshare[i]);
            planes[i] = p;
            i = i + 1;
        }
        self.nshare = Box::new(planes);
        let mine = self.ordering.take();
        self.ordering = match (mine, &other.ordering) {
            (Some(s), Some(o)) => {
                let mut ord: EnumOrdering = *s;
                let h = add_hist(&ord.hist, &o.hist);
                ord.hist = h;
                Some(Box::new(ord))
            },
            (m, _) => m,
        };
    }
}

/// The histogram that `EnumOrdering::new(mode, nplayers)` makes, empty.
pub open spec fn fresh_ordering(o: EnumOrdering, mode: EnumOrderingMode, nplayers: usize) -> bool {
    &&& o.mode == mode
    &&& o.nplayers == nplayers
    &&& o.nentries == (if mode == EnumOrderingMode::Hilo {
        vstd::arithmetic::power2::pow2((2 * nplayers * nbits_for(nplayers as int)) as nat)
    } else {
        vstd::arithmetic::power2::pow2((nplayers * nbits_for(nplayers as int)) as nat)
    })
    &&& o.hist@.len() == o.nentries
    &&& forall|i: int| 0 <= i < o.hist@.len() ==> #[trigger] o.hist@[i] == 0
}

impl EnumResult {
    /// Starts a histogram of hand orderings for `nplayers` players in mode `mode`;
    /// too many players for the mode is an error, and nothing changes then.
    pub fn allocate_resources(&mut self, nplayers: usize, mode: EnumOrderingMode) -> (res: Result<(), PokerError>)
        ensures
            final(self).game == old(self).game,
            final(self).sample_type == old(self).sample_type,
            final(self).nsamples == old(self).nsamples,
            final(self).nplayers == old(self).nplayers,
            final(self).nwinhi == old(self).nwinhi,
            final(self).ntiehi == old(self).ntiehi,
            final(self).nlosehi == old(self).nlosehi,
            final(self).nwinlo == old(self).nwinlo,
            final(self).ntielo == old(self).ntielo,
            final(self).nloselo == old(self).nloselo,
            final(self).nscoop == old(self).nscoop,
            res is Err <==> (mode != EnumOrderingMode::Hilo && nplayers > ENUM_ORDERING_MAXPLAYERS) || (mode
                == EnumOrderingMode::Hilo && nplayers > ENUM_ORDERING_MAXPLAYERS_HILO),
            res is Err ==> final(self).ordering == old(self).ordering,
            res matches Err(e) ==> (e matches PokerError::Other(msg) && msg@ == if mode == EnumOrderingMode::Hilo {
                "Too many players for Hilo mode"@
            } else {
                "Too many players for non-Hilo mode"@
            }),
            res is Ok ==> (final(self).ordering matches Some(o) && fresh_ordering(*o, mode, nplayers)),
    {
        let hilo = match mode {
            EnumOrderingMode::Hilo => true,
            _ => false,
        };
        if nplayers > ENUM_ORDERING_MAXPLAYERS && !hilo {
            let mut msg = String::new();
            push_str(&mut msg, "Too many players for non-Hilo mode");
            proof {
                assert(msg@ =~= "Too many players for non-Hilo mode"@);
            }
            return Err(PokerError::Other(msg));
        } else if nplayers > ENUM_ORDERING_MAXPLAYERS_HILO && hilo {
            let mut msg = String::new();
            push_str(&mut msg, "Too many players for Hilo mode");
            proof {
                assert(msg@ =~= "Too many players for Hilo mode"@);
            }
            return Err(PokerError::Other(msg));
        }
        let ordering = EnumOrdering::new(mode, nplayers);
        self.ordering = Some(Box::new(ordering));
        Ok(())
    }
}

/// The number of `j` in `0..k` for which `p` holds.
pub open spec fn count_where(k: int, p: spec_fn(int) -> bool) -> nat
    decreases k,
{
    if k <= 0 {
        0
    } else {
        count_where(k - 1, p) + if p(k - 1) {
            1nat
        } else {
            0nat
        }
    }
}

pub(crate) proof fn lemma_count_where_bound(k: int, p: spec_fn(int) -> bool)
    requires
        0 <= k,
    ensures
        count_where(k, p) <= k,
    decreases k,
{
    if k > 0 {
        lemma_count_where_bound(k - 1, p);
    }
}

/// The values of hands.
pub open spec fn hi_values(s: Seq<HandVal>) -> Seq<u32> {
    s.map_values(|h: HandVal| h.value)
}

/// The values of low hands.
pub open spec fn lo_values(s: Seq<LowHandVal>) -> Seq<u32> {
    s.map_values(|h: LowHandVal| h.value)
}

/// Among the first `k` players, the others whose value `v[i]` is greater than theirs.
pub open spec fn above(v: Seq<u32>, i: int, k: int) -> nat {
    count_where(k, |j: int| j != i && v[i] > v[j])
}

/// Among the first `k` players, the others whose value equals `v[i]`.
pub open spec fn level(v: Seq<u32>, i: int, k: int) -> nat {
    count_where(k, |j: int| j != i && v[i] == v[j])
}

/// Among the first `k` players, the others whose value `v[i]` is smaller than theirs.
pub open spec fn below(v: Seq<u32>, i: int, k: int) -> nat {
    count_where(k, |j: int| j != i && v[i] < v[j])
}

/// Among the first `k` players, the others whose qualifying low `v[i]` beats:
/// theirs is greater or does not qualify (`LOW_HAND_VAL_NOTHING`).
pub open spec fn low_wins(v: Seq<u32>, i: int, k: int) -> nat {
    count_where(
        k,
        |j: int| j != i && v[i] != LOW_HAND_VAL_NOTHING && (v[j] == LOW_HAND_VAL_NOTHING || v[i] < v[j]),
    )
}

/// Among the first `k` players, the others whose qualifying low equals `v[i]`.
pub open spec fn low_ties(v: Seq<u32>, i: int, k: int) -> nat {
    count_where(k, |j: int| j != i && v[i] != LOW_HAND_VAL_NOTHING && v[i] == v[j])
}

/// Among the first `k` players, the others whose qualifying low beats `v[i]`.
pub open spec fn low_losses(v: Seq<u32>, i: int, k: int) -> nat {
    count_where(
        k,
        |j: int| j != i && v[j] != LOW_HAND_VAL_NOTHING && (v[i] == LOW_HAND_VAL_NOTHING || v[j] < v[i]),
    )
}

/// Compares `v[i]` with the first `k` values but its own: how many it is above,
/// level with and below.
fn compare_values(v: &[u32], i: usize, k: usize) -> (r: (u32, u32, u32))
    requires
        i < v@.len(),
        k <= v@.len(),
        k <= u32::MAX,
    ensures
        r.0 == above(v@, i as int, k as int),
        r.1 == level(v@, i as int, k as int),
        r.2 == below(v@, i as int, k as int),
{
    let mut w: u32 = 0;
    let mut t: u32 = 0;
    let mut l: u32 = 0;
    let mut j: usize = 0;
    while j < k
        invariant
            i < v@.len(),
            k <= v@.len(),
            k <= u32::MAX,
            j <= k,
            w + t + l <= j,
            w == above(v@, i as int, j as int),
            t == level(v@, i as int, j as int),
            l == below(v@, i as int, j as int),
        decreases k - j,
    {
        proof {
            lemma_count_where_bound(j as int, |x: int| x != i && v@[i as int] > v@[x]);
            lemma_count_where_bound(j as int, |x: int| x != i && v@[i as int] == v@[x]);
            lemma_count_where_bound(j as int, |x: int| x != i && v@[i as int] < v@[x]);
        }
        if j != i {
            if v[i] > v[j] {
                w = w + 1;
            } else if v[i] < v[j] {
                l = l + 1;
            } else {
                t = t + 1;
            }
        }
        j = j + 1;
    }
    (w, t, l)
}

/// Compares the qualifying low `v[i]` with the first `k` lows but its own (see
/// `low_wins`, `low_ties`, `low_losses`).
fn compare_lows(v: &[u32], i: usize, k: usize) -> (r: (u32, u32, u32))
    requires
        i < v@.len(),
        k <= v@.len(),
        k <= u32::MAX,
    ensures
        r.0 == low_wins(v@, i as int, k as int),
        r.1 == low_ties(v@, i as int, k as int),
        r.2 == low_losses(v@, i as int, k as int),
{
    let mut w: u32 = 0;
    let mut t: u32 = 0;
    let mut l: u32 = 0;
    let mut j: usize = 0;
    while j < k
        invariant
            i < v@.len(),
            k <= v@.len(),
            k <= u32::MAX,
            j <= k,
            w + t + l <= j,
            w == low_wins(v@, i as int, j as int),
            t == low_ties(v@, i as int, j as int),
            l == low_losses(v@, i as int, j as int),
        decreases k - j,
    {
        proof {
            lemma_count_where_bound(
                j as int,
                |x: int| x != i && v@[i as int] != LOW_HAND_VAL_NOTHING && (v@[x] == LOW_HAND_VAL_NOTHING
                    || v@[i as int] < v@[x]),
            );
            lemma_count_where_bound(j as int, |x: int| x != i && v@[i as int] != LOW_HAND_VAL_NOTHING && v@[i as int] == v@[x]);
            lemma_count_where_bound(
                j as int,
                |x: int| x != i && v@[x] != LOW_HAND_VAL_NOTHING && (v@[i as int] == LOW_HAND_VAL_NOTHING
                    || v@[x] < v@[i as int]),
            );
        }
        if j != i {
            let a = v[i];
            let b = v[j];
            if a == LOW_HAND_VAL_NOTHING && b == LOW_HAND_VAL_NOTHING {
            } else if a == LOW_HAND_VAL_NOTHING {
                l = l + 1;
            } else if b == LOW_HAND_VAL_NOTHING {
                w = w + 1;
            } else if a < b {
                w = w + 1;
            } else if a > b {
                l = l + 1;
            } else {
                t = t + 1;
            }
        }
        j = j + 1;
    }
    (w, t, l)
}

/// `old` with `f(i)` added to each of its first `n` entries.
pub open spec fn plus_counts(old: Seq<u32>, n: int, f: spec_fn(int) -> nat) -> Seq<u32> {
    Seq::new(old.len(), |i: int| if i < n { (old[i] + f(i)) as u32 } else { old[i] })
}

/// Adding `f(i)` to each of the first `n` entries of `old` stays within `u32`.
pub open spec fn counts_fit(old: Seq<u32>, n: int, f: spec_fn(int) -> nat) -> bool {
    forall|i: int| 0 <= i < n ==> old[i] + #[trigger] f(i) <= u32::MAX
}

/// The two results have the same variant, sampling, sample and player counts,
/// share tables and ordering.
pub open spec fn same_frame(a: EnumResult, b: EnumResult) -> bool {
    &&& a.game == b.game
    &&& a.sample_type == b.sample_type
    &&& a.nsamples == b.nsamples
    &&& a.nplayers == b.nplayers
    &&& a.nsharehi == b.nsharehi
    &&& a.nsharelo == b.nsharelo
    &&& a.nshare == b.nshare
    &&& a.ordering == b.ordering
}

/// The values of hands.
fn values_of(hands: &[HandVal]) -> (v: Vec<u32>)
    ensures
        v@ == hi_values(hands@),
{
    let mut v: Vec<u32> = Vec::new();
    let mut i: usize = 0;
    while i < hands.len()
        invariant
            i <= hands@.len(),
            v@ == hi_values(hands@.take(i as int)),
        decreases hands@.len() - i,
    {
        v.push(hands[i].value);
        i = i + 1;
        proof {
            assert(hi_values(hands@.take(i as int)) =~= hi_values(hands@.take(i as int - 1)).push(hands@[i - 1].value));
        }
    }
    proof {
        assert(hands@.take(i as int) =~= hands@);
    }
    v
}

/// The values of low hands.
fn low_values_of(hands: &[LowHandVal]) -> (v: Vec<u32>)
    ensures
        v@ == lo_values(hands@),
{
    let mut v: Vec<u32> = Vec::new();
    let mut i: usize = 0;
    while i < hands.len()
        invariant
            i <= hands@.len(),
            v@ == lo_values(hands@.take(i as int)),
        decreases hands@.len() - i,
    {
        v.push(hands[i].value);
        i = i + 1;
        proof {
            assert(lo_values(hands@.take(i as int)) =~= lo_values(hands@.take(i as int - 1)).push(hands@[i - 1].value));
        }
    }
    proof {
        assert(hands@.take(i as int) =~= hands@);
    }
    v
}

impl EnumResult {
    /// Compares the hand of `player_index` with every other hand of `hand_values`
    /// (greater wins) and adds its wins, ties and losses to its high counts.
    pub fn update_statistics_cached(&mut self, player_index: usize, hand_values: &[HandVal], npockets: usize)
        requires
            player_index < hand_values@.len(),
            player_index < ENUM_MAXPLAYERS,
            hand_values@.len() <= u32::MAX,
            npockets >= 1,
            old(self).nwinhi@[player_index as int] + above(hi_values(hand_values@), player_index as int, hand_values@.len() as int) <= u32::MAX,
            old(self).ntiehi@[player_index as int] + level(hi_values(hand_values@), player_index as int, hand_values@.len() as int) <= u32::MAX,
            old(self).nlosehi@[player_index as int] + below(hi_values(hand_values@), player_index as int, hand_values@.len() as int) <= u32::MAX,
        ensures
            same_frame(*final(self), *old(self)),
            final(self).nwinhi@ == old(self).nwinhi@.update(
                player_index as int,
                (old(self).nwinhi@[player_index as int] + above(hi_values(hand_values@), player_index as int, hand_values@.len() as int)) as u32,
            ),
            final(self).ntiehi@ == old(self).ntiehi@.update(
                player_index as int,
                (old(self).ntiehi@[player_index as int] + level(hi_values(hand_values@), player_index as int, hand_values@.len() as int)) as u32,
            ),
            final(self).nlosehi@ == old(self).nlosehi@.update(
                player_index as int,
                (old(self).nlosehi@[player_index as int] + below(hi_values(hand_values@), player_index as int, hand_values@.len() as int)) as u32,
            ),
            final(self).nwinlo == old(self).nwinlo,
            final(self).ntielo == old(self).ntielo,
            final(self).nloselo == old(self).nloselo,
            final(self).nscoop == old(self).nscoop,
    {
        let v = values_of(hand_values);
        let (w, t, l) = compare_values(v.as_slice(), player_index, hand_values.len());
        self.nwinhi[player_index] = self.nwinhi[player_index] + w;
        self.ntiehi[player_index] = self.ntiehi[player_index] + t;
        self.nlosehi[player_index] = self.nlosehi[player_index] + l;
    }
}

/// Adds to `counts[i]`, for each of the first `n` players, `add[i]`.
fn add_to_first(counts: &mut [u32; 12], add: &Vec<u32>, n: usize)
    requires
        n <= 12,
        add@.len() == n,
        forall|i: int| 0 <= i < n ==> old(counts)@[i] + #[trigger] add@[i] <= u32::MAX,
    ensures
        final(counts)@ == Seq::new(12, |i: int| if i < n { (old(counts)@[i] + add@[i]) as u32 } else { old(counts)@[i] }),
{
    let mut i: usize = 0;
    while i < n
        invariant
            n <= 12,
            add@.len() == n,
            i <= n,
            counts@.len() == 12,
            forall|x: int| 0 <= x < n ==> old(counts)@[x] + #[trigger] add@[x] <= u32::MAX,
            forall|x: int| 0 <= x < i ==> #[trigger] counts@[x] == old(counts)@[x] + add@[x],
            forall|x: int| i <= x < 12 ==> #[trigger] counts@[x] == old(counts)@[x],
        decreases n - i,
    {
        counts[i] = counts[i] + add[i];
        i = i + 1;
    }
    proof {
        assert(counts@ =~= Seq::new(12, |x: int| if x < n { (old(counts)@[x] + add@[x]) as u32 } else { old(counts)@[x] }));
    }
}

/// For each of the first `n` values, how many of the first `n` it is above, level
/// with and below.
fn compare_all(v: &[u32], n: usize) -> (r: (Vec<u32>, Vec<u32>, Vec<u32>))
    requires
        n <= v@.len(),
        n <= 12,
    ensures
        r.0@.len() == n && r.1@.len() == n && r.2@.len() == n,
        forall|i: int| 0 <= i < n ==> #[trigger] r.0@[i] == above(v@, i, n as int),
        forall|i: int| 0 <= i < n ==> #[trigger] r.1@[i] == level(v@, i, n as int),
        forall|i: int| 0 <= i < n ==> #[trigger] r.2@[i] == below(v@, i, n as int),
{
    let mut w: Vec<u32> = Vec::new();
    let mut t: Vec<u32> = Vec::new();
    let mut l: Vec<u32> = Vec::new();
    let mut i: usize = 0;
    while i < n
        invariant
            n <= v@.len(),
            n <= 12,
            i <= n,
            w@.len() == i && t@.len() == i && l@.len() == i,
            forall|x: int| 0 <= x < i ==> #[trigger] w@[x] == above(v@, x, n as int),
            forall|x: int| 0 <= x < i ==> #[trigger] t@[x] == level(v@, x, n as int),
            forall|x: int| 0 <= x < i ==> #[trigger] l@[x] == below(v@, x, n as int),
        decreases n - i,
    {
        let (a, b, c) = compare_values(v, i, n);
        w.push(a);
        t.push(b);
        l.push(c);
        i = i + 1;
    }
    (w, t, l)
}

/// For each of the first `n` qualifying lows, its low wins, ties and losses
/// among the first `n`.
fn compare_all_lows(v: &[u32], n: usize) -> (r: (Vec<u32>, Vec<u32>, Vec<u32>))
    requires
        n <= v@.len(),
        n <= 12,
    ensures
        r.0@.len() == n && r.1@.len() == n && r.2@.len() == n,
        forall|i: int| 0 <= i < n ==> #[trigger] r.0@[i] == low_wins(v@, i, n as int),
        forall|i: int| 0 <= i < n ==> #[trigger] r.1@[i] == low_ties(v@, i, n as int),
        forall|i: int| 0 <= i < n ==> #[trigger] r.2@[i] == low_losses(v@, i, n as int),
{
    let mut w: Vec<u32> = Vec::new();
    let mut t: Vec<u32> = Vec::new();
    let mut l: Vec<u32> = Vec::new();
    let mut i: usize = 0;
    while i < n
        invariant
            n <= v@.len(),
            n <= 12,
            i <= n,
            w@.len() == i && t@.len() == i && l@.len() == i,
            forall|x: int| 0 <= x < i ==> #[trigger] w@[x] == low_wins(v@, x, n as int),
            forall|x: int| 0 <= x < i ==> #[trigger] t@[x] == low_ties(v@, x, n as int),
            forall|x: int| 0 <= x < i ==> #[trigger] l@[x] == low_losses(v@, x, n as int),
        decreases n - i,
    {
        let (a, b, c) = compare_lows(v, i, n);
        w.push(a);
        t.push(b);
        l.push(c);
        i = i + 1;
    }
    (w, t, l)
}

impl EnumResult {
    /// Compares the first `npockets` hands with one another (greater wins) and
    /// adds each player's wins, ties and losses to their high counts, when there
    /// are at least two players.
    pub fn update_statistics_batched(&mut self, hand_values: &[HandVal], npockets: usize)
        requires
            npockets <= hand_values@.len(),
            npockets <= ENUM_MAXPLAYERS,
            npockets > 1 ==> counts_fit(old(self).nwinhi@, npockets as int, |i: int| above(hi_values(hand_values@), i, npockets as int)),
            npockets > 1 ==> counts_fit(old(self).ntiehi@, npockets as int, |i: int| level(hi_values(hand_values@), i, npockets as int)),
            npockets > 1 ==> counts_fit(old(self).nlosehi@, npockets as int, |i: int| below(hi_values(hand_values@), i, npockets as int)),
        ensures
            same_frame(*final(self), *old(self)),
            npockets > 1 ==> final(self).nwinhi@ == plus_counts(old(self).nwinhi@, npockets as int, |i: int| above(hi_values(hand_values@), i, npockets as int)),
            npockets > 1 ==> final(self).ntiehi@ == plus_counts(old(self).ntiehi@, npockets as int, |i: int| level(hi_values(hand_values@), i, npockets as int)),
            npockets > 1 ==> final(self).nlosehi@ == plus_counts(old(self).nlosehi@, npockets as int, |i: int| below(hi_values(hand_values@), i, npockets as int)),
            npockets <= 1 ==> final(self).nwinhi == old(self).nwinhi && final(self).ntiehi == old(self).ntiehi
                && final(self).nlosehi == old(self).nlosehi,
            final(self).nwinlo == old(self).nwinlo,
            final(self).ntielo == old(self).ntielo,
            final(self).nloselo == old(self).nloselo,
            final(self).nscoop == old(self).nscoop,
    {
        if npockets > 1 {
            let v = values_of(hand_values);
            let (w, t, l) = compare_all(v.as_slice(), npockets);
            proof {
                let hv = hi_values(hand_values@);
                let fa = |j: int| above(hv, j, npockets as int);
                let fl = |j: int| level(hv, j, npockets as int);
                let fb = |j: int| below(hv, j, npockets as int);
                assert forall|i: int| 0 <= i < npockets implies self.nwinhi@[i] + #[trigger] w@[i] <= u32::MAX by {
                    assert(w@[i] == fa(i));
                }
                assert forall|i: int| 0 <= i < npockets implies self.ntiehi@[i] + #[trigger] t@[i] <= u32::MAX by {
                    assert(t@[i] == fl(i));
                }
                assert forall|i: int| 0 <= i < npockets implies self.nlosehi@[i] + #[trigger] l@[i] <= u32::MAX by {
                    assert(l@[i] == fb(i));
                }
            }
            add_to_first(&mut self.nwinhi, &w, npockets);
            add_to_first(&mut self.ntiehi, &t, npockets);
            add_to_first(&mut self.nlosehi, &l, npockets);
            proof {
                let hv = hi_values(hand_values@);
                assert(self.nwinhi@ =~= plus_counts(old(self).nwinhi@, npockets as int, |i: int| above(hv, i, npockets as int)));
                assert(self.ntiehi@ =~= plus_counts(old(self).ntiehi@, npockets as int, |i: int| level(hv, i, npockets as int)));
                assert(self.nlosehi@ =~= plus_counts(old(self).nlosehi@, npockets as int, |i: int| below(hv, i, npockets as int)));
            }
        }
    }

    /// Compares the first `npockets` low hands with one another (smaller wins)
    /// and adds each player's wins, ties and losses to their low counts, when
    /// there are at least two players.
    pub fn update_statistics_batched_lo(&mut self, hand_values: &[LowHandVal], npockets: usize)
        requires
            npockets <= hand_values@.len(),
            npockets <= ENUM_MAXPLAYERS,
            npockets > 1 ==> counts_fit(old(self).nwinlo@, npockets as int, |i: int| below(lo_values(hand_values@), i, npockets as int)),
            npockets > 1 ==> counts_fit(old(self).ntielo@, npockets as int, |i: int| level(lo_values(hand_values@), i, npockets as int)),
            npockets > 1 ==> counts_fit(old(self).nloselo@, npockets as int, |i: int| above(lo_values(hand_values@), i, npockets as int)),
        ensures
            same_frame(*final(self), *old(self)),
            npockets > 1 ==> final(self).nwinlo@ == plus_counts(old(self).nwinlo@, npockets as int, |i: int| below(lo_values(hand_values@), i, npockets as int)),
            npockets > 1 ==> final(self).ntielo@ == plus_counts(old(self).ntielo@, npockets as int, |i: int| level(lo_values(hand_values@), i, npockets as int)),
            npockets > 1 ==> final(self).nloselo@ == plus_counts(old(self).nloselo@, npockets as int, |i: int| above(lo_values(hand_values@), i, npockets as int)),
            npockets <= 1 ==> final(self).nwinlo == old(self).nwinlo && final(self).ntielo == old(self).ntielo
                && final(self).nloselo == old(self).nloselo,
            final(self).nwinhi == old(self).nwinhi,
            final(self).ntiehi == old(self).ntiehi,
            final(self).nlosehi == old(self).nlosehi,
            final(self).nscoop == old(self).nscoop,
    {
        if npockets > 1 {
            let v = low_values_of(hand_values);
            let (above_, level_, below_) = compare_all(v.as_slice(), npockets);
            proof {
                let lv = lo_values(hand_values@);
                let fa = |j: int| above(lv, j, npockets as int);
                let fl = |j: int| level(lv, j, npockets as int);
                let fb = |j: int| below(lv, j, npockets as int);
                assert forall|i: int| 0 <= i < npockets implies self.nwinlo@[i] + #[trigger] below_@[i] <= u32::MAX by {
                    assert(below_@[i] == fb(i));
                }
                assert forall|i: int| 0 <= i < npockets implies self.ntielo@[i] + #[trigger] level_@[i] <= u32::MAX by {
                    assert(level_@[i] == fl(i));
                }
                assert forall|i: int| 0 <= i < npockets implies self.nloselo@[i] + #[trigger] above_@[i] <= u32::MAX by {
                    assert(above_@[i] == fa(i));
                }
            }
            add_to_first(&mut self.nwinlo, &below_, npockets);
            add_to_first(&mut self.ntielo, &level_, npockets);
            add_to_first(&mut self.nloselo, &above_, npockets);
            proof {
                let lv = lo_values(hand_values@);
                assert(self.nwinlo@ =~= plus_counts(old(self).nwinlo@, npockets as int, |i: int| below(lv, i, npockets as int)));
                assert(self.ntielo@ =~= plus_counts(old(self).ntielo@, npockets as int, |i: int| level(lv, i, npockets as int)));
                assert(self.nloselo@ =~= plus_counts(old(self).nloselo@, npockets as int, |i: int| above(lv, i, npockets as int)));
            }
        }
    }
}

/// Player `i` takes part in the low pot among the first `k`: their low qualifies
/// or another qualifying low beats it.
pub open spec fn low_player(v: Seq<u32>, i: int, k: int) -> bool {
    v[i] != LOW_HAND_VAL_NOTHING || low_losses(v, i, k) > 0
}

/// Player `i` wins both pots outright among the first `k`: high values `h`,
/// lows `v`.
pub open spec fn scoops(h: Seq<u32>, v: Seq<u32>, i: int, k: int) -> bool {
    &&& v[i] != LOW_HAND_VAL_NOTHING
    &&& above(h, i, k) > 0 && level(h, i, k) == 0 && below(h, i, k) == 0
    &&& low_wins(v, i, k) > 0 && low_ties(v, i, k) == 0 && low_losses(v, i, k) == 0
}

/// `x` when `b` holds, else 0.
pub open spec fn when(b: bool, x: nat) -> nat {
    if b {
        x
    } else {
        0
    }
}

/// The lows of the evaluations.
pub open spec fn opt_lows(e: Seq<(HandVal, Option<LowHandVal>)>) -> Seq<Option<u32>> {
    e.map_values(|p: (HandVal, Option<LowHandVal>)| match p.1 {
        Some(l) => Some(l.value),
        None => None,
    })
}

/// The high values of the evaluations.
pub open spec fn opt_highs(e: Seq<(HandVal, Option<LowHandVal>)>) -> Seq<u32> {
    e.map_values(|p: (HandVal, Option<LowHandVal>)| p.0.value)
}

/// Among the first `k`, the others whose low the low `o[i]` beats: smaller, or
/// theirs missing.
pub open spec fn opt_low_wins(o: Seq<Option<u32>>, i: int, k: int) -> nat {
    count_where(
        k,
        |j: int| j != i && match (o[i], o[j]) {
            (Some(a), Some(b)) => a < b,
            (Some(_), None) => true,
            _ => false,
        },
    )
}

/// Among the first `k`, the others whose low equals the low `o[i]`, when it is not
/// the non-qualifying value.
pub open spec fn opt_low_ties(o: Seq<Option<u32>>, i: int, k: int) -> nat {
    count_where(
        k,
        |j: int| j != i && match (o[i], o[j]) {
            (Some(a), Some(b)) => a == b && a != LOW_HAND_VAL_NOTHING,
            _ => false,
        },
    )
}

/// Among the first `k`, the others whose low beats `o[i]`: smaller, or `o[i]` missing.
pub open spec fn opt_low_losses(o: Seq<Option<u32>>, i: int, k: int) -> nat {
    count_where(
        k,
        |j: int| j != i && match (o[i], o[j]) {
            (Some(a), Some(b)) => a > b,
            (None, Some(_)) => true,
            _ => false,
        },
    )
}

impl EnumResult {
    /// Compares the first `npockets` players, high (greater wins) and low (smaller
    /// wins, a low of `LOW_HAND_VAL_NOTHING` does not qualify), when there are at
    /// least two: each adds their high wins, ties and losses; their low ones when
    /// they take part in the low pot (see `low_player`); and a scoop when they win
    /// both pots outright (see `scoops`).
    pub fn update_statistics_batched_hilo(&mut self, hival: &[HandVal], loval: &[LowHandVal], npockets: usize)
        requires
            npockets <= hival@.len(),
            npockets <= loval@.len(),
            npockets <= ENUM_MAXPLAYERS,
            npockets > 1 ==> counts_fit(old(self).nwinhi@, npockets as int, |i: int| above(hi_values(hival@), i, npockets as int)),
            npockets > 1 ==> counts_fit(old(self).ntiehi@, npockets as int, |i: int| level(hi_values(hival@), i, npockets as int)),
            npockets > 1 ==> counts_fit(old(self).nlosehi@, npockets as int, |i: int| below(hi_values(hival@), i, npockets as int)),
            npockets > 1 ==> counts_fit(old(self).nwinlo@, npockets as int, |i: int| when(low_player(lo_values(loval@), i, npockets as int), low_wins(lo_values(loval@), i, npockets as int))),
            npockets > 1 ==> counts_fit(old(self).ntielo@, npockets as int, |i: int| when(low_player(lo_values(loval@), i, npockets as int), low_ties(lo_values(loval@), i, npockets as int))),
            npockets > 1 ==> counts_fit(old(self).nloselo@, npockets as int, |i: int| when(low_player(lo_values(loval@), i, npockets as int), low_losses(lo_values(loval@), i, npockets as int))),
            npockets > 1 ==> counts_fit(old(self).nscoop@, npockets as int, |i: int| when(scoops(hi_values(hival@), lo_values(loval@), i, npockets as int), 1)),
        ensures
            same_frame(*final(self), *old(self)),
            npockets > 1 ==> {
                let h = hi_values(hival@);
                let v = lo_values(loval@);
                let n = npockets as int;
                &&& final(self).nwinhi@ == plus_counts(old(self).nwinhi@, n, |i: int| above(h, i, n))
                &&& final(self).ntiehi@ == plus_counts(old(self).ntiehi@, n, |i: int| level(h, i, n))
                &&& final(self).nlosehi@ == plus_counts(old(self).nlosehi@, n, |i: int| below(h, i, n))
                &&& final(self).nwinlo@ == plus_counts(old(self).nwinlo@, n, |i: int| when(low_player(v, i, n), low_wins(v, i, n)))
                &&& final(self).ntielo@ == plus_counts(old(self).ntielo@, n, |i: int| when(low_player(v, i, n), low_ties(v, i, n)))
                &&& final(self).nloselo@ == plus_counts(old(self).nloselo@, n, |i: int| when(low_player(v, i, n), low_losses(v, i, n)))
                &&& final(self).nscoop@ == plus_counts(old(self).nscoop@, n, |i: int| when(scoops(h, v, i, n), 1))
            },
            npockets <= 1 ==> *final(self) == *old(self),
    {
        if npockets > 1 {
            let h = values_of(hival);
            let v = low_values_of(loval);
            let (hw, ht, hl) = compare_all(h.as_slice(), npockets);
            let (lw, lt, ll) = compare_all_lows(v.as_slice(), npockets);
            let mut pw: Vec<u32> = Vec::new();
            let mut pt: Vec<u32> = Vec::new();
            let mut pl: Vec<u32> = Vec::new();
            let mut sc: Vec<u32> = Vec::new();
            let mut i: usize = 0;
            while i < npockets
                invariant
                    npockets <= v@.len(),
                    npockets <= 12,
                    i <= npockets,
                    hw@.len() == npockets && ht@.len() == npockets && hl@.len() == npockets,
                    lw@.len() == npockets && lt@.len() == npockets && ll@.len() == npockets,
                    pw@.len() == i && pt@.len() == i && pl@.len() == i && sc@.len() == i,
                    forall|x: int| 0 <= x < i ==> #[trigger] pw@[x] == if v@[x] != LOW_HAND_VAL_NOTHING || ll@[x] > 0 { lw@[x] } else { 0 },
                    forall|x: int| 0 <= x < i ==> #[trigger] pt@[x] == if v@[x] != LOW_HAND_VAL_NOTHING || ll@[x] > 0 { lt@[x] } else { 0 },
                    forall|x: int| 0 <= x < i ==> #[trigger] pl@[x] == if v@[x] != LOW_HAND_VAL_NOTHING || ll@[x] > 0 { ll@[x] } else { 0 },
                    forall|x: int| 0 <= x < i ==> #[trigger] sc@[x] == if v@[x] != LOW_HAND_VAL_NOTHING && hw@[x] > 0
                        && ht@[x] == 0 && hl@[x] == 0 && lw@[x] > 0 && lt@[x] == 0 && ll@[x] == 0 { 1u32 } else { 0u32 },
                decreases npockets - i,
            {
                if v[i] != LOW_HAND_VAL_NOTHING || ll[i] > 0 {
                    pw.push(lw[i]);
                    pt.push(lt[i]);
                    pl.push(ll[i]);
                } else {
                    pw.push(0);
                    pt.push(0);
                    pl.push(0);
                }
                if v[i] != LOW_HAND_VAL_NOTHING && hw[i] > 0 && ht[i] == 0 && hl[i] == 0 && lw[i] > 0 && lt[i] == 0
                    && ll[i] == 0 {
                    sc.push(1);
                } else {
                    sc.push(0);
                }
                i = i + 1;
            }
            proof {
                let hv = hi_values(hival@);
                let lv = lo_values(loval@);
                let n = npockets as int;
                assert forall|x: int| 0 <= x < n implies self.nwinhi@[x] + #[trigger] hw@[x] <= u32::MAX by {
                    assert(hw@[x] == (|j: int| above(hv, j, n))(x));
                }
                assert forall|x: int| 0 <= x < n implies self.ntiehi@[x] + #[trigger] ht@[x] <= u32::MAX by {
                    assert(ht@[x] == (|j: int| level(hv, j, n))(x));
                }
                assert forall|x: int| 0 <= x < n implies self.nlosehi@[x] + #[trigger] hl@[x] <= u32::MAX by {
                    assert(hl@[x] == (|j: int| below(hv, j, n))(x));
                }
                assert forall|x: int| 0 <= x < n implies self.nwinlo@[x] + #[trigger] pw@[x] <= u32::MAX by {
                    assert(lw@[x] == low_wins(lv, x, n) && ll@[x] == low_losses(lv, x, n));
                    assert(pw@[x] == (|j: int| when(low_player(lv, j, n), low_wins(lv, j, n)))(x));
                }
                assert forall|x: int| 0 <= x < n implies self.ntielo@[x] + #[trigger] pt@[x] <= u32::MAX by {
                    assert(lt@[x] == low_ties(lv, x, n) && ll@[x] == low_losses(lv, x, n));
                    assert(pt@[x] == (|j: int| when(low_player(lv, j, n), low_ties(lv, j, n)))(x));
                }
                assert forall|x: int| 0 <= x < n implies self.nloselo@[x] + #[trigger] pl@[x] <= u32::MAX by {
                    assert(ll@[x] == low_losses(lv, x, n));
                    assert(pl@[x] == (|j: int| when(low_player(lv, j, n), low_losses(lv, j, n)))(x));
                }
                assert forall|x: int| 0 <= x < n implies self.nscoop@[x] + #[trigger] sc@[x] <= u32::MAX by {
                    assert(hw@[x] == above(hv, x, n) && ht@[x] == level(hv, x, n) && hl@[x] == below(hv, x, n));
                    assert(lw@[x] == low_wins(lv, x, n) && lt@[x] == low_ties(lv, x, n) && ll@[x] == low_losses(lv, x, n));
                    assert(sc@[x] == (|j: int| when(scoops(hv, lv, j, n), 1))(x));
                }
            }
            add_to_first(&mut self.nwinhi, &hw, npockets);
            add_to_first(&mut self.ntiehi, &ht, npockets);
            add_to_first(&mut self.nlosehi, &hl, npockets);
            add_to_first(&mut self.nwinlo, &pw, npockets);
            add_to_first(&mut self.ntielo, &pt, npockets);
            add_to_first(&mut self.nloselo, &pl, npockets);
            add_to_first(&mut self.nscoop, &sc, npockets);
            proof {
                let hv = hi_values(hival@);
                let lv = lo_values(loval@);
                let n = npockets as int;
                assert(self.nwinhi@ =~= plus_counts(old(self).nwinhi@, n, |i: int| above(hv, i, n)));
                assert(self.ntiehi@ =~= plus_counts(old(self).ntiehi@, n, |i: int| level(hv, i, n)));
                assert(self.nlosehi@ =~= plus_counts(old(self).nlosehi@, n, |i: int| below(hv, i, n)));
                assert(self.nwinlo@ =~= plus_counts(old(self).nwinlo@, n, |i: int| when(low_player(lv, i, n), low_wins(lv, i, n))));
                assert(self.ntielo@ =~= plus_counts(old(self).ntielo@, n, |i: int| when(low_player(lv, i, n), low_ties(lv, i, n))));
                assert(self.nloselo@ =~= plus_counts(old(self).nloselo@, n, |i: int| when(low_player(lv, i, n), low_losses(lv, i, n))));
                assert(self.nscoop@ =~= plus_counts(old(self).nscoop@, n, |i: int| when(scoops(hv, lv, i, n), 1)));
            }
        }
    }
}

/// Compares the evaluation `i` with the first `k` evaluations but its own: high
/// above, level and below, then low wins, ties and losses (see `opt_low_wins`).
fn compare_evals(e: &[(HandVal, Option<LowHandVal>)], i: usize, k: usize) -> (r: (u32, u32, u32, u32, u32, u32))
    requires
        i < e@.len(),
        k <= e@.len(),
        k <= u32::MAX,
    ensures
        r.0 == above(opt_highs(e@), i as int, k as int),
        r.1 == level(opt_highs(e@), i as int, k as int),
        r.2 == below(opt_highs(e@), i as int, k as int),
        r.3 == opt_low_wins(opt_lows(e@), i as int, k as int),
        r.4 == opt_low_ties(opt_lows(e@), i as int, k as int),
        r.5 == opt_low_losses(opt_lows(e@), i as int, k as int),
{
    let ghost h = opt_highs(e@);
    let ghost o = opt_lows(e@);
    let (hi_val, lo_val) = e[i];
    let mut hw: u32 = 0;
    let mut ht: u32 = 0;
    let mut hl: u32 = 0;
    let mut lw: u32 = 0;
    let mut lt: u32 = 0;
    let mut ll: u32 = 0;
    let mut j: usize = 0;
    while j < k
        invariant
            i < e@.len(),
            k <= e@.len(),
            k <= u32::MAX,
            j <= k,
            h == opt_highs(e@),
            o == opt_lows(e@),
            hi_val == e@[i as int].0,
            lo_val == e@[i as int].1,
            hw + ht + hl <= j,
            lw + lt + ll <= j,
            hw == above(h, i as int, j as int),
            ht == level(h, i as int, j as int),
            hl == below(h, i as int, j as int),
            lw == opt_low_wins(o, i as int, j as int),
            lt == opt_low_ties(o, i as int, j as int),
            ll == opt_low_losses(o, i as int, j as int),
        decreases k - j,
    {
        if j != i {
            let (other_hi, other_lo) = e[j];
            if hi_val.value > other_hi.value {
                hw = hw + 1;
            } else if hi_val.value == other_hi.value {
                ht = ht + 1;
            } else {
                hl = hl + 1;
            }
            match (lo_val, other_lo) {
                (Some(mine), Some(theirs)) => {
                    if mine.value < theirs.value {
                        lw = lw + 1;
                    } else if mine.value == theirs.value {
                        if mine.value != LOW_HAND_VAL_NOTHING {
                            lt = lt + 1;
                        }
                    } else {
                        ll = ll + 1;
                    }
                },
                (Some(_), None) => {
                    lw = lw + 1;
                },
                (None, Some(_)) => {
                    ll = ll + 1;
                },
                (None, None) => {},
            }
        }
        j = j + 1;
    }
    (hw, ht, hl, lw, lt, ll)
}

impl EnumResult {
    /// Compares the evaluation of `player_index` with every other one of `evals`,
    /// high (greater wins) and low (smaller wins; a missing low loses to any low,
    /// and two lows of `LOW_HAND_VAL_NOTHING` do not tie): adds its high wins,
    /// ties and losses; its low ones when it has a low or loses one; and a scoop
    /// when it has a low, wins some high and some low comparison, and ties none.
    pub fn update_statistics_hilo_cached(
        &mut self,
        player_index: usize,
        evals: &[(HandVal, Option<LowHandVal>)],
        npockets: usize,
    )
        requires
            player_index < evals@.len(),
            player_index < ENUM_MAXPLAYERS,
            evals@.len() <= u32::MAX,
            npockets >= 1,
            ({
                let h = opt_highs(evals@);
                let o = opt_lows(evals@);
                let p = player_index as int;
                let k = evals@.len() as int;
                &&& old(self).nwinhi@[p] + above(h, p, k) <= u32::MAX
                &&& old(self).ntiehi@[p] + level(h, p, k) <= u32::MAX
                &&& old(self).nlosehi@[p] + below(h, p, k) <= u32::MAX
                &&& old(self).nwinlo@[p] + when(o[p] is Some || opt_low_losses(o, p, k) > 0, opt_low_wins(o, p, k)) <= u32::MAX
                &&& old(self).ntielo@[p] + when(o[p] is Some || opt_low_losses(o, p, k) > 0, opt_low_ties(o, p, k)) <= u32::MAX
                &&& old(self).nloselo@[p] + when(o[p] is Some || opt_low_losses(o, p, k) > 0, opt_low_losses(o, p, k)) <= u32::MAX
                &&& old(self).nscoop@[p] + when(
                    o[p] is Some && above(h, p, k) > 0 && opt_low_wins(o, p, k) > 0 && level(h, p, k) == 0
                        && opt_low_ties(o, p, k) == 0,
                    1,
                ) <= u32::MAX
            }),
        ensures
            same_frame(*final(self), *old(self)),
            ({
                let h = opt_highs(evals@);
                let o = opt_lows(evals@);
                let p = player_index as int;
                let k = evals@.len() as int;
                let low = o[p] is Some || opt_low_losses(o, p, k) > 0;
                let scoop = o[p] is Some && above(h, p, k) > 0 && opt_low_wins(o, p, k) > 0 && level(h, p, k) == 0
                    && opt_low_ties(o, p, k) == 0;
                &&& final(self).nwinhi@ == old(self).nwinhi@.update(p, (old(self).nwinhi@[p] + above(h, p, k)) as u32)
                &&& final(self).ntiehi@ == old(self).ntiehi@.update(p, (old(self).ntiehi@[p] + level(h, p, k)) as u32)
                &&& final(self).nlosehi@ == old(self).nlosehi@.update(p, (old(self).nlosehi@[p] + below(h, p, k)) as u32)
                &&& final(self).nwinlo@ == old(self).nwinlo@.update(p, (old(self).nwinlo@[p] + when(low, opt_low_wins(o, p, k))) as u32)
                &&& final(self).ntielo@ == old(self).ntielo@.update(p, (old(self).ntielo@[p] + when(low, opt_low_ties(o, p, k))) as u32)
                &&& final(self).nloselo@ == old(self).nloselo@.update(p, (old(self).nloselo@[p] + when(low, opt_low_losses(o, p, k))) as u32)
                &&& final(self).nscoop@ == old(self).nscoop@.update(p, (old(self).nscoop@[p] + when(scoop, 1)) as u32)
            }),
    {
        let (hw, ht, hl, lw, lt, ll) = compare_evals(evals, player_index, evals.len());
        let has_low = evals[player_index].1.is_some();
        self.nwinhi[player_index] = self.nwinhi[player_index] + hw;
        self.ntiehi[player_index] = self.ntiehi[player_index] + ht;
        self.nlosehi[player_index] = self.nlosehi[player_index] + hl;
        if has_low || ll > 0 {
            self.nwinlo[player_index] = self.nwinlo[player_index] + lw;
            self.ntielo[player_index] = self.ntielo[player_index] + lt;
            self.nloselo[player_index] = self.nloselo[player_index] + ll;
        }
        if has_low && hw > 0 && lw > 0 && ht == 0 && lt == 0 {
            self.nscoop[player_index] = self.nscoop[player_index] + 1;
        }
        proof {
            assert(opt_lows(evals@)[player_index as int] is Some == has_low);
        }
    }
}

/// Where the player sits among the compared hands: their own index when it names
/// a pocket, else after the pockets.
pub open spec fn table_index(p: int, len: int) -> int {
    if p < len {
        p
    } else {
        len
    }
}

/// The number of hands compared: the pockets, and the player after them when
/// their index names none.
pub open spec fn table_len(p: int, len: int) -> int {
    if p < len {
        len
    } else {
        len + 1
    }
}

/// The high values compared by `update_statistics`: the seven-card values of the
/// pockets with `board`, the player's own value `h` in place of theirs (see
/// `table_index`).
pub open spec fn table_highs(pockets: Seq<StdDeckCardMask>, board: u64, p: int, h: u32) -> Seq<u32> {
    let base = Seq::new(pockets.len(), |j: int| eval_mask_value(pockets[j].mask | board, 7) as u32);
    if p < pockets.len() {
        base.update(p, h)
    } else {
        base.push(h)
    }
}

/// The evaluations compared by `update_statistics_hilo`: the seven-card high and
/// eight-or-better low of the pockets with `board`, the player's own `(hi, lo)` in
/// place of theirs (see `table_index`).
pub open spec fn table_evals(
    pockets: Seq<StdDeckCardMask>,
    board: u64,
    p: int,
    hi: HandVal,
    lo: Option<LowHandVal>,
) -> Seq<(HandVal, Option<LowHandVal>)> {
    let base = Seq::new(
        pockets.len(),
        |j: int|
            (
                HandVal { value: eval_mask_value(pockets[j].mask | board, 7) as u32 },
                Some(LowHandVal { value: lowball8_value(pockets[j].mask | board) as u32 }),
            ),
    );
    if p < pockets.len() {
        base.update(p, (hi, lo))
    } else {
        base.push((hi, lo))
    }
}

/// The pockets but the player's make hands of at most seven ranks with `board`.
pub open spec fn others_ready(pockets: Seq<StdDeckCardMask>, board: u64, p: int) -> bool {
    forall|j: int| 0 <= j < pockets.len() && j != p ==> hand_rank_count(#[trigger] pockets[j].mask | board) <= 7
}

/// Among the pockets but the player's, those with an Omaha high below, equal to
/// and above `h` (those without one are not counted).
pub open spec fn omaha_wins(h: u32, pockets: Seq<StdDeckCardMask>, board: u64, p: int, k: int) -> nat {
    count_where(k, |j: int| j != p && match omaha_high(pockets[j].mask, board) {
        Some(o) => h > o.value,
        None => false,
    })
}

pub open spec fn omaha_ties(h: u32, pockets: Seq<StdDeckCardMask>, board: u64, p: int, k: int) -> nat {
    count_where(k, |j: int| j != p && match omaha_high(pockets[j].mask, board) {
        Some(o) => h == o.value,
        None => false,
    })
}

pub open spec fn omaha_losses(h: u32, pockets: Seq<StdDeckCardMask>, board: u64, p: int, k: int) -> nat {
    count_where(k, |j: int| j != p && match omaha_high(pockets[j].mask, board) {
        Some(o) => h < o.value,
        None => false,
    })
}

impl EnumResult {
    /// Compares the hand value `hand_value` of `player_index` with the seven-card
    /// hand of every other pocket with `board` (greater wins) and adds the wins,
    /// ties and losses to the player's high counts. `npockets` only served an
    /// expected-value figure that these counts do not keep.
    pub fn update_statistics(
        &mut self,
        player_index: usize,
        hand_value: HandVal,
        pockets: &[StdDeckCardMask],
        board: &StdDeckCardMask,
        npockets: usize,
    )
        requires
            player_index < ENUM_MAXPLAYERS,
            pockets@.len() < u32::MAX,
            others_ready(pockets@, board.mask, player_index as int),
            ({
                let v = table_highs(pockets@, board.mask, player_index as int, hand_value.value);
                let i = table_index(player_index as int, pockets@.len() as int);
                let k = table_len(player_index as int, pockets@.len() as int);
                let p = player_index as int;
                &&& old(self).nwinhi@[p] + above(v, i, k) <= u32::MAX
                &&& old(self).ntiehi@[p] + level(v, i, k) <= u32::MAX
                &&& old(self).nlosehi@[p] + below(v, i, k) <= u32::MAX
            }),
        ensures
            same_frame(*final(self), *old(self)),
            ({
                let v = table_highs(pockets@, board.mask, player_index as int, hand_value.value);
                let i = table_index(player_index as int, pockets@.len() as int);
                let k = table_len(player_index as int, pockets@.len() as int);
                let p = player_index as int;
                &&& final(self).nwinhi@ == old(self).nwinhi@.update(p, (old(self).nwinhi@[p] + above(v, i, k)) as u32)
                &&& final(self).ntiehi@ == old(self).ntiehi@.update(p, (old(self).ntiehi@[p] + level(v, i, k)) as u32)
                &&& final(self).nlosehi@ == old(self).nlosehi@.update(p, (old(self).nlosehi@[p] + below(v, i, k)) as u32)
            }),
            final(self).nwinlo == old(self).nwinlo,
            final(self).ntielo == old(self).ntielo,
            final(self).nloselo == old(self).nloselo,
            final(self).nscoop == old(self).nscoop,
    {
        let ghost p = player_index as int;
        let ghost base = Seq::new(pockets@.len(), |j: int| eval_mask_value(pockets@[j].mask | board.mask, 7) as u32);
        let mut v: Vec<u32> = Vec::new();
        let mut j: usize = 0;
        while j < pockets.len()
            invariant
                j <= pockets@.len(),
                others_ready(pockets@, board.mask, p),
                p == player_index,
                base == Seq::new(pockets@.len(), |j: int| eval_mask_value(pockets@[j].mask | board.mask, 7) as u32),
                v@.len() == j,
                forall|x: int| 0 <= x < j ==> #[trigger] v@[x] == if x == p { hand_value.value } else { base[x] },
            decreases pockets@.len() - j,
        {
            if j == player_index {
                v.push(hand_value.value);
            } else {
                let hand = StdDeckCardMask { mask: pockets[j].mask | board.mask };
                let h = Eval::eval_n(&hand, 7);
                v.push(h.value);
            }
            j = j + 1;
        }
        let len = pockets.len();
        let (idx, k) = if player_index < len {
            (player_index, len)
        } else {
            v.push(hand_value.value);
            (len, len + 1)
        };
        proof {
            assert(v@ =~= table_highs(pockets@, board.mask, p, hand_value.value));
        }
        let (w, t, l) = compare_values(v.as_slice(), idx, k);
        self.nwinhi[player_index] = self.nwinhi[player_index] + w;
        self.ntiehi[player_index] = self.ntiehi[player_index] + t;
        self.nlosehi[player_index] = self.nlosehi[player_index] + l;
    }

    /// Compares the high `hi_val` and low `lo_val` of `player_index` with the
    /// seven-card high and eight-or-better low of every other pocket with `board`,
    /// as `update_statistics_hilo_cached` compares evaluations. `npockets` only
    /// served an expected-value figure that these counts do not keep.
    pub fn update_statistics_hilo(
        &mut self,
        player_index: usize,
        hi_val: HandVal,
        lo_val: Option<LowHandVal>,
        pockets: &[StdDeckCardMask],
        board: &StdDeckCardMask,
        npockets: usize,
    )
        requires
            player_index < ENUM_MAXPLAYERS,
            pockets@.len() < u32::MAX,
            others_ready(pockets@, board.mask, player_index as int),
            ({
                let e = table_evals(pockets@, board.mask, player_index as int, hi_val, lo_val);
                let h = opt_highs(e);
                let o = opt_lows(e);
                let i = table_index(player_index as int, pockets@.len() as int);
                let k = table_len(player_index as int, pockets@.len() as int);
                let p = player_index as int;
                &&& old(self).nwinhi@[p] + above(h, i, k) <= u32::MAX
                &&& old(self).ntiehi@[p] + level(h, i, k) <= u32::MAX
                &&& old(self).nlosehi@[p] + below(h, i, k) <= u32::MAX
                &&& old(self).nwinlo@[p] + opt_low_wins(o, i, k) <= u32::MAX
                &&& old(self).ntielo@[p] + opt_low_ties(o, i, k) <= u32::MAX
                &&& old(self).nloselo@[p] + opt_low_losses(o, i, k) <= u32::MAX
                &&& old(self).nscoop@[p] < u32::MAX
            }),
        ensures
            same_frame(*final(self), *old(self)),
            ({
                let e = table_evals(pockets@, board.mask, player_index as int, hi_val, lo_val);
                let h = opt_highs(e);
                let o = opt_lows(e);
                let i = table_index(player_index as int, pockets@.len() as int);
                let k = table_len(player_index as int, pockets@.len() as int);
                let p = player_index as int;
                let low = lo_val is Some || opt_low_losses(o, i, k) > 0;
                let scoop = lo_val is Some && above(h, i, k) > 0 && opt_low_wins(o, i, k) > 0 && level(h, i, k) == 0
                    && opt_low_ties(o, i, k) == 0;
                &&& final(self).nwinhi@ == old(self).nwinhi@.update(p, (old(self).nwinhi@[p] + above(h, i, k)) as u32)
                &&& final(self).ntiehi@ == old(self).ntiehi@.update(p, (old(self).ntiehi@[p] + level(h, i, k)) as u32)
                &&& final(self).nlosehi@ == old(self).nlosehi@.update(p, (old(self).nlosehi@[p] + below(h, i, k)) as u32)
                &&& final(self).nwinlo@ == old(self).nwinlo@.update(p, (old(self).nwinlo@[p] + when(low, opt_low_wins(o, i, k))) as u32)
                &&& final(self).ntielo@ == old(self).ntielo@.update(p, (old(self).ntielo@[p] + when(low, opt_low_ties(o, i, k))) as u32)
                &&& final(self).nloselo@ == old(self).nloselo@.update(p, (old(self).nloselo@[p] + when(low, opt_low_losses(o, i, k))) as u32)
                &&& final(self).nscoop@ == old(self).nscoop@.update(p, (old(self).nscoop@[p] + when(scoop, 1)) as u32)
            }),
    {
        let ghost p = player_index as int;
        let ghost base = Seq::new(
            pockets@.len(),
            |j: int|
                (
                    HandVal { value: eval_mask_value(pockets@[j].mask | board.mask, 7) as u32 },
                    Some(LowHandVal { value: lowball8_value(pockets@[j].mask | board.mask) as u32 }),
                ),
        );
        let mut e: Vec<(HandVal, Option<LowHandVal>)> = Vec::new();
        let mut j: usize = 0;
        while j < pockets.len()
            invariant
                j <= pockets@.len(),
                others_ready(pockets@, board.mask, p),
                p == player_index,
                base == Seq::new(
                    pockets@.len(),
                    |j: int|
                        (
                            HandVal { value: eval_mask_value(pockets@[j].mask | board.mask, 7) as u32 },
                            Some(LowHandVal { value: lowball8_value(pockets@[j].mask | board.mask) as u32 }),
                        ),
                ),
                e@.len() == j,
                forall|x: int| 0 <= x < j ==> #[trigger] e@[x] == if x == p { (hi_val, lo_val) } else { base[x] },
            decreases pockets@.len() - j,
        {
            if j == player_index {
                e.push((hi_val, lo_val));
            } else {
                let hand = StdDeckCardMask { mask: pockets[j].mask | board.mask };
                let h = Eval::eval_n(&hand, 7);
                let l = std_deck_lowball8_eval(&hand, 7);
                e.push((h, l));
            }
            j = j + 1;
        }
        let len = pockets.len();
        let (idx, k) = if player_index < len {
            (player_index, len)
        } else {
            e.push((hi_val, lo_val));
            (len, len + 1)
        };
        proof {
            assert(e@ =~= table_evals(pockets@, board.mask, p, hi_val, lo_val));
        }
        let (hw, ht, hl, lw, lt, ll) = compare_evals(e.as_slice(), idx, k);
        let has_low = lo_val.is_some();
        self.nwinhi[player_index] = self.nwinhi[player_index] + hw;
        self.ntiehi[player_index] = self.ntiehi[player_index] + ht;
        self.nlosehi[player_index] = self.nlosehi[player_index] + hl;
        if has_low || ll > 0 {
            self.nwinlo[player_index] = self.nwinlo[player_index] + lw;
            self.ntielo[player_index] = self.ntielo[player_index] + lt;
            self.nloselo[player_index] = self.nloselo[player_index] + ll;
        }
        if has_low && hw > 0 && lw > 0 && ht == 0 && lt == 0 {
            self.nscoop[player_index] = self.nscoop[player_index] + 1;
        }
    }

    /// Compares the hand value `hand_value` of `player_index` with the Omaha high
    /// hand of every other pocket with `board` (greater wins; a pocket without
    /// one is not counted) and adds the wins, ties and losses to the player's high
    /// counts. `npockets` only served an expected-value figure that these counts
    /// do not keep.
    pub fn update_omaha_statistics(
        &mut self,
        player_index: usize,
        hand_value: HandVal,
        pockets: &[StdDeckCardMask],
        board: &StdDeckCardMask,
        npockets: usize,
    ) -> (res: Result<(), PokerError>)
        requires
            player_index < ENUM_MAXPLAYERS,
            pockets@.len() < u32::MAX,
            ({
                let p = player_index as int;
                let k = pockets@.len() as int;
                &&& old(self).nwinhi@[p] + omaha_wins(hand_value.value, pockets@, board.mask, p, k) <= u32::MAX
                &&& old(self).ntiehi@[p] + omaha_ties(hand_value.value, pockets@, board.mask, p, k) <= u32::MAX
                &&& old(self).nlosehi@[p] + omaha_losses(hand_value.value, pockets@, board.mask, p, k) <= u32::MAX
            }),
        ensures
            res is Ok,
            same_frame(*final(self), *old(self)),
            ({
                let p = player_index as int;
                let k = pockets@.len() as int;
                let h = hand_value.value;
                &&& final(self).nwinhi@ == old(self).nwinhi@.update(p, (old(self).nwinhi@[p] + omaha_wins(h, pockets@, board.mask, p, k)) as u32)
                &&& final(self).ntiehi@ == old(self).ntiehi@.update(p, (old(self).ntiehi@[p] + omaha_ties(h, pockets@, board.mask, p, k)) as u32)
                &&& final(self).nlosehi@ == old(self).nlosehi@.update(p, (old(self).nlosehi@[p] + omaha_losses(h, pockets@, board.mask, p, k)) as u32)
            }),
            final(self).nwinlo == old(self).nwinlo,
            final(self).ntielo == old(self).ntielo,
            final(self).nloselo == old(self).nloselo,
            final(self).nscoop == old(self).nscoop,
    {
        let ghost p = player_index as int;
        let h = hand_value.value;
        let mut w: u32 = 0;
        let mut t: u32 = 0;
        let mut l: u32 = 0;
        let mut j: usize = 0;
        while j < pockets.len()
            invariant
                j <= pockets@.len(),
                pockets@.len() < u32::MAX,
                p == player_index,
                h == hand_value.value,
                w + t + l <= j,
                w == omaha_wins(h, pockets@, board.mask, p, j as int),
                t == omaha_ties(h, pockets@, board.mask, p, j as int),
                l == omaha_losses(h, pockets@, board.mask, p, j as int),
            decreases pockets@.len() - j,
        {
            if j != player_index {
                let mut other: Option<HandVal> = None;
                let _ = std_deck_omaha_hi_eval(pockets[j], *board, &mut other);
                match other {
                    Some(o) => {
                        if h > o.value {
                            w = w + 1;
                        } else if h < o.value {
                            l = l + 1;
                        } else {
                            t = t + 1;
                        }
                    },
                    None => {},
                }
            }
            j = j + 1;
        }
        self.nwinhi[player_index] = self.nwinhi[player_index] + w;
        self.ntiehi[player_index] = self.ntiehi[player_index] + t;
        self.nlosehi[player_index] = self.nlosehi[player_index] + l;
        Ok(())
    }
}

/// What `fold_counts_into_ordering` adds to entry `x` of a histogram for `np`
/// players: for the entry `i * np + j` of two distinct players, the high wins and
/// ties of `i` and the high losses of `j`.
pub open spec fn fold_gain(r: EnumResult, np: int, x: int) -> int {
    if np > 0 && 0 <= x < np * np && x / np != x % np {
        r.nwinhi@[x / np] + r.ntiehi@[x / np] + r.nlosehi@[x % np]
    } else {
        0
    }
}

impl EnumResult {
    /// In the high and low ordering modes, adds to the histogram entry `i *
    /// nplayers + j` of each two distinct players `i` and `j` the high wins and
    /// ties of `i` and the high losses of `j`; nothing otherwise.
    pub fn fold_counts_into_ordering(&mut self)
        requires
            old(self).nplayers <= ENUM_MAXPLAYERS,
            match old(self).ordering {
                Some(o) => (o.mode == EnumOrderingMode::Hi || o.mode == EnumOrderingMode::Lo) ==> {
                    &&& old(self).nplayers * old(self).nplayers <= o.hist@.len()
                    &&& forall|x: int| 0 <= x < o.hist@.len() ==> #[trigger] o.hist@[x] + fold_gain(*old(self), old(self).nplayers as int, x) <= u32::MAX
                },
                None => true,
            },
        ensures
            final(self).game == old(self).game,
            final(self).sample_type == old(self).sample_type,
            final(self).nsamples == old(self).nsamples,
            final(self).nplayers == old(self).nplayers,
            forall|kind: int| 0 <= kind < 7 ==> #[trigger] counter(*final(self), kind) == counter(*old(self), kind),
            final(self).nsharehi == old(self).nsharehi,
            final(self).nsharelo == old(self).nsharelo,
            final(self).nshare == old(self).nshare,
            match old(self).ordering {
                Some(o) => final(self).ordering matches Some(f) && f.mode == o.mode && f.nplayers == o.nplayers
                    && f.nentries == o.nentries && f.hist@.len() == o.hist@.len() && (forall|x: int|
                    0 <= x < o.hist@.len() ==> #[trigger] f.hist@[x] == if o.mode == EnumOrderingMode::Hi || o.mode == EnumOrderingMode::Lo {
                        o.hist@[x] + fold_gain(*old(self), old(self).nplayers as int, x)
                    } else {
                        o.hist@[x] as int
                    }),
                None => final(self).ordering is None,
            },
    {
        let np = self.nplayers as usize;
        let taken = self.ordering.take();
        match taken {
            Some(b) => {
                let mut ord: EnumOrdering = *b;
                let fold = match ord.mode {
                    EnumOrderingMode::Hi | EnumOrderingMode::Lo => true,
                    _ => false,
                };
                if fold {
                    let ghost h0 = ord.hist@;
                    let ghost r0 = *old(self);
                    let mut i: usize = 0;
                    while i < np
                        invariant
                            np == r0.nplayers,
                            np <= 12,
                            i <= np,
                            np * np <= h0.len(),
                            ord.hist@.len() == h0.len(),
                            ord.mode == old(self).ordering->0.mode,
                            ord.nplayers == old(self).ordering->0.nplayers,
                            ord.nentries == old(self).ordering->0.nentries,
                            forall|x: int| 0 <= x < h0.len() ==> #[trigger] h0[x] + fold_gain(r0, np as int, x) <= u32::MAX,
                            r0.nwinhi == self.nwinhi && r0.ntiehi == self.ntiehi && r0.nlosehi == self.nlosehi,
                            forall|x: int| 0 <= x < h0.len() ==> #[trigger] ord.hist@[x] == if x < i * np {
                                h0[x] + fold_gain(r0, np as int, x)
                            } else {
                                h0[x] as int
                            },
                        decreases np - i,
                    {
                        let mut j: usize = 0;
                        while j < np
                            invariant
                                np == r0.nplayers,
                                np <= 12,
                                i < np,
                                j <= np,
                                np * np <= h0.len(),
                                ord.hist@.len() == h0.len(),
                                ord.mode == old(self).ordering->0.mode,
                                ord.nplayers == old(self).ordering->0.nplayers,
                                ord.nentries == old(self).ordering->0.nentries,
                                forall|x: int| 0 <= x < h0.len() ==> #[trigger] h0[x] + fold_gain(r0, np as int, x) <= u32::MAX,
                                r0.nwinhi == self.nwinhi && r0.ntiehi == self.ntiehi && r0.nlosehi == self.nlosehi,
                                forall|x: int| 0 <= x < h0.len() ==> #[trigger] ord.hist@[x] == if x < i * np + j {
                                    h0[x] + fold_gain(r0, np as int, x)
                                } else {
                                    h0[x] as int
                                },
                            decreases np - j,
                        {
                            proof {
                                assert(i * np + j < np * np && i * np <= 144) by (nonlinear_arith)
                                    requires
                                        i < np,
                                        j < np,
                                        np <= 12,
                                ;
                            }
                            let index = i * np + j;
                            proof {
                                assert((index as int) / (np as int) == i && (index as int) % (np as int) == j) by (nonlinear_arith)
                                    requires
                                        index == i * np + j,
                                        j < np,
                                        0 <= i,
                                ;
                            }
                            if i != j {
                                proof {
                                    assert(h0[index as int] + fold_gain(r0, np as int, index as int) <= u32::MAX);
                                    assert(fold_gain(r0, np as int, index as int) == r0.nwinhi@[i as int] + r0.ntiehi@[i as int] + r0.nlosehi@[j as int]);
                                }
                                let add = self.nwinhi[i] + self.ntiehi[i] + self.nlosehi[j];
                                let v = ord.hist[index] + add;
                                ord.hist.set(index, v);
                            }
                            j = j + 1;
                        }
                        proof {
                            assert((i + 1) * np == i * np + np) by (nonlinear_arith);
                        }
                        i = i + 1;
                    }
                    proof {
                        assert forall|x: int| 0 <= x < h0.len() implies #[trigger] ord.hist@[x] == h0[x] + fold_gain(r0, np as int, x) by {
                            if x >= np * np {
                                assert(fold_gain(r0, np as int, x) == 0);
                            }
                        }
                    }
                }
                self.ordering = Some(Box::new(ord));
            },
            None => {},
        }
    }
}

proof fn lemma_outcomes_prefix(v: Seq<u32>, i: int, k: int)
    requires
        0 <= i,
        0 <= k,
    ensures
        above(v, i, k) + level(v, i, k) + below(v, i, k) == k - (if i < k { 1int } else { 0int }),
    decreases k,
{
    if k > 0 {
        lemma_outcomes_prefix(v, i, k - 1);
    }
}

/// Each player is compared once with each of the other players among the first
/// `k`: the others it is above, level with and below number `k - 1`.
pub proof fn lemma_outcomes_partition(v: Seq<u32>, i: int, k: int)
    requires
        0 <= i < k,
    ensures
        above(v, i, k) + level(v, i, k) + below(v, i, k) == k - 1,
{
    lemma_outcomes_prefix(v, i, k);
}

/// The number of ordered pairs of the first `m` players, against all of the
/// first `k`, where the first is above the second.
pub open spec fn pairs_above(v: Seq<u32>, m: int, k: int) -> nat
    decreases m,
{
    if m <= 0 {
        0
    } else {
        pairs_above(v, m - 1, k) + above(v, m - 1, k)
    }
}

/// The same, where the first is below the second.
pub open spec fn pairs_below(v: Seq<u32>, m: int, k: int) -> nat
    decreases m,
{
    if m <= 0 {
        0
    } else {
        pairs_below(v, m - 1, k) + below(v, m - 1, k)
    }
}

proof fn lemma_above_step(v: Seq<u32>, i: int, k: int)
    requires
        0 <= k,
    ensures
        above(v, i, k + 1) == above(v, i, k) + (if i != k && v[i] > v[k] { 1nat } else { 0nat }),
        below(v, i, k + 1) == below(v, i, k) + (if i != k && v[i] < v[k] { 1nat } else { 0nat }),
{
}

proof fn lemma_pairs_step(v: Seq<u32>, m: int, k: int)
    requires
        0 <= m <= k,
    ensures
        pairs_above(v, m, k + 1) == pairs_above(v, m, k) + count_where(m, |i: int| v[i] > v[k]),
        pairs_below(v, m, k + 1) == pairs_below(v, m, k) + count_where(m, |i: int| v[i] < v[k]),
    decreases m,
{
    if m > 0 {
        lemma_pairs_step(v, m - 1, k);
        lemma_above_step(v, m - 1, k);
    }
}

proof fn lemma_self_counts(v: Seq<u32>, k: int)
    requires
        0 <= k,
    ensures
        above(v, k, k) == count_where(k, |i: int| v[i] < v[k]),
        below(v, k, k) == count_where(k, |i: int| v[i] > v[k]),
    decreases k,
{
    lemma_self_prefix(v, k, k);
}

proof fn lemma_self_prefix(v: Seq<u32>, x: int, k: int)
    requires
        0 <= k <= x,
    ensures
        above(v, x, k) == count_where(k, |i: int| v[i] < v[x]),
        below(v, x, k) == count_where(k, |i: int| v[i] > v[x]),
    decreases k,
{
    if k > 0 {
        lemma_self_prefix(v, x, k - 1);
    }
}

/// Among the first `k` players, the comparisons won, counted over all players,
/// equal the comparisons lost: each win of one player is a loss of another.
pub proof fn lemma_wins_match_losses(v: Seq<u32>, k: int)
    requires
        0 <= k,
    ensures
        pairs_above(v, k, k) == pairs_below(v, k, k),
    decreases k,
{
    if k > 0 {
        let m = k - 1;
        lemma_wins_match_losses(v, m);
        lemma_pairs_step(v, m, m);
        lemma_self_counts(v, m);
        assert(pairs_above(v, k, k) == pairs_above(v, m, k) + above(v, m, k));
        assert(pairs_below(v, k, k) == pairs_below(v, m, k) + below(v, m, k));
        lemma_above_step(v, m, m);
        assert(above(v, m, k) == above(v, m, m));
        assert(below(v, m, k) == below(v, m, m));
    }
}

/// Sums of terms that add up to `c` add up to `m * c`.
proof fn lemma_sum3(m: int, f: spec_fn(int) -> nat, g: spec_fn(int) -> nat, h: spec_fn(int) -> nat, c: int)
    requires
        0 <= m,
        forall|j: int| 0 <= j < m ==> #[trigger] f(j) + g(j) + h(j) == c,
    ensures
        sum_to(m, f) + sum_to(m, g) + sum_to(m, h) == m * c,
    decreases m,
{
    if m > 0 {
        lemma_sum3(m - 1, f, g, h, c);
        assert(f(m - 1) + g(m - 1) + h(m - 1) == c);
        assert((m - 1) * c + c == m * c) by (nonlinear_arith);
        assert(sum_to(m, f) == sum_to(m - 1, f) + f(m - 1));
        assert(sum_to(m, g) == sum_to(m - 1, g) + g(m - 1));
        assert(sum_to(m, h) == sum_to(m - 1, h) + h(m - 1));
    } else {
        assert(m * c == 0) by (nonlinear_arith)
            requires
                m == 0,
        ;
    }
}

/// Over an exhaustive hold'em enumeration of `n` players, each player's high
/// wins, ties and losses together number `n - 1` per deal: one comparison with
/// each other player.
pub proof fn lemma_holdem_outcomes(
    pockets: Seq<StdDeckCardMask>,
    board: u64,
    dead: u64,
    nboard: usize,
    n: int,
    i: int,
)
    requires
        0 <= i < n,
    ensures
        deal_sum(pockets, board, dead, nboard, |b: u64| holdem_contrib(pockets, b, n, i, 0))
            + deal_sum(pockets, board, dead, nboard, |b: u64| holdem_contrib(pockets, b, n, i, 1))
            + deal_sum(pockets, board, dead, nboard, |b: u64| holdem_contrib(pockets, b, n, i, 2))
            == deal_setup(pockets, board, dead, nboard).2 * (n - 1),
{
    let s = deal_setup(pockets, board, dead, nboard);
    let f0 = |b: u64| holdem_contrib(pockets, b, n, i, 0);
    let f1 = |b: u64| holdem_contrib(pockets, b, n, i, 1);
    let f2 = |b: u64| holdem_contrib(pockets, b, n, i, 2);
    let g0 = |j: int| f0(deal_board(board, s.0, s.1, j));
    let g1 = |j: int| f1(deal_board(board, s.0, s.1, j));
    let g2 = |j: int| f2(deal_board(board, s.0, s.1, j));
    assert forall|j: int| 0 <= j < s.2 implies #[trigger] g0(j) + g1(j) + g2(j) == n - 1 by {
        lemma_outcomes_partition(holdem_values(pockets, deal_board(board, s.0, s.1, j)), i, n);
    }
    lemma_sum3(s.2 as int, g0, g1, g2, n - 1);
}

/// The hold'em values of the pockets with the board `board`, seven cards counted.
pub open spec fn holdem_values(pockets: Seq<StdDeckCardMask>, board: u64) -> Seq<u32> {
    Seq::new(pockets.len(), |i: int| eval_mask_value(pockets[i].mask | board, 7) as u32)
}

/// The message of the error for `got` pockets where `expected` were announced.
pub open spec fn pocket_count_text(expected: nat, got: nat) -> Seq<char> {
    "Invalid number of pockets: expected "@ + decimal(expected) + ", got "@ + decimal(got)
}

/// The error for `got` pockets where `expected` were announced.
fn pocket_count_error(expected: usize, got: usize) -> (e: PokerError)
    ensures
        e matches PokerError::InvalidCardConfiguration(msg) && msg@ == pocket_count_text(expected as nat, got as nat),
{
    let mut msg = String::new();
    push_str(&mut msg, "Invalid number of pockets: expected ");
    push_decimal(&mut msg, expected);
    push_str(&mut msg, ", got ");
    push_decimal(&mut msg, got);
    proof {
        assert(msg@ =~= pocket_count_text(expected as nat, got as nat));
    }
    PokerError::InvalidCardConfiguration(msg)
}

impl EnumResult {
    /// Evaluates each pocket with the board, seven cards counted, and compares each
    /// player with all the others (see `update_statistics_cached`); an error when
    /// `pockets` does not hold `npockets` pockets, and nothing changes then.
    pub fn evaluate_holdem_hands(
        &mut self,
        pockets: &[StdDeckCardMask],
        board: &StdDeckCardMask,
        npockets: usize,
    ) -> (res: Result<(), PokerError>)
        requires
            pockets@.len() == npockets ==> {
                let v = holdem_values(pockets@, board.mask);
                let n = npockets as int;
                &&& npockets <= ENUM_MAXPLAYERS
                &&& forall|i: int| 0 <= i < n ==> hand_rank_count(#[trigger] pockets@[i].mask | board.mask) <= 7
                &&& counts_fit(old(self).nwinhi@, n, |i: int| above(v, i, n))
                &&& counts_fit(old(self).ntiehi@, n, |i: int| level(v, i, n))
                &&& counts_fit(old(self).nlosehi@, n, |i: int| below(v, i, n))
            },
        ensures
            pockets@.len() != npockets ==> *final(self) == *old(self) && (res matches Err(e) && e matches PokerError::InvalidCardConfiguration(msg)
                && msg@ == pocket_count_text(npockets as nat, pockets@.len())),
            pockets@.len() == npockets ==> {
                let v = holdem_values(pockets@, board.mask);
                let n = npockets as int;
                &&& res is Ok
                &&& same_frame(*final(self), *old(self))
                &&& final(self).nwinhi@ == plus_counts(old(self).nwinhi@, n, |i: int| above(v, i, n))
                &&& final(self).ntiehi@ == plus_counts(old(self).ntiehi@, n, |i: int| level(v, i, n))
                &&& final(self).nlosehi@ == plus_counts(old(self).nlosehi@, n, |i: int| below(v, i, n))
                &&& final(self).nwinlo == old(self).nwinlo
                &&& final(self).ntielo == old(self).ntielo
                &&& final(self).nloselo == old(self).nloselo
                &&& final(self).nscoop == old(self).nscoop
            },
    {
        if pockets.len() != npockets {
            return Err(pocket_count_error(npockets, pockets.len()));
        }
        let ghost v = holdem_values(pockets@, board.mask);
        let ghost n = npockets as int;
        let mut hand_values: Vec<HandVal> = Vec::new();
        let mut i: usize = 0;
        while i < npockets
            invariant
                npockets == pockets@.len(),
                i <= npockets,
                forall|x: int| 0 <= x < npockets ==> hand_rank_count(#[trigger] pockets@[x].mask | board.mask) <= 7,
                hand_values@.len() == i,
                forall|x: int| 0 <= x < i ==> #[trigger] hand_values@[x].value == v[x],
                v == holdem_values(pockets@, board.mask),
            decreases npockets - i,
        {
            let hand = StdDeckCardMask { mask: pockets[i].mask | board.mask };
            proof {
                assert(hand_rank_count(pockets@[i as int].mask | board.mask) <= 7);
            }
            let hv = Eval::eval_n(&hand, 7);
            hand_values.push(hv);
            i = i + 1;
        }
        proof {
            assert(hi_values(hand_values@) =~= v);
        }
        let mut p: usize = 0;
        while p < npockets
            invariant
                npockets == pockets@.len(),
                npockets <= ENUM_MAXPLAYERS,
                hand_values@.len() == npockets,
                hi_values(hand_values@) == v,
                n == npockets,
                p <= npockets,
                counts_fit(old(self).nwinhi@, n, |i: int| above(v, i, n)),
                counts_fit(old(self).ntiehi@, n, |i: int| level(v, i, n)),
                counts_fit(old(self).nlosehi@, n, |i: int| below(v, i, n)),
                same_frame(*self, *old(self)),
                self.nwinhi@ == plus_counts(old(self).nwinhi@, p as int, |i: int| above(v, i, n)),
                self.ntiehi@ == plus_counts(old(self).ntiehi@, p as int, |i: int| level(v, i, n)),
                self.nlosehi@ == plus_counts(old(self).nlosehi@, p as int, |i: int| below(v, i, n)),
                self.nwinlo == old(self).nwinlo,
                self.ntielo == old(self).ntielo,
                self.nloselo == old(self).nloselo,
                self.nscoop == old(self).nscoop,
            decreases npockets - p,
        {
            proof {
                assert(old(self).nwinhi@[p as int] + (|i: int| above(v, i, n))(p as int) <= u32::MAX);
                assert(old(self).ntiehi@[p as int] + (|i: int| level(v, i, n))(p as int) <= u32::MAX);
                assert(old(self).nlosehi@[p as int] + (|i: int| below(v, i, n))(p as int) <= u32::MAX);
            }
            self.update_statistics_cached(p, hand_values.as_slice(), npockets);
            p = p + 1;
            proof {
                assert(self.nwinhi@ =~= plus_counts(old(self).nwinhi@, p as int, |i: int| above(v, i, n)));
                assert(self.ntiehi@ =~= plus_counts(old(self).ntiehi@, p as int, |i: int| level(v, i, n)));
                assert(self.nlosehi@ =~= plus_counts(old(self).nlosehi@, p as int, |i: int| below(v, i, n)));
            }
        }
        Ok(())
    }
}

/// The sum of `f(j)` for `j` in `0..m`.
pub open spec fn sum_to(m: int, f: spec_fn(int) -> nat) -> nat
    decreases m,
{
    if m <= 0 {
        0
    } else {
        sum_to(m - 1, f) + f(m - 1)
    }
}

proof fn lemma_sum_to_mono(a: int, b: int, f: spec_fn(int) -> nat)
    requires
        a <= b,
    ensures
        sum_to(a, f) <= sum_to(b, f),
    decreases b - a,
{
    if a < b {
        lemma_sum_to_mono(a, b - 1, f);
    }
}

/// The standard-deck cards below index `k` that `excl` does not hold, as
/// single-card masks, in index order.
pub open spec fn live_masks(excl: u64, k: int) -> Seq<StdDeckCardMask>
    decreases k,
{
    if k <= 0 {
        seq![]
    } else {
        live_masks(excl, k - 1) + if card_in(excl, k - 1) {
            seq![]
        } else {
            seq![StdDeckCardMask { mask: card_mask_value(k - 1) }]
        }
    }
}

/// The cards of the masks `s`, together.
pub open spec fn or_masks(s: Seq<StdDeckCardMask>) -> u64
    decreases s.len(),
{
    if s.len() == 0 {
        0
    } else {
        or_masks(s.drop_last()) | s.last().mask
    }
}

/// The board of deal `j`: `board` with the `j`-th group of `c` cards of `deck`
/// (see `nth_combination`).
pub open spec fn deal_board(board: u64, deck: Seq<StdDeckCardMask>, c: nat, j: int) -> u64 {
    board | or_masks(hand_of(deck, nth_combination(deck.len() as int, c as int, j as nat)->0))
}

/// The cards that no deal may hold: the dead cards, the board and the pockets.
pub open spec fn excluded(pockets: Seq<StdDeckCardMask>, board: u64, dead: u64) -> u64
    decreases pockets.len(),
{
    if pockets.len() == 0 {
        dead | board
    } else {
        excluded(pockets.drop_last(), board, dead) | pockets.last().mask
    }
}

/// The number of cards that an exhaustive enumeration deals to a board of
/// `nboard` cards, when it supports that board.
pub open spec fn cards_to_deal(nboard: usize) -> Option<nat> {
    if nboard == 0 {
        Some(5)
    } else if nboard == 3 {
        Some(2)
    } else if nboard == 4 {
        Some(1)
    } else if nboard == 5 {
        Some(0)
    } else {
        None
    }
}

/// The live cards for an exhaustive enumeration, as single-card masks.
pub(crate) fn live_deck(excl: u64) -> (deck: Vec<StdDeckCardMask>)
    ensures
        deck@ == live_masks(excl, 52),
{
    let excl_mask = StdDeckCardMask { mask: excl };
    let mut deck: Vec<StdDeckCardMask> = Vec::new();
    let mut i: usize = 0;
    while i < 52
        invariant
            i <= 52,
            excl_mask.mask == excl,
            deck@ == live_masks(excl, i as int),
        decreases 52 - i,
    {
        if !excl_mask.card_is_set(i) {
            deck.push(StdDeckCardMask::from_card_index(i));
        }
        i = i + 1;
        proof {
            assert(deck@ =~= live_masks(excl, i as int));
        }
    }
    deck
}

/// The cards of `pockets`, `board` and `dead` together.
pub(crate) fn exclusion_mask(pockets: &[StdDeckCardMask], board: u64, dead: u64) -> (m: u64)
    ensures
        m == excluded(pockets@, board, dead),
{
    let mut m = dead | board;
    let mut i: usize = 0;
    while i < pockets.len()
        invariant
            i <= pockets@.len(),
            m == excluded(pockets@.take(i as int), board, dead),
        decreases pockets@.len() - i,
    {
        proof {
            assert(pockets@.take(i as int + 1).drop_last() =~= pockets@.take(i as int));
        }
        m = m | pockets[i].mask;
        i = i + 1;
    }
    proof {
        assert(pockets@.take(i as int) =~= pockets@);
    }
    m
}

/// The cards of the masks of `deck` that `indices` picks, together.
fn picked_mask(deck: &Vec<StdDeckCardMask>, indices: &Vec<usize>) -> (m: u64)
    requires
        forall|t: int| 0 <= t < indices@.len() ==> #[trigger] indices@[t] < deck@.len(),
    ensures
        m == or_masks(hand_of(deck@, indices@)),
{
    let mut m: u64 = 0;
    let mut t: usize = 0;
    while t < indices.len()
        invariant
            t <= indices@.len(),
            forall|x: int| 0 <= x < indices@.len() ==> #[trigger] indices@[x] < deck@.len(),
            m == or_masks(hand_of(deck@, indices@.take(t as int))),
        decreases indices@.len() - t,
    {
        proof {
            assert(hand_of(deck@, indices@.take(t as int + 1)).drop_last() =~= hand_of(deck@, indices@.take(t as int)));
        }
        m = m | deck[indices[t]].mask;
        t = t + 1;
    }
    proof {
        assert(indices@.take(t as int) =~= indices@);
    }
    m
}

/// The counts of kind `kind` of `r`: 0 to 2 the high wins, ties and losses, 3 to
/// 5 the low ones, 6 the scoops.
pub open spec fn counter(r: EnumResult, kind: int) -> Seq<u32> {
    if kind == 0 {
        r.nwinhi@
    } else if kind == 1 {
        r.ntiehi@
    } else if kind == 2 {
        r.nlosehi@
    } else if kind == 3 {
        r.nwinlo@
    } else if kind == 4 {
        r.ntielo@
    } else if kind == 5 {
        r.nloselo@
    } else {
        r.nscoop@
    }
}

/// What a hold'em deal on `board` adds to the counts of kind `kind` of player `i`
/// among `n` (see `evaluate_holdem_hands`).
pub open spec fn holdem_contrib(pockets: Seq<StdDeckCardMask>, board: u64, n: int, i: int, kind: int) -> nat {
    let v = holdem_values(pockets, board);
    if kind == 0 {
        above(v, i, n)
    } else if kind == 1 {
        level(v, i, n)
    } else if kind == 2 {
        below(v, i, n)
    } else {
        0
    }
}

/// The eight-or-better lows of the pockets with the board `board`.
pub open spec fn holdem8_lows(pockets: Seq<StdDeckCardMask>, board: u64) -> Seq<Option<u32>> {
    Seq::new(pockets.len(), |i: int| Some(lowball8_value(pockets[i].mask | board) as u32))
}

/// What a hold'em high-low deal on `board` adds to the counts of kind `kind` of
/// player `i` among `n` (see `evaluate_holdem8_hands`).
pub open spec fn holdem8_contrib(pockets: Seq<StdDeckCardMask>, board: u64, n: int, i: int, kind: int) -> nat {
    let h = holdem_values(pockets, board);
    let o = holdem8_lows(pockets, board);
    let low = o[i] is Some || opt_low_losses(o, i, n) > 0;
    if kind == 0 {
        above(h, i, n)
    } else if kind == 1 {
        level(h, i, n)
    } else if kind == 2 {
        below(h, i, n)
    } else if kind == 3 {
        when(low, opt_low_wins(o, i, n))
    } else if kind == 4 {
        when(low, opt_low_ties(o, i, n))
    } else if kind == 5 {
        when(low, opt_low_losses(o, i, n))
    } else {
        when(
            o[i] is Some && above(h, i, n) > 0 && opt_low_wins(o, i, n) > 0 && level(h, i, n) == 0 && opt_low_ties(o, i, n)
                == 0,
            1,
        )
    }
}

/// The Omaha high values of the pockets with the board `board`, 0 for a pocket
/// without one.
pub open spec fn omaha_values(pockets: Seq<StdDeckCardMask>, board: u64) -> Seq<u32> {
    Seq::new(
        pockets.len(),
        |i: int| match omaha_high(pockets[i].mask, board) {
            Some(h) => h.value,
            None => 0u32,
        },
    )
}

/// What an Omaha deal on `board` adds to the counts of kind `kind` of player `i`
/// among `n` (see `evaluate_omaha_hands`).
pub open spec fn omaha_contrib(pockets: Seq<StdDeckCardMask>, board: u64, n: int, i: int, kind: int) -> nat {
    let v = omaha_values(pockets, board);
    if n <= 1 {
        0
    } else if kind == 0 {
        above(v, i, n)
    } else if kind == 1 {
        level(v, i, n)
    } else if kind == 2 {
        below(v, i, n)
    } else {
        0
    }
}

/// Each count of `new` is that of `old` plus `f(i, kind)` for the first `n`
/// players, and the rest of `new` is that of `old`.
pub open spec fn counted(new: EnumResult, old: EnumResult, n: int, f: spec_fn(int, int) -> nat) -> bool {
    &&& same_frame_but_game(new, old)
    &&& forall|kind: int| 0 <= kind < 7 ==> #[trigger] counter(new, kind) == plus_counts(counter(old, kind), n, |i: int| f(i, kind))
}

/// Adding `f(i, kind)` to the counts of `r` for the first `n` players stays within `u32`.
pub open spec fn can_count(r: EnumResult, n: int, f: spec_fn(int, int) -> nat) -> bool {
    forall|kind: int| 0 <= kind < 7 ==> counts_fit(#[trigger] counter(r, kind), n, |i: int| f(i, kind))
}

/// Like `same_frame`, but the variant may differ.
pub open spec fn same_frame_but_game(a: EnumResult, b: EnumResult) -> bool {
    &&& a.sample_type == b.sample_type
    &&& a.nsamples == b.nsamples
    &&& a.nplayers == b.nplayers
    &&& a.nsharehi == b.nsharehi
    &&& a.nsharelo == b.nsharelo
    &&& a.nshare == b.nshare
    &&& a.ordering == b.ordering
}

impl EnumResult {
    /// Evaluates each pocket with the board, high and eight-or-better low, seven
    /// cards counted, and compares each player with all the others (see
    /// `update_statistics_hilo_cached`); the variant becomes hold'em high-low. An
    /// error when `pockets` does not hold `npockets` pockets, and nothing changes then.
    pub fn evaluate_holdem8_hands(
        &mut self,
        pockets: &[StdDeckCardMask],
        board: &StdDeckCardMask,
        npockets: usize,
    ) -> (res: Result<(), PokerError>)
        requires
            pockets@.len() == npockets ==> {
                let n = npockets as int;
                &&& npockets <= ENUM_MAXPLAYERS
                &&& forall|i: int| 0 <= i < n ==> hand_rank_count(#[trigger] pockets@[i].mask | board.mask) <= 7
                &&& can_count(*old(self), n, |i: int, kind: int| holdem8_contrib(pockets@, board.mask, n, i, kind))
            },
        ensures
            pockets@.len() != npockets ==> *final(self) == *old(self) && res == Err::<(), PokerError>(PokerError::TooManyPlayers),
            pockets@.len() == npockets ==> {
                let n = npockets as int;
                &&& res is Ok
                &&& final(self).game == Game::Holdem8
                &&& counted(*final(self), *old(self), n, |i: int, kind: int| holdem8_contrib(pockets@, board.mask, n, i, kind))
            },
    {
        if pockets.len() != npockets {
            return Err(PokerError::TooManyPlayers);
        }
        self.game = Game::Holdem8;
        let ghost n = npockets as int;
        let ghost f = |i: int, kind: int| holdem8_contrib(pockets@, board.mask, n, i, kind);
        let mut evals: Vec<(HandVal, Option<LowHandVal>)> = Vec::new();
        let mut i: usize = 0;
        while i < npockets
            invariant
                npockets == pockets@.len(),
                i <= npockets,
                forall|x: int| 0 <= x < npockets ==> hand_rank_count(#[trigger] pockets@[x].mask | board.mask) <= 7,
                evals@.len() == i,
                forall|x: int| 0 <= x < i ==> #[trigger] opt_highs(evals@)[x] == holdem_values(pockets@, board.mask)[x],
                forall|x: int| 0 <= x < i ==> #[trigger] opt_lows(evals@)[x] == holdem8_lows(pockets@, board.mask)[x],
            decreases npockets - i,
        {
            let hand = StdDeckCardMask { mask: pockets[i].mask | board.mask };
            proof {
                assert(hand_rank_count(pockets@[i as int].mask | board.mask) <= 7);
            }
            let hi_val = Eval::eval_n(&hand, 7);
            let lo_val = std_deck_lowball8_eval(&hand, 7);
            let ghost before = evals@;
            evals.push((hi_val, lo_val));
            proof {
                assert(evals@[i as int] == (hi_val, lo_val));
                assert(opt_highs(evals@)[i as int] == hi_val.value);
                assert(opt_lows(evals@)[i as int] == Some(lo_val->0.value));
                assert forall|x: int| 0 <= x < i + 1 implies #[trigger] opt_highs(evals@)[x] == holdem_values(pockets@, board.mask)[x] by {
                    if x < i {
                        assert(evals@[x] == before[x]);
                        assert(opt_highs(before)[x] == holdem_values(pockets@, board.mask)[x]);
                        assert(opt_highs(before)[x] == before[x].0.value);
                    }
                }
                assert forall|x: int| 0 <= x < i + 1 implies #[trigger] opt_lows(evals@)[x] == holdem8_lows(pockets@, board.mask)[x] by {
                    if x < i {
                        assert(evals@[x] == before[x]);
                        assert(opt_lows(before)[x] == holdem8_lows(pockets@, board.mask)[x]);
                    }
                }
            }
            i = i + 1;
        }
        proof {
            assert(opt_highs(evals@) =~= holdem_values(pockets@, board.mask));
            assert(opt_lows(evals@) =~= holdem8_lows(pockets@, board.mask));
        }
        let ghost start = *self;
        proof {
            assert forall|kind: int| 0 <= kind < 7 implies #[trigger] counter(start, kind) == counter(*old(self), kind) by {}
            assert forall|kind: int| 0 <= kind < 7 implies counts_fit(#[trigger] counter(start, kind), n, |i: int| f(i, kind)) by {
                assert(counts_fit(counter(*old(self), kind), n, |i: int| f(i, kind)));
            }
            assert forall|kind: int| 0 <= kind < 7 implies #[trigger] counter(*self, kind) == plus_counts(counter(start, kind), 0, |i: int| f(i, kind)) by {
                assert(counter(*self, kind) =~= plus_counts(counter(start, kind), 0, |i: int| f(i, kind)));
            }
        }
        let mut p: usize = 0;
        while p < npockets
            invariant
                npockets == pockets@.len(),
                npockets <= ENUM_MAXPLAYERS,
                evals@.len() == npockets,
                opt_highs(evals@) == holdem_values(pockets@, board.mask),
                opt_lows(evals@) == holdem8_lows(pockets@, board.mask),
                n == npockets,
                f == (|i: int, kind: int| holdem8_contrib(pockets@, board.mask, n, i, kind)),
                p <= npockets,
                can_count(start, n, f),
                start.game == Game::Holdem8,
                self.game == Game::Holdem8,
                counted(*self, start, p as int, f),
            decreases npockets - p,
        {
            proof {
                let pp = p as int;
                assert forall|kind: int| 0 <= kind < 7 implies counter(*self, kind)[pp] + #[trigger] f(pp, kind) <= u32::MAX by {
                    assert(counts_fit(counter(start, kind), n, |i: int| f(i, kind)));
                    assert(counter(start, kind)[pp] + (|i: int| f(i, kind))(pp) <= u32::MAX);
                    assert(counter(*self, kind) == plus_counts(counter(start, kind), pp, |i: int| f(i, kind)));
                }
                assert(self.nwinhi@[pp] + f(pp, 0) <= u32::MAX);
                assert(self.ntiehi@[pp] + f(pp, 1) <= u32::MAX);
                assert(self.nlosehi@[pp] + f(pp, 2) <= u32::MAX);
                assert(self.nwinlo@[pp] + f(pp, 3) <= u32::MAX);
                assert(self.ntielo@[pp] + f(pp, 4) <= u32::MAX);
                assert(self.nloselo@[pp] + f(pp, 5) <= u32::MAX);
                assert(self.nscoop@[pp] + f(pp, 6) <= u32::MAX);
                let h = opt_highs(evals@);
                let o = opt_lows(evals@);
                let k = evals@.len() as int;
                assert(o[pp] is Some);
                assert(k == n);
                assert(self.nwinhi@[pp] + above(h, pp, k) <= u32::MAX);
                assert(self.ntiehi@[pp] + level(h, pp, k) <= u32::MAX);
                assert(self.nlosehi@[pp] + below(h, pp, k) <= u32::MAX);
                assert(self.nwinlo@[pp] + opt_low_wins(o, pp, k) <= u32::MAX);
                assert(self.ntielo@[pp] + opt_low_ties(o, pp, k) <= u32::MAX);
                assert(self.nloselo@[pp] + opt_low_losses(o, pp, k) <= u32::MAX);

            }
            let ghost before = *self;
            self.update_statistics_hilo_cached(p, evals.as_slice(), npockets);
            proof {
                let pp = p as int;
                assert forall|kind: int| 0 <= kind < 7 implies #[trigger] counter(*self, kind) == plus_counts(counter(start, kind), pp + 1, |i: int| f(i, kind)) by {
                    assert(counter(before, kind) == plus_counts(counter(start, kind), pp, |i: int| f(i, kind)));
                    assert(counter(*self, kind) =~= plus_counts(counter(start, kind), pp + 1, |i: int| f(i, kind)));
                }
            }
            p = p + 1;
        }
        Ok(())
    }

    /// Evaluates each pocket with the board as an Omaha hand (high only, 0 when it
    /// has no combination) and compares the players with one another (see
    /// `update_statistics_batched`); the variant becomes Omaha. An error when
    /// `pockets` does not hold `npockets` pockets, and nothing changes then.
    pub fn evaluate_omaha_hands(
        &mut self,
        pockets: &[StdDeckCardMask],
        board: &StdDeckCardMask,
        npockets: usize,
    ) -> (res: Result<(), PokerError>)
        requires
            pockets@.len() == npockets ==> {
                let n = npockets as int;
                &&& npockets <= ENUM_MAXPLAYERS
                &&& can_count(*old(self), n, |i: int, kind: int| omaha_contrib(pockets@, board.mask, n, i, kind))
            },
        ensures
            pockets@.len() != npockets ==> *final(self) == *old(self) && res == Err::<(), PokerError>(PokerError::TooManyPlayers),
            pockets@.len() == npockets ==> {
                let n = npockets as int;
                &&& res is Ok
                &&& final(self).game == Game::Omaha
                &&& counted(*final(self), *old(self), n, |i: int, kind: int| omaha_contrib(pockets@, board.mask, n, i, kind))
            },
    {
        if pockets.len() != npockets {
            return Err(PokerError::TooManyPlayers);
        }
        self.game = Game::Omaha;
        let ghost n = npockets as int;
        let ghost f = |i: int, kind: int| omaha_contrib(pockets@, board.mask, n, i, kind);
        let mut hand_values: Vec<HandVal> = Vec::new();
        let mut i: usize = 0;
        while i < npockets
            invariant
                npockets == pockets@.len(),
                i <= npockets,
                hand_values@.len() == i,
                forall|x: int| 0 <= x < i ==> #[trigger] hand_values@[x].value == omaha_values(pockets@, board.mask)[x],
            decreases npockets - i,
        {
            let mut hival: Option<HandVal> = None;
            let _ = std_deck_omaha_hi_eval(pockets[i], *board, &mut hival);
            let val = match hival {
                Some(h) => h,
                None => HandVal { value: 0 },
            };
            hand_values.push(val);
            i = i + 1;
        }
        proof {
            assert(hi_values(hand_values@) =~= omaha_values(pockets@, board.mask));
            let v = omaha_values(pockets@, board.mask);
            if npockets > 1 {
                assert(counts_fit(counter(*old(self), 0), n, |i: int| f(i, 0)));
                assert forall|x: int| 0 <= x < n implies old(self).nwinhi@[x] + #[trigger] above(v, x, n) <= u32::MAX by {
                    assert(old(self).nwinhi@[x] + (|i: int| f(i, 0))(x) <= u32::MAX);
                }
                assert forall|x: int| 0 <= x < n implies old(self).ntiehi@[x] + #[trigger] level(v, x, n) <= u32::MAX by {
                    assert(counts_fit(counter(*old(self), 1), n, |i: int| f(i, 1)));
                    assert(old(self).ntiehi@[x] + (|i: int| f(i, 1))(x) <= u32::MAX);
                }
                assert forall|x: int| 0 <= x < n implies old(self).nlosehi@[x] + #[trigger] below(v, x, n) <= u32::MAX by {
                    assert(counts_fit(counter(*old(self), 2), n, |i: int| f(i, 2)));
                    assert(old(self).nlosehi@[x] + (|i: int| f(i, 2))(x) <= u32::MAX);
                }
            }
        }
        let ghost before = *self;
        self.update_statistics_batched(hand_values.as_slice(), npockets);
        proof {
            assert forall|kind: int| 0 <= kind < 7 implies #[trigger] counter(*self, kind) == plus_counts(counter(*old(self), kind), n, |i: int| f(i, kind)) by {
                assert(counter(*self, kind) =~= plus_counts(counter(*old(self), kind), n, |i: int| f(i, kind)));
            }
        }
        Ok(())
    }
}

/// How each deal of an exhaustive enumeration is counted.
#[derive(Clone, Copy)]
enum DealRule {
    Holdem,
    Holdem8,
    Omaha,
}

/// What a deal on `board` adds, under `rule`, to the counts of kind `kind` of
/// player `i` among `n`.
spec fn rule_contrib(rule: DealRule, pockets: Seq<StdDeckCardMask>, board: u64, n: int, i: int, kind: int) -> nat {
    match rule {
        DealRule::Holdem => holdem_contrib(pockets, board, n, i, kind),
        DealRule::Holdem8 => holdem8_contrib(pockets, board, n, i, kind),
        DealRule::Omaha => omaha_contrib(pockets, board, n, i, kind),
    }
}

/// What the evaluations of `rule` need of the hands of the first `n` pockets with `board`.
spec fn rule_ready(rule: DealRule, pockets: Seq<StdDeckCardMask>, board: u64, n: int) -> bool {
    match rule {
        DealRule::Omaha => true,
        _ => forall|i: int| 0 <= i < n ==> hand_rank_count(#[trigger] pockets[i].mask | board) <= 7,
    }
}

/// The variant after a deal counted under `rule`, from the variant `g`.
spec fn rule_game(rule: DealRule, g: Game) -> Game {
    match rule {
        DealRule::Holdem => g,
        DealRule::Holdem8 => Game::Holdem8,
        DealRule::Omaha => Game::Omaha,
    }
}

/// Adding, for each of the first `n` players and each kind, `f(i, kind)` to the
/// counts of `r` stays within `u32`.
pub open spec fn counts_room(r: EnumResult, n: int, f: spec_fn(int, int) -> nat) -> bool {
    forall|kind: int, i: int| 0 <= kind < 7 && 0 <= i < n ==> counter(r, kind)[i] + #[trigger] f(i, kind) <= u32::MAX
}

/// The counts of `new` are those of `old` plus `f(i, kind)` for each of the first `n`
/// players, entry by entry.
pub open spec fn counts_plus(new: EnumResult, old: EnumResult, n: int, f: spec_fn(int, int) -> nat) -> bool {
    forall|kind: int, i: int|
        0 <= kind < 7 && 0 <= i < 12 ==> #[trigger] counter(new, kind)[i] == if i < n {
            (counter(old, kind)[i] + f(i, kind)) as u32
        } else {
            counter(old, kind)[i]
        }
}

impl EnumResult {
    /// Counts one deal on `board` under `rule`.
    fn evaluate_deal(
        &mut self,
        rule: DealRule,
        pockets: &[StdDeckCardMask],
        board: &StdDeckCardMask,
        npockets: usize,
    ) -> (res: Result<(), PokerError>)
        requires
            pockets@.len() == npockets ==> {
                &&& npockets <= ENUM_MAXPLAYERS
                &&& rule_ready(rule, pockets@, board.mask, npockets as int)
                &&& forall|kind: int, i: int| 0 <= kind < 7 && 0 <= i < npockets ==> counter(*old(self), kind)[i]
                    + #[trigger] rule_contrib(rule, pockets@, board.mask, npockets as int, i, kind) <= u32::MAX
            },
        ensures
            pockets@.len() != npockets ==> res is Err && *final(self) == *old(self),
            pockets@.len() == npockets ==> {
                &&& res is Ok
                &&& final(self).game == rule_game(rule, old(self).game)
                &&& same_frame_but_game(*final(self), *old(self))
                &&& forall|kind: int, i: int|
                    0 <= kind < 7 && 0 <= i < 12 ==> #[trigger] counter(*final(self), kind)[i] == if i < npockets {
                        (counter(*old(self), kind)[i] + rule_contrib(rule, pockets@, board.mask, npockets as int, i, kind)) as u32
                    } else {
                        counter(*old(self), kind)[i]
                    }
            },
    {
        let ghost n = npockets as int;
        let ghost f = |i: int, kind: int| rule_contrib(rule, pockets@, board.mask, n, i, kind);
        proof {
            if pockets@.len() == npockets {
                assert forall|kind: int| 0 <= kind < 7 implies counts_fit(#[trigger] counter(*old(self), kind), n, |i: int| f(i, kind)) by {
                    assert forall|i: int| 0 <= i < n implies counter(*old(self), kind)[i] + #[trigger] rule_contrib(rule, pockets@, board.mask, n, i, kind) <= u32::MAX by {
                        assert(counter(*old(self), kind)[i] + rule_contrib(rule, pockets@, board.mask, npockets as int, i, kind) <= u32::MAX);
                    }
                }
                assert(can_count(*old(self), n, f));
            }
        }
        let r = match rule {
            DealRule::Holdem => {
                proof {
                    if pockets@.len() == npockets {
                        let v = holdem_values(pockets@, board.mask);
                        assert forall|x: int| 0 <= x < n implies old(self).nwinhi@[x] + #[trigger] above(v, x, n) <= u32::MAX by {
                            assert(counts_fit(counter(*old(self), 0), n, |i: int| f(i, 0)));
                            assert(old(self).nwinhi@[x] + (|i: int| f(i, 0))(x) <= u32::MAX);
                        }
                        assert forall|x: int| 0 <= x < n implies old(self).ntiehi@[x] + #[trigger] level(v, x, n) <= u32::MAX by {
                            assert(counts_fit(counter(*old(self), 1), n, |i: int| f(i, 1)));
                            assert(old(self).ntiehi@[x] + (|i: int| f(i, 1))(x) <= u32::MAX);
                        }
                        assert forall|x: int| 0 <= x < n implies old(self).nlosehi@[x] + #[trigger] below(v, x, n) <= u32::MAX by {
                            assert(counts_fit(counter(*old(self), 2), n, |i: int| f(i, 2)));
                            assert(old(self).nlosehi@[x] + (|i: int| f(i, 2))(x) <= u32::MAX);
                        }
                    }
                }
                let r = self.evaluate_holdem_hands(pockets, board, npockets);
                proof {
                    if pockets@.len() == npockets {
                        assert forall|kind: int| 0 <= kind < 7 implies #[trigger] counter(*self, kind) == plus_counts(counter(*old(self), kind), n, |i: int| f(i, kind)) by {
                            assert(counter(*self, kind) =~= plus_counts(counter(*old(self), kind), n, |i: int| f(i, kind)));
                        }
                    }
                }
                r
            },
            DealRule::Holdem8 => {
                proof {
                    if pockets@.len() == npockets {
                        let g = |i: int, kind: int| holdem8_contrib(pockets@, board.mask, n, i, kind);
                        assert(f =~= g);
                    }
                }
                let r = self.evaluate_holdem8_hands(pockets, board, npockets);
                proof {
                    if pockets@.len() == npockets {
                        let g = |i: int, kind: int| holdem8_contrib(pockets@, board.mask, n, i, kind);
                        assert(f =~= g);
                    }
                }
                r
            },
            DealRule::Omaha => {
                proof {
                    if pockets@.len() == npockets {
                        let g = |i: int, kind: int| omaha_contrib(pockets@, board.mask, n, i, kind);
                        assert(f =~= g);
                    }
                }
                let r = self.evaluate_omaha_hands(pockets, board, npockets);
                proof {
                    if pockets@.len() == npockets {
                        let g = |i: int, kind: int| omaha_contrib(pockets@, board.mask, n, i, kind);
                        assert(f =~= g);
                    }
                }
                r
            },
        };
        proof {
            if pockets@.len() == npockets {
                assert forall|kind: int, i: int| 0 <= kind < 7 && 0 <= i < 12 implies #[trigger] counter(*self, kind)[i] == if i < npockets {
                    (counter(*old(self), kind)[i] + rule_contrib(rule, pockets@, board.mask, npockets as int, i, kind)) as u32
                } else {
                    counter(*old(self), kind)[i]
                } by {
                    assert(counter(*self, kind) == plus_counts(counter(*old(self), kind), n, |i: int| f(i, kind)));
                }
            }
        }
        r
    }
}

/// The deals of an exhaustive enumeration of `pockets` on `board` with dead cards
/// `dead`: the live cards, the number of cards dealt, and the number of deals.
pub open spec fn deal_setup(pockets: Seq<StdDeckCardMask>, board: u64, dead: u64, nboard: usize) -> (Seq<StdDeckCardMask>, nat, nat) {
    let deck = live_masks(excluded(pockets, board, dead), 52);
    let c = cards_to_deal(nboard)->0;
    (deck, c, binomial(deck.len(), c))
}

/// What the first `m` deals of an exhaustive enumeration add, under `rule`, to the
/// counts of kind `kind` of player `i` among `n`.
spec fn rule_partial(
    rule: DealRule,
    pockets: Seq<StdDeckCardMask>,
    board: u64,
    dead: u64,
    nboard: usize,
    n: int,
    m: int,
    i: int,
    kind: int,
) -> nat {
    sum_to(m, rule_step(rule, pockets, board, dead, nboard, n, i, kind))
}

/// What deal `j` of an exhaustive enumeration adds, under `rule`, to the counts
/// of kind `kind` of player `i` among `n`.
spec fn rule_step(
    rule: DealRule,
    pockets: Seq<StdDeckCardMask>,
    board: u64,
    dead: u64,
    nboard: usize,
    n: int,
    i: int,
    kind: int,
) -> spec_fn(int) -> nat {
    let s = deal_setup(pockets, board, dead, nboard);
    |j: int| rule_contrib(rule, pockets, deal_board(board, s.0, s.1, j), n, i, kind)
}

/// The sum of `f(b)` over the boards `b` of every deal of an exhaustive
/// enumeration of `pockets` on `board` with dead cards `dead`.
pub open spec fn deal_sum(
    pockets: Seq<StdDeckCardMask>,
    board: u64,
    dead: u64,
    nboard: usize,
    f: spec_fn(u64) -> nat,
) -> nat {
    let s = deal_setup(pockets, board, dead, nboard);
    sum_to(s.2 as int, |j: int| f(deal_board(board, s.0, s.1, j)))
}

/// No deal of the exhaustive enumeration gives one of the first `n` players a
/// hand of more than seven ranks.
pub open spec fn deals_ready(pockets: Seq<StdDeckCardMask>, board: u64, dead: u64, nboard: usize, n: int) -> bool {
    let s = deal_setup(pockets, board, dead, nboard);
    forall|j: int, i: int|
        0 <= j < s.2 && 0 <= i < n ==> hand_rank_count(#[trigger] pockets[i].mask | #[trigger] deal_board(board, s.0, s.1, j)) <= 7
}

/// Counting every deal into `r`, with what `f(i, kind, b)` gives player `i` on
/// board `b`, stays within `u32`.
pub open spec fn deals_fit(
    r: EnumResult,
    pockets: Seq<StdDeckCardMask>,
    board: u64,
    dead: u64,
    nboard: usize,
    n: int,
    f: spec_fn(int, int, u64) -> nat,
) -> bool {
    &&& r.nsamples + deal_setup(pockets, board, dead, nboard).2 <= u32::MAX
    &&& forall|kind: int, i: int|
        0 <= kind < 7 && 0 <= i < n ==> #[trigger] counter(r, kind)[i] + deal_sum(pockets, board, dead, nboard, |b: u64| f(i, kind, b))
            <= u32::MAX
}

/// `new` is `old` with every deal counted, with what `f(i, kind, b)` gives player
/// `i` on board `b`.
pub open spec fn deals_counted(
    new: EnumResult,
    old: EnumResult,
    pockets: Seq<StdDeckCardMask>,
    board: u64,
    dead: u64,
    nboard: usize,
    n: int,
    f: spec_fn(int, int, u64) -> nat,
) -> bool {
    &&& new.nsamples == old.nsamples + deal_setup(pockets, board, dead, nboard).2
    &&& forall|kind: int, i: int|
        0 <= kind < 7 && 0 <= i < 12 ==> #[trigger] counter(new, kind)[i] == if i < n {
            (counter(old, kind)[i] + deal_sum(pockets, board, dead, nboard, |b: u64| f(i, kind, b))) as u32
        } else {
            counter(old, kind)[i]
        }
}

proof fn lemma_rule_partial(
    rule: DealRule,
    pockets: Seq<StdDeckCardMask>,
    board: u64,
    dead: u64,
    nboard: usize,
    n: int,
    i: int,
    kind: int,
    f: spec_fn(u64) -> nat,
)
    requires
        forall|b: u64| #[trigger] f(b) == rule_contrib(rule, pockets, b, n, i, kind),
    ensures
        rule_partial(rule, pockets, board, dead, nboard, n, deal_setup(pockets, board, dead, nboard).2 as int, i, kind)
            == deal_sum(pockets, board, dead, nboard, f),
{
    let s = deal_setup(pockets, board, dead, nboard);
    assert(rule_step(rule, pockets, board, dead, nboard, n, i, kind) =~= |j: int| f(deal_board(board, s.0, s.1, j)));
}

proof fn lemma_board_of_no_cards(board: u64, deck: Seq<StdDeckCardMask>)
    ensures
        deal_board(board, deck, 0, 0) == board,
{
    assert(nth_combination(deck.len() as int, 0, 0) == Some(first_combination(0)));
    assert(hand_of(deck, first_combination(0)).len() == 0);
    assert(board | 0u64 == board) by (bit_vector);
}

/// Counts whose shares are all zero and that keep no ordering can be merged
/// wherever the seven per-player counts fit.
pub(crate) proof fn lemma_can_merge_counts(a: EnumResult, b: EnumResult)
    requires
        a.nsamples + b.nsamples <= u32::MAX,
        b.ordering is None,
        zero_rows(b.nsharehi@),
        zero_rows(b.nsharelo@),
        zero_planes(b.nshare@),
        forall|kind: int| 0 <= kind < 7 ==> fits(#[trigger] counter(a, kind), counter(b, kind)),
    ensures
        a.can_merge(&b),
{
    assert(fits(counter(a, 0), counter(b, 0)));
    assert(fits(counter(a, 1), counter(b, 1)));
    assert(fits(counter(a, 2), counter(b, 2)));
    assert(fits(counter(a, 3), counter(b, 3)));
    assert(fits(counter(a, 4), counter(b, 4)));
    assert(fits(counter(a, 5), counter(b, 5)));
    assert(fits(counter(a, 6), counter(b, 6)));
    assert forall|x: int| 0 <= x < a.nsharehi@.len() && x < b.nsharehi@.len() implies fits(#[trigger] a.nsharehi@[x]@, b.nsharehi@[x]@) by {
        assert(all_zero(b.nsharehi@[x]@));
    }
    assert forall|x: int| 0 <= x < a.nsharelo@.len() && x < b.nsharelo@.len() implies fits(#[trigger] a.nsharelo@[x]@, b.nsharelo@[x]@) by {
        assert(all_zero(b.nsharelo@[x]@));
    }
    assert forall|x: int| 0 <= x < a.nshare@.len() && x < b.nshare@.len() implies rows_fit(#[trigger] a.nshare@[x]@, b.nshare@[x]@) by {
        assert(zero_rows(b.nshare@[x]@));
        assert forall|y: int| 0 <= y < a.nshare@[x]@.len() && y < b.nshare@[x]@.len() implies fits(#[trigger] a.nshare@[x]@[y]@, b.nshare@[x]@[y]@) by {
            assert(all_zero(b.nshare@[x]@[y]@));
        }
    }
}

/// Merging shares that are all zero leaves the shares unchanged.
pub(crate) proof fn lemma_merge_zero_shares(new: EnumResult, old: EnumResult, other: EnumResult)
    requires
        rows_added(new.nsharehi@, old.nsharehi@, other.nsharehi@),
        rows_added(new.nsharelo@, old.nsharelo@, other.nsharelo@),
        planes_added(new.nshare@, old.nshare@, other.nshare@),
        zero_rows(other.nsharehi@),
        zero_rows(other.nsharelo@),
        zero_planes(other.nshare@),
    ensures
        new.nsharehi@ == old.nsharehi@,
        new.nsharelo@ == old.nsharelo@,
        new.nshare@ == old.nshare@,
{
    assert forall|x: int| 0 <= x < 12 implies #[trigger] new.nsharehi@[x] == old.nsharehi@[x] by {
        assert(all_zero(other.nsharehi@[x]@));
        assert(new.nsharehi@[x]@ =~= old.nsharehi@[x]@);
    }
    assert(new.nsharehi@ =~= old.nsharehi@);
    assert forall|x: int| 0 <= x < 12 implies #[trigger] new.nsharelo@[x] == old.nsharelo@[x] by {
        assert(all_zero(other.nsharelo@[x]@));
        assert(new.nsharelo@[x]@ =~= old.nsharelo@[x]@);
    }
    assert(new.nsharelo@ =~= old.nsharelo@);
    assert forall|x: int| 0 <= x < 12 implies #[trigger] new.nshare@[x] == old.nshare@[x] by {
        assert(zero_rows(other.nshare@[x]@));
        assert forall|y: int| 0 <= y < 13 implies #[trigger] new.nshare@[x]@[y] == old.nshare@[x]@[y] by {
            assert(all_zero(other.nshare@[x]@[y]@));
            assert(new.nshare@[x]@[y]@ =~= old.nshare@[x]@[y]@);
        }
        assert(new.nshare@[x]@ =~= old.nshare@[x]@);
    }
    assert(new.nshare@ =~= old.nshare@);
}

impl EnumResult {
    /// Counts every deal completing the board under `rule` (see the public
    /// exhaustive evaluations).
    fn exhaustive_evaluation(
        &mut self,
        rule: DealRule,
        pockets: &[StdDeckCardMask],
        board: StdDeckCardMask,
        dead: StdDeckCardMask,
        npockets: usize,
        nboard: usize,
    ) -> (res: Result<(), PokerError>)
        requires
            cards_to_deal(nboard) is Some && pockets@.len() == npockets ==> {
                let s = deal_setup(pockets@, board.mask, dead.mask, nboard);
                &&& npockets <= ENUM_MAXPLAYERS
                &&& forall|j: int| 0 <= j < s.2 ==> rule_ready(rule, pockets@, #[trigger] deal_board(board.mask, s.0, s.1, j), npockets as int)
                &&& old(self).nsamples + s.2 <= u32::MAX
                &&& forall|kind: int, i: int| 0 <= kind < 7 && 0 <= i < npockets ==> counter(*old(self), kind)[i]
                    + #[trigger] rule_partial(rule, pockets@, board.mask, dead.mask, nboard, npockets as int, s.2 as int, i, kind) <= u32::MAX
            },
        ensures
            final(self).nplayers == npockets as u32,
            final(self).sample_type == old(self).sample_type,
            final(self).nsharehi == old(self).nsharehi,
            final(self).nsharelo == old(self).nsharelo,
            final(self).nshare == old(self).nshare,
            final(self).ordering == old(self).ordering,
            cards_to_deal(nboard) is None ==> res == Err::<(), PokerError>(PokerError::UnsupportedBoardConfiguration),
            cards_to_deal(nboard) is Some ==> res is Ok,
            cards_to_deal(nboard) is None || pockets@.len() != npockets ==> {
                &&& final(self).game == old(self).game
                &&& final(self).nsamples == old(self).nsamples
                &&& forall|kind: int| 0 <= kind < 7 ==> #[trigger] counter(*final(self), kind) == counter(*old(self), kind)
            },
            cards_to_deal(nboard) is Some && pockets@.len() == npockets ==> {
                let s = deal_setup(pockets@, board.mask, dead.mask, nboard);
                &&& final(self).game == if nboard == 5 { rule_game(rule, old(self).game) } else { old(self).game }
                &&& final(self).nsamples == old(self).nsamples + s.2
                &&& forall|kind: int, i: int|
                    0 <= kind < 7 && 0 <= i < 12 ==> #[trigger] counter(*final(self), kind)[i] == if i < npockets {
                        (counter(*old(self), kind)[i] + rule_partial(rule, pockets@, board.mask, dead.mask, nboard, npockets as int, s.2 as int, i, kind)) as u32
                    } else {
                        counter(*old(self), kind)[i]
                    }
            },
    {
        self.nplayers = #[verifier::truncate] (npockets as u32);
        let excl = exclusion_mask(pockets, board.mask, dead.mask);
        let deck = live_deck(excl);
        let c: usize = if nboard == 0 {
            5
        } else if nboard == 3 {
            2
        } else if nboard == 4 {
            1
        } else if nboard == 5 {
            0
        } else {
            return Err(PokerError::UnsupportedBoardConfiguration);
        };
        let ghost ok = pockets@.len() == npockets;
        let ghost n = npockets as int;
        let ghost d = binomial(deck@.len(), c as nat) as int;
        let ghost start = *self;
        proof {
            assert(cards_to_deal(nboard) == Some(c as nat));
            assert(deal_setup(pockets@, board.mask, dead.mask, nboard) == (deck@, c as nat, d as nat));
            if ok {
                let s = deal_setup(pockets@, board.mask, dead.mask, nboard);
                assert(forall|j: int| 0 <= j < s.2 ==> rule_ready(rule, pockets@, #[trigger] deal_board(board.mask, s.0, s.1, j), n));
                assert forall|j: int| 0 <= j < d implies rule_ready(rule, pockets@, #[trigger] deal_board(board.mask, deck@, c as nat, j), n) by {
                    assert(rule_ready(rule, pockets@, deal_board(board.mask, s.0, s.1, j), n));
                }
            }
        }
        if nboard == 5 {
            proof {
                lemma_board_of_no_cards(board.mask, deck@);
                if ok {
                    assert(binomial(deck@.len(), 0) == 1);
                    assert(rule_ready(rule, pockets@, deal_board(board.mask, deck@, 0, 0), n));
                    assert forall|kind: int, i: int| 0 <= kind < 7 && 0 <= i < npockets implies counter(*self, kind)[i]
                        + #[trigger] rule_contrib(rule, pockets@, board.mask, npockets as int, i, kind) <= u32::MAX by {
                        assert(counter(start, kind)[i] + rule_partial(rule, pockets@, board.mask, dead.mask, nboard, n, d, i, kind) <= u32::MAX);
                    }
                }
            }
            let ghost before = *self;
            let r = self.evaluate_deal(rule, pockets, &board, npockets);
            let ghost after = *self;
            if r.is_ok() {
                self.nsamples = self.nsamples + 1;
            }
            proof {
                if ok {
                    assert forall|kind: int| 0 <= kind < 7 implies #[trigger] counter(before, kind) == counter(*old(self), kind)
                        && counter(*self, kind) == counter(after, kind) by {}
                    assert forall|kind: int, i: int| 0 <= kind < 7 && 0 <= i < 12 implies #[trigger] counter(*self, kind)[i] == if i < npockets {
                        (counter(*old(self), kind)[i] + rule_partial(rule, pockets@, board.mask, dead.mask, nboard, npockets as int, d as int, i, kind)) as u32
                    } else {
                        counter(*old(self), kind)[i]
                    } by {
                        assert(counter(after, kind)[i] == if i < npockets {
                            (counter(before, kind)[i] + rule_contrib(rule, pockets@, board.mask, n, i, kind)) as u32
                        } else {
                            counter(before, kind)[i]
                        });
                        if i < npockets {
                            let g = rule_step(rule, pockets@, board.mask, dead.mask, nboard, n, i, kind);
                            let s = deal_setup(pockets@, board.mask, dead.mask, nboard);
                            assert(sum_to(1, g) == sum_to(0, g) + g(0));
                            assert(g(0) == rule_contrib(rule, pockets@, deal_board(board.mask, s.0, s.1, 0), n, i, kind));
                            assert(deal_board(board.mask, s.0, s.1, 0) == board.mask);
                            assert(rule_partial(rule, pockets@, board.mask, dead.mask, nboard, n, d, i, kind) == rule_contrib(rule, pockets@, board.mask, n, i, kind));
                        }
                    }
                }
            }
            return Ok(());
        }
        let mut local = EnumResult::new(self.game);
        local.nplayers = #[verifier::truncate] (npockets as u32);
        let len = deck.len();
        let ghost mut t: int = 0;
        if len >= c {
            let mut indices = first_indices(c);
            proof {
                assert(is_combination(indices@, len as int));
                lemma_weight_bound(indices@, len as int + 1);
                assert(nth_combination(len as int, c as int, 0) == Some(indices@));
                lemma_nth_combination_bound(len as nat, c as nat, 1);
            }
            loop
                invariant_except_break
                    ok ==> local.nsamples == t,
                    forall|kind: int, i: int| 0 <= kind < 7 && 0 <= i < 12 ==> #[trigger] counter(local, kind)[i] == if ok && i < n {
                        rule_partial(rule, pockets@, board.mask, dead.mask, nboard, n, t, i, kind)
                    } else {
                        0
                    },
                invariant
                    len == deck@.len(),
                    deal_setup(pockets@, board.mask, dead.mask, nboard) == (deck@, c as nat, d as nat),
                    c <= len,
                    nboard != 5,
                    d == binomial(len as nat, c as nat),
                    indices@.len() == c,
                    is_combination(indices@, len as int),
                    0 <= comb_weight(indices@, len as int + 1) < pow(len as int + 1, c as nat),
                    nth_combination(len as int, c as int, t as nat) == Some(indices@),
                    0 <= t < d,
                    ok == (pockets@.len() == npockets),
                    n == npockets,
                    ok ==> npockets <= ENUM_MAXPLAYERS,
                    ok ==> forall|j: int| 0 <= j < d ==> rule_ready(rule, pockets@, #[trigger] deal_board(board.mask, deck@, c as nat, j), n),
                    ok ==> start.nsamples + d <= u32::MAX,
                    ok ==> forall|kind: int, i: int| 0 <= kind < 7 && 0 <= i < npockets ==> counter(start, kind)[i]
                        + #[trigger] rule_partial(rule, pockets@, board.mask, dead.mask, nboard, n, d, i, kind) <= u32::MAX,
                    local.ordering is None,
                    zero_rows(local.nsharehi@),
                    zero_rows(local.nsharelo@),
                    zero_planes(local.nshare@),
                    !ok ==> local.nsamples == 0,
                    forall|kind: int| 0 <= kind < 7 ==> (#[trigger] counter(local, kind)).len() == 12,
                ensures
                    0 <= t,
                    t + 1 == d,
                    ok ==> local.nsamples == d,
                    !ok ==> local.nsamples == 0,
                    forall|kind: int, i: int| 0 <= kind < 7 && 0 <= i < 12 ==> #[trigger] counter(local, kind)[i] == if ok && i < n {
                        rule_partial(rule, pockets@, board.mask, dead.mask, nboard, n, d, i, kind)
                    } else {
                        0
                    },
                    forall|kind: int| 0 <= kind < 7 ==> (#[trigger] counter(local, kind)).len() == 12,
                    local.ordering is None,
                    zero_rows(local.nsharehi@),
                    zero_rows(local.nsharelo@),
                    zero_planes(local.nshare@),
                decreases pow(len as int + 1, c as nat) - comb_weight(indices@, len as int + 1),
            {
                let picked = picked_mask(&deck, &indices);
                let deal = StdDeckCardMask { mask: board.mask | picked };
                proof {
                    assert(deal.mask == deal_board(board.mask, deck@, c as nat, t));
                    if ok {
                        assert(rule_ready(rule, pockets@, deal_board(board.mask, deck@, c as nat, t), n));
                        assert forall|kind: int, i: int| 0 <= kind < 7 && 0 <= i < npockets implies counter(local, kind)[i]
                            + #[trigger] rule_contrib(rule, pockets@, deal.mask, npockets as int, i, kind) <= u32::MAX by {
                            let g = rule_step(rule, pockets@, board.mask, dead.mask, nboard, n, i, kind);
                            assert(counter(start, kind)[i] + rule_partial(rule, pockets@, board.mask, dead.mask, nboard, n, d, i, kind) <= u32::MAX);
                            lemma_sum_to_mono(t + 1, d, g);
                            assert(sum_to(t + 1, g) == sum_to(t, g) + g(t));
                            assert(g(t) == rule_contrib(rule, pockets@, deal.mask, npockets as int, i, kind));
                            assert(counter(local, kind)[i] == sum_to(t, g));
                        }
                    }
                }
                let ghost before_local = local;
                let r = local.evaluate_deal(rule, pockets, &deal, npockets);
                let ghost after_local = local;
                if r.is_ok() {
                    local.nsamples = local.nsamples + 1;
                }
                proof {
                    assert forall|kind: int| 0 <= kind < 7 implies #[trigger] counter(local, kind) == counter(after_local, kind) by {}
                    assert forall|kind: int, i: int| 0 <= kind < 7 && 0 <= i < 12 implies #[trigger] counter(local, kind)[i] == if ok && i < n {
                        rule_partial(rule, pockets@, board.mask, dead.mask, nboard, n, t + 1, i, kind)
                    } else {
                        0
                    } by {
                        assert(counter(before_local, kind)[i] == if ok && i < n {
                            rule_partial(rule, pockets@, board.mask, dead.mask, nboard, n, t, i, kind)
                        } else {
                            0
                        });
                        if ok {
                            assert(counter(after_local, kind)[i] == if i < npockets {
                                (counter(before_local, kind)[i] + rule_contrib(rule, pockets@, deal.mask, n, i, kind)) as u32
                            } else {
                                counter(before_local, kind)[i]
                            });
                        } else {
                            assert(after_local == before_local);
                        }
                        if ok && i < n {
                            let g = rule_step(rule, pockets@, board.mask, dead.mask, nboard, n, i, kind);
                            assert(sum_to(t + 1, g) == sum_to(t, g) + g(t));
                            assert(g(t) == rule_contrib(rule, pockets@, deal.mask, npockets as int, i, kind));
                            lemma_sum_to_mono(t + 1, d, g);
                            assert(counter(start, kind)[i] + rule_partial(rule, pockets@, board.mask, dead.mask, nboard, n, d, i, kind) <= u32::MAX);
                        }
                    }
                    assert forall|kind: int| 0 <= kind < 7 implies (#[trigger] counter(local, kind)).len() == 12 by {}
                }
                let ghost before = indices@;
                proof {
                    lemma_next_combination(before, len as int);
                    if next_combination(before, len as int) is Some {
                        lemma_next_weight(before, len as int);
                    }
                }
                let found = advance_indices(&mut indices, len);
                if !found {
                    proof {
                        assert(nth_combination(len as int, c as int, (t + 1) as nat) is None);
                        if t + 1 < d {
                            lemma_nth_combination_exists(len as nat, c as nat, (t + 1) as nat);
                        }
                    }
                    break;
                }
                proof {
                    assert(nth_combination(len as int, c as int, (t + 1) as nat) == Some(indices@));
                    lemma_nth_combination_bound(len as nat, c as nat, (t + 2) as nat);
                    t = t + 1;
                }
            }
        } else {
            proof {
                lemma_binomial_small(len as nat, c as nat);
                assert forall|kind: int, i: int| 0 <= kind < 7 && 0 <= i < 12 implies #[trigger] counter(local, kind)[i] == if ok && i < n {
                    rule_partial(rule, pockets@, board.mask, dead.mask, nboard, n, d, i, kind)
                } else {
                    0
                } by {}
            }
        }
        proof {
            assert(self.nsamples + local.nsamples <= u32::MAX);
            assert forall|kind: int| 0 <= kind < 7 implies fits(#[trigger] counter(*self, kind), counter(local, kind)) by {
                assert forall|i: int| 0 <= i < counter(*self, kind).len() && i < counter(local, kind).len() implies #[trigger] counter(*self, kind)[i]
                    + counter(local, kind)[i] <= u32::MAX by {
                    if ok && i < n {
                        assert(counter(start, kind)[i] + rule_partial(rule, pockets@, board.mask, dead.mask, nboard, n, d, i, kind) <= u32::MAX);
                    }
                }
            }
            lemma_can_merge_counts(*self, local);
        }
        let ghost pre_merge = *self;
        self.merge(&local);
        proof {
            lemma_merge_zero_shares(*self, pre_merge, local);
            assert forall|kind: int, i: int| 0 <= kind < 7 && 0 <= i < 12 implies #[trigger] counter(*self, kind)[i] == if ok && i < n {
                (counter(*old(self), kind)[i] + rule_partial(rule, pockets@, board.mask, dead.mask, nboard, n, d, i, kind)) as u32
            } else {
                counter(*old(self), kind)[i]
            } by {
                assert(added(counter(*self, kind), counter(pre_merge, kind), counter(local, kind)));
            }
            if !ok {
                assert forall|kind: int| 0 <= kind < 7 implies #[trigger] counter(*self, kind) == counter(*old(self), kind) by {
                    assert(counter(*self, kind) =~= counter(*old(self), kind));
                }
            }
        }
        Ok(())
    }
}

impl EnumResult {
    /// Counts every hold'em deal that completes the board.
    ///
    /// `nboard` cards of the board are known (0, 3, 4 or 5); every way of dealing
    /// the rest from the cards that no pocket, the board nor `dead` holds is
    /// counted once. Any other `nboard` is refused. A deal whose pockets do not
    /// number `npockets` is not counted.
    pub fn exhaustive_holdem_evaluation(
        &mut self,
        pockets: &[StdDeckCardMask],
        board: StdDeckCardMask,
        dead: StdDeckCardMask,
        npockets: usize,
        nboard: usize,
    ) -> (res: Result<(), PokerError>)
        requires
            cards_to_deal(nboard) is Some && pockets@.len() == npockets ==> {
                &&& npockets <= ENUM_MAXPLAYERS
                &&& deals_ready(pockets@, board.mask, dead.mask, nboard, npockets as int)
                &&& deals_fit(*old(self), pockets@, board.mask, dead.mask, nboard, npockets as int,
                    |i: int, kind: int, b: u64| holdem_contrib(pockets@, b, npockets as int, i, kind))
            },
        ensures
            final(self).nplayers == npockets as u32,
            final(self).sample_type == old(self).sample_type,
            final(self).nsharehi == old(self).nsharehi,
            final(self).nsharelo == old(self).nsharelo,
            final(self).nshare == old(self).nshare,
            final(self).ordering == old(self).ordering,
            cards_to_deal(nboard) is None ==> res == Err::<(), PokerError>(PokerError::UnsupportedBoardConfiguration),
            cards_to_deal(nboard) is Some ==> res is Ok,
            cards_to_deal(nboard) is None || pockets@.len() != npockets ==> {
                &&& final(self).game == old(self).game
                &&& final(self).nsamples == old(self).nsamples
                &&& forall|kind: int| 0 <= kind < 7 ==> #[trigger] counter(*final(self), kind) == counter(*old(self), kind)
            },
            cards_to_deal(nboard) is Some && pockets@.len() == npockets ==> {
                &&& final(self).game == old(self).game
                &&& deals_counted(*final(self), *old(self), pockets@, board.mask, dead.mask, nboard, npockets as int,
                    |i: int, kind: int, b: u64| holdem_contrib(pockets@, b, npockets as int, i, kind))
            },
    {
        let ghost n = npockets as int;
        let ghost f = |i: int, kind: int, b: u64| holdem_contrib(pockets@, b, n, i, kind);
        proof {
            if cards_to_deal(nboard) is Some && pockets@.len() == npockets {
                let s = deal_setup(pockets@, board.mask, dead.mask, nboard);
                assert forall|j: int| 0 <= j < s.2 implies rule_ready(DealRule::Holdem, pockets@, #[trigger] deal_board(board.mask, s.0, s.1, j), npockets as int) by {
                    assert forall|i: int| 0 <= i < npockets implies hand_rank_count(#[trigger] pockets@[i].mask | deal_board(board.mask, s.0, s.1, j)) <= 7 by {}
                }
                assert forall|kind: int, i: int| 0 <= kind < 7 && 0 <= i < npockets implies counter(*old(self), kind)[i]
                    + #[trigger] rule_partial(DealRule::Holdem, pockets@, board.mask, dead.mask, nboard, n, s.2 as int, i, kind) <= u32::MAX by {
                    lemma_rule_partial(DealRule::Holdem, pockets@, board.mask, dead.mask, nboard, n, i, kind, |b: u64| f(i, kind, b));
                }
            }
        }
        let res = self.exhaustive_evaluation(DealRule::Holdem, pockets, board, dead, npockets, nboard);
        proof {
            if cards_to_deal(nboard) is Some && pockets@.len() == npockets {
                let s = deal_setup(pockets@, board.mask, dead.mask, nboard);
                assert forall|kind: int, i: int| 0 <= kind < 7 && 0 <= i < 12 implies #[trigger] counter(*self, kind)[i] == if i < n {
                    (counter(*old(self), kind)[i] + deal_sum(pockets@, board.mask, dead.mask, nboard, |b: u64| f(i, kind, b))) as u32
                } else {
                    counter(*old(self), kind)[i]
                } by {
                    if i < n {
                        lemma_rule_partial(DealRule::Holdem, pockets@, board.mask, dead.mask, nboard, n, i, kind, |b: u64| f(i, kind, b));
                    }
                }
            }
        }
        res
    }

    /// Counts every hold'em high-low eight-or-better deal that completes the board.
    ///
    /// `nboard` cards of the board are known (0, 3, 4 or 5); every way of dealing
    /// the rest from the cards that no pocket, the board nor `dead` holds is
    /// counted once. Any other `nboard` is refused. A deal whose pockets do not
    /// number `npockets` is not counted.
    pub fn exhaustive_holdem8_evaluation(
        &mut self,
        pockets: &[StdDeckCardMask],
        board: StdDeckCardMask,
        dead: StdDeckCardMask,
        npockets: usize,
        nboard: usize,
    ) -> (res: Result<(), PokerError>)
        requires
            cards_to_deal(nboard) is Some && pockets@.len() == npockets ==> {
                &&& npockets <= ENUM_MAXPLAYERS
                &&& deals_ready(pockets@, board.mask, dead.mask, nboard, npockets as int)
                &&& deals_fit(*old(self), pockets@, board.mask, dead.mask, nboard, npockets as int,
                    |i: int, kind: int, b: u64| holdem8_contrib(pockets@, b, npockets as int, i, kind))
            },
        ensures
            final(self).nplayers == npockets as u32,
            final(self).sample_type == old(self).sample_type,
            final(self).nsharehi == old(self).nsharehi,
            final(self).nsharelo == old(self).nsharelo,
            final(self).nshare == old(self).nshare,
            final(self).ordering == old(self).ordering,
            cards_to_deal(nboard) is None ==> res == Err::<(), PokerError>(PokerError::UnsupportedBoardConfiguration),
            cards_to_deal(nboard) is Some ==> res is Ok,
            cards_to_deal(nboard) is None || pockets@.len() != npockets ==> {
                &&& final(self).game == old(self).game
                &&& final(self).nsamples == old(self).nsamples
                &&& forall|kind: int| 0 <= kind < 7 ==> #[trigger] counter(*final(self), kind) == counter(*old(self), kind)
            },
            cards_to_deal(nboard) is Some && pockets@.len() == npockets ==> {
                &&& final(self).game == if nboard == 5 { Game::Holdem8 } else { old(self).game }
                &&& deals_counted(*final(self), *old(self), pockets@, board.mask, dead.mask, nboard, npockets as int,
                    |i: int, kind: int, b: u64| holdem8_contrib(pockets@, b, npockets as int, i, kind))
            },
    {
        let ghost n = npockets as int;
        let ghost f = |i: int, kind: int, b: u64| holdem8_contrib(pockets@, b, n, i, kind);
        proof {
            if cards_to_deal(nboard) is Some && pockets@.len() == npockets {
                let s = deal_setup(pockets@, board.mask, dead.mask, nboard);
                assert forall|j: int| 0 <= j < s.2 implies rule_ready(DealRule::Holdem8, pockets@, #[trigger] deal_board(board.mask, s.0, s.1, j), npockets as int) by {
                    assert forall|i: int| 0 <= i < npockets implies hand_rank_count(#[trigger] pockets@[i].mask | deal_board(board.mask, s.0, s.1, j)) <= 7 by {}
                }
                assert forall|kind: int, i: int| 0 <= kind < 7 && 0 <= i < npockets implies counter(*old(self), kind)[i]
                    + #[trigger] rule_partial(DealRule::Holdem8, pockets@, board.mask, dead.mask, nboard, n, s.2 as int, i, kind) <= u32::MAX by {
                    lemma_rule_partial(DealRule::Holdem8, pockets@, board.mask, dead.mask, nboard, n, i, kind, |b: u64| f(i, kind, b));
                }
            }
        }
        let res = self.exhaustive_evaluation(DealRule::Holdem8, pockets, board, dead, npockets, nboard);
        proof {
            if cards_to_deal(nboard) is Some && pockets@.len() == npockets {
                let s = deal_setup(pockets@, board.mask, dead.mask, nboard);
                assert forall|kind: int, i: int| 0 <= kind < 7 && 0 <= i < 12 implies #[trigger] counter(*self, kind)[i] == if i < n {
                    (counter(*old(self), kind)[i] + deal_sum(pockets@, board.mask, dead.mask, nboard, |b: u64| f(i, kind, b))) as u32
                } else {
                    counter(*old(self), kind)[i]
                } by {
                    if i < n {
                        lemma_rule_partial(DealRule::Holdem8, pockets@, board.mask, dead.mask, nboard, n, i, kind, |b: u64| f(i, kind, b));
                    }
                }
            }
        }
        res
    }

    /// Counts every Omaha deal that completes the board.
    ///
    /// `nboard` cards of the board are known (0, 3, 4 or 5); every way of dealing
    /// the rest from the cards that no pocket, the board nor `dead` holds is
    /// counted once. Any other `nboard` is refused. A deal whose pockets do not
    /// number `npockets` is not counted.
    pub fn exhaustive_omaha_evaluation(
        &mut self,
        pockets: &[StdDeckCardMask],
        board: StdDeckCardMask,
        dead: StdDeckCardMask,
        npockets: usize,
        nboard: usize,
    ) -> (res: Result<(), PokerError>)
        requires
            cards_to_deal(nboard) is Some && pockets@.len() == npockets ==> {
                &&& npockets <= ENUM_MAXPLAYERS
                &&& deals_fit(*old(self), pockets@, board.mask, dead.mask, nboard, npockets as int,
                    |i: int, kind: int, b: u64| omaha_contrib(pockets@, b, npockets as int, i, kind))
            },
        ensures
            final(self).nplayers == npockets as u32,
            final(self).sample_type == old(self).sample_type,
            final(self).nsharehi == old(self).nsharehi,
            final(self).nsharelo == old(self).nsharelo,
            final(self).nshare == old(self).nshare,
            final(self).ordering == old(self).ordering,
            cards_to_deal(nboard) is None ==> res == Err::<(), PokerError>(PokerError::UnsupportedBoardConfiguration),
            cards_to_deal(nboard) is Some ==> res is Ok,
            cards_to_deal(nboard) is None || pockets@.len() != npockets ==> {
                &&& final(self).game == old(self).game
                &&& final(self).nsamples == old(self).nsamples
                &&& forall|kind: int| 0 <= kind < 7 ==> #[trigger] counter(*final(self), kind) == counter(*old(self), kind)
            },
            cards_to_deal(nboard) is Some && pockets@.len() == npockets ==> {
                &&& final(self).game == if nboard == 5 { Game::Omaha } else { old(self).game }
                &&& deals_counted(*final(self), *old(self), pockets@, board.mask, dead.mask, nboard, npockets as int,
                    |i: int, kind: int, b: u64| omaha_contrib(pockets@, b, npockets as int, i, kind))
            },
    {
        let ghost n = npockets as int;
        let ghost f = |i: int, kind: int, b: u64| omaha_contrib(pockets@, b, n, i, kind);
        proof {
            if cards_to_deal(nboard) is Some && pockets@.len() == npockets {
                let s = deal_setup(pockets@, board.mask, dead.mask, nboard);
                assert forall|kind: int, i: int| 0 <= kind < 7 && 0 <= i < npockets implies counter(*old(self), kind)[i]
                    + #[trigger] rule_partial(DealRule::Omaha, pockets@, board.mask, dead.mask, nboard, n, s.2 as int, i, kind) <= u32::MAX by {
                    lemma_rule_partial(DealRule::Omaha, pockets@, board.mask, dead.mask, nboard, n, i, kind, |b: u64| f(i, kind, b));
                }
            }
        }
        let res = self.exhaustive_evaluation(DealRule::Omaha, pockets, board, dead, npockets, nboard);
        proof {
            if cards_to_deal(nboard) is Some && pockets@.len() == npockets {
                let s = deal_setup(pockets@, board.mask, dead.mask, nboard);
                assert forall|kind: int, i: int| 0 <= kind < 7 && 0 <= i < 12 implies #[trigger] counter(*self, kind)[i] == if i < n {
                    (counter(*old(self), kind)[i] + deal_sum(pockets@, board.mask, dead.mask, nboard, |b: u64| f(i, kind, b))) as u32
                } else {
                    counter(*old(self), kind)[i]
                } by {
                    if i < n {
                        lemma_rule_partial(DealRule::Omaha, pockets@, board.mask, dead.mask, nboard, n, i, kind, |b: u64| f(i, kind, b));
                    }
                }
            }
        }
        res
    }
}

/// `a` plus `b`, entry by entry.
fn add_counts(a: &[u32; 12], b: &[u32; 12]) -> (r: [u32; 12])
    requires
        fits(a@, b@),
    ensures
        added(r@, a@, b@),
{
    let mut r: [u32; 12] = *a;
    let mut i: usize = 0;
    while i < 12
        invariant
            i <= 12,
            r@.len() == 12,
            fits(a@, b@),
            forall|x: int| 0 <= x < i ==> #[trigger] r@[x] == a@[x] + b@[x],
            forall|x: int| i <= x < 12 ==> #[trigger] r@[x] == a@[x],
        decreases 12 - i,
    {
        r[i] = r[i] + b[i];
        i = i + 1;
    }
    r
}

/// `a` plus `b`, entry by entry.
fn add_row(a: &[u32; 13], b: &[u32; 13]) -> (r: [u32; 13])
    requires
        fits(a@, b@),
    ensures
        added(r@, a@, b@),
{
    let mut r: [u32; 13] = *a;
    let mut i: usize = 0;
    while i < 13
        invariant
            i <= 13,
            r@.len() == 13,
            fits(a@, b@),
            forall|x: int| 0 <= x < i ==> #[trigger] r@[x] == a@[x] + b@[x],
            forall|x: int| i <= x < 13 ==> #[trigger] r@[x] == a@[x],
        decreases 13 - i,
    {
        r[i] = r[i] + b[i];
        i = i + 1;
    }
    r
}

/// `a` plus `b`, row by row.
fn add_rows<const N: usize>(a: &[[u32; 13]; N], b: &[[u32; 13]; N]) -> (r: [[u32; 13]; N])
    requires
        rows_fit(a@, b@),
    ensures
        rows_added(r@, a@, b@),
{
    let mut r: [[u32; 13]; N] = *a;
    let mut i: usize = 0;
    while i < N
        invariant
            i <= N,
            r@.len() == N,
            a@.len() == N,
            rows_fit(a@, b@),
            forall|x: int| 0 <= x < i ==> added(#[trigger] r@[x]@, a@[x]@, b@[x]@),
            forall|x: int| i <= x < N ==> #[trigger] r@[x] == a@[x],
        decreases N - i,
    {
        let row = add_row(&r[i], &b[i]);
        r[i] = row;
        i = i + 1;
    }
    r
}

/// `a` plus `b`, over the entries both have; `a`'s other entries unchanged.
fn add_hist(a: &Vec<u32>, b: &Vec<u32>) -> (r: Vec<u32>)
    requires
        fits(a@, b@),
    ensures
        r@.len() == a@.len(),
        forall|i: int| 0 <= i < a@.len() ==> #[trigger] r@[i] == if i < b@.len() {
            (a@[i] + b@[i]) as u32
        } else {
            a@[i]
        },
{
    let mut r: Vec<u32> = Vec::new();
    let mut i: usize = 0;
    while i < a.len()
        invariant
            r@.len() == i,
            i <= a@.len(),
            fits(a@, b@),
            forall|x: int| 0 <= x < i ==> #[trigger] r@[x] == if x < b@.len() {
                (a@[x] + b@[x]) as u32
            } else {
                a@[x]
            },
        decreases a@.len() - i,
    {
        if i < b.len() {
            r.push(a[i] + b[i]);
        } else {
            r.push(a[i]);
        }
        i = i + 1;
    }
    r
}

} // verus!

//! Monte Carlo draws: random sets of cards taken from the live cards of a deck
//! (those that are not dead), one set per iteration.
use vstd::prelude::*;
use rand::rngs::SmallRng;
use rand::seq::SliceRandom;
use rand::SeedableRng;
use crate::tables::{JokerDeckCardMask, StdDeckCardMask};

verus! {

#[verifier::external_type_specification]
#[verifier::external_body]
pub struct ExSmallRng(SmallRng);

/// `SeedableRng::seed_from_u64` for `SmallRng`: a generator whose state is
/// derived from `seed` (the seed is expanded by a PCG generator, then used as
/// the state). Nothing is claimed of that state; the call does not fail.
#[verifier::external_body]
fn small_rng_from_seed(seed: u64) -> (rng: SmallRng) {
    SmallRng::seed_from_u64(seed)
}

/// `SliceRandom::partial_shuffle` on the whole vector: it swaps elements, so the
/// vector keeps its length and its elements, in an order that depends on the
/// generator. The randomly chosen elements end in the last `amount` positions;
/// which elements those are is left unsaid.
#[verifier::external_body]
fn partial_shuffle_vec<T>(v: &mut Vec<T>, rng: &mut SmallRng, amount: usize)
    ensures
        final(v)@.len() == old(v)@.len(),
        final(v)@.to_multiset() == old(v)@.to_multiset(),
{
    v.partial_shuffle(rng, amount);
}

/// Where the cards of the sampled deals come from: a random generator seeded
/// with the given number, or given points of a low-discrepancy sequence, one per
/// deal, each coordinate a fraction of 2^64 (see `point_draw`).
pub enum DrawSource {
    Random(u64),
    Points(Vec<Vec<u64>>),
}

/// A copy of `v`.
fn copy_cards<T: Copy>(v: &Vec<T>) -> (r: Vec<T>)
    ensures
        r@ == v@,
{
    let mut r: Vec<T> = Vec::new();
    let mut i: usize = 0;
    while i < v.len()
        invariant
            i <= v@.len(),
            r@ == v@.take(i as int),
        decreases v@.len() - i,
    {
        r.push(v[i]);
        i = i + 1;
        proof {
            assert(r@ =~= v@.take(i as int));
        }
    }
    proof {
        assert(v@.take(i as int) =~= v@);
    }
    r
}

/// `num_cards` cards of `live` picked by the coordinates of `point`: the `i`-th
/// card is the one at position `point[i] * remaining / 2^64` among the cards
/// not picked yet (a missing coordinate counts as 0).
fn point_draw<T: Copy>(live: &Vec<T>, point: &Vec<u64>, num_cards: usize) -> (r: Vec<T>)
    requires
        num_cards <= live@.len(),
    ensures
        r@.len() == num_cards,
        r@.to_multiset().subset_of(live@.to_multiset()),
{
    broadcast use vstd::multiset::group_multiset_axioms;
    broadcast use vstd::seq_lib::group_to_multiset_ensures;

    let mut current = copy_cards(live);
    let mut drawn: Vec<T> = Vec::new();
    let mut i: usize = 0;
    while i < num_cards
        invariant
            i <= num_cards <= live@.len(),
            current@.len() == live@.len() - i,
            drawn@.len() == i,
            drawn@.to_multiset().add(current@.to_multiset()) == live@.to_multiset(),
        decreases num_cards - i,
    {
        let rem = current.len();
        let x: u64 = if i < point.len() { point[i] } else { 0 };
        assert((x as u128) * (rem as u128) <= u128::MAX) by (nonlinear_arith)
            requires
                x < 0x1_0000_0000_0000_0000,
                rem < 0x1_0000_0000_0000_0000,
        ;
        let prod: u128 = (x as u128) * (rem as u128);
        let q: u128 = prod / 0x1_0000_0000_0000_0000u128;
        assert(q < rem) by (nonlinear_arith)
            requires
                prod == (x as u128) * (rem as u128),
                q == prod / 0x1_0000_0000_0000_0000u128,
                x < 0x1_0000_0000_0000_0000,
                rem >= 1,
        ;
        let idx = q as usize;
        let ghost before = current@;
        let c = current.remove(idx);
        proof {
            vstd::seq_lib::to_multiset_remove(before, idx as int);
            assert(before[idx as int] == c);
            assert(before.contains(c));
            before.to_multiset_ensures();
            assert(before.to_multiset().contains(c));
        }
        let ghost old_drawn = drawn@;
        drawn.push(c);
        proof {
            vstd::seq_lib::to_multiset_build(old_drawn, c);
            assert(drawn@ == old_drawn.push(c));
            assert(current@.to_multiset() == before.to_multiset().remove(c));
            assert(drawn@.to_multiset().add(current@.to_multiset()) =~= old_drawn.to_multiset().add(before.to_multiset()));
        }
        i = i + 1;
    }
    drawn
}

/// The live cards of `deck`: the nonempty masks that share no card with `dead`.
pub open spec fn live_std_cards(deck: Seq<StdDeckCardMask>, dead: u64) -> Seq<StdDeckCardMask> {
    deck.filter(|c: StdDeckCardMask| c.mask != 0 && c.mask & dead == 0)
}

/// The live cards of the joker deck `deck`: the nonempty masks that share no card
/// with `dead`.
pub open spec fn live_joker_cards(deck: Seq<JokerDeckCardMask>, dead: u64) -> Seq<JokerDeckCardMask> {
    deck.filter(|c: JokerDeckCardMask| c.cards_n & dead == 0 && c.cards_n != 0)
}

/// `draws` holds `num_iter` draws of `num_cards` cards of `live`, each taking no
/// card more often than `live` holds it, or none when `live` is too small.
pub open spec fn draws_of<T>(draws: Seq<Vec<T>>, live: Seq<T>, num_cards: nat, num_iter: nat) -> bool {
    &&& (num_cards > live.len() ==> draws.len() == 0)
    &&& (num_cards <= live.len() ==> draws.len() == num_iter)
    &&& forall|k: int|
        0 <= k < draws.len() ==> {
            &&& (#[trigger] draws[k])@.len() == num_cards
            &&& draws[k]@.to_multiset().subset_of(live.to_multiset())
        }
}

/// The last `n` elements of `v`.
fn last_cards<T: Copy>(v: &Vec<T>, n: usize) -> (r: Vec<T>)
    requires
        n <= v@.len(),
    ensures
        r@ == v@.skip(v@.len() - n),
{
    let start = v.len() - n;
    let mut r: Vec<T> = Vec::new();
    let mut i: usize = start;
    while i < v.len()
        invariant
            start == v@.len() - n,
            start <= i <= v@.len(),
            r@ == v@.subrange(start as int, i as int),
        decreases v@.len() - i,
    {
        r.push(v[i]);
        i = i + 1;
        proof {
            assert(r@ =~= v@.subrange(start as int, i as int));
        }
    }
    proof {
        assert(r@ =~= v@.skip(start as int));
    }
    r
}

/// The last elements of a sequence take no element more often than it.
proof fn lemma_skip_sub_multiset<T>(s: Seq<T>, n: int)
    requires
        0 <= n <= s.len(),
    ensures
        s.skip(n).to_multiset().subset_of(s.to_multiset()),
{
    broadcast use vstd::multiset::group_multiset_axioms;

    assert(s =~= s.take(n) + s.skip(n));
    vstd::seq_lib::lemma_multiset_commutative(s.take(n), s.skip(n));
}

/// `num_iter` draws of `num_cards` of the cards `live_deck`: with a random
/// source, each draw partially shuffles the cards with the seeded generator and
/// takes the `num_cards` it chose; with points, draw `k` takes the cards that
/// point `k` picks (see `point_draw`; a missing point picks as all zeros).
fn draw_cards<T: Copy>(live_deck: &mut Vec<T>, num_cards: usize, num_iter: usize, source: &DrawSource) -> (draws: Vec<Vec<T>>)
    requires
        num_cards <= old(live_deck)@.len(),
    ensures
        draws@.len() == num_iter,
        forall|j: int|
            0 <= j < num_iter ==> {
                &&& (#[trigger] draws@[j])@.len() == num_cards
                &&& draws@[j]@.to_multiset().subset_of(old(live_deck)@.to_multiset())
            },
{
    let ghost live = live_deck@;
    let mut draws: Vec<Vec<T>> = Vec::new();
    match source {
        DrawSource::Random(seed) => {
            let mut rng = small_rng_from_seed(*seed);
            let mut k: usize = 0;
            while k < num_iter
                invariant
                    k <= num_iter,
                    num_cards <= live.len(),
                    live_deck@.len() == live.len(),
                    live_deck@.to_multiset() == live.to_multiset(),
                    draws@.len() == k,
                    forall|j: int|
                        0 <= j < k ==> {
                            &&& (#[trigger] draws@[j])@.len() == num_cards
                            &&& draws@[j]@.to_multiset().subset_of(live.to_multiset())
                        },
                decreases num_iter - k,
            {
                partial_shuffle_vec(live_deck, &mut rng, num_cards);
                let drawn = last_cards(live_deck, num_cards);
                proof {
                    lemma_skip_sub_multiset(live_deck@, live_deck@.len() - num_cards);
                }
                draws.push(drawn);
                k = k + 1;
            }
        },
        DrawSource::Points(points) => {
            let no_point: Vec<u64> = Vec::new();
            let mut k: usize = 0;
            while k < num_iter
                invariant
                    k <= num_iter,
                    num_cards <= live.len(),
                    live_deck@ == live,
                    draws@.len() == k,
                    forall|j: int|
                        0 <= j < k ==> {
                            &&& (#[trigger] draws@[j])@.len() == num_cards
                            &&& draws@[j]@.to_multiset().subset_of(live.to_multiset())
                        },
                decreases num_iter - k,
            {
                let drawn = if k < points.len() {
                    point_draw(live_deck, &points[k], num_cards)
                } else {
                    point_draw(live_deck, &no_point, num_cards)
                };
                draws.push(drawn);
                k = k + 1;
            }
        },
    }
    draws
}

/// Draws `num_iter` times `num_cards` random cards of the live cards of `deck`
/// (see `live_std_cards`): each draw partially shuffles the live cards and takes
/// the `num_cards` it chose (see `draw_cards` for the cards that `source`
/// gives); nothing when there are fewer live cards than `num_cards`.
pub fn deck_montecarlo_n_cards_d(
    deck: &[StdDeckCardMask],
    dead_cards: StdDeckCardMask,
    num_cards: usize,
    num_iter: usize,
    source: &DrawSource,
) -> (r: Vec<Vec<StdDeckCardMask>>)
    ensures
        draws_of(r@, live_std_cards(deck@, dead_cards.mask), num_cards as nat, num_iter as nat),
{
    let ghost pred = |c: StdDeckCardMask| c.mask != 0 && c.mask & dead_cards.mask == 0;
    let mut live_deck: Vec<StdDeckCardMask> = Vec::new();
    let mut i: usize = 0;
    while i < deck.len()
        invariant
            i <= deck@.len(),
            pred == (|c: StdDeckCardMask| c.mask != 0 && c.mask & dead_cards.mask == 0),
            live_deck@ == deck@.take(i as int).filter(pred),
        decreases deck@.len() - i,
    {
        let card = deck[i];
        proof {
            deck@.take(i as int).lemma_filter_push(card, pred);
            assert(deck@.take(i as int + 1) =~= deck@.take(i as int).push(card));
        }
        if card.mask != 0 && card.mask & dead_cards.mask == 0 {
            live_deck.push(card);
        }
        i = i + 1;
    }
    proof {
        assert(deck@.take(deck@.len() as int) =~= deck@);
    }
    let ghost live = live_deck@;
    if num_cards > live_deck.len() {
        return Vec::new();
    }
    draw_cards(&mut live_deck, num_cards, num_iter, source)
}

/// Draws `num_iter` times `num_cards` random cards of the live cards of the joker
/// deck `deck` (see `live_joker_cards`): each draw partially shuffles the live
/// cards and takes the `num_cards` it chose (see `draw_cards` for the cards that
/// `source` gives); nothing when there are fewer live cards than `num_cards`.
pub fn deck_montecarlo_n_cards_joker(
    deck: &[JokerDeckCardMask],
    dead_cards: JokerDeckCardMask,
    num_cards: usize,
    num_iter: usize,
    source: &DrawSource,
) -> (r: Vec<Vec<JokerDeckCardMask>>)
    ensures
        draws_of(r@, live_joker_cards(deck@, dead_cards.cards_n), num_cards as nat, num_iter as nat),
{
    let ghost pred = |c: JokerDeckCardMask| c.cards_n & dead_cards.cards_n == 0 && c.cards_n != 0;
    let mut live_deck: Vec<JokerDeckCardMask> = Vec::new();
    let mut i: usize = 0;
    while i < deck.len()
        invariant
            i <= deck@.len(),
            pred == (|c: JokerDeckCardMask| c.cards_n & dead_cards.cards_n == 0 && c.cards_n != 0),
            live_deck@ == deck@.take(i as int).filter(pred),
        decreases deck@.len() - i,
    {
        let card = deck[i];
        proof {
            deck@.take(i as int).lemma_filter_push(card, pred);
            assert(deck@.take(i as int + 1) =~= deck@.take(i as int).push(card));
        }
        if card.cards_n & dead_cards.cards_n == 0 && card.cards_n != 0 {
            live_deck.push(card);
        }
        i = i + 1;
    }
    proof {
        assert(deck@.take(deck@.len() as int) =~= deck@);
    }
    let ghost live = live_deck@;
    if num_cards > live_deck.len() {
        return Vec::new();
    }
    draw_cards(&mut live_deck, num_cards, num_iter, source)
}

} // verus!

//! Groups of cards of a deck, each listed from its highest deck index down.
use vstd::prelude::*;
use crate::enumerate::CardMask;
use crate::combinations::{
    advance_indices, comb_weight, first_indices, is_combination, lemma_next_combination, lemma_next_weight,
    lemma_weight_bound, next_combination,
};
use crate::combinaison::{lemma_nth_combination_bound, lemma_nth_combination_exists, nth_combination};
use crate::combinations::binomial;
use vstd::arithmetic::power::pow;

verus! {

/// Index lists `i1 > i2 > ... > ik`, each below `bound` and accepted by `live`,
/// in the order in which nested ascending loops (the outermost on `i1`) reach them.
pub open spec fn desc_combos(live: Seq<bool>, bound: int, k: nat) -> Seq<Seq<int>>
    decreases k, bound,
{
    if k == 0 {
        seq![seq![]]
    } else if bound <= 0 {
        seq![]
    } else {
        let rest = desc_combos(live, bound - 1, k);
        if live[bound - 1] {
            rest + desc_combos(live, bound - 1, (k - 1) as nat).map_values(|c: Seq<int>| seq![bound - 1] + c)
        } else {
            rest
        }
    }
}

/// `c` holds `k` indices, all in `0..bound`.
pub open spec fn index_list_ok(c: Seq<int>, k: int, bound: int) -> bool {
    c.len() == k && forall|t: int| 0 <= t < k ==> 0 <= #[trigger] c[t] < bound
}

/// The index lists of `r`, as integers.
pub open spec fn index_lists(r: Seq<Vec<usize>>) -> Seq<Seq<int>> {
    r.map_values(|v: Vec<usize>| v@.map_values(|x: usize| x as int))
}

/// Every index list of `desc_combos` has `k` indices, all below `bound`.
pub proof fn lemma_desc_combos_shape(live: Seq<bool>, bound: int, k: nat)
    requires
        bound <= live.len(),
    ensures
        forall|j: int| 0 <= j < desc_combos(live, bound, k).len() ==> index_list_ok(#[trigger] desc_combos(live, bound, k)[j], k as int, bound),
    decreases k, bound,
{
    if k > 0 && bound > 0 {
        lemma_desc_combos_shape(live, bound - 1, k);
        lemma_desc_combos_shape(live, bound - 1, (k - 1) as nat);
        let rest = desc_combos(live, bound - 1, k);
        let sub = desc_combos(live, bound - 1, (k - 1) as nat);
        if live[bound - 1] {
            assert forall|j: int| 0 <= j < desc_combos(live, bound, k).len() implies index_list_ok(#[trigger] desc_combos(live, bound, k)[j], k as int, bound) by {
                if j >= rest.len() {
                    let c = sub[j - rest.len()];
                    assert(desc_combos(live, bound, k)[j] == seq![bound - 1] + c);
                }
            }
        }
    }
}

/// The number of live flags among the first `bound`.
pub open spec fn live_count(live: Seq<bool>, bound: int) -> nat
    decreases bound,
{
    if bound <= 0 {
        0
    } else {
        live_count(live, bound - 1) + if live[bound - 1] {
            1nat
        } else {
            0nat
        }
    }
}

/// There are `binomial(m, k)` groups of `k` among `m` live cards.
pub proof fn lemma_desc_combos_count(live: Seq<bool>, bound: int, k: nat)
    ensures
        desc_combos(live, bound, k).len() == binomial(live_count(live, bound), k),
    decreases k, bound,
{
    if k > 0 && bound > 0 {
        lemma_desc_combos_count(live, bound - 1, k);
        lemma_desc_combos_count(live, bound - 1, (k - 1) as nat);
    }
}

/// All the cards of a deck are live.
pub proof fn lemma_all_live_count(n: int)
    requires
        0 <= n,
    ensures
        live_count(all_live(n), n) == n,
    decreases n,
{
    if n > 0 {
        lemma_all_live_count_below(n, n - 1);
    }
}

proof fn lemma_all_live_count_below(n: int, b: int)
    requires
        0 <= b <= n,
    ensures
        live_count(all_live(n), b) == b,
    decreases b,
{
    if b > 0 {
        lemma_all_live_count_below(n, b - 1);
    }
}

/// The index lists of `desc_combos(live, bound, k)`.
pub fn desc_combos_exec(live: &Vec<bool>, bound: usize, k: usize) -> (r: Vec<Vec<usize>>)
    requires
        bound <= live@.len(),
    ensures
        index_lists(r@) == desc_combos(live@, bound as int, k as nat),
    decreases k, bound,
{
    if k == 0 {
        let mut r: Vec<Vec<usize>> = Vec::new();
        r.push(Vec::new());
        proof {
            assert(index_lists(r@)[0] =~= Seq::<int>::empty());
            assert(index_lists(r@) =~= seq![seq![]]);
        }
        return r;
    }
    if bound == 0 {
        let r: Vec<Vec<usize>> = Vec::new();
        proof {
            assert(index_lists(r@) =~= Seq::<Seq<int>>::empty());
        }
        return r;
    }
    let mut r = desc_combos_exec(live, bound - 1, k);
    if live[bound - 1] {
        let sub = desc_combos_exec(live, bound - 1, k - 1);
        let ghost rest = r@;
        let mut j: usize = 0;
        while j < sub.len()
            invariant
                j <= sub@.len(),
                bound >= 1,
                index_lists(sub@) == desc_combos(live@, bound - 1, (k - 1) as nat),
                r@.len() == rest.len() + j,
                index_lists(r@) == index_lists(rest) + desc_combos(live@, bound - 1, (k - 1) as nat).take(
                    j as int,
                ).map_values(|c: Seq<int>| seq![bound - 1] + c),
            decreases sub@.len() - j,
        {
            let mut v: Vec<usize> = Vec::new();
            v.push(bound - 1);
            let c = &sub[j];
            let mut t: usize = 0;
            while t < c.len()
                invariant
                    t <= c@.len(),
                    bound >= 1,
                    v@.map_values(|x: usize| x as int) == seq![bound - 1] + c@.map_values(|x: usize| x as int).take(t as int),
                decreases c@.len() - t,
            {
                let ghost old_v = v@;
                v.push(c[t]);
                t = t + 1;
                proof {
                    let cm = c@.map_values(|x: usize| x as int);
                    assert(cm.take(t as int) =~= cm.take(t as int - 1).push(c@[t - 1] as int));
                    assert(v@.map_values(|x: usize| x as int) =~= old_v.map_values(|x: usize| x as int).push(c@[t - 1] as int));
                    assert(v@.map_values(|x: usize| x as int) =~= seq![bound - 1] + c@.map_values(|x: usize| x as int).take(t as int));
                }
            }
            let ghost before = r@;
            r.push(v);
            j = j + 1;
            proof {
                assert(c@.map_values(|x: usize| x as int).take(c@.len() as int) =~= c@.map_values(|x: usize| x as int));
                assert(index_lists(sub@)[j - 1] == c@.map_values(|x: usize| x as int));
                assert(index_lists(r@) =~= index_lists(before).push(v@.map_values(|x: usize| x as int)));
                assert(desc_combos(live@, bound - 1, (k - 1) as nat).take(j as int) =~= desc_combos(live@, bound - 1, (k - 1) as nat).take(j as int - 1).push(index_lists(sub@)[j - 1]));
                assert(index_lists(r@) =~= index_lists(rest) + desc_combos(live@, bound - 1, (k - 1) as nat).take(
                    j as int,
                ).map_values(|c: Seq<int>| seq![bound - 1] + c));
            }
        }
        proof {
            assert(desc_combos(live@, bound - 1, (k - 1) as nat).take(j as int) =~= desc_combos(live@, bound - 1, (k - 1) as nat));
        }
    }
    r
}

/// Every card is live.
pub open spec fn all_live(n: int) -> Seq<bool> {
    Seq::new(n as nat, |i: int| true)
}

fn live_flags_all(n: usize) -> (v: Vec<bool>)
    ensures
        v@ == all_live(n as int),
{
    let mut v: Vec<bool> = Vec::new();
    while v.len() < n
        invariant
            v@.len() <= n,
            forall|i: int| 0 <= i < v@.len() ==> v@[i],
        decreases n - v@.len(),
    {
        v.push(true);
    }
    proof {
        assert(v@ =~= all_live(n as int));
    }
    v
}

/// The cards of `deck`, each group listed from its highest deck index down, in the order of
/// nested ascending loops over the deck (see `desc_combos`).
pub fn enumerate_1_cards<T: CardMask>(deck: &[T]) -> (r: Vec<T>)
    ensures
        r@.len() == desc_combos(all_live(deck@.len() as int), deck@.len() as int, 1).len(),
        r@.len() == binomial(deck@.len(), 1),
        forall|j: int| 0 <= j < r@.len() ==> #[trigger] r@[j] == {
            let c = desc_combos(all_live(deck@.len() as int), deck@.len() as int, 1)[j];
            deck@[c[0]]
        },
{
    let live = live_flags_all(deck.len());
    let idx = desc_combos_exec(&live, deck.len(), 1);
    proof {
        lemma_desc_combos_shape(live@, deck@.len() as int, 1);
        lemma_desc_combos_count(live@, deck@.len() as int, 1);
        lemma_all_live_count(deck@.len() as int);
    }
    let mut r: Vec<T> = Vec::new();
    let mut j: usize = 0;
    while j < idx.len()
        invariant
            j <= idx@.len(),
            live@ == all_live(deck@.len() as int),
            index_lists(idx@) == desc_combos(live@, deck@.len() as int, 1),
            forall|x: int| 0 <= x < desc_combos(live@, deck@.len() as int, 1).len() ==> index_list_ok(#[trigger] desc_combos(live@, deck@.len() as int, 1)[x], 1, deck@.len() as int),
            r@.len() == j,
            forall|x: int| 0 <= x < j ==> #[trigger] r@[x] == {
                let c = desc_combos(all_live(deck@.len() as int), deck@.len() as int, 1)[x];
                deck@[c[0]]
            },
        decreases idx@.len() - j,
    {
        let c = &idx[j];
        proof {
            assert(index_lists(idx@)[j as int] == c@.map_values(|x: usize| x as int));
            assert(index_list_ok(desc_combos(live@, deck@.len() as int, 1)[j as int], 1, deck@.len() as int));
            assert forall|t: int| 0 <= t < 1 implies c@[t] < deck@.len() && c@[t] as int == desc_combos(live@, deck@.len() as int, 1)[j as int][t] by {
                assert(c@.map_values(|x: usize| x as int)[t] == c@[t] as int);
            }
        }
        r.push(deck[c[0]]);
        j = j + 1;
    }
    r
}

/// The groups of 2 cards of `deck`, each group listed from its highest deck index down, in the order of
/// nested ascending loops over the deck (see `desc_combos`).
pub fn enumerate_2_cards<T: CardMask>(deck: &[T]) -> (r: Vec<(T, T)>)
    ensures
        r@.len() == desc_combos(all_live(deck@.len() as int), deck@.len() as int, 2).len(),
        r@.len() == binomial(deck@.len(), 2),
        forall|j: int| 0 <= j < r@.len() ==> #[trigger] r@[j] == {
            let c = desc_combos(all_live(deck@.len() as int), deck@.len() as int, 2)[j];
            (deck@[c[0]], deck@[c[1]])
        },
{
    let live = live_flags_all(deck.len());
    let idx = desc_combos_exec(&live, deck.len(), 2);
    proof {
        lemma_desc_combos_shape(live@, deck@.len() as int, 2);
        lemma_desc_combos_count(live@, deck@.len() as int, 2);
        lemma_all_live_count(deck@.len() as int);
    }
    let mut r: Vec<(T, T)> = Vec::new();
    let mut j: usize = 0;
    while j < idx.len()
        invariant
            j <= idx@.len(),
            live@ == all_live(deck@.len() as int),
            index_lists(idx@) == desc_combos(live@, deck@.len() as int, 2),
            forall|x: int| 0 <= x < desc_combos(live@, deck@.len() as int, 2).len() ==> index_list_ok(#[trigger] desc_combos(live@, deck@.len() as int, 2)[x], 2, deck@.len() as int),
            r@.len() == j,
            forall|x: int| 0 <= x < j ==> #[trigger] r@[x] == {
                let c = desc_combos(all_live(deck@.len() as int), deck@.len() as int, 2)[x];
                (deck@[c[0]], deck@[c[1]])
            },
        decreases idx@.len() - j,
    {
        let c = &idx[j];
        proof {
            assert(index_lists(idx@)[j as int] == c@.map_values(|x: usize| x as int));
            assert(index_list_ok(desc_combos(live@, deck@.len() as int, 2)[j as int], 2, deck@.len() as int));
            assert forall|t: int| 0 <= t < 2 implies c@[t] < deck@.len() && c@[t] as int == desc_combos(live@, deck@.len() as int, 2)[j as int][t] by {
                assert(c@.map_values(|x: usize| x as int)[t] == c@[t] as int);
            }
        }
        r.push((deck[c[0]], deck[c[1]]));
        j = j + 1;
    }
    r
}

/// The groups of 3 cards of `deck`, each group listed from its highest deck index down, in the order of
/// nested ascending loops over the deck (see `desc_combos`).
pub fn enumerate_3_cards<T: CardMask>(deck: &[T]) -> (r: Vec<(T, T, T)>)
    ensures
        r@.len() == desc_combos(all_live(deck@.len() as int), deck@.len() as int, 3).len(),
        r@.len() == binomial(deck@.len(), 3),
        forall|j: int| 0 <= j < r@.len() ==> #[trigger] r@[j] == {
            let c = desc_combos(all_live(deck@.len() as int), deck@.len() as int, 3)[j];
            (deck@[c[0]], deck@[c[1]], deck@[c[2]])
        },
{
    let live = live_flags_all(deck.len());
    let idx = desc_combos_exec(&live, deck.len(), 3);
    proof {
        lemma_desc_combos_shape(live@, deck@.len() as int, 3);
        lemma_desc_combos_count(live@, deck@.len() as int, 3);
        lemma_all_live_count(deck@.len() as int);
    }
    let mut r: Vec<(T, T, T)> = Vec::new();
    let mut j: usize = 0;
    while j < idx.len()
        invariant
            j <= idx@.len(),
            live@ == all_live(deck@.len() as int),
            index_lists(idx@) == desc_combos(live@, deck@.len() as int, 3),
            forall|x: int| 0 <= x < desc_combos(live@, deck@.len() as int, 3).len() ==> index_list_ok(#[trigger] desc_combos(live@, deck@.len() as int, 3)[x], 3, deck@.len() as int),
            r@.len() == j,
            forall|x: int| 0 <= x < j ==> #[trigger] r@[x] == {
                let c = desc_combos(all_live(deck@.len() as int), deck@.len() as int, 3)[x];
                (deck@[c[0]], deck@[c[1]], deck@[c[2]])
            },
        decreases idx@.len() - j,
    {
        let c = &idx[j];
        proof {
            assert(index_lists(idx@)[j as int] == c@.map_values(|x: usize| x as int));
            assert(index_list_ok(desc_combos(live@, deck@.len() as int, 3)[j as int], 3, deck@.len() as int));
            assert forall|t: int| 0 <= t < 3 implies c@[t] < deck@.len() && c@[t] as int == desc_combos(live@, deck@.len() as int, 3)[j as int][t] by {
                assert(c@.map_values(|x: usize| x as int)[t] == c@[t] as int);
            }
        }
        r.push((deck[c[0]], deck[c[1]], deck[c[2]]));
        j = j + 1;
    }
    r
}

/// The groups of 4 cards of `deck`, each group listed from its highest deck index down, in the order of
/// nested ascending loops over the deck (see `desc_combos`).
pub fn enumerate_4_cards<T: CardMask>(deck: &[T]) -> (r: Vec<(T, T, T, T)>)
    ensures
        r@.len() == desc_combos(all_live(deck@.len() as int), deck@.len() as int, 4).len(),
        r@.len() == binomial(deck@.len(), 4),
        forall|j: int| 0 <= j < r@.len() ==> #[trigger] r@[j] == {
            let c = desc_combos(all_live(deck@.len() as int), deck@.len() as int, 4)[j];
            (deck@[c[0]], deck@[c[1]], deck@[c[2]], deck@[c[3]])
        },
{
    let live = live_flags_all(deck.len());
    let idx = desc_combos_exec(&live, deck.len(), 4);
    proof {
        lemma_desc_combos_shape(live@, deck@.len() as int, 4);
        lemma_desc_combos_count(live@, deck@.len() as int, 4);
        lemma_all_live_count(deck@.len() as int);
    }
    let mut r: Vec<(T, T, T, T)> = Vec::new();
    let mut j: usize = 0;
    while j < idx.len()
        invariant
            j <= idx@.len(),
            live@ == all_live(deck@.len() as int),
            index_lists(idx@) == desc_combos(live@, deck@.len() as int, 4),
            forall|x: int| 0 <= x < desc_combos(live@, deck@.len() as int, 4).len() ==> index_list_ok(#[trigger] desc_combos(live@, deck@.len() as int, 4)[x], 4, deck@.len() as int),
            r@.len() == j,
            forall|x: int| 0 <= x < j ==> #[trigger] r@[x] == {
                let c = desc_combos(all_live(deck@.len() as int), deck@.len() as int, 4)[x];
                (deck@[c[0]], deck@[c[1]], deck@[c[2]], deck@[c[3]])
            },
        decreases idx@.len() - j,
    {
        let c = &idx[j];
        proof {
            assert(index_lists(idx@)[j as int] == c@.map_values(|x: usize| x as int));
            assert(index_list_ok(desc_combos(live@, deck@.len() as int, 4)[j as int], 4, deck@.len() as int));
            assert forall|t: int| 0 <= t < 4 implies c@[t] < deck@.len() && c@[t] as int == desc_combos(live@, deck@.len() as int, 4)[j as int][t] by {
                assert(c@.map_values(|x: usize| x as int)[t] == c@[t] as int);
            }
        }
        r.push((deck[c[0]], deck[c[1]], deck[c[2]], deck[c[3]]));
        j = j + 1;
    }
    r
}

/// The groups of 5 cards of `deck`, each group listed from its highest deck index down, in the order of
/// nested ascending loops over the deck (see `desc_combos`).
pub fn enumerate_5_cards<T: CardMask>(deck: &[T]) -> (r: Vec<(T, T, T, T, T)>)
    ensures
        r@.len() == desc_combos(all_live(deck@.len() as int), deck@.len() as int, 5).len(),
        r@.len() == binomial(deck@.len(), 5),
        forall|j: int| 0 <= j < r@.len() ==> #[trigger] r@[j] == {
            let c = desc_combos(all_live(deck@.len() as int), deck@.len() as int, 5)[j];
            (deck@[c[0]], deck@[c[1]], deck@[c[2]], deck@[c[3]], deck@[c[4]])
        },
{
    let live = live_flags_all(deck.len());
    let idx = desc_combos_exec(&live, deck.len(), 5);
    proof {
        lemma_desc_combos_shape(live@, deck@.len() as int, 5);
        lemma_desc_combos_count(live@, deck@.len() as int, 5);
        lemma_all_live_count(deck@.len() as int);
    }
    let mut r: Vec<(T, T, T, T, T)> = Vec::new();
    let mut j: usize = 0;
    while j < idx.len()
        invariant
            j <= idx@.len(),
            live@ == all_live(deck@.len() as int),
            index_lists(idx@) == desc_combos(live@, deck@.len() as int, 5),
            forall|x: int| 0 <= x < desc_combos(live@, deck@.len() as int, 5).len() ==> index_list_ok(#[trigger] desc_combos(live@, deck@.len() as int, 5)[x], 5, deck@.len() as int),
            r@.len() == j,
            forall|x: int| 0 <= x < j ==> #[trigger] r@[x] == {
                let c = desc_combos(all_live(deck@.len() as int), deck@.len() as int, 5)[x];
                (deck@[c[0]], deck@[c[1]], deck@[c[2]], deck@[c[3]], deck@[c[4]])
            },
        decreases idx@.len() - j,
    {
        let c = &idx[j];
        proof {
            assert(index_lists(idx@)[j as int] == c@.map_values(|x: usize| x as int));
            assert(index_list_ok(desc_combos(live@, deck@.len() as int, 5)[j as int], 5, deck@.len() as int));
            assert forall|t: int| 0 <= t < 5 implies c@[t] < deck@.len() && c@[t] as int == desc_combos(live@, deck@.len() as int, 5)[j as int][t] by {
                assert(c@.map_values(|x: usize| x as int)[t] == c@[t] as int);
            }
        }
        r.push((deck[c[0]], deck[c[1]], deck[c[2]], deck[c[3]], deck[c[4]]));
        j = j + 1;
    }
    r
}

/// The groups of 6 cards of `deck`, each group listed from its highest deck index down, in the order of
/// nested ascending loops over the deck (see `desc_combos`).
pub fn enumerate_6_cards<T: CardMask>(deck: &[T]) -> (r: Vec<(T, T, T, T, T, T)>)
    ensures
        r@.len() == desc_combos(all_live(deck@.len() as int), deck@.len() as int, 6).len(),
        r@.len() == binomial(deck@.len(), 6),
        forall|j: int| 0 <= j < r@.len() ==> #[trigger] r@[j] == {
            let c = desc_combos(all_live(deck@.len() as int), deck@.len() as int, 6)[j];
            (deck@[c[0]], deck@[c[1]], deck@[c[2]], deck@[c[3]], deck@[c[4]], deck@[c[5]])
        },
{
    let live = live_flags_all(deck.len());
    let idx = desc_combos_exec(&live, deck.len(), 6);
    proof {
        lemma_desc_combos_shape(live@, deck@.len() as int, 6);
        lemma_desc_combos_count(live@, deck@.len() as int, 6);
        lemma_all_live_count(deck@.len() as int);
    }
    let mut r: Vec<(T, T, T, T, T, T)> = Vec::new();
    let mut j: usize = 0;
    while j < idx.len()
        invariant
            j <= idx@.len(),
            live@ == all_live(deck@.len() as int),
            index_lists(idx@) == desc_combos(live@, deck@.len() as int, 6),
            forall|x: int| 0 <= x < desc_combos(live@, deck@.len() as int, 6).len() ==> index_list_ok(#[trigger] desc_combos(live@, deck@.len() as int, 6)[x], 6, deck@.len() as int),
            r@.len() == j,
            forall|x: int| 0 <= x < j ==> #[trigger] r@[x] == {
                let c = desc_combos(all_live(deck@.len() as int), deck@.len() as int, 6)[x];
                (deck@[c[0]], deck@[c[1]], deck@[c[2]], deck@[c[3]], deck@[c[4]], deck@[c[5]])
            },
        decreases idx@.len() - j,
    {
        let c = &idx[j];
        proof {
            assert(index_lists(idx@)[j as int] == c@.map_values(|x: usize| x as int));
            assert(index_list_ok(desc_combos(live@, deck@.len() as int, 6)[j as int], 6, deck@.len() as int));
            assert forall|t: int| 0 <= t < 6 implies c@[t] < deck@.len() && c@[t] as int == desc_combos(live@, deck@.len() as int, 6)[j as int][t] by {
                assert(c@.map_values(|x: usize| x as int)[t] == c@[t] as int);
            }
        }
        r.push((deck[c[0]], deck[c[1]], deck[c[2]], deck[c[3]], deck[c[4]], deck[c[5]]));
        j = j + 1;
    }
    r
}

/// The groups of 7 cards of `deck`, each group listed from its highest deck index down, in the order of
/// nested ascending loops over the deck (see `desc_combos`).
pub fn enumerate_7_cards<T: CardMask>(deck: &[T]) -> (r: Vec<(T, T, T, T, T, T, T)>)
    ensures
        r@.len() == desc_combos(all_live(deck@.len() as int), deck@.len() as int, 7).len(),
        r@.len() == binomial(deck@.len(), 7),
        forall|j: int| 0 <= j < r@.len() ==> #[trigger] r@[j] == {
            let c = desc_combos(all_live(deck@.len() as int), deck@.len() as int, 7)[j];
            (deck@[c[0]], deck@[c[1]], deck@[c[2]], deck@[c[3]], deck@[c[4]], deck@[c[5]], deck@[c[6]])
        },
{
    let live = live_flags_all(deck.len());
    let idx = desc_combos_exec(&live, deck.len(), 7);
    proof {
        lemma_desc_combos_shape(live@, deck@.len() as int, 7);
        lemma_desc_combos_count(live@, deck@.len() as int, 7);
        lemma_all_live_count(deck@.len() as int);
    }
    let mut r: Vec<(T, T, T, T, T, T, T)> = Vec::new();
    let mut j: usize = 0;
    while j < idx.len()
        invariant
            j <= idx@.len(),
            live@ == all_live(deck@.len() as int),
            index_lists(idx@) == desc_combos(live@, deck@.len() as int, 7),
            forall|x: int| 0 <= x < desc_combos(live@, deck@.len() as int, 7).len() ==> index_list_ok(#[trigger] desc_combos(live@, deck@.len() as int, 7)[x], 7, deck@.len() as int),
            r@.len() == j,
            forall|x: int| 0 <= x < j ==> #[trigger] r@[x] == {
                let c = desc_combos(all_live(deck@.len() as int), deck@.len() as int, 7)[x];
                (deck@[c[0]], deck@[c[1]], deck@[c[2]], deck@[c[3]], deck@[c[4]], deck@[c[5]], deck@[c[6]])
            },
        decreases idx@.len() - j,
    {
        let c = &idx[j];
        proof {
            assert(index_lists(idx@)[j as int] == c@.map_values(|x: usize| x as int));
            assert(index_list_ok(desc_combos(live@, deck@.len() as int, 7)[j as int], 7, deck@.len() as int));
            assert forall|t: int| 0 <= t < 7 implies c@[t] < deck@.len() && c@[t] as int == desc_combos(live@, deck@.len() as int, 7)[j as int][t] by {
                assert(c@.map_values(|x: usize| x as int)[t] == c@[t] as int);
            }
        }
        r.push((deck[c[0]], deck[c[1]], deck[c[2]], deck[c[3]], deck[c[4]], deck[c[5]], deck[c[6]]));
        j = j + 1;
    }
    r
}

/// The hand that combination `c` picks from `cards`.
pub open spec fn hand_of<T>(cards: Seq<T>, c: Seq<usize>) -> Seq<T> {
    c.map_values(|i: usize| cards[i as int])
}

/// `r` lists the hands of the successive combinations of `n` out of `cards`, from
/// the first (`0, 1, ..., n - 1`) to the last (see `nth_combination`): hand `j`
/// picks the `j`-th combination of indices in lexicographic order (see
/// `lemma_nth_combination_lex`).
pub open spec fn all_hands<T>(cards: Seq<T>, n: nat, r: Seq<Vec<T>>) -> bool {
    &&& forall|j: int| 0 <= j < r.len() ==> #[trigger] hand_ok(cards, n, r, j)
    &&& nth_combination(cards.len() as int, n as int, r.len()) is None
}

/// `r[j]` is the hand of the `j`-th combination of `n` out of `cards`.
pub open spec fn hand_ok<T>(cards: Seq<T>, n: nat, r: Seq<Vec<T>>, j: int) -> bool {
    &&& nth_combination(cards.len() as int, n as int, j as nat) is Some
    &&& r[j]@ == hand_of(cards, nth_combination(cards.len() as int, n as int, j as nat)->0)
}

fn pick_hand<T: Copy>(cards: &Vec<T>, c: &Vec<usize>) -> (h: Vec<T>)
    requires
        forall|t: int| 0 <= t < c@.len() ==> #[trigger] c@[t] < cards@.len(),
    ensures
        h@ == hand_of(cards@, c@),
{
    let mut h: Vec<T> = Vec::new();
    let mut t: usize = 0;
    while t < c.len()
        invariant
            t <= c@.len(),
            forall|x: int| 0 <= x < c@.len() ==> #[trigger] c@[x] < cards@.len(),
            h@ == hand_of(cards@, c@.take(t as int)),
        decreases c@.len() - t,
    {
        h.push(cards[c[t]]);
        t = t + 1;
        proof {
            assert(h@ =~= hand_of(cards@, c@.take(t as int)));
        }
    }
    proof {
        assert(c@.take(t as int) =~= c@);
    }
    h
}

/// The hands of all combinations of `n` cards out of `cards` (see `all_hands`);
/// none when there are fewer than `n` cards.
pub fn combination_hands<T: Copy>(cards: &Vec<T>, n: usize) -> (r: Vec<Vec<T>>)
    ensures
        cards@.len() < n ==> r@.len() == 0,
        cards@.len() >= n ==> r@.len() >= 1 && all_hands(cards@, n as nat, r@),
        cards@.len() >= n ==> r@.len() == binomial(cards@.len(), n as nat),
{
    let mut r: Vec<Vec<T>> = Vec::new();
    let len = cards.len();
    if len < n {
        return r;
    }
    let mut indices = first_indices(n);
    proof {
        assert(is_combination(indices@, len as int));
        lemma_weight_bound(indices@, len as int + 1);
    }
    r.push(pick_hand(cards, &indices));
    proof {
        assert(hand_ok(cards@, n as nat, r@, 0));
    }
    loop
        invariant
            len == cards@.len(),
            n <= len,
            indices@.len() == n,
            is_combination(indices@, len as int),
            0 <= comb_weight(indices@, len as int + 1) < pow(len as int + 1, n as nat),
            r@.len() >= 1,
            nth_combination(len as int, n as int, (r@.len() - 1) as nat) == Some(indices@),
            forall|j: int| 0 <= j < r@.len() ==> #[trigger] hand_ok(cards@, n as nat, r@, j),
        ensures
            r@.len() >= 1,
            all_hands(cards@, n as nat, r@),
        decreases pow(len as int + 1, n as nat) - comb_weight(indices@, len as int + 1),
    {
        let ghost before = indices@;
        proof {
            lemma_next_combination(before, len as int);
            if next_combination(before, len as int) is Some {
                lemma_next_weight(before, len as int);
            }
        }
        let found = advance_indices(&mut indices, len);
        if !found {
            proof {
                let m = r@.len();
                assert(nth_combination(len as int, n as int, (m - 1) as nat) == Some(before));
                assert(nth_combination(len as int, n as int, m) == next_combination(before, len as int));
                assert(nth_combination(len as int, n as int, m) is None);
            }
            break;
        }
        let h = pick_hand(cards, &indices);
        let ghost old_r = r@;
        r.push(h);
        proof {
            let m = old_r.len();
            assert(nth_combination(len as int, n as int, (m - 1) as nat) == Some(before));
            assert(nth_combination(len as int, n as int, m) == next_combination(before, len as int));
            assert(nth_combination(len as int, n as int, (r@.len() - 1) as nat) == Some(indices@));
            assert forall|j: int| 0 <= j < r@.len() implies #[trigger] hand_ok(cards@, n as nat, r@, j) by {
                if j < old_r.len() {
                    assert(r@[j] == old_r[j]);
                    assert(hand_ok(cards@, n as nat, old_r, j));
                } else {
                    assert(j == m);
                    assert(r@[j] == h);
                    assert(h@ == hand_of(cards@, indices@));
                    assert(nth_combination(len as int, n as int, j as nat) == Some(indices@));
                }
            }
        }
    }
    proof {
        let m = r@.len();
        assert(hand_ok(cards@, n as nat, r@, m - 1));
        lemma_nth_combination_bound(len as nat, n as nat, m);
        if m < binomial(len as nat, n as nat) {
            lemma_nth_combination_exists(len as nat, n as nat, m);
        }
    }
    r
}

fn copy_cards<T: Copy>(deck: &[T]) -> (v: Vec<T>)
    ensures
        v@ == deck@,
{
    let mut v: Vec<T> = Vec::new();
    let mut i: usize = 0;
    while i < deck.len()
        invariant
            i <= deck@.len(),
            v@ == deck@.take(i as int),
        decreases deck@.len() - i,
    {
        v.push(deck[i]);
        i = i + 1;
        proof {
            assert(v@ =~= deck@.take(i as int));
        }
    }
    proof {
        assert(deck@.take(i as int) =~= deck@);
    }
    v
}

/// The hands of all combinations of `n_cards` cards of `deck`, in lexicographic
/// order of their deck indices (see `combination_hands`).
pub fn enumerate_n_cards<T: CardMask>(deck: &[T], n_cards: usize) -> (r: Vec<Vec<T>>)
    ensures
        deck@.len() < n_cards ==> r@.len() == 0,
        deck@.len() >= n_cards ==> r@.len() >= 1 && all_hands(deck@, n_cards as nat, r@),
        deck@.len() >= n_cards ==> r@.len() == binomial(deck@.len(), n_cards as nat),
{
    let cards = copy_cards(deck);
    combination_hands(&cards, n_cards)
}

} // verus!

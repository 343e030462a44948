//! Groups of cards of a deck that are not dead, each listed from its highest
//! deck index down.
use vstd::prelude::*;
use crate::enumerate::CardMask;
use crate::enumerate::card_enum::{
    all_hands, combination_hands, index_list_ok, desc_combos, desc_combos_exec, index_lists,
    lemma_desc_combos_count, lemma_desc_combos_shape, live_count,
};
use crate::combinations::binomial;

verus! {

/// A card is live when it shares no card with `dead`.
pub open spec fn dead_live<T: CardMask>(deck: Seq<T>, dead: T) -> Seq<bool> {
    Seq::new(deck.len(), |i: int| dead.bits() & deck[i].bits() == 0)
}

fn live_flags_dead<T: CardMask>(deck: &[T], dead: T) -> (v: Vec<bool>)
    ensures
        v@ == dead_live(deck@, dead),
{
    let mut v: Vec<bool> = Vec::new();
    let mut i: usize = 0;
    while i < deck.len()
        invariant
            i <= deck@.len(),
            v@.len() == i,
            forall|x: int| 0 <= x < i ==> v@[x] == (dead.bits() & deck@[x].bits() == 0),
        decreases deck@.len() - i,
    {
        v.push(!dead.overlaps(&deck[i]));
        i = i + 1;
    }
    proof {
        assert(v@ =~= dead_live(deck@, dead));
    }
    v
}

/// The cards of `deck` that `dead_cards` does not hold, each group listed from its highest deck index down, in the order of
/// nested ascending loops over the deck (see `desc_combos`).
pub fn enumerate_1_cards_d<T: CardMask>(deck: &[T], dead_cards: T) -> (r: Vec<T>)
    ensures
        r@.len() == desc_combos(dead_live(deck@, dead_cards), deck@.len() as int, 1).len(),
        r@.len() == binomial(live_count(dead_live(deck@, dead_cards), deck@.len() as int), 1),
        forall|j: int| 0 <= j < r@.len() ==> #[trigger] r@[j] == {
            let c = desc_combos(dead_live(deck@, dead_cards), deck@.len() as int, 1)[j];
            deck@[c[0]]
        },
{
    let live = live_flags_dead(deck, dead_cards);
    let idx = desc_combos_exec(&live, deck.len(), 1);
    proof {
        lemma_desc_combos_shape(live@, deck@.len() as int, 1);
        lemma_desc_combos_count(live@, deck@.len() as int, 1);
    }
    let mut r: Vec<T> = Vec::new();
    let mut j: usize = 0;
    while j < idx.len()
        invariant
            j <= idx@.len(),
            live@ == dead_live(deck@, dead_cards),
            index_lists(idx@) == desc_combos(live@, deck@.len() as int, 1),
            forall|x: int| 0 <= x < desc_combos(live@, deck@.len() as int, 1).len() ==> index_list_ok(#[trigger] desc_combos(live@, deck@.len() as int, 1)[x], 1, deck@.len() as int),
            r@.len() == j,
            forall|x: int| 0 <= x < j ==> #[trigger] r@[x] == {
                let c = desc_combos(dead_live(deck@, dead_cards), deck@.len() as int, 1)[x];
                deck@[c[0]]
            },
        decreases idx@.len() - j,
    {
        let c = &idx[j];
        proof {
            assert(index_lists(idx@)[j as int] == c@.map_values(|x: usize| x as int));
            assert(index_list_ok(desc_combos(live@, deck@.len() as int, 1)[j as int], 1, deck@.len() as int));
            assert forall|t: int| 0 <= t < 1 implies c@[t] < deck@.len() && c@[t] as int == desc_combos(live@, deck@.len() as int, 1)[j as int][t] by {
                assert(c@.map_values(|x: usize| x as int)[t] == c@[t] as int);
            }
        }
        r.push(deck[c[0]]);
        j = j + 1;
    }
    r
}

/// The groups of 2 cards of `deck` that `dead_cards` does not hold, each group listed from its highest deck index down, in the order of
/// nested ascending loops over the deck (see `desc_combos`).
pub fn enumerate_2_cards_d<T: CardMask>(deck: &[T], dead_cards: T) -> (r: Vec<(T, T)>)
    ensures
        r@.len() == desc_combos(dead_live(deck@, dead_cards), deck@.len() as int, 2).len(),
        r@.len() == binomial(live_count(dead_live(deck@, dead_cards), deck@.len() as int), 2),
        forall|j: int| 0 <= j < r@.len() ==> #[trigger] r@[j] == {
            let c = desc_combos(dead_live(deck@, dead_cards), deck@.len() as int, 2)[j];
            (deck@[c[0]], deck@[c[1]])
        },
{
    let live = live_flags_dead(deck, dead_cards);
    let idx = desc_combos_exec(&live, deck.len(), 2);
    proof {
        lemma_desc_combos_shape(live@, deck@.len() as int, 2);
        lemma_desc_combos_count(live@, deck@.len() as int, 2);
    }
    let mut r: Vec<(T, T)> = Vec::new();
    let mut j: usize = 0;
    while j < idx.len()
        invariant
            j <= idx@.len(),
            live@ == dead_live(deck@, dead_cards),
            index_lists(idx@) == desc_combos(live@, deck@.len() as int, 2),
            forall|x: int| 0 <= x < desc_combos(live@, deck@.len() as int, 2).len() ==> index_list_ok(#[trigger] desc_combos(live@, deck@.len() as int, 2)[x], 2, deck@.len() as int),
            r@.len() == j,
            forall|x: int| 0 <= x < j ==> #[trigger] r@[x] == {
                let c = desc_combos(dead_live(deck@, dead_cards), deck@.len() as int, 2)[x];
                (deck@[c[0]], deck@[c[1]])
            },
        decreases idx@.len() - j,
    {
        let c = &idx[j];
        proof {
            assert(index_lists(idx@)[j as int] == c@.map_values(|x: usize| x as int));
            assert(index_list_ok(desc_combos(live@, deck@.len() as int, 2)[j as int], 2, deck@.len() as int));
            assert forall|t: int| 0 <= t < 2 implies c@[t] < deck@.len() && c@[t] as int == desc_combos(live@, deck@.len() as int, 2)[j as int][t] by {
                assert(c@.map_values(|x: usize| x as int)[t] == c@[t] as int);
            }
        }
        r.push((deck[c[0]], deck[c[1]]));
        j = j + 1;
    }
    r
}

/// The groups of 3 cards of `deck` that `dead_cards` does not hold, each group listed from its highest deck index down, in the order of
/// nested ascending loops over the deck (see `desc_combos`).
pub fn enumerate_3_cards_d<T: CardMask>(deck: &[T], dead_cards: T) -> (r: Vec<(T, T, T)>)
    ensures
        r@.len() == desc_combos(dead_live(deck@, dead_cards), deck@.len() as int, 3).len(),
        r@.len() == binomial(live_count(dead_live(deck@, dead_cards), deck@.len() as int), 3),
        forall|j: int| 0 <= j < r@.len() ==> #[trigger] r@[j] == {
            let c = desc_combos(dead_live(deck@, dead_cards), deck@.len() as int, 3)[j];
            (deck@[c[0]], deck@[c[1]], deck@[c[2]])
        },
{
    let live = live_flags_dead(deck, dead_cards);
    let idx = desc_combos_exec(&live, deck.len(), 3);
    proof {
        lemma_desc_combos_shape(live@, deck@.len() as int, 3);
        lemma_desc_combos_count(live@, deck@.len() as int, 3);
    }
    let mut r: Vec<(T, T, T)> = Vec::new();
    let mut j: usize = 0;
    while j < idx.len()
        invariant
            j <= idx@.len(),
            live@ == dead_live(deck@, dead_cards),
            index_lists(idx@) == desc_combos(live@, deck@.len() as int, 3),
            forall|x: int| 0 <= x < desc_combos(live@, deck@.len() as int, 3).len() ==> index_list_ok(#[trigger] desc_combos(live@, deck@.len() as int, 3)[x], 3, deck@.len() as int),
            r@.len() == j,
            forall|x: int| 0 <= x < j ==> #[trigger] r@[x] == {
                let c = desc_combos(dead_live(deck@, dead_cards), deck@.len() as int, 3)[x];
                (deck@[c[0]], deck@[c[1]], deck@[c[2]])
            },
        decreases idx@.len() - j,
    {
        let c = &idx[j];
        proof {
            assert(index_lists(idx@)[j as int] == c@.map_values(|x: usize| x as int));
            assert(index_list_ok(desc_combos(live@, deck@.len() as int, 3)[j as int], 3, deck@.len() as int));
            assert forall|t: int| 0 <= t < 3 implies c@[t] < deck@.len() && c@[t] as int == desc_combos(live@, deck@.len() as int, 3)[j as int][t] by {
                assert(c@.map_values(|x: usize| x as int)[t] == c@[t] as int);
            }
        }
        r.push((deck[c[0]], deck[c[1]], deck[c[2]]));
        j = j + 1;
    }
    r
}

/// The groups of 4 cards of `deck` that `dead_cards` does not hold, each group listed from its highest deck index down, in the order of
/// nested ascending loops over the deck (see `desc_combos`).
pub fn enumerate_4_cards_d<T: CardMask>(deck: &[T], dead_cards: T) -> (r: Vec<(T, T, T, T)>)
    ensures
        r@.len() == desc_combos(dead_live(deck@, dead_cards), deck@.len() as int, 4).len(),
        r@.len() == binomial(live_count(dead_live(deck@, dead_cards), deck@.len() as int), 4),
        forall|j: int| 0 <= j < r@.len() ==> #[trigger] r@[j] == {
            let c = desc_combos(dead_live(deck@, dead_cards), deck@.len() as int, 4)[j];
            (deck@[c[0]], deck@[c[1]], deck@[c[2]], deck@[c[3]])
        },
{
    let live = live_flags_dead(deck, dead_cards);
    let idx = desc_combos_exec(&live, deck.len(), 4);
    proof {
        lemma_desc_combos_shape(live@, deck@.len() as int, 4);
        lemma_desc_combos_count(live@, deck@.len() as int, 4);
    }
    let mut r: Vec<(T, T, T, T)> = Vec::new();
    let mut j: usize = 0;
    while j < idx.len()
        invariant
            j <= idx@.len(),
            live@ == dead_live(deck@, dead_cards),
            index_lists(idx@) == desc_combos(live@, deck@.len() as int, 4),
            forall|x: int| 0 <= x < desc_combos(live@, deck@.len() as int, 4).len() ==> index_list_ok(#[trigger] desc_combos(live@, deck@.len() as int, 4)[x], 4, deck@.len() as int),
            r@.len() == j,
            forall|x: int| 0 <= x < j ==> #[trigger] r@[x] == {
                let c = desc_combos(dead_live(deck@, dead_cards), deck@.len() as int, 4)[x];
                (deck@[c[0]], deck@[c[1]], deck@[c[2]], deck@[c[3]])
            },
        decreases idx@.len() - j,
    {
        let c = &idx[j];
        proof {
            assert(index_lists(idx@)[j as int] == c@.map_values(|x: usize| x as int));
            assert(index_list_ok(desc_combos(live@, deck@.len() as int, 4)[j as int], 4, deck@.len() as int));
            assert forall|t: int| 0 <= t < 4 implies c@[t] < deck@.len() && c@[t] as int == desc_combos(live@, deck@.len() as int, 4)[j as int][t] by {
                assert(c@.map_values(|x: usize| x as int)[t] == c@[t] as int);
            }
        }
        r.push((deck[c[0]], deck[c[1]], deck[c[2]], deck[c[3]]));
        j = j + 1;
    }
    r
}

/// The groups of 5 cards of `deck` that `dead_cards` does not hold, each group listed from its highest deck index down, in the order of
/// nested ascending loops over the deck (see `desc_combos`).
pub fn enumerate_5_cards_d<T: CardMask>(deck: &[T], dead_cards: T) -> (r: Vec<(T, T, T, T, T)>)
    ensures
        r@.len() == desc_combos(dead_live(deck@, dead_cards), deck@.len() as int, 5).len(),
        r@.len() == binomial(live_count(dead_live(deck@, dead_cards), deck@.len() as int), 5),
        forall|j: int| 0 <= j < r@.len() ==> #[trigger] r@[j] == {
            let c = desc_combos(dead_live(deck@, dead_cards), deck@.len() as int, 5)[j];
            (deck@[c[0]], deck@[c[1]], deck@[c[2]], deck@[c[3]], deck@[c[4]])
        },
{
    let live = live_flags_dead(deck, dead_cards);
    let idx = desc_combos_exec(&live, deck.len(), 5);
    proof {
        lemma_desc_combos_shape(live@, deck@.len() as int, 5);
        lemma_desc_combos_count(live@, deck@.len() as int, 5);
    }
    let mut r: Vec<(T, T, T, T, T)> = Vec::new();
    let mut j: usize = 0;
    while j < idx.len()
        invariant
            j <= idx@.len(),
            live@ == dead_live(deck@, dead_cards),
            index_lists(idx@) == desc_combos(live@, deck@.len() as int, 5),
            forall|x: int| 0 <= x < desc_combos(live@, deck@.len() as int, 5).len() ==> index_list_ok(#[trigger] desc_combos(live@, deck@.len() as int, 5)[x], 5, deck@.len() as int),
            r@.len() == j,
            forall|x: int| 0 <= x < j ==> #[trigger] r@[x] == {
                let c = desc_combos(dead_live(deck@, dead_cards), deck@.len() as int, 5)[x];
                (deck@[c[0]], deck@[c[1]], deck@[c[2]], deck@[c[3]], deck@[c[4]])
            },
        decreases idx@.len() - j,
    {
        let c = &idx[j];
        proof {
            assert(index_lists(idx@)[j as int] == c@.map_values(|x: usize| x as int));
            assert(index_list_ok(desc_combos(live@, deck@.len() as int, 5)[j as int], 5, deck@.len() as int));
            assert forall|t: int| 0 <= t < 5 implies c@[t] < deck@.len() && c@[t] as int == desc_combos(live@, deck@.len() as int, 5)[j as int][t] by {
                assert(c@.map_values(|x: usize| x as int)[t] == c@[t] as int);
            }
        }
        r.push((deck[c[0]], deck[c[1]], deck[c[2]], deck[c[3]], deck[c[4]]));
        j = j + 1;
    }
    r
}

/// The groups of 6 cards of `deck` that `dead_cards` does not hold, each group listed from its highest deck index down, in the order of
/// nested ascending loops over the deck (see `desc_combos`).
pub fn enumerate_6_cards_d<T: CardMask>(deck: &[T], dead_cards: T) -> (r: Vec<(T, T, T, T, T, T)>)
    ensures
        r@.len() == desc_combos(dead_live(deck@, dead_cards), deck@.len() as int, 6).len(),
        r@.len() == binomial(live_count(dead_live(deck@, dead_cards), deck@.len() as int), 6),
        forall|j: int| 0 <= j < r@.len() ==> #[trigger] r@[j] == {
            let c = desc_combos(dead_live(deck@, dead_cards), deck@.len() as int, 6)[j];
            (deck@[c[0]], deck@[c[1]], deck@[c[2]], deck@[c[3]], deck@[c[4]], deck@[c[5]])
        },
{
    let live = live_flags_dead(deck, dead_cards);
    let idx = desc_combos_exec(&live, deck.len(), 6);
    proof {
        lemma_desc_combos_shape(live@, deck@.len() as int, 6);
        lemma_desc_combos_count(live@, deck@.len() as int, 6);
    }
    let mut r: Vec<(T, T, T, T, T, T)> = Vec::new();
    let mut j: usize = 0;
    while j < idx.len()
        invariant
            j <= idx@.len(),
            live@ == dead_live(deck@, dead_cards),
            index_lists(idx@) == desc_combos(live@, deck@.len() as int, 6),
            forall|x: int| 0 <= x < desc_combos(live@, deck@.len() as int, 6).len() ==> index_list_ok(#[trigger] desc_combos(live@, deck@.len() as int, 6)[x], 6, deck@.len() as int),
            r@.len() == j,
            forall|x: int| 0 <= x < j ==> #[trigger] r@[x] == {
                let c = desc_combos(dead_live(deck@, dead_cards), deck@.len() as int, 6)[x];
                (deck@[c[0]], deck@[c[1]], deck@[c[2]], deck@[c[3]], deck@[c[4]], deck@[c[5]])
            },
        decreases idx@.len() - j,
    {
        let c = &idx[j];
        proof {
            assert(index_lists(idx@)[j as int] == c@.map_values(|x: usize| x as int));
            assert(index_list_ok(desc_combos(live@, deck@.len() as int, 6)[j as int], 6, deck@.len() as int));
            assert forall|t: int| 0 <= t < 6 implies c@[t] < deck@.len() && c@[t] as int == desc_combos(live@, deck@.len() as int, 6)[j as int][t] by {
                assert(c@.map_values(|x: usize| x as int)[t] == c@[t] as int);
            }
        }
        r.push((deck[c[0]], deck[c[1]], deck[c[2]], deck[c[3]], deck[c[4]], deck[c[5]]));
        j = j + 1;
    }
    r
}

/// The groups of 7 cards of `deck` that `dead_cards` does not hold, each group listed from its highest deck index down, in the order of
/// nested ascending loops over the deck (see `desc_combos`).
pub fn enumerate_7_cards_d<T: CardMask>(deck: &[T], dead_cards: T) -> (r: Vec<(T, T, T, T, T, T, T)>)
    ensures
        r@.len() == desc_combos(dead_live(deck@, dead_cards), deck@.len() as int, 7).len(),
        r@.len() == binomial(live_count(dead_live(deck@, dead_cards), deck@.len() as int), 7),
        forall|j: int| 0 <= j < r@.len() ==> #[trigger] r@[j] == {
            let c = desc_combos(dead_live(deck@, dead_cards), deck@.len() as int, 7)[j];
            (deck@[c[0]], deck@[c[1]], deck@[c[2]], deck@[c[3]], deck@[c[4]], deck@[c[5]], deck@[c[6]])
        },
{
    let live = live_flags_dead(deck, dead_cards);
    let idx = desc_combos_exec(&live, deck.len(), 7);
    proof {
        lemma_desc_combos_shape(live@, deck@.len() as int, 7);
        lemma_desc_combos_count(live@, deck@.len() as int, 7);
    }
    let mut r: Vec<(T, T, T, T, T, T, T)> = Vec::new();
    let mut j: usize = 0;
    while j < idx.len()
        invariant
            j <= idx@.len(),
            live@ == dead_live(deck@, dead_cards),
            index_lists(idx@) == desc_combos(live@, deck@.len() as int, 7),
            forall|x: int| 0 <= x < desc_combos(live@, deck@.len() as int, 7).len() ==> index_list_ok(#[trigger] desc_combos(live@, deck@.len() as int, 7)[x], 7, deck@.len() as int),
            r@.len() == j,
            forall|x: int| 0 <= x < j ==> #[trigger] r@[x] == {
                let c = desc_combos(dead_live(deck@, dead_cards), deck@.len() as int, 7)[x];
                (deck@[c[0]], deck@[c[1]], deck@[c[2]], deck@[c[3]], deck@[c[4]], deck@[c[5]], deck@[c[6]])
            },
        decreases idx@.len() - j,
    {
        let c = &idx[j];
        proof {
            assert(index_lists(idx@)[j as int] == c@.map_values(|x: usize| x as int));
            assert(index_list_ok(desc_combos(live@, deck@.len() as int, 7)[j as int], 7, deck@.len() as int));
            assert forall|t: int| 0 <= t < 7 implies c@[t] < deck@.len() && c@[t] as int == desc_combos(live@, deck@.len() as int, 7)[j as int][t] by {
                assert(c@.map_values(|x: usize| x as int)[t] == c@[t] as int);
            }
        }
        r.push((deck[c[0]], deck[c[1]], deck[c[2]], deck[c[3]], deck[c[4]], deck[c[5]], deck[c[6]]));
        j = j + 1;
    }
    r
}

/// The cards of `deck` that `dead` does not hold, in deck order.
pub open spec fn live_cards<T: CardMask>(deck: Seq<T>, dead: T) -> Seq<T> {
    deck.filter(|c: T| dead.bits() & c.bits() == 0)
}

/// The hands of all combinations of `n` cards among the cards of `deck` that
/// `dead_cards` does not hold (see `combination_hands`).
pub fn enumerate_n_cards_d<T: CardMask>(deck: &[T], dead_cards: T, n: usize) -> (r: Vec<Vec<T>>)
    ensures
        live_cards(deck@, dead_cards).len() < n ==> r@.len() == 0,
        live_cards(deck@, dead_cards).len() >= n ==> r@.len() >= 1 && all_hands(live_cards(deck@, dead_cards), n as nat, r@),
        live_cards(deck@, dead_cards).len() >= n ==> r@.len() == binomial(live_cards(deck@, dead_cards).len(), n as nat),
{
    let mut valid: Vec<T> = Vec::new();
    let mut i: usize = 0;
    while i < deck.len()
        invariant
            i <= deck@.len(),
            valid@ == live_cards(deck@.take(i as int), dead_cards),
        decreases deck@.len() - i,
    {
        let c = deck[i];
        proof {
            assert(deck@.take(i as int + 1).drop_last() =~= deck@.take(i as int));
            reveal_with_fuel(Seq::filter, 1);
        }
        if !dead_cards.overlaps(&c) {
            valid.push(c);
        }
        i = i + 1;
    }
    proof {
        assert(deck@.take(i as int) =~= deck@);
    }
    combination_hands(&valid, n)
}

} // verus!

//! Omaha evaluation: a hand is made of exactly two hole cards and three board cards.
use vstd::prelude::*;
use crate::eval::{Eval, eval_mask_value, ranks_of, lemma_ranks_or, lemma_card_ranks};
use crate::eval_low8::{std_deck_lowball8_eval, lowball8_value};
use crate::handval::{HandVal, LowHandVal, LOW_HAND_VAL_NOTHING};
use crate::ranks::{nbits, lemma_count_or_le};
use crate::tables::{StdDeckCardMask, card_mask_value, cards_of, cards_below, STD_DECK_N_CARDS};

verus! {

pub const OMAHA_MINHOLE: usize = 4;
pub const OMAHA_MAXHOLE: usize = 6;
pub const OMAHA_MINBOARD: usize = 3;
pub const OMAHA_MAXBOARD: usize = 5;

/// The single-card masks of the cards of `m`, in card-index order.
pub open spec fn masks_of(m: u64) -> Seq<u64> {
    cards_of(m).map_values(|c: int| card_mask_value(c))
}

/// The five-card hand of hole cards `i`, `j` and board cards `k`, `l`, `m`.
pub open spec fn combo(hm: Seq<u64>, bm: Seq<u64>, i: int, j: int, k: int, l: int, m: int) -> u64 {
    hm[i] | hm[j] | bm[k] | bm[l] | bm[m]
}

/// Two distinct hole cards and three distinct board cards, in index order.
pub open spec fn valid_combo(nh: int, nb: int, i: int, j: int, k: int, l: int, m: int) -> bool {
    0 <= i < j < nh && 0 <= k < l < m < nb
}

/// The high value of a two-plus-three combination.
pub open spec fn hi_of(hm: Seq<u64>, bm: Seq<u64>, i: int, j: int, k: int, l: int, m: int) -> int {
    eval_mask_value(combo(hm, bm, i, j, k, l, m), 5)
}

/// The eight-or-better low value of a two-plus-three combination.
pub open spec fn lo_of(hm: Seq<u64>, bm: Seq<u64>, i: int, j: int, k: int, l: int, m: int) -> int {
    lowball8_value(combo(hm, bm, i, j, k, l, m))
}

/// `r` holds the greatest high value and the smallest low value over the
/// combinations of `dom`, or is `None` when `dom` is empty.
pub open spec fn best_over(
    hm: Seq<u64>,
    bm: Seq<u64>,
    dom: spec_fn(int, int, int, int, int) -> bool,
    r: Option<(u32, u32)>,
) -> bool {
    match r {
        None => forall|i: int, j: int, k: int, l: int, m: int| !#[trigger] dom(i, j, k, l, m),
        Some(p) => {
            &&& forall|i: int, j: int, k: int, l: int, m: int| #[trigger]
                dom(i, j, k, l, m) ==> hi_of(hm, bm, i, j, k, l, m) <= p.0 && lo_of(
                    hm,
                    bm,
                    i,
                    j,
                    k,
                    l,
                    m,
                ) >= p.1
            &&& exists|i: int, j: int, k: int, l: int, m: int| #[trigger]
                dom(i, j, k, l, m) && hi_of(hm, bm, i, j, k, l, m) == p.0
            &&& exists|i: int, j: int, k: int, l: int, m: int| #[trigger]
                dom(i, j, k, l, m) && lo_of(hm, bm, i, j, k, l, m) == p.1
        },
    }
}

/// Combines two partial results: the greater high value and the smaller low value.
pub open spec fn merge_spec(a: Option<(u32, u32)>, b: Option<(u32, u32)>) -> Option<(u32, u32)> {
    match (a, b) {
        (None, _) => b,
        (_, None) => a,
        (Some(x), Some(y)) => Some(
            (if y.0 > x.0 { y.0 } else { x.0 }, if y.1 < x.1 { y.1 } else { x.1 }),
        ),
    }
}

proof fn lemma_merge(
    hm: Seq<u64>,
    bm: Seq<u64>,
    d1: spec_fn(int, int, int, int, int) -> bool,
    d2: spec_fn(int, int, int, int, int) -> bool,
    d: spec_fn(int, int, int, int, int) -> bool,
    r1: Option<(u32, u32)>,
    r2: Option<(u32, u32)>,
)
    requires
        best_over(hm, bm, d1, r1),
        best_over(hm, bm, d2, r2),
        forall|i: int, j: int, k: int, l: int, m: int|
            #[trigger] d(i, j, k, l, m) == (d1(i, j, k, l, m) || d2(i, j, k, l, m)),
    ensures
        best_over(hm, bm, d, merge_spec(r1, r2)),
{
    match (r1, r2) {
        (None, None) => {
            assert forall|i: int, j: int, k: int, l: int, m: int| !#[trigger] d(i, j, k, l, m) by {
                assert(!d1(i, j, k, l, m));
                assert(!d2(i, j, k, l, m));
            }
        },
        (None, Some(y)) => {
            assert forall|i: int, j: int, k: int, l: int, m: int| #[trigger]
                d(i, j, k, l, m) implies hi_of(hm, bm, i, j, k, l, m) <= y.0 && lo_of(hm, bm, i, j, k, l, m) >= y.1 by {
                assert(!d1(i, j, k, l, m));
                assert(d2(i, j, k, l, m));
            }
            let (i, j, k, l, m) = choose|i: int, j: int, k: int, l: int, m: int| #[trigger]
                d2(i, j, k, l, m) && hi_of(hm, bm, i, j, k, l, m) == y.0;
            assert(d(i, j, k, l, m));
            let (i2, j2, k2, l2, m2) = choose|i: int, j: int, k: int, l: int, m: int| #[trigger]
                d2(i, j, k, l, m) && lo_of(hm, bm, i, j, k, l, m) == y.1;
            assert(d(i2, j2, k2, l2, m2));
        },
        (Some(x), None) => {
            assert forall|i: int, j: int, k: int, l: int, m: int| #[trigger]
                d(i, j, k, l, m) implies hi_of(hm, bm, i, j, k, l, m) <= x.0 && lo_of(hm, bm, i, j, k, l, m) >= x.1 by {
                assert(!d2(i, j, k, l, m));
                assert(d1(i, j, k, l, m));
            }
            let (i, j, k, l, m) = choose|i: int, j: int, k: int, l: int, m: int| #[trigger]
                d1(i, j, k, l, m) && hi_of(hm, bm, i, j, k, l, m) == x.0;
            assert(d(i, j, k, l, m));
            let (i2, j2, k2, l2, m2) = choose|i: int, j: int, k: int, l: int, m: int| #[trigger]
                d1(i, j, k, l, m) && lo_of(hm, bm, i, j, k, l, m) == x.1;
            assert(d(i2, j2, k2, l2, m2));
        },
        (Some(x), Some(y)) => {
            let p = merge_spec(r1, r2)->0;
            assert forall|i: int, j: int, k: int, l: int, m: int| #[trigger]
                d(i, j, k, l, m) implies hi_of(hm, bm, i, j, k, l, m) <= p.0 && lo_of(hm, bm, i, j, k, l, m) >= p.1 by {
                if d1(i, j, k, l, m) {
                } else {
                    assert(d2(i, j, k, l, m));
                }
            }
            let (i, j, k, l, m) = choose|i: int, j: int, k: int, l: int, m: int| #[trigger]
                d1(i, j, k, l, m) && hi_of(hm, bm, i, j, k, l, m) == x.0;
            assert(d(i, j, k, l, m));
            let (i1, j1, k1, l1, m1) = choose|i: int, j: int, k: int, l: int, m: int| #[trigger]
                d2(i, j, k, l, m) && hi_of(hm, bm, i, j, k, l, m) == y.0;
            assert(d(i1, j1, k1, l1, m1));
            let (i2, j2, k2, l2, m2) = choose|i: int, j: int, k: int, l: int, m: int| #[trigger]
                d1(i, j, k, l, m) && lo_of(hm, bm, i, j, k, l, m) == x.1;
            assert(d(i2, j2, k2, l2, m2));
            let (i3, j3, k3, l3, m3) = choose|i: int, j: int, k: int, l: int, m: int| #[trigger]
                d2(i, j, k, l, m) && lo_of(hm, bm, i, j, k, l, m) == y.1;
            assert(d(i3, j3, k3, l3, m3));
        },
    }
}

fn merge_best(a: Option<(u32, u32)>, b: Option<(u32, u32)>) -> (r: Option<(u32, u32)>)
    ensures
        r == merge_spec(a, b),
{
    match (a, b) {
        (None, _) => b,
        (_, None) => a,
        (Some(x), Some(y)) => Some(
            (if y.0 > x.0 { y.0 } else { x.0 }, if y.1 < x.1 { y.1 } else { x.1 }),
        ),
    }
}

/// Every mask of `s` holds at most one rank.
pub open spec fn single_ranked(s: Seq<u64>) -> bool {
    forall|x: int| 0 <= x < s.len() ==> nbits(ranks_of(#[trigger] s[x])) <= 1
}

fn eval_combo(hm: &Vec<u64>, bm: &Vec<u64>, i: usize, j: usize, k: usize, l: usize, m: usize) -> (r: (u32, u32))
    requires
        valid_combo(hm.len() as int, bm.len() as int, i as int, j as int, k as int, l as int, m as int),
        single_ranked(hm@),
        single_ranked(bm@),
    ensures
        r.0 == hi_of(hm@, bm@, i as int, j as int, k as int, l as int, m as int),
        r.1 == lo_of(hm@, bm@, i as int, j as int, k as int, l as int, m as int),
{
    let hand = StdDeckCardMask { mask: hm[i] | hm[j] | bm[k] | bm[l] | bm[m] };
    proof {
        let a = hm@[i as int];
        let b = hm@[j as int];
        let c = bm@[k as int];
        let d = bm@[l as int];
        let e = bm@[m as int];
        lemma_ranks_or(a, b);
        lemma_ranks_or(a | b, c);
        lemma_ranks_or(a | b | c, d);
        lemma_ranks_or(a | b | c | d, e);
        lemma_count_or_le(ranks_of(a), ranks_of(b), 13);
        lemma_count_or_le(ranks_of(a | b), ranks_of(c), 13);
        lemma_count_or_le(ranks_of(a | b | c), ranks_of(d), 13);
        lemma_count_or_le(ranks_of(a | b | c | d), ranks_of(e), 13);
    }
    let hi = Eval::eval_n(&hand, 5);
    let lo = std_deck_lowball8_eval(&hand, 5);
    let lo_value = match lo {
        Some(v) => v.value,
        None => LOW_HAND_VAL_NOTHING,
    };
    (hi.value, lo_value)
}

fn best_m(hm: &Vec<u64>, bm: &Vec<u64>, i: usize, j: usize, k: usize, l: usize) -> (r: Option<(u32, u32)>)
    requires
        0 <= i < j < hm.len(),
        0 <= k < l < bm.len(),
        single_ranked(hm@),
        single_ranked(bm@),
    ensures
        best_over(hm@, bm@, |i2: int, j2: int, k2: int, l2: int, m2: int| i2 == i && j2 == j && k2 == k && l2 == l && l < m2 < bm.len(), r),
{
    let nb = bm.len();
    let mut r: Option<(u32, u32)> = None;
    let mut m = l + 1;
    while m < nb
        invariant
            0 <= i < j < hm.len(),
            0 <= k < l < m <= nb,
            nb == bm.len(),
            single_ranked(hm@),
            single_ranked(bm@),
            best_over(hm@, bm@, |i2: int, j2: int, k2: int, l2: int, m2: int| i2 == i && j2 == j && k2 == k && l2 == l && l < m2 < m, r),
        decreases nb - m,
    {
        let v = eval_combo(hm, bm, i, j, k, l, m);
        let ghost d1 = |i2: int, j2: int, k2: int, l2: int, m2: int| i2 == i && j2 == j && k2 == k && l2 == l && l < m2 < m;
        let ghost d2 = |i2: int, j2: int, k2: int, l2: int, m2: int| i2 == i && j2 == j && k2 == k && l2 == l && m2 == m;
        let ghost d = |i2: int, j2: int, k2: int, l2: int, m2: int| i2 == i && j2 == j && k2 == k && l2 == l && l < m2 < m + 1;
        proof {
            assert(d2(i as int, j as int, k as int, l as int, m as int));
            assert(best_over(hm@, bm@, d2, Some(v)));
            lemma_merge(hm@, bm@, d1, d2, d, r, Some(v));
        }
        r = merge_best(r, Some(v));
        m = m + 1;
    }
    r
}

fn best_l(hm: &Vec<u64>, bm: &Vec<u64>, i: usize, j: usize, k: usize) -> (r: Option<(u32, u32)>)
    requires
        0 <= i < j < hm.len(),
        k < bm.len(),
        single_ranked(hm@),
        single_ranked(bm@),
    ensures
        best_over(hm@, bm@, |i2: int, j2: int, k2: int, l2: int, m2: int| i2 == i && j2 == j && k2 == k && k < l2 < m2 < bm.len(), r),
{
    let nb = bm.len();
    let mut r: Option<(u32, u32)> = None;
    let mut l = k + 1;
    while l < nb
        invariant
            0 <= i < j < hm.len(),
            k < l <= nb,
            nb == bm.len(),
            single_ranked(hm@),
            single_ranked(bm@),
            best_over(hm@, bm@, |i2: int, j2: int, k2: int, l2: int, m2: int| i2 == i && j2 == j && k2 == k && k < l2 < l && l2 < m2 < nb, r),
        decreases nb - l,
    {
        let v = best_m(hm, bm, i, j, k, l);
        let ghost d1 = |i2: int, j2: int, k2: int, l2: int, m2: int| i2 == i && j2 == j && k2 == k && k < l2 < l && l2 < m2 < nb;
        let ghost d2 = |i2: int, j2: int, k2: int, l2: int, m2: int| i2 == i && j2 == j && k2 == k && l2 == l && l < m2 < nb;
        let ghost d = |i2: int, j2: int, k2: int, l2: int, m2: int| i2 == i && j2 == j && k2 == k && k < l2 < l + 1 && l2 < m2 < nb;
        proof {
            lemma_merge(hm@, bm@, d1, d2, d, r, v);
        }
        r = merge_best(r, v);
        l = l + 1;
    }
    proof {
        let da = |i2: int, j2: int, k2: int, l2: int, m2: int| i2 == i && j2 == j && k2 == k && k < l2 < l && l2 < m2 < nb;
        let db = |i2: int, j2: int, k2: int, l2: int, m2: int| i2 == i && j2 == j && k2 == k && k < l2 < m2 < bm.len();
        assert(da =~= db);
    }
    r
}

fn best_k(hm: &Vec<u64>, bm: &Vec<u64>, i: usize, j: usize) -> (r: Option<(u32, u32)>)
    requires
        0 <= i < j < hm.len(),
        single_ranked(hm@),
        single_ranked(bm@),
    ensures
        best_over(hm@, bm@, |i2: int, j2: int, k2: int, l2: int, m2: int| i2 == i && j2 == j && 0 <= k2 < l2 < m2 < bm.len(), r),
{
    let nb = bm.len();
    let mut r: Option<(u32, u32)> = None;
    let mut k: usize = 0;
    while k < nb
        invariant
            0 <= i < j < hm.len(),
            k <= nb,
            nb == bm.len(),
            single_ranked(hm@),
            single_ranked(bm@),
            best_over(hm@, bm@, |i2: int, j2: int, k2: int, l2: int, m2: int| i2 == i && j2 == j && 0 <= k2 < k && k2 < l2 < m2 < nb, r),
        decreases nb - k,
    {
        let v = best_l(hm, bm, i, j, k);
        let ghost d1 = |i2: int, j2: int, k2: int, l2: int, m2: int| i2 == i && j2 == j && 0 <= k2 < k && k2 < l2 < m2 < nb;
        let ghost d2 = |i2: int, j2: int, k2: int, l2: int, m2: int| i2 == i && j2 == j && k2 == k && k < l2 < m2 < nb;
        let ghost d = |i2: int, j2: int, k2: int, l2: int, m2: int| i2 == i && j2 == j && 0 <= k2 < k + 1 && k2 < l2 < m2 < nb;
        proof {
            lemma_merge(hm@, bm@, d1, d2, d, r, v);
        }
        r = merge_best(r, v);
        k = k + 1;
    }
    proof {
        let da = |i2: int, j2: int, k2: int, l2: int, m2: int| i2 == i && j2 == j && 0 <= k2 < k && k2 < l2 < m2 < nb;
        let db = |i2: int, j2: int, k2: int, l2: int, m2: int| i2 == i && j2 == j && 0 <= k2 < l2 < m2 < bm.len();
        assert(da =~= db);
    }
    r
}

fn best_j(hm: &Vec<u64>, bm: &Vec<u64>, i: usize) -> (r: Option<(u32, u32)>)
    requires
        i < hm.len(),
        single_ranked(hm@),
        single_ranked(bm@),
    ensures
        best_over(hm@, bm@, |i2: int, j2: int, k2: int, l2: int, m2: int| i2 == i && i < j2 < hm.len() && 0 <= k2 < l2 < m2 < bm.len(), r),
{
    let nh = hm.len();
    let mut r: Option<(u32, u32)> = None;
    let mut j = i + 1;
    while j < nh
        invariant
            i < j <= nh,
            nh == hm.len(),
            single_ranked(hm@),
            single_ranked(bm@),
            best_over(hm@, bm@, |i2: int, j2: int, k2: int, l2: int, m2: int| i2 == i && i < j2 < j && 0 <= k2 < l2 < m2 < bm.len(), r),
        decreases nh - j,
    {
        let v = best_k(hm, bm, i, j);
        let ghost d1 = |i2: int, j2: int, k2: int, l2: int, m2: int| i2 == i && i < j2 < j && 0 <= k2 < l2 < m2 < bm.len();
        let ghost d2 = |i2: int, j2: int, k2: int, l2: int, m2: int| i2 == i && j2 == j && 0 <= k2 < l2 < m2 < bm.len();
        let ghost d = |i2: int, j2: int, k2: int, l2: int, m2: int| i2 == i && i < j2 < j + 1 && 0 <= k2 < l2 < m2 < bm.len();
        proof {
            lemma_merge(hm@, bm@, d1, d2, d, r, v);
        }
        r = merge_best(r, v);
        j = j + 1;
    }
    r
}

fn best_all(hm: &Vec<u64>, bm: &Vec<u64>) -> (r: Option<(u32, u32)>)
    requires
        single_ranked(hm@),
        single_ranked(bm@),
    ensures
        best_over(hm@, bm@, |i2: int, j2: int, k2: int, l2: int, m2: int| valid_combo(hm.len() as int, bm.len() as int, i2, j2, k2, l2, m2), r),
{
    let nh = hm.len();
    let mut r: Option<(u32, u32)> = None;
    let mut i: usize = 0;
    while i < nh
        invariant
            i <= nh,
            nh == hm.len(),
            single_ranked(hm@),
            single_ranked(bm@),
            best_over(hm@, bm@, |i2: int, j2: int, k2: int, l2: int, m2: int| 0 <= i2 < i && i2 < j2 < nh && 0 <= k2 < l2 < m2 < bm.len(), r),
        decreases nh - i,
    {
        let v = best_j(hm, bm, i);
        let ghost d1 = |i2: int, j2: int, k2: int, l2: int, m2: int| 0 <= i2 < i && i2 < j2 < nh && 0 <= k2 < l2 < m2 < bm.len();
        let ghost d2 = |i2: int, j2: int, k2: int, l2: int, m2: int| i2 == i && i < j2 < nh && 0 <= k2 < l2 < m2 < bm.len();
        let ghost d = |i2: int, j2: int, k2: int, l2: int, m2: int| 0 <= i2 < i + 1 && i2 < j2 < nh && 0 <= k2 < l2 < m2 < bm.len();
        proof {
            lemma_merge(hm@, bm@, d1, d2, d, r, v);
        }
        r = merge_best(r, v);
        i = i + 1;
    }
    proof {
        let da = |i2: int, j2: int, k2: int, l2: int, m2: int| 0 <= i2 < i && i2 < j2 < nh && 0 <= k2 < l2 < m2 < bm.len();
        let db = |i2: int, j2: int, k2: int, l2: int, m2: int| valid_combo(hm.len() as int, bm.len() as int, i2, j2, k2, l2, m2);
        assert(da =~= db);
    }
    r
}

/// At most one partial result satisfies `best_over` for a given domain.
proof fn lemma_best_unique(
    hm: Seq<u64>,
    bm: Seq<u64>,
    d: spec_fn(int, int, int, int, int) -> bool,
    r1: Option<(u32, u32)>,
    r2: Option<(u32, u32)>,
)
    requires
        best_over(hm, bm, d, r1),
        best_over(hm, bm, d, r2),
    ensures
        r1 == r2,
{
    match (r1, r2) {
        (None, None) => {},
        (None, Some(y)) => {
            let (i, j, k, l, m) = choose|i: int, j: int, k: int, l: int, m: int| #[trigger]
                d(i, j, k, l, m) && hi_of(hm, bm, i, j, k, l, m) == y.0;
            assert(!d(i, j, k, l, m));
        },
        (Some(x), None) => {
            let (i, j, k, l, m) = choose|i: int, j: int, k: int, l: int, m: int| #[trigger]
                d(i, j, k, l, m) && hi_of(hm, bm, i, j, k, l, m) == x.0;
            assert(!d(i, j, k, l, m));
        },
        (Some(x), Some(y)) => {
            let (i, j, k, l, m) = choose|i: int, j: int, k: int, l: int, m: int| #[trigger]
                d(i, j, k, l, m) && hi_of(hm, bm, i, j, k, l, m) == x.0;
            let (i1, j1, k1, l1, m1) = choose|i: int, j: int, k: int, l: int, m: int| #[trigger]
                d(i, j, k, l, m) && hi_of(hm, bm, i, j, k, l, m) == y.0;
            let (i2, j2, k2, l2, m2) = choose|i: int, j: int, k: int, l: int, m: int| #[trigger]
                d(i, j, k, l, m) && lo_of(hm, bm, i, j, k, l, m) == x.1;
            let (i3, j3, k3, l3, m3) = choose|i: int, j: int, k: int, l: int, m: int| #[trigger]
                d(i, j, k, l, m) && lo_of(hm, bm, i, j, k, l, m) == y.1;
            assert(d(i, j, k, l, m) && d(i1, j1, k1, l1, m1) && d(i2, j2, k2, l2, m2) && d(i3, j3, k3, l3, m3));
            assert(x.0 == y.0);
            assert(x.1 == y.1);
        },
    }
}

/// The two-hole-plus-three-board combinations of `nh` hole cards and `nb` board cards.
pub open spec fn omaha_combos(nh: int, nb: int) -> spec_fn(int, int, int, int, int) -> bool {
    |i: int, j: int, k: int, l: int, m: int| valid_combo(nh, nb, i, j, k, l, m)
}

/// The best high value and the best (smallest) eight-or-better low value over the
/// two-plus-three combinations of `hole` and `board`; `None` when there is none.
pub open spec fn omaha_best(hole: u64, board: u64) -> Option<(u32, u32)> {
    choose|r: Option<(u32, u32)>|
        best_over(
            masks_of(hole),
            masks_of(board),
            omaha_combos(cards_of(hole).len() as int, cards_of(board).len() as int),
            r,
        )
}

/// The high hand of an Omaha evaluation: the best combination's value, if any.
pub open spec fn omaha_high(hole: u64, board: u64) -> Option<HandVal> {
    match omaha_best(hole, board) {
        None => None,
        Some(p) => Some(HandVal { value: p.0 }),
    }
}

/// The low hand of an Omaha evaluation: the best (smallest) eight-or-better low
/// value over the two-plus-three combinations, `LOW_HAND_VAL_NOTHING` when none of
/// them makes an eight-low; `None` when there is no combination.
pub open spec fn omaha_low(hole: u64, board: u64) -> Option<LowHandVal> {
    match omaha_best(hole, board) {
        None => None,
        Some(p) => Some(LowHandVal { value: p.1 }),
    }
}

/// The single-card masks of the cards of `m`, in card-index order.
fn card_masks(m: &StdDeckCardMask) -> (v: Vec<u64>)
    ensures
        v@ == masks_of(m.mask),
        single_ranked(v@),
{
    let mut v: Vec<u64> = Vec::new();
    let mut i: usize = 0;
    while i < STD_DECK_N_CARDS
        invariant
            i <= 52,
            v@ == cards_below(m.mask, i as int).map_values(|c: int| card_mask_value(c)),
            single_ranked(v@),
        decreases 52 - i,
    {
        if m.card_is_set(i) {
            let c = StdDeckCardMask::from_card_index(i);
            proof {
                lemma_card_ranks(i as int);
            }
            v.push(c.mask);
        }
        proof {
            assert(cards_below(m.mask, i as int + 1).map_values(|c: int| card_mask_value(c)) =~= v@);
        }
        i = i + 1;
    }
    v
}

/// Evaluates an Omaha hand, high and eight-or-better low: each combination of two
/// hole cards and three board cards is evaluated; `hival` receives the best high
/// value (see `omaha_high`) and `loval` the low value of `omaha_low`.
pub fn std_deck_omaha_hi_low8_eval(
    hole: StdDeckCardMask,
    board: StdDeckCardMask,
    hival: &mut Option<HandVal>,
    loval: &mut Option<LowHandVal>,
) -> (res: Result<(), &'static str>)
    ensures
        res is Ok,
        *final(hival) == omaha_high(hole.mask, board.mask),
        *final(loval) == omaha_low(hole.mask, board.mask),
        best_over(
            masks_of(hole.mask),
            masks_of(board.mask),
            omaha_combos(cards_of(hole.mask).len() as int, cards_of(board.mask).len() as int),
            omaha_best(hole.mask, board.mask),
        ),
{
    let hm = card_masks(&hole);
    let bm = card_masks(&board);
    let best = best_all(&hm, &bm);
    proof {
        let d = |i2: int, j2: int, k2: int, l2: int, m2: int| valid_combo(hm.len() as int, bm.len() as int, i2, j2, k2, l2, m2);
        let dd = omaha_combos(cards_of(hole.mask).len() as int, cards_of(board.mask).len() as int);
        assert(d =~= dd);
        lemma_best_unique(hm@, bm@, dd, best, omaha_best(hole.mask, board.mask));
    }
    match best {
        None => {
            *hival = None;
            *loval = None;
        },
        Some(p) => {
            *hival = Some(HandVal { value: p.0 });
            *loval = Some(LowHandVal { value: p.1 });
        },
    }
    Ok(())
}

/// Evaluates the high half of an Omaha hand (see `std_deck_omaha_hi_low8_eval`).
pub fn std_deck_omaha_hi_eval(
    hole: StdDeckCardMask,
    board: StdDeckCardMask,
    hival: &mut Option<HandVal>,
) -> (res: Result<(), &'static str>)
    ensures
        res is Ok,
        *final(hival) == omaha_high(hole.mask, board.mask),
{
    let mut loval: Option<LowHandVal> = None;
    std_deck_omaha_hi_low8_eval(hole, board, hival, &mut loval)
}

} // verus!

//! Ace-to-five lowball evaluation: the ace ranks lowest, straights and flushes
//! do not count, and a smaller value is a better low hand.
use vstd::prelude::*;
use crate::bits::{lemma_rank_masks, lemma_suit_fields, lemma_xor_rank};
use crate::handval::{pack, LowHandVal, rotate_ranks_spec, top_field, second_field, third_field, fourth_field, fifth_field};
use crate::ranks::{
    asc_below, asc_five, bottom_card, bottom_rank, lemma_asc_bounds, n_bits, nbits, ranks_asc, has_rank,
    lemma_count_split, lemma_nbits_remove_one, lemma_rank_bounds,
};
use crate::eval::{spades_of, clubs_of, diamonds_of, hearts_of};
use crate::tables::StdDeckCardMask;

verus! {

/// The `j`-th lowest rank of `r`, plus one, or 0 past the last.
pub open spec fn low_nth(r: u32, j: int) -> int {
    if 0 <= j < ranks_asc(r).len() {
        ranks_asc(r)[j] + 1
    } else {
        0
    }
}

/// Ranks (of the rotated suit masks) present in at least two suits.
pub open spec fn low_dups_of(ss: u32, sc: u32, sd: u32, sh: u32) -> u32 {
    (sc & sd) | (sh & (sc | sd)) | (ss & (sh | sc | sd))
}

/// The ranks that `bottom_n_cards(cards, n)` returns: repeatedly the lowest
/// rank of `cards` plus one, that rank being removed each time.
pub open spec fn bottom_n_seq(cards: u32, n: nat) -> Seq<int>
    decreases n,
{
    if n == 0 {
        seq![]
    } else {
        seq![bottom_rank(cards) + 1] + bottom_n_seq(
            cards ^ (1u32 << (bottom_rank(cards) as u32)),
            (n - 1) as nat,
        )
    }
}

/// `dups` without its lowest bit.
pub open spec fn upper_dup(dups: u32) -> u32 {
    dups & ((dups - 1) as u32) & dups
}

/// The two highest paired ranks and the highest unpaired rank, each plus one.
pub open spec fn two_pairs_spec(dups: u32, ranks: u32) -> (int, int, int) {
    let pairs = ranks_asc(dups);
    let kickers = ranks_asc(ranks & !dups);
    (pairs[pairs.len() - 1] + 1, pairs[pairs.len() - 2] + 1, kickers[kickers.len() - 1] + 1)
}

/// The lowest duplicated rank and the two lowest other ranks, each plus one.
pub open spec fn trips_spec(dups: u32, ranks: u32) -> (int, int, int) {
    let t = bottom_rank(dups);
    let kickers = ranks_asc(ranks & !(1u32 << (t as u32)));
    (t + 1, kickers[0] + 1, kickers[1] + 1)
}

/// The value of an ace-to-five low hand whose rotated suit masks are given.
pub open spec fn lowball_value(ss: u32, sc: u32, sd: u32, sh: u32) -> int {
    let ranks = sc | ss | sd | sh;
    let dups = low_dups_of(ss, sc, sd, sh);
    let n = nbits(ranks);
    if n >= 5 {
        pack(0, low_nth(ranks, 0), low_nth(ranks, 1), low_nth(ranks, 2), low_nth(ranks, 3), low_nth(ranks, 4))
    } else if n == 4 {
        let p = bottom_rank(dups);
        let k = bottom_n_seq(ranks ^ (1u32 << (p as u32)), 3);
        pack(1, p + 1, k[0], k[1], k[2], 0)
    } else if n == 3 {
        if nbits(dups) == 2 {
            let t = two_pairs_spec(dups, ranks);
            pack(2, t.0, t.1, t.2, 0, 0)
        } else {
            let t = trips_spec(dups, ranks);
            pack(3, t.0, t.1, t.2, 0, 0)
        }
    } else if nbits(dups) == 2 {
        let three = upper_dup(dups);
        pack(6, bottom_rank(three) + 1, bottom_rank(dups ^ three) + 1, 0, 0, 0)
    } else {
        let q = bottom_rank(dups);
        pack(7, q + 1, bottom_rank(ranks ^ (1u32 << (q as u32))) + 1, 0, 0, 0)
    }
}

/// The value of the ace-to-five low hand `m`.
pub open spec fn lowball_mask_value(m: u64) -> int {
    lowball_value(
        rotate_ranks_spec(spades_of(m)),
        rotate_ranks_spec(clubs_of(m)),
        rotate_ranks_spec(diamonds_of(m)),
        rotate_ranks_spec(hearts_of(m)),
    )
}

/// The number of ranks present in the hand `m`.
pub open spec fn low_rank_count(m: u64) -> nat {
    nbits(
        rotate_ranks_spec(clubs_of(m)) | rotate_ranks_spec(spades_of(m)) | rotate_ranks_spec(
            diamonds_of(m),
        ) | rotate_ranks_spec(hearts_of(m)),
    )
}

pub proof fn lemma_rotate_bound(r: u32)
    requires
        r < 0x2000,
    ensures
        rotate_ranks_spec(r) < 0x2000,
{
    assert(((r & !(1u32 << 12u32)) << 1u32) | ((r >> 12u32) & 1u32) < 0x2000) by (bit_vector)
        requires
            r < 0x2000u32,
    ;
}

pub proof fn lemma_and_not_bit(a: u32, b: u32, i: int)
    requires
        0 <= i < 32,
    ensures
        has_rank(a & !b, i) == (has_rank(a, i) && !has_rank(b, i)),
{
    let iu = i as u32;
    assert((((a & !b) >> iu) & 1u32 == 1u32) == (((a >> iu) & 1u32 == 1u32) && !((b >> iu) & 1u32
        == 1u32))) by (bit_vector);
}

/// The five lowest ranks of `cards` (bits 0..13), each plus one, lowest first,
/// padded with zeros.
pub(crate) fn lowest_five_ranks(cards: u32) -> (t: (u8, u8, u8, u8, u8))
    ensures
        t.0 == low_nth(cards, 0),
        t.1 == low_nth(cards, 1),
        t.2 == low_nth(cards, 2),
        t.3 == low_nth(cards, 3),
        t.4 == low_nth(cards, 4),
        t.0 <= 13 && t.1 <= 13 && t.2 <= 13 && t.3 <= 13 && t.4 <= 13,
{
    let (c, count) = asc_five(cards);
    let a = if 0 < count { c[0] as u8 + 1 } else { 0 };
    let b = if 1 < count { c[1] as u8 + 1 } else { 0 };
    let d = if 2 < count { c[2] as u8 + 1 } else { 0 };
    let e = if 3 < count { c[3] as u8 + 1 } else { 0 };
    let f = if 4 < count { c[4] as u8 + 1 } else { 0 };
    (a, b, d, e, f)
}

/// The `j`-th lowest rank of `r`, counted from the lowest rank of `r` as 1, or 0
/// past the last.
pub open spec fn low_nth_from_lowest(r: u32, j: int) -> int {
    if 0 <= j < ranks_asc(r).len() {
        ranks_asc(r)[j] - ranks_asc(r)[0] + 1
    } else {
        0
    }
}

/// The five lowest ranks of `cards` (bits 0..13), lowest first, each counted
/// from the lowest rank present, which counts as 1; padded with zeros.
pub fn extract_top_five_cards_lowball(cards: u32) -> (t: (u8, u8, u8, u8, u8))
    ensures
        t.0 == low_nth_from_lowest(cards, 0),
        t.1 == low_nth_from_lowest(cards, 1),
        t.2 == low_nth_from_lowest(cards, 2),
        t.3 == low_nth_from_lowest(cards, 3),
        t.4 == low_nth_from_lowest(cards, 4),
{
    let (a, b, c, d, e) = lowest_five_ranks(cards);
    proof {
        lemma_asc_bounds(cards, 13);
    }
    if a == 0 {
        return (0, 0, 0, 0, 0);
    }
    let base = a - 1;
    (
        a - base,
        if b == 0 { 0 } else { b - base },
        if c == 0 { 0 } else { c - base },
        if d == 0 { 0 } else { d - base },
        if e == 0 { 0 } else { e - base },
    )
}

/// The lowest rank of `dups` and the two lowest other ranks of `ranks`, each plus one.
pub fn get_trips(dups: u32, ranks: u32) -> (t: (u8, u8, u8))
    requires
        dups < 0x2000,
        ranks_asc(ranks & !(1u32 << (bottom_rank(dups) as u32))).len() >= 2,
    ensures
        (t.0 as int, t.1 as int, t.2 as int) == trips_spec(dups, ranks),
{
    let trips_card = bottom_card(dups);
    let (k, count) = asc_five(ranks & !(1u32 << trips_card));
    (trips_card as u8 + 1, k[0] as u8 + 1, k[1] as u8 + 1)
}

/// The two highest ranks of `dups` and the highest rank of `ranks` outside
/// `dups`, each plus one.
pub fn get_two_pairs(dups: u32, ranks: u32) -> (t: (u8, u8, u8))
    requires
        ranks_asc(dups).len() >= 2,
        ranks_asc(ranks & !dups).len() >= 1,
    ensures
        (t.0 as int, t.1 as int, t.2 as int) == two_pairs_spec(dups, ranks),
{
    let mut pairs: Vec<u32> = Vec::new();
    let mut kickers: Vec<u32> = Vec::new();
    let mut i: u32 = 0;
    while i < 13
        invariant
            i <= 13,
            pairs@ == asc_below(dups, i as int).map_values(|x: int| x as u32),
            kickers@ == asc_below(ranks & !dups, i as int).map_values(|x: int| x as u32),
        decreases 13 - i,
    {
        proof {
            lemma_and_not_bit(ranks, dups, i as int);
            lemma_asc_bounds(dups, i as int);
            lemma_asc_bounds(ranks & !dups, i as int);
        }
        if (dups >> i) & 1 == 1 {
            pairs.push(i);
        } else if (ranks >> i) & 1 == 1 {
            kickers.push(i);
        }
        proof {
            assert(pairs@ =~= asc_below(dups, i as int + 1).map_values(|x: int| x as u32));
            assert(kickers@ =~= asc_below(ranks & !dups, i as int + 1).map_values(|x: int| x as u32));
        }
        i = i + 1;
    }
    proof {
        lemma_asc_bounds(dups, 13);
        lemma_asc_bounds(ranks & !dups, 13);
    }
    let np = pairs.len();
    let nk = kickers.len();
    let pair1 = pairs[np - 1];
    let pair2 = pairs[np - 2];
    let kicker = kickers[nk - 1];
    (pair1 as u8 + 1, pair2 as u8 + 1, kicker as u8 + 1)
}

/// The higher and the lower rank of the two-rank mask `dups`, each plus one.
pub fn get_full_house(dups: u32) -> (t: (u8, u8))
    requires
        0 < dups < 0x2000,
    ensures
        t.0 == bottom_rank(upper_dup(dups)) + 1,
        t.1 == bottom_rank(dups ^ upper_dup(dups)) + 1,
{
    let three_mask = (dups & (dups - 1)) & dups;
    let three_card = bottom_card(three_mask);
    let pair_mask = dups ^ three_mask;
    let pair_card = bottom_card(pair_mask);
    (three_card as u8 + 1, pair_card as u8 + 1)
}

/// Repeatedly takes the lowest rank of `cards` (plus one) and removes it,
/// `how_many` times (see `bottom_n_seq`).
pub fn bottom_n_cards(cards: u32, how_many: usize) -> (v: Vec<u8>)
    requires
        cards < 0x2000,
    ensures
        v@.map_values(|x: u8| x as int) == bottom_n_seq(cards, how_many as nat),
{
    let mut retval: Vec<u8> = Vec::new();
    let mut c = cards;
    let mut k: usize = 0;
    while k < how_many
        invariant
            k <= how_many,
            c < 0x2000,
            retval@.map_values(|x: u8| x as int) + bottom_n_seq(c, (how_many - k) as nat)
                == bottom_n_seq(cards, how_many as nat),
        decreases how_many - k,
    {
        let t = bottom_card(c);
        proof {
            let rest = (how_many - k - 1) as nat;
            assert(bottom_n_seq(c, (how_many - k) as nat) == seq![bottom_rank(c) + 1]
                + bottom_n_seq(c ^ (1u32 << t), rest));
            lemma_xor_rank(c, t);
        }
        let ghost old_r = retval@;
        retval.push(t as u8 + 1);
        proof {
            assert(retval@.map_values(|x: u8| x as int) =~= old_r.map_values(|x: u8| x as int).push(
                t as int + 1,
            ));
            assert(retval@.map_values(|x: u8| x as int) + bottom_n_seq(
                c ^ (1u32 << t),
                (how_many - k - 1) as nat,
            ) =~= old_r.map_values(|x: u8| x as int) + bottom_n_seq(c, (how_many - k) as nat));
        }
        c = c ^ (1u32 << t);
        k = k + 1;
    }
    proof {
        assert(retval@.map_values(|x: u8| x as int) + bottom_n_seq(c, 0) =~= retval@.map_values(
            |x: u8| x as int,
        ));
    }
    retval
}

/// Evaluates the ace-to-five low hand `cards` (see `lowball_value`); the card
/// count is not used.
pub fn std_deck_lowball_eval(cards: &StdDeckCardMask, _n_cards: usize) -> (h: LowHandVal)
    requires
        low_rank_count(cards.mask) >= 2,
    ensures
        h.value == lowball_mask_value(cards.mask),
{
    let m = cards.mask;
    proof {
        lemma_suit_fields(m);
        lemma_rotate_bound(spades_of(m));
        lemma_rotate_bound(clubs_of(m));
        lemma_rotate_bound(diamonds_of(m));
        lemma_rotate_bound(hearts_of(m));
    }
    let ss = LowHandVal::rotate_ranks(cards.spades() as u32);
    let sc = LowHandVal::rotate_ranks(cards.clubs() as u32);
    let sd = LowHandVal::rotate_ranks(cards.diamonds() as u32);
    let sh = LowHandVal::rotate_ranks(cards.hearts() as u32);
    let ranks = sc | ss | sd | sh;
    let dups = (sc & sd) | (sh & (sc | sd)) | (ss & (sh | sc | sd));
    proof {
        lemma_rank_masks(ss, sc, sd, sh);
        lemma_count_split(ranks, dups, 13);
    }
    let n_ranks = n_bits(ranks);
    if n_ranks >= 5 {
        let (top, second, third, fourth, fifth) = lowest_five_ranks(ranks);
        return LowHandVal::new(0, top, second, third, fourth, fifth);
    }
    if n_ranks == 4 {
        let pair_card = bottom_card(dups);
        proof {
            lemma_xor_rank(ranks, pair_card);
        }
        let kickers = bottom_n_cards(ranks ^ (1u32 << pair_card), 3);
        proof {
            lemma_bottom_n_bound(ranks ^ (1u32 << pair_card), 3);
            assert(kickers@.map_values(|x: u8| x as int).len() == 3);
            assert(kickers.len() == 3);
            assert(kickers@.map_values(|x: u8| x as int)[0] == kickers[0] as int);
            assert(kickers@.map_values(|x: u8| x as int)[1] == kickers[1] as int);
            assert(kickers@.map_values(|x: u8| x as int)[2] == kickers[2] as int);
            lemma_bottom_n_bound(ranks ^ (1u32 << pair_card), 3);
        }
        LowHandVal::new(1, pair_card as u8 + 1, kickers[0], kickers[1], kickers[2], 0)
    } else if n_ranks == 3 {
        if n_bits(dups) == 2 {
            proof {
                assert(ranks & dups == dups);
            }
            let (pair1, pair2, kicker) = get_two_pairs(dups, ranks);
            proof {
                lemma_asc_bounds(dups, 13);
                lemma_asc_bounds(ranks & !dups, 13);
            }
            LowHandVal::new(2, pair1, pair2, kicker, 0, 0)
        } else {
            proof {
                lemma_rank_bounds(dups);
                lemma_nbits_remove_one(ranks, bottom_rank(dups) as u32);
            }
            let (trips_card, kicker1, kicker2) = get_trips(dups, ranks);
            proof {
                lemma_asc_bounds(ranks & !(1u32 << (bottom_rank(dups) as u32)), 13);
            }
            LowHandVal::new(3, trips_card, kicker1, kicker2, 0, 0)
        }
    } else {
        if n_bits(dups) == 2 {
            proof {
                if dups == 0 {
                    assert(asc_below(0u32, 13) =~= seq![]) by {
                        lemma_zero_empty(13);
                    }
                }
            }
            let (three_of_a_kind, pair) = get_full_house(dups);
            proof {
                lemma_rank_bounds(upper_dup(dups));
                lemma_rank_bounds(dups ^ upper_dup(dups));
            }
            LowHandVal::new(6, three_of_a_kind, pair, 0, 0, 0)
        } else {
            let quads_card = bottom_card(dups);
            let kicker = bottom_card(ranks ^ (1u32 << quads_card));
            LowHandVal::new(7, quads_card as u8 + 1, kicker as u8 + 1, 0, 0, 0)
        }
    }
}

pub(crate) proof fn lemma_zero_empty(k: int)
    requires
        k <= 32,
    ensures
        asc_below(0u32, k).len() == 0,
    decreases k,
{
    if k > 0 {
        lemma_zero_empty(k - 1);
        let i = (k - 1) as u32;
        assert(((0u32 >> i) & 1u32) == 0u32) by (bit_vector);
    }
}

proof fn lemma_bottom_n_bound(cards: u32, n: nat)
    ensures
        bottom_n_seq(cards, n).len() == n,
        forall|j: int| 0 <= j < n ==> 1 <= #[trigger] bottom_n_seq(cards, n)[j] <= 13,
    decreases n,
{
    if n > 0 {
        lemma_asc_bounds(cards, 13);
        lemma_bottom_n_bound(cards ^ (1u32 << (bottom_rank(cards) as u32)), (n - 1) as nat);
        assert forall|j: int| 0 <= j < n implies 1 <= #[trigger] bottom_n_seq(cards, n)[j] <= 13 by {
            if j > 0 {
                assert(bottom_n_seq(cards, n)[j] == bottom_n_seq(
                    cards ^ (1u32 << (bottom_rank(cards) as u32)),
                    (n - 1) as nat,
                )[j - 1]);
            }
        }
    }
}


/// Taking its lowest rank out of `c` drops the first of its ranks, lowest first.
proof fn lemma_asc_drop_lowest(c: u32, k: int)
    requires
        0 <= k <= 13,
        nbits(c) >= 1,
    ensures
        k <= bottom_rank(c) ==> asc_below(c, k).len() == 0,
        k > bottom_rank(c) ==> asc_below(c, k).len() >= 1,
        asc_below(c ^ (1u32 << (bottom_rank(c) as u32)), k) == if k <= bottom_rank(c) {
            asc_below(c, k)
        } else {
            asc_below(c, k).drop_first()
        },
    decreases k,
{
    let b = bottom_rank(c);
    let c1 = c ^ (1u32 << (b as u32));
    lemma_asc_bounds(c, 13);
    assert(has_rank(c, b));
    crate::eval::lemma_remove_rank(c, b);
    if k > 0 {
        lemma_asc_drop_lowest(c, k - 1);
        if k - 1 < b {
            if has_rank(c, k - 1) {
                crate::ranks::lemma_asc_complete(c, 13, k - 1);
                let j = choose|j: int| 0 <= j < ranks_asc(c).len() && #[trigger] ranks_asc(c)[j] == k - 1;
                if j > 0 {
                    assert(ranks_asc(c)[0] < ranks_asc(c)[j]);
                }
            }
            assert(!has_rank(c1, k - 1));
        } else if k - 1 == b {
            assert(asc_below(c1, k) =~= asc_below(c, k).drop_first());
        } else {
            assert(asc_below(c1, k) =~= asc_below(c, k).drop_first());
        }
    }
}

/// The ranks that `bottom_n_cards` takes are the lowest ranks of `c`, in
/// increasing order, each plus one.
proof fn lemma_bottom_n_low(c: u32, n: nat)
    requires
        n <= nbits(c),
    ensures
        forall|j: int| 0 <= j < n ==> #[trigger] bottom_n_seq(c, n)[j] == ranks_asc(c)[j] + 1,
    decreases n,
{
    if n > 0 {
        let b = bottom_rank(c);
        let c1 = c ^ (1u32 << (b as u32));
        lemma_asc_bounds(c, 13);
        crate::eval::lemma_remove_rank(c, b);
        lemma_asc_drop_lowest(c, 13);
        lemma_bottom_n_low(c1, (n - 1) as nat);
        lemma_bottom_n_bound(c1, (n - 1) as nat);
        assert(bottom_n_seq(c, n) == seq![b + 1] + bottom_n_seq(c1, (n - 1) as nat));
        assert forall|j: int| 0 <= j < n implies #[trigger] bottom_n_seq(c, n)[j] == ranks_asc(c)[j] + 1 by {
            if j > 0 {
                assert(bottom_n_seq(c, n)[j] == bottom_n_seq(c1, (n - 1) as nat)[j - 1]);
            }
        }
    }
}

/// The ranks held in at least two suits of `m`, as a rank mask with the ace
/// rotated below the deuce.
pub open spec fn low_pairs_of(m: u64) -> u32 {
    low_dups_of(
        rotate_ranks_spec(spades_of(m)),
        rotate_ranks_spec(clubs_of(m)),
        rotate_ranks_spec(diamonds_of(m)),
        rotate_ranks_spec(hearts_of(m)),
    )
}

/// An ace-to-five hand holding four distinct ranks, one of them paired, is
/// valued one pair: the pair's field holds its lowest paired rank (plus one) and the
/// three kicker fields hold the three lowest other ranks of the hand (plus
/// one), lowest first; ranks count from the ace up.
pub proof fn lemma_lowball_one_pair_kickers(m: u64)
    requires
        low_rank_count(m) == 4,
        low_pairs_of(m) != 0,
    ensures
        ({
            let v = lowball_mask_value(m);
            &&& v / 0x0100_0000 == 1
            &&& 1 <= top_field(v) <= 13
            &&& has_rank(low_pairs_of(m), top_field(v) - 1)
            &&& forall|y: int| 0 <= y < 13 && #[trigger] has_rank(low_pairs_of(m), y) ==> y >= top_field(v) - 1
            &&& crate::ranks::lowest_three_except(crate::eval_low8::low_ranks_of(m), top_field(v) - 1,
                second_field(v) - 1, third_field(v) - 1, fourth_field(v) - 1)
            &&& fifth_field(v) == 0
        }),
{
    lemma_suit_fields(m);
    let ss = rotate_ranks_spec(spades_of(m));
    let sc = rotate_ranks_spec(clubs_of(m));
    let sd = rotate_ranks_spec(diamonds_of(m));
    let sh = rotate_ranks_spec(hearts_of(m));
    lemma_rotate_bound(spades_of(m));
    lemma_rotate_bound(clubs_of(m));
    lemma_rotate_bound(diamonds_of(m));
    lemma_rotate_bound(hearts_of(m));
    lemma_rank_masks(ss, sc, sd, sh);
    let ranks = sc | ss | sd | sh;
    let dups = low_dups_of(ss, sc, sd, sh);
    assert(ranks & dups == dups);
    if nbits(dups) == 0 {
        crate::eval::lemma_no_rank_zero(dups);
    }
    lemma_asc_bounds(dups, 13);
    let p = bottom_rank(dups);
    assert(has_rank(dups, p));
    crate::ranks::lemma_bit_and(ranks, dups, p);
    crate::eval::lemma_remove_rank(ranks, p);
    let c = ranks ^ (1u32 << (p as u32));
    lemma_bottom_n_low(c, 3);
    lemma_bottom_n_bound(c, 3);
    lemma_asc_bounds(c, 13);
    let k = bottom_n_seq(c, 3);
    assert(k[0] == ranks_asc(c)[0] + 1 && k[1] == ranks_asc(c)[1] + 1 && k[2] == ranks_asc(c)[2] + 1);
    crate::handval::lemma_pack_fields(1, p + 1, k[0], k[1], k[2], 0);
    let (a, b, d) = (k[0] - 1, k[1] - 1, k[2] - 1);
    assert forall|y: int| 0 <= y < 13 && #[trigger] has_rank(ranks, y) && y != p && y != a && y != b && y != d
        implies y > d by {
        assert(has_rank(c, y));
        crate::ranks::lemma_asc_complete(c, 13, y);
        let j = choose|j: int| 0 <= j < ranks_asc(c).len() && #[trigger] ranks_asc(c)[j] == y;
    }
    assert(crate::eval_low8::low_ranks_of(m) == ranks);
    assert forall|y: int| 0 <= y < 13 && #[trigger] has_rank(dups, y) implies y >= p by {
        crate::ranks::lemma_asc_complete(dups, 13, y);
        let j = choose|j: int| 0 <= j < ranks_asc(dups).len() && #[trigger] ranks_asc(dups)[j] == y;
        if j > 0 {
            assert(ranks_asc(dups)[0] < ranks_asc(dups)[j]);
        }
    }
}


/// An ace-to-five hand holding five distinct ranks or more is valued as no pair,
/// its five rank fields holding its five lowest ranks (plus one), lowest first;
/// ranks count from the ace up.
pub proof fn lemma_lowball_no_pair_ranks(m: u64)
    requires
        low_rank_count(m) >= 5,
    ensures
        ({
            let v = lowball_mask_value(m);
            &&& v / 0x0100_0000 == 0
            &&& crate::ranks::lowest_five(crate::eval_low8::low_ranks_of(m), top_field(v) - 1, second_field(v) - 1,
                third_field(v) - 1, fourth_field(v) - 1, fifth_field(v) - 1)
        }),
{
    lemma_suit_fields(m);
    let ss = rotate_ranks_spec(spades_of(m));
    let sc = rotate_ranks_spec(clubs_of(m));
    let sd = rotate_ranks_spec(diamonds_of(m));
    let sh = rotate_ranks_spec(hearts_of(m));
    let ranks = sc | ss | sd | sh;
    lemma_asc_bounds(ranks, 13);
    let s = ranks_asc(ranks);
    crate::handval::lemma_pack_fields(0, s[0] + 1, s[1] + 1, s[2] + 1, s[3] + 1, s[4] + 1);
    assert forall|y: int| 0 <= y < 13 && #[trigger] has_rank(ranks, y) && y != s[0] && y != s[1] && y != s[2] && y != s[3]
        && y != s[4] implies y > s[4] by {
        crate::ranks::lemma_asc_complete(ranks, 13, y);
        let j = choose|j: int| 0 <= j < s.len() && #[trigger] s[j] == y;
        assert(s[4] < s[j]);
    }
    assert(crate::eval_low8::low_ranks_of(m) == ranks);
}


/// An ace-to-five hand holding three distinct ranks, one of them or more paired,
/// is valued two pair when exactly two of its ranks are paired, the pair fields
/// holding those two (plus one), higher first, and the third field the unpaired
/// rank (plus one); else three of a kind, the first field holding its lowest
/// paired rank (plus one) and the next two its other ranks (plus one), lower
/// first. Ranks count from the ace up.
pub proof fn lemma_lowball_three_ranks(m: u64)
    requires
        low_rank_count(m) == 3,
        low_pairs_of(m) != 0,
    ensures
        ({
            let v = lowball_mask_value(m);
            let r = crate::eval_low8::low_ranks_of(m);
            let (a, b, c) = (top_field(v) - 1, second_field(v) - 1, third_field(v) - 1);
            &&& fourth_field(v) == 0 && fifth_field(v) == 0
            &&& 0 <= a < 13 && 0 <= b < 13 && 0 <= c < 13
            &&& has_rank(r, a) && has_rank(r, b) && has_rank(r, c)
            &&& forall|y: int| 0 <= y < 13 && #[trigger] has_rank(r, y) ==> y == a || y == b || y == c
            &&& if nbits(low_pairs_of(m)) == 2 {
                &&& v / 0x0100_0000 == 2
                &&& a > b && has_rank(low_pairs_of(m), a) && has_rank(low_pairs_of(m), b)
                &&& !has_rank(low_pairs_of(m), c)
            } else {
                &&& v / 0x0100_0000 == 3
                &&& has_rank(low_pairs_of(m), a) && a != b && a != c && b < c
                &&& forall|y: int| 0 <= y < 13 && #[trigger] has_rank(low_pairs_of(m), y) ==> y >= a
            }
        }),
{
    lemma_suit_fields(m);
    let ss = rotate_ranks_spec(spades_of(m));
    let sc = rotate_ranks_spec(clubs_of(m));
    let sd = rotate_ranks_spec(diamonds_of(m));
    let sh = rotate_ranks_spec(hearts_of(m));
    lemma_rotate_bound(spades_of(m));
    lemma_rotate_bound(clubs_of(m));
    lemma_rotate_bound(diamonds_of(m));
    lemma_rotate_bound(hearts_of(m));
    lemma_rank_masks(ss, sc, sd, sh);
    let ranks = sc | ss | sd | sh;
    let dups = low_dups_of(ss, sc, sd, sh);
    assert(ranks & dups == dups);
    assert(crate::eval_low8::low_ranks_of(m) == ranks);
    assert forall|i: int| 0 <= i < 13 && #[trigger] has_rank(dups, i) implies has_rank(ranks, i) by {
        crate::ranks::lemma_bit_and(ranks, dups, i);
    }
    if nbits(dups) == 0 {
        crate::eval::lemma_no_rank_zero(dups);
    }
    lemma_asc_bounds(dups, 13);
    if nbits(dups) == 2 {
        let pairs = ranks_asc(dups);
        assert forall|i: int| 0 <= i < 13 implies #[trigger] has_rank(ranks & !dups, i) == (has_rank(ranks, i) && !has_rank(dups, i)) by {
            lemma_and_not_bit(ranks, dups, i);
        }
        assert forall|i: int| 0 <= i < 13 implies #[trigger] has_rank(ranks & dups, i) == has_rank(dups, i) by {
            crate::ranks::lemma_bit_and(ranks, dups, i);
        }
        lemma_count_split(ranks, dups, 13);
        crate::ranks::lemma_count_same(ranks & dups, dups, 13);
        let ks = ranks_asc(ranks & !dups);
        lemma_asc_bounds(ranks & !dups, 13);
        assert(ks.len() == 1);
        crate::handval::lemma_pack_fields(2, pairs[1] + 1, pairs[0] + 1, ks[0] + 1, 0, 0);
        assert forall|y: int| 0 <= y < 13 && #[trigger] has_rank(ranks, y) implies y == pairs[1] || y == pairs[0] || y == ks[0] by {
            if has_rank(dups, y) {
                crate::ranks::lemma_asc_complete(dups, 13, y);
                let j = choose|j: int| 0 <= j < pairs.len() && #[trigger] pairs[j] == y;
            } else {
                assert(has_rank(ranks & !dups, y));
                crate::ranks::lemma_asc_complete(ranks & !dups, 13, y);
                let j = choose|j: int| 0 <= j < ks.len() && #[trigger] ks[j] == y;
            }
        }
    } else {
        let t = bottom_rank(dups);
        assert(has_rank(dups, t));
        crate::eval::lemma_remove_rank(ranks, t);
        let rest = ranks & !(1u32 << (t as u32));
        assert forall|i: int| 0 <= i < 13 implies #[trigger] has_rank(rest, i) == has_rank(ranks ^ (1u32 << (t as u32)), i) by {
            lemma_and_not_bit(ranks, 1u32 << (t as u32), i);
            crate::ranks::lemma_bit_single(t as u32, i);
        }
        crate::ranks::lemma_count_same(rest, ranks ^ (1u32 << (t as u32)), 13);
        let ks = ranks_asc(rest);
        lemma_asc_bounds(rest, 13);
        assert(ks.len() == 2);
        crate::handval::lemma_pack_fields(3, t + 1, ks[0] + 1, ks[1] + 1, 0, 0);
        assert forall|y: int| 0 <= y < 13 && #[trigger] has_rank(ranks, y) implies y == t || y == ks[0] || y == ks[1] by {
            if y != t {
                assert(has_rank(rest, y));
                crate::ranks::lemma_asc_complete(rest, 13, y);
                let j = choose|j: int| 0 <= j < ks.len() && #[trigger] ks[j] == y;
            }
        }
        assert forall|y: int| 0 <= y < 13 && #[trigger] has_rank(dups, y) implies y >= t by {
            crate::ranks::lemma_asc_complete(dups, 13, y);
            let j = choose|j: int| 0 <= j < ranks_asc(dups).len() && #[trigger] ranks_asc(dups)[j] == y;
            if j > 0 {
                assert(ranks_asc(dups)[0] < ranks_asc(dups)[j]);
            }
        }
    }
}

} // verus!

//! Board texture analysis (suits, pairs, connectivity) and outs calculation.
use vstd::prelude::*;
use crate::eval::{
    Eval, eval_mask_value, ranks_of, lemma_ranks_or, lemma_card_ranks, lemma_rank_count_le_cards,
    lemma_eval_hand_type,
};
use crate::handval::{HandType, hand_type_number};
use crate::ranks::{has_rank, lemma_count_or_le, nbits};
use crate::eval::{suit_ranks, spades_of, clubs_of, diamonds_of, hearts_of};
use crate::tables::{StdDeckCardMask, card_in, card_mask_value, cards_of, STD_DECK_N_CARDS};

verus! {

/// The number of cards of suit `s` among the cards below `k` of `m`.
pub open spec fn suit_count_below(m: u64, s: int, k: int) -> nat
    decreases k,
{
    if k <= 0 {
        0
    } else {
        suit_count_below(m, s, k - 1) + if card_in(m, k - 1) && (k - 1) / 13 == s {
            1nat
        } else {
            0nat
        }
    }
}

/// The number of cards of rank `r` among the cards below `k` of `m`.
pub open spec fn rank_count_below(m: u64, r: int, k: int) -> nat
    decreases k,
{
    if k <= 0 {
        0
    } else {
        rank_count_below(m, r, k - 1) + if card_in(m, k - 1) && (k - 1) % 13 == r {
            1nat
        } else {
            0nat
        }
    }
}

/// The number of cards of suit `s` in `m`.
pub open spec fn suit_count(m: u64, s: int) -> nat {
    suit_count_below(m, s, 52)
}

/// The number of cards of rank `r` in `m`.
pub open spec fn rank_count(m: u64, r: int) -> nat {
    rank_count_below(m, r, 52)
}

/// The number of suits below `k` present in `m`.
pub open spec fn suits_present_below(m: u64, k: int) -> nat
    decreases k,
{
    if k <= 0 {
        0
    } else {
        suits_present_below(m, k - 1) + if suit_count(m, k - 1) > 0 {
            1nat
        } else {
            0nat
        }
    }
}

/// The largest number of cards of one suit below `k` in `m`.
pub open spec fn max_suit_below(m: u64, k: int) -> nat
    decreases k,
{
    if k <= 0 {
        0
    } else if suit_count(m, k - 1) > max_suit_below(m, k - 1) {
        suit_count(m, k - 1)
    } else {
        max_suit_below(m, k - 1)
    }
}

/// The number of ranks below `k` that `m` holds exactly `c` times.
pub open spec fn ranks_with_count(m: u64, c: nat, k: int) -> nat
    decreases k,
{
    if k <= 0 {
        0
    } else {
        ranks_with_count(m, c, k - 1) + if rank_count(m, k - 1) == c {
            1nat
        } else {
            0nat
        }
    }
}

/// Rank `r` is present in `m`.
pub open spec fn rank_present(m: u64, r: int) -> bool {
    rank_count(m, r) > 0
}

/// Three consecutive ranks are present in `m`, the ace also counting below the deuce.
pub open spec fn connected_three(m: u64) -> bool {
    (exists|r: int| 0 <= r <= 10 && #[trigger] rank_present(m, r) && rank_present(m, r + 1) && rank_present(m, r + 2))
        || (rank_present(m, 12) && rank_present(m, 0) && rank_present(m, 1))
}

/// Some rank below `k` is held exactly `c` times exactly when the count of such
/// ranks is positive.
pub proof fn lemma_ranks_with_count_exists(m: u64, c: nat, k: int)
    requires
        0 <= k,
    ensures
        (ranks_with_count(m, c, k) > 0) == (exists|r: int| 0 <= r < k && #[trigger] rank_count(m, r) == c),
    decreases k,
{
    if k > 0 {
        lemma_ranks_with_count_exists(m, c, k - 1);
        if ranks_with_count(m, c, k - 1) == 0 && rank_count(m, k - 1) != c {
            assert forall|r: int| 0 <= r < k implies #[trigger] rank_count(m, r) != c by {
                if r < k - 1 {
                    assert(!(0 <= r < k - 1 && rank_count(m, r) == c));
                }
            }
        }
    } else {
        assert forall|r: int| 0 <= r < k implies #[trigger] rank_count(m, r) != c by {}
    }
}

/// The largest suit count below `k` reaches `t` exactly when some suit below `k`
/// holds at least `t` cards (`t` positive).
pub proof fn lemma_max_suit_exists(m: u64, t: nat, k: int)
    requires
        0 <= k,
        t > 0,
    ensures
        (max_suit_below(m, k) >= t) == (exists|s: int| 0 <= s < k && #[trigger] suit_count(m, s) >= t),
    decreases k,
{
    if k > 0 {
        lemma_max_suit_exists(m, t, k - 1);
        if max_suit_below(m, k) < t {
            assert forall|s: int| 0 <= s < k implies #[trigger] suit_count(m, s) < t by {
                if s < k - 1 {
                    assert(!(0 <= s < k - 1 && suit_count(m, s) >= t));
                }
            }
        }
    } else {
        assert forall|s: int| 0 <= s < k implies #[trigger] suit_count(m, s) < t by {}
    }
}

/// Describes the texture of a board (flop, turn or river).
#[derive(Debug, Clone, PartialEq, Eq, Structural)]
pub struct BoardTexture {
    /// All cards are of different suits.
    pub is_rainbow: bool,
    /// Exactly two suits are present.
    pub is_two_tone: bool,
    /// All cards are of the same suit.
    pub is_monotone: bool,
    /// Some rank is present exactly twice.
    pub is_paired: bool,
    /// Some rank is present exactly three times.
    pub is_trips: bool,
    /// Some rank is present four times.
    pub is_quads: bool,
    /// Some rank is present three times and another twice.
    pub is_full_house: bool,
    /// Three consecutive ranks are present (the ace also low).
    pub has_straight_draw: bool,
    /// Three or more cards share a suit.
    pub has_flush_draw: bool,
}

/// The texture of the board `m`; boards of fewer than three cards have none.
pub open spec fn board_texture(m: u64) -> BoardTexture {
    let n = cards_of(m).len();
    if n < 3 {
        BoardTexture {
            is_rainbow: false,
            is_two_tone: false,
            is_monotone: false,
            is_paired: false,
            is_trips: false,
            is_quads: false,
            is_full_house: false,
            has_straight_draw: false,
            has_flush_draw: false,
        }
    } else {
        let suits = suits_present_below(m, 4);
        BoardTexture {
            is_rainbow: suits == n && n <= 4,
            is_two_tone: suits == 2,
            is_monotone: suits == 1,
            is_paired: ranks_with_count(m, 2, 13) > 0,
            is_trips: ranks_with_count(m, 3, 13) > 0,
            is_quads: ranks_with_count(m, 4, 13) > 0,
            is_full_house: ranks_with_count(m, 3, 13) > 0 && ranks_with_count(m, 2, 13) > 0,
            has_straight_draw: connected_three(m),
            has_flush_draw: max_suit_below(m, 4) >= 3,
        }
    }
}

proof fn lemma_counts_bound(m: u64, k: int)
    requires
        0 <= k,
    ensures
        forall|s: int| #[trigger] suit_count_below(m, s, k) <= k,
        forall|r: int| #[trigger] rank_count_below(m, r, k) <= k,
    decreases k,
{
    if k > 0 {
        lemma_counts_bound(m, k - 1);
        assert forall|s: int| #[trigger] suit_count_below(m, s, k) <= k by {
            assert(suit_count_below(m, s, k - 1) <= k - 1);
        }
        assert forall|r: int| #[trigger] rank_count_below(m, r, k) <= k by {
            assert(rank_count_below(m, r, k - 1) <= k - 1);
        }
    }
}

fn zeros(n: usize) -> (v: Vec<usize>)
    ensures
        v.len() == n,
        forall|i: int| 0 <= i < n ==> v[i] == 0,
{
    let mut v: Vec<usize> = Vec::new();
    while v.len() < n
        invariant
            v.len() <= n,
            forall|i: int| 0 <= i < v.len() ==> v[i] == 0,
        decreases n - v.len(),
    {
        v.push(0);
    }
    v
}

impl BoardTexture {
    /// Analyzes the board `board` (see `board_texture`).
    pub fn analyze(board: &StdDeckCardMask) -> (t: BoardTexture)
        ensures
            t == board_texture(board.mask),
    {
        let m = board.mask;
        let mut texture = BoardTexture {
            is_rainbow: false,
            is_two_tone: false,
            is_monotone: false,
            is_paired: false,
            is_trips: false,
            is_quads: false,
            is_full_house: false,
            has_straight_draw: false,
            has_flush_draw: false,
        };
        let n = board.num_cards();
        if n < 3 {
            return texture;
        }
        let mut suit_counts = zeros(4);
        let mut rank_counts = zeros(13);
        let mut i: usize = 0;
        while i < STD_DECK_N_CARDS
            invariant
                i <= 52,
                m == board.mask,
                suit_counts.len() == 4,
                rank_counts.len() == 13,
                forall|s: int| 0 <= s < 4 ==> #[trigger] suit_counts[s] == suit_count_below(m, s, i as int),
                forall|r: int| 0 <= r < 13 ==> #[trigger] rank_counts[r] == rank_count_below(m, r, i as int),
            decreases 52 - i,
        {
            proof {
                lemma_counts_bound(m, i as int);
            }
            let set = board.card_is_set(i);
            let ghost old_s = suit_counts@;
            let ghost old_r = rank_counts@;
            if set {
                let rank = i % 13;
                let suit = i / 13;
                let sc = suit_counts[suit];
                suit_counts.set(suit, sc + 1);
                let rc = rank_counts[rank];
                rank_counts.set(rank, rc + 1);
            }
            proof {
                let k = i as int + 1;
                assert forall|s: int| 0 <= s < 4 implies #[trigger] suit_counts[s] == suit_count_below(m, s, k) by {
                    assert(old_s[s] == suit_count_below(m, s, k - 1));
                    assert(set == card_in(m, k - 1));
                    if set && (k - 1) / 13 == s {
                        assert(suit_counts[s] == old_s[s] + 1);
                    } else {
                        assert(suit_counts[s] == old_s[s]);
                    }
                    assert(suit_count_below(m, s, k) == suit_count_below(m, s, k - 1) + if card_in(m, k - 1) && (k - 1) / 13 == s { 1nat } else { 0nat });
                }
                assert forall|r: int| 0 <= r < 13 implies #[trigger] rank_counts[r] == rank_count_below(m, r, k) by {
                    assert(rank_count_below(m, r, k) == rank_count_below(m, r, k - 1) + if card_in(m, k - 1) && (k - 1) % 13 == r { 1nat } else { 0nat });
                }
            }
            i = i + 1;
        }
        // Suits.
        let mut suits_present: usize = 0;
        let mut max_suit_count: usize = 0;
        let mut s: usize = 0;
        while s < 4
            invariant
                s <= 4,
                suit_counts.len() == 4,
                forall|q: int| 0 <= q < 4 ==> #[trigger] suit_counts[q] == suit_count(m, q),
                suits_present == suits_present_below(m, s as int),
                max_suit_count == max_suit_below(m, s as int),
                suits_present <= s,
            decreases 4 - s,
        {
            let count = suit_counts[s];
            if count > 0 {
                suits_present = suits_present + 1;
                if count > max_suit_count {
                    max_suit_count = count;
                }
            }
            s = s + 1;
        }
        if suits_present == n && n <= 4 {
            texture.is_rainbow = true;
        }
        if suits_present == 2 {
            texture.is_two_tone = true;
        } else if suits_present == 1 {
            texture.is_monotone = true;
        }
        if max_suit_count >= 3 {
            texture.has_flush_draw = true;
        }
        // Ranks.
        let mut pair_count: usize = 0;
        let mut three_count: usize = 0;
        let mut four_count: usize = 0;
        let mut r: usize = 0;
        while r < 13
            invariant
                r <= 13,
                rank_counts.len() == 13,
                forall|q: int| 0 <= q < 13 ==> #[trigger] rank_counts[q] == rank_count(m, q),
                pair_count == ranks_with_count(m, 2, r as int),
                three_count == ranks_with_count(m, 3, r as int),
                four_count == ranks_with_count(m, 4, r as int),
                pair_count <= r && three_count <= r && four_count <= r,
            decreases 13 - r,
        {
            let count = rank_counts[r];
            if count == 2 {
                pair_count = pair_count + 1;
            } else if count == 3 {
                three_count = three_count + 1;
            } else if count == 4 {
                four_count = four_count + 1;
            }
            r = r + 1;
        }
        if pair_count > 0 {
            texture.is_paired = true;
        }
        if three_count > 0 {
            texture.is_trips = true;
        }
        if four_count > 0 {
            texture.is_quads = true;
        }
        if three_count > 0 && pair_count > 0 {
            texture.is_full_house = true;
        }
        // Connectivity: three consecutive ranks, or ace-deuce-trey.
        let mut straight = false;
        let mut q: usize = 0;
        while q + 2 < 13 && !straight
            invariant
                q <= 11,
                rank_counts.len() == 13,
                forall|x: int| 0 <= x < 13 ==> #[trigger] rank_counts[x] == rank_count(m, x),
                !straight ==> forall|x: int| 0 <= x < q ==> !(#[trigger] rank_present(m, x)
                    && rank_present(m, x + 1) && rank_present(m, x + 2)),
                straight ==> connected_three(m),
            decreases 13 - q,
        {
            if rank_counts[q] > 0 && rank_counts[q + 1] > 0 && rank_counts[q + 2] > 0 {
                assert(rank_present(m, q as int));
                straight = true;
            }
            q = q + 1;
        }
        if !straight {
            if rank_counts[12] > 0 && rank_counts[0] > 0 && rank_counts[1] > 0 {
                straight = true;
            }
        }
        proof {
            if !straight {
                assert(!connected_three(m));
            }
        }
        texture.has_straight_draw = straight;
        texture
    }
}

/// The hand type of the hand value `v`.
pub open spec fn type_of(v: int) -> int {
    v / 0x0100_0000
}

/// The cards below `k` that are not in `hand` (of `n` cards) and that, added to
/// it, make a hand of type `t` better than the type `hand` has; as single-card masks.
pub open spec fn outs_below(hand: u64, n: int, t: int, k: int) -> Seq<u64>
    decreases k,
{
    if k <= 0 {
        seq![]
    } else {
        outs_below(hand, n, t, k - 1) + if !card_in(hand, k - 1) && type_of(
            eval_mask_value(hand | card_mask_value(k - 1), n + 1),
        ) == t && t > type_of(eval_mask_value(hand, n)) {
            seq![card_mask_value(k - 1)]
        } else {
            seq![]
        }
    }
}

/// The outs of hand type `t` for the cards `hand`: none once the hand holds
/// seven cards or more.
pub open spec fn outs_of(hand: u64, t: int) -> Seq<u64> {
    let n = cards_of(hand).len() as int;
    if n >= 7 {
        seq![]
    } else {
        outs_below(hand, n, t, 52)
    }
}

/// The masks held in a list of cards.
pub open spec fn masks_in(v: Seq<StdDeckCardMask>) -> Seq<u64> {
    v.map_values(|c: StdDeckCardMask| c.mask)
}

/// The cards that improve a hand, grouped by the hand type they make.
#[derive(Debug, Clone)]
pub struct OutsResult {
    /// For each hand type number (0..=8), the single-card masks of the cards making it.
    pub outs_by_type: Vec<Vec<StdDeckCardMask>>,
}

impl OutsResult {
    /// No outs, for each of the nine hand types.
    pub fn new() -> (r: OutsResult)
        ensures
            r.outs_by_type@.len() == 9,
            forall|t: int| 0 <= t < 9 ==> (#[trigger] r.outs_by_type@[t])@.len() == 0,
    {
        let mut v: Vec<Vec<StdDeckCardMask>> = Vec::new();
        while v.len() < 9
            invariant
                v@.len() <= 9,
                forall|t: int| 0 <= t < v@.len() ==> (#[trigger] v@[t])@.len() == 0,
            decreases 9 - v.len(),
        {
            v.push(Vec::new());
        }
        OutsResult { outs_by_type: v }
    }

    /// Records `card` as an out making `hand_type`.
    pub fn add(&mut self, hand_type: HandType, card: StdDeckCardMask)
        ensures
            final(self).outs_by_type@.len() == old(self).outs_by_type@.len(),
            forall|t: int| 0 <= t < old(self).outs_by_type@.len() && t != hand_type_number(hand_type)
                ==> #[trigger] final(self).outs_by_type@[t] == old(self).outs_by_type@[t],
            hand_type_number(hand_type) < old(self).outs_by_type@.len() ==> final(self).outs_by_type@[hand_type_number(hand_type) as int]@
                == old(self).outs_by_type@[hand_type_number(hand_type) as int]@.push(card),
    {
        let idx = hand_type.as_usize();
        if idx < self.outs_by_type.len() {
            self.outs_by_type[idx].push(card);
        }
    }

    /// The number of outs making `hand_type`.
    pub fn count(&self, hand_type: HandType) -> (n: usize)
        ensures
            hand_type_number(hand_type) < self.outs_by_type@.len() ==> n == self.outs_by_type@[hand_type_number(hand_type) as int]@.len(),
            hand_type_number(hand_type) >= self.outs_by_type@.len() ==> n == 0,
    {
        let idx = hand_type.as_usize();
        if idx < self.outs_by_type.len() {
            self.outs_by_type[idx].len()
        } else {
            0
        }
    }
}

impl Default for OutsResult {
    fn default() -> (r: OutsResult)
        ensures
            r.outs_by_type@.len() == 9,
            forall|t: int| 0 <= t < 9 ==> (#[trigger] r.outs_by_type@[t])@.len() == 0,
    {
        OutsResult::new()
    }
}

/// Finds the outs of `pocket` with `board`: each card left in the deck whose
/// addition improves the hand type, grouped by the type it makes (see `outs_of`).
pub fn calculate_outs(pocket: &StdDeckCardMask, board: &StdDeckCardMask) -> (r: OutsResult)
    ensures
        r.outs_by_type@.len() == 9,
        forall|t: int| 0 <= t < 9 ==> masks_in((#[trigger] r.outs_by_type@[t])@) == outs_of(pocket.mask | board.mask, t),
        forall|t: int, c: int|
            0 <= t < 9 && 0 <= c < 52 && cards_of(pocket.mask | board.mask).len() <= 6 && !card_in(pocket.mask | board.mask, c)
                && type_of(eval_mask_value((pocket.mask | board.mask) | card_mask_value(c), cards_of(pocket.mask | board.mask).len() as int + 1)) == t
                && t > type_of(eval_mask_value(pocket.mask | board.mask, cards_of(pocket.mask | board.mask).len() as int))
                ==> masks_in((#[trigger] r.outs_by_type@[t])@).contains(#[trigger] card_mask_value(c)),
{
    let mut results = OutsResult::new();
    let current_hand = StdDeckCardMask { mask: pocket.mask | board.mask };
    let hand = current_hand.mask;
    let n_cards = current_hand.num_cards();
    if n_cards >= 7 {
        proof {
            assert forall|t: int| 0 <= t < 9 implies masks_in((#[trigger] results.outs_by_type@[t])@) == outs_of(hand, t) by {
                assert(masks_in(results.outs_by_type@[t]@) =~= seq![]);
            }
        }
        return results;
    }
    proof {
        lemma_rank_count_le_cards(hand);
        lemma_eval_hand_type(
            crate::eval::spades_of(hand),
            crate::eval::clubs_of(hand),
            crate::eval::diamonds_of(hand),
            crate::eval::hearts_of(hand),
            n_cards as int,
        );
    }
    let current_val = Eval::eval_n(&current_hand, n_cards);
    let current_type = current_val.hand_type();
    let dead = current_hand;
    let mut i: usize = 0;
    while i < STD_DECK_N_CARDS
        invariant
            i <= 52,
            hand == pocket.mask | board.mask,
            dead.mask == hand,
            current_hand.mask == hand,
            n_cards == cards_of(hand).len(),
            n_cards < 7,
            current_type as int == type_of(eval_mask_value(hand, n_cards as int)),
            results.outs_by_type@.len() == 9,
            forall|t: int| 0 <= t < 9 ==> masks_in((#[trigger] results.outs_by_type@[t])@) == outs_below(hand, n_cards as int, t, i as int),
        decreases 52 - i,
    {
        let ghost before = results.outs_by_type@;
        if !dead.card_is_set(i) {
            let card_mask = StdDeckCardMask::from_card_index(i);
            let next_hand = StdDeckCardMask { mask: current_hand.mask | card_mask.mask };
            proof {
                let c = card_mask_value(i as int);
                lemma_rank_count_le_cards(hand);
                lemma_ranks_or(hand, c);
                lemma_card_ranks(i as int);
                lemma_count_or_le(ranks_of(hand), ranks_of(c), 13);
                lemma_eval_hand_type(
                    crate::eval::spades_of(hand | c),
                    crate::eval::clubs_of(hand | c),
                    crate::eval::diamonds_of(hand | c),
                    crate::eval::hearts_of(hand | c),
                    n_cards as int + 1,
                );
            }
            let next_val = Eval::eval_n(&next_hand, n_cards + 1);
            let next_type = HandType::from_usize(next_val.hand_type() as usize).unwrap();
            if next_type.as_usize() > (current_type as usize) {
                results.add(next_type, card_mask);
            }
        }
        proof {
            let k = i as int + 1;
            assert forall|t: int| 0 <= t < 9 implies masks_in((#[trigger] results.outs_by_type@[t])@) == outs_below(hand, n_cards as int, t, k) by {
                assert(masks_in(before[t]@) == outs_below(hand, n_cards as int, t, k - 1));
                if !card_in(hand, k - 1) && type_of(eval_mask_value(hand | card_mask_value(k - 1), n_cards + 1)) == t
                    && t > type_of(eval_mask_value(hand, n_cards as int)) {
                    assert(masks_in(results.outs_by_type@[t]@) =~= masks_in(before[t]@).push(card_mask_value(k - 1)));
                } else {
                    assert(results.outs_by_type@[t] == before[t]);
                }
            }
        }
        i = i + 1;
    }
    proof {
        assert forall|t: int, c: int|
            0 <= t < 9 && 0 <= c < 52 && cards_of(hand).len() <= 6 && !card_in(hand, c)
                && type_of(eval_mask_value(hand | card_mask_value(c), cards_of(hand).len() as int + 1)) == t
                && t > type_of(eval_mask_value(hand, cards_of(hand).len() as int))
                implies masks_in((#[trigger] results.outs_by_type@[t])@).contains(#[trigger] card_mask_value(c)) by {
            lemma_outs_complete(hand, t, c);
            assert(masks_in(results.outs_by_type@[t]@) == outs_below(hand, n_cards as int, t, 52));
        }
    }
    results
}

proof fn lemma_outs_below(hand: u64, n: int, t: int, k: int, j: int)
    requires
        0 <= j < outs_below(hand, n, t, k).len(),
    ensures
        exists|c: int|
            0 <= c < k && !card_in(hand, c) && #[trigger] card_mask_value(c) == outs_below(hand, n, t, k)[j]
                && type_of(eval_mask_value(hand | card_mask_value(c), n + 1)) == t && t > type_of(
                eval_mask_value(hand, n),
            ),
    decreases k,
{
    if k > 0 {
        let prev = outs_below(hand, n, t, k - 1);
        if j < prev.len() {
            lemma_outs_below(hand, n, t, k - 1, j);
            let c = choose|c: int|
                0 <= c < k - 1 && !card_in(hand, c) && #[trigger] card_mask_value(c) == prev[j]
                    && type_of(eval_mask_value(hand | card_mask_value(c), n + 1)) == t && t > type_of(
                    eval_mask_value(hand, n),
                );
            assert(card_mask_value(c) == outs_below(hand, n, t, k)[j]);
        } else {
            assert(card_mask_value(k - 1) == outs_below(hand, n, t, k)[j]);
        }
    }
}

/// Every out of hand type `t` is a card left in the deck whose addition makes
/// a hand of type `t`, strictly better than the type the hand has now.
pub proof fn lemma_outs_improve(hand: u64, t: int, j: int)
    requires
        0 <= j < outs_of(hand, t).len(),
    ensures
        exists|c: int|
            0 <= c < 52 && !card_in(hand, c) && #[trigger] card_mask_value(c) == outs_of(hand, t)[j]
                && type_of(eval_mask_value(hand | card_mask_value(c), cards_of(hand).len() as int + 1)) == t
                && t > type_of(eval_mask_value(hand, cards_of(hand).len() as int)),
{
    lemma_outs_below(hand, cards_of(hand).len() as int, t, 52, j);
}


proof fn lemma_outs_below_complete(hand: u64, n: int, t: int, k: int, c: int)
    requires
        0 <= c < k,
        !card_in(hand, c),
        type_of(eval_mask_value(hand | card_mask_value(c), n + 1)) == t,
        t > type_of(eval_mask_value(hand, n)),
    ensures
        outs_below(hand, n, t, k).contains(card_mask_value(c)),
    decreases k,
{
    let prev = outs_below(hand, n, t, k - 1);
    if c == k - 1 {
        assert(outs_below(hand, n, t, k)[prev.len() as int] == card_mask_value(c));
    } else {
        lemma_outs_below_complete(hand, n, t, k - 1, c);
        let j = choose|j: int| 0 <= j < prev.len() && prev[j] == card_mask_value(c);
        assert(outs_below(hand, n, t, k)[j] == card_mask_value(c));
    }
}

/// For a hand of at most six known cards, every card left in the deck whose
/// addition makes a hand of type `t`, strictly better than the type the hand
/// has now, is an out of type `t` (with `lemma_outs_improve`: the outs are
/// exactly those cards).
pub proof fn lemma_outs_complete(hand: u64, t: int, c: int)
    requires
        cards_of(hand).len() <= 6,
        0 <= c < 52,
        !card_in(hand, c),
        type_of(eval_mask_value(hand | card_mask_value(c), cards_of(hand).len() as int + 1)) == t,
        t > type_of(eval_mask_value(hand, cards_of(hand).len() as int)),
    ensures
        outs_of(hand, t).contains(card_mask_value(c)),
{
    lemma_outs_below_complete(hand, cards_of(hand).len() as int, t, 52, c);
}


/// Adding to `hand` the card of suit `s` and rank `x`, which it lacks, adds `x`
/// to the ranks of that suit and leaves the other suits as they were.
proof fn lemma_add_suit_card(hand: u64, s: int, x: int)
    requires
        0 <= s < 4,
        0 <= x < 13,
        !has_rank(suit_ranks(hand, s), x),
    ensures
        !card_in(hand, 13 * s + x),
        forall|i: int, y: int| 0 <= i < 4 && 0 <= y < 13 ==> #[trigger] has_rank(suit_ranks(hand | card_mask_value(13 * s + x), i), y)
            == (has_rank(suit_ranks(hand, i), y) || (i == s && y == x)),
        forall|i: int| 0 <= i < 4 ==> #[trigger] nbits(suit_ranks(hand | card_mask_value(13 * s + x), i)) == nbits(suit_ranks(hand, i))
            + if i == s { 1int } else { 0int },
{
    let c = 13 * s + x;
    let m2 = hand | card_mask_value(c);
    assert forall|i: int, y: int| 0 <= i < 4 && 0 <= y < 13 implies #[trigger] has_rank(suit_ranks(m2, i), y)
        == (has_rank(suit_ranks(hand, i), y) || (i == s && y == x)) by {
        crate::eval::lemma_suit_bits(hand, y);
        crate::eval::lemma_suit_bits(m2, y);
        crate::deck::reduced::lemma_card_in_or(hand, c, 13 * i + y);
    }
    crate::eval::lemma_suit_bits(hand, x);
    assert(!card_in(hand, c));
    assert forall|i: int| 0 <= i < 4 implies #[trigger] nbits(suit_ranks(m2, i)) == nbits(suit_ranks(hand, i))
        + if i == s { 1int } else { 0int } by {
        if i == s {
            assert(has_rank(suit_ranks(m2, i), x));
            crate::eval::lemma_remove_rank(suit_ranks(m2, i), x);
            assert forall|y: int| 0 <= y < 13 implies has_rank(suit_ranks(m2, i) ^ (1u32 << (x as u32)), y)
                == has_rank(suit_ranks(hand, i), y) by {
                assert(has_rank(suit_ranks(m2, i), y) == (has_rank(suit_ranks(hand, i), y) || (i == s && y == x)));
            }
            crate::ranks::lemma_count_same(suit_ranks(m2, i) ^ (1u32 << (x as u32)), suit_ranks(hand, i), 13);
        } else {
            assert forall|y: int| 0 <= y < 13 implies has_rank(suit_ranks(m2, i), y) == has_rank(suit_ranks(hand, i), y) by {
                assert(has_rank(suit_ranks(m2, i), y) == (has_rank(suit_ranks(hand, i), y) || (i == s && y == x)));
            }
            crate::ranks::lemma_count_same(suit_ranks(m2, i), suit_ranks(hand, i), 13);
        }
    }
}

/// A hand of at most six known cards holding four cards of one suit draws to a
/// flush: each card of that suit left in the deck is an out, of type flush, or
/// of type straight flush when the suit's ranks with it hold a run of five.
pub proof fn lemma_flush_draw_outs(hand: u64, s: int, x: int)
    requires
        cards_of(hand).len() <= 6,
        0 <= s < 4,
        0 <= x < 13,
        nbits(suit_ranks(hand, s)) == 4,
        !has_rank(suit_ranks(hand, s), x),
    ensures
        ({
            let c = 13 * s + x;
            let t = if crate::eval::has_straight(suit_ranks(hand | card_mask_value(c), s)) { 8int } else { 5int };
            outs_of(hand, t).contains(card_mask_value(c))
        }),
{
    let c = 13 * s + x;
    let m2 = hand | card_mask_value(c);
    let n = cards_of(hand).len() as int;
    crate::eval::lemma_type_facts(hand);
    crate::eval::lemma_type_facts(m2);
    lemma_add_suit_card(hand, s, x);
    assert(nbits(suit_ranks(m2, 0)) == nbits(hearts_of(m2)));
    let n0 = nbits(suit_ranks(hand, 0));
    let n1 = nbits(suit_ranks(hand, 1));
    let n2 = nbits(suit_ranks(hand, 2));
    let n3 = nbits(suit_ranks(hand, 3));
    assert(nbits(suit_ranks(m2, 0)) == n0 + if s == 0 { 1int } else { 0int });
    assert(nbits(suit_ranks(m2, 1)) == n1 + if s == 1 { 1int } else { 0int });
    assert(nbits(suit_ranks(m2, 2)) == n2 + if s == 2 { 1int } else { 0int });
    assert(nbits(suit_ranks(m2, 3)) == n3 + if s == 3 { 1int } else { 0int });
    let suit = suit_ranks(m2, s);
    let r2 = spades_of(m2) | clubs_of(m2) | diamonds_of(m2) | hearts_of(m2);
    assert forall|y: int| 0 <= y < 13 && has_rank(suit, y) implies has_rank(r2, y) by {
        assert(has_rank(r2, y) == (crate::eval::rank_mult(spades_of(m2), clubs_of(m2), diamonds_of(m2), hearts_of(m2), y) >= 1));
    }
    crate::eval::lemma_count_mono(suit, r2, 13);
    let old = suit_ranks(hand, s);
    let r1 = spades_of(hand) | clubs_of(hand) | diamonds_of(hand) | hearts_of(hand);
    assert forall|y: int| 0 <= y < 13 && has_rank(old, y) implies has_rank(r1, y) by {
        assert(has_rank(r1, y) == (crate::eval::rank_mult(spades_of(hand), clubs_of(hand), diamonds_of(hand), hearts_of(hand), y) >= 1));
    }
    crate::eval::lemma_count_mono(old, r1, 13);
    crate::eval::lemma_eval_type(spades_of(m2), clubs_of(m2), diamonds_of(m2), hearts_of(m2), n + 1);
    crate::eval::lemma_eval_type(spades_of(hand), clubs_of(hand), diamonds_of(hand), hearts_of(hand), n);
    let t = if crate::eval::has_straight(suit) { 8int } else { 5int };
    assert(type_of(eval_mask_value(m2, n + 1)) == t);
    assert(type_of(eval_mask_value(hand, n)) < 5);
    lemma_outs_complete(hand, t, c);
}


/// A run of five ranks topped by `t`, and the rank `y` outside it when `y` is
/// not -1, are all counted.
proof fn lemma_run_count(r: u32, t: int, y: int, k: int)
    requires
        4 <= t <= 12,
        crate::ranks::has_run(r, t),
        0 <= k <= 13,
        y == -1 || (0 <= y < 13 && has_rank(r, y) && !(t - 4 <= y <= t)),
    ensures
        crate::ranks::asc_below(r, k).len() >= (if k <= t - 4 { 0int } else if k <= t + 1 { k - (t - 4) } else { 5int })
            + if 0 <= y < k { 1int } else { 0int },
    decreases k,
{
    if k > 0 {
        lemma_run_count(r, t, y, k - 1);
    }
}

/// The five wheel ranks and a rank `z` from the six to the king are all counted.
proof fn lemma_wheel_extra_count(r: u32, z: int, k: int)
    requires
        crate::ranks::has_wheel(r),
        4 <= z <= 11,
        has_rank(r, z),
        0 <= k <= 13,
    ensures
        crate::ranks::asc_below(r, k).len() >= (if k <= 4 { k } else { 4int }) + (if k > z { 1int } else { 0int })
            + if k > 12 { 1int } else { 0int },
    decreases k,
{
    if k > 0 {
        lemma_wheel_extra_count(r, z, k - 1);
    }
}

/// Five ranks spanning more than five in a row, one of them from the six to the
/// king, make no straight.
proof fn lemma_no_straight_five(r: u32, u: int, w: int, z: int)
    requires
        nbits(r) == 5,
        0 <= u < 13,
        0 <= w < 13,
        w - u > 4,
        has_rank(r, u),
        has_rank(r, w),
        4 <= z <= 11,
        has_rank(r, z),
    ensures
        !crate::eval::has_straight(r),
{
    if crate::ranks::has_wheel(r) {
        lemma_wheel_extra_count(r, z, 13);
    }
    if exists|t: int| 4 <= t <= 12 && #[trigger] crate::ranks::has_run(r, t) {
        let t = choose|t: int| 4 <= t <= 12 && #[trigger] crate::ranks::has_run(r, t);
        if u < t - 4 {
            lemma_run_count(r, t, u, 13);
        } else {
            lemma_run_count(r, t, w, 13);
        }
    }
}

/// A hand of at most six known cards holding four cards of one suit has an out
/// of type flush: a card of that suit left in the deck that makes a flush and
/// no straight flush.
pub proof fn lemma_flush_draw_has_flush_out(hand: u64, s: int)
    requires
        cards_of(hand).len() <= 6,
        0 <= s < 4,
        nbits(suit_ranks(hand, s)) == 4,
    ensures
        exists|x: int| 0 <= x < 13 && !has_rank(suit_ranks(hand, s), x)
            && #[trigger] outs_of(hand, 5).contains(card_mask_value(13 * s + x)),
{
    let sr = suit_ranks(hand, s);
    crate::eval::lemma_top_facts(sr);
    let hi = crate::eval::top_nth(sr, 0);
    let lo = crate::eval::top_nth(sr, 3);
    assert forall|y: int| 0 <= y < 13 && #[trigger] has_rank(sr, y) implies lo <= y <= hi by {
        let j = choose|j: int| 0 <= j < nbits(sr) && #[trigger] crate::eval::top_nth(sr, j) == y;
        if j < 3 {
            assert(crate::eval::top_nth(sr, j) > crate::eval::top_nth(sr, 3));
        }
        if j > 0 {
            assert(crate::eval::top_nth(sr, 0) > crate::eval::top_nth(sr, j));
        }
    }
    assert(hi > lo);
    let (x, u, w, z) = if lo >= 5 {
        (lo - 5, lo - 5, hi, lo)
    } else if hi <= 7 {
        (hi + 5, lo, hi + 5, if hi + 5 <= 11 { hi + 5 } else { hi })
    } else if hi <= 11 {
        (12int, lo, 12int, hi)
    } else {
        if has_rank(sr, 4) && has_rank(sr, 5) && has_rank(sr, 6) && has_rank(sr, 7) && has_rank(sr, 8) {
            lemma_run_count(sr, 8, -1, 13);
        }
        let x = if !has_rank(sr, 4) { 4int } else if !has_rank(sr, 5) { 5int } else if !has_rank(sr, 6) { 6int }
            else if !has_rank(sr, 7) { 7int } else { 8int };
        (x, lo, 12int, x)
    };
    assert(!has_rank(sr, x));
    lemma_add_suit_card(hand, s, x);
    let c = 13 * s + x;
    let nr = suit_ranks(hand | card_mask_value(c), s);
    assert(has_rank(nr, u) && has_rank(nr, w) && has_rank(nr, z));
    lemma_no_straight_five(nr, u, w, z);
    lemma_flush_draw_outs(hand, s, x);
    assert(outs_of(hand, 5).contains(card_mask_value(13 * s + x)));
}

} // verus!

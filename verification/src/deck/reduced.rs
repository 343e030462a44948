//! What the short (36-card) and Manila (32-card) decks share: their cards are
//! the highest ranks of each suit of the standard deck, numbered suit by suit.
use vstd::prelude::*;
use crate::bits::lemma_bit_test;
use crate::deck::std_deck::{card_chars, string_card, StdDeck};
use crate::tables::{
    StdDeckCardMask, card_bit, card_in, card_mask_value, cards_below, cards_of, joker_card_in, joker_cards_below,
};
use crate::text::{is_white_space, is_whitespace, push_char, push_str};

verus! {

/// The standard-deck index of card `i` of a deck keeping `per` ranks per suit,
/// from rank `low` up.
pub open spec fn reduced_to_std(i: int, per: int, low: int) -> int {
    (i / per) * 13 + (i % per + low)
}

/// The card of a deck keeping `per` ranks per suit from rank `low` up that is
/// standard-deck card `j`, if it is in that deck.
pub open spec fn reduced_from_std(j: int, per: int, low: int) -> Option<int> {
    if j % 13 < low {
        None
    } else {
        Some((j / 13) * per + (j % 13 - low))
    }
}

/// The card of such a deck named by `s`.
pub open spec fn reduced_string_card(s: Seq<char>, per: int, low: int) -> Option<int> {
    match string_card(s) {
        Some(c) => reduced_from_std(c, per, low),
        None => None,
    }
}

/// Reading the name of a card of a deck keeping the `per` highest ranks of each
/// suit gives back the card.
pub proof fn lemma_reduced_card_name_roundtrip(i: int, per: int, low: int)
    requires
        0 < per,
        0 <= low,
        per + low == 13,
        0 <= i < 4 * per,
    ensures
        reduced_string_card(card_chars(reduced_to_std(i, per, low)), per, low) == Some(i),
{
    let q = i / per;
    let r = i % per;
    assert(0 <= q < 4 && 0 <= r < per && i == q * per + r) by (nonlinear_arith)
        requires
            0 < per,
            0 <= i < 4 * per,
            q == i / per,
            r == i % per,
    ;
    let j = reduced_to_std(i, per, low);
    assert(j == q * 13 + (r + low));
    assert(0 <= r + low < 13);
    assert(j % 13 == r + low && j / 13 == q) by (nonlinear_arith)
        requires
            j == q * 13 + (r + low),
            0 <= r + low < 13,
    ;
    crate::deck::std_deck::lemma_card_name_roundtrip(j);
}

/// The words of `s` (maximal runs of characters that are not white space), the
/// word `cur` having been started before `s`.
pub open spec fn split_words(s: Seq<char>, cur: Seq<char>) -> Seq<Seq<char>>
    decreases s.len(),
{
    if s.len() == 0 {
        if cur.len() > 0 {
            seq![cur]
        } else {
            seq![]
        }
    } else if is_white_space(s[0]) {
        (if cur.len() > 0 {
            seq![cur]
        } else {
            seq![]
        }) + split_words(s.skip(1), seq![])
    } else {
        split_words(s.skip(1), cur.push(s[0]))
    }
}

/// The words of `s`, as `str::split_whitespace` gives them.
pub open spec fn words(s: Seq<char>) -> Seq<Seq<char>> {
    split_words(s, seq![])
}

/// Outcome of adding the cards named by the words `ws` to the mask `m` holding `n`
/// cards: the final mask and count, or `msg` followed by the first word naming no card.
pub open spec fn reduced_parse(ws: Seq<Seq<char>>, per: int, low: int, msg: Seq<char>, m: u64, n: nat) -> Result<(u64, nat), Seq<char>>
    decreases ws.len(),
{
    if ws.len() == 0 {
        Ok((m, n))
    } else {
        match reduced_string_card(ws[0], per, low) {
            Some(c) => reduced_parse(ws.skip(1), per, low, msg, m | (1u64 << (c as u64)), n + 1),
            None => Err(msg + ws[0]),
        }
    }
}

proof fn lemma_split_skip(s: Seq<char>, cur: Seq<char>, i: int)
    requires
        0 <= i < s.len(),
    ensures
        split_words(s.skip(i), cur) == if is_white_space(s[i]) {
            (if cur.len() > 0 {
                seq![cur]
            } else {
                seq![]
            }) + split_words(s.skip(i + 1), seq![])
        } else {
            split_words(s.skip(i + 1), cur.push(s[i]))
        },
{
    assert(s.skip(i).skip(1) =~= s.skip(i + 1));
}

proof fn lemma_parse_concat(a: Seq<Seq<char>>, b: Seq<Seq<char>>, per: int, low: int, msg: Seq<char>, m: u64, n: nat)
    requires
        a.len() <= 1,
    ensures
        reduced_parse(a + b, per, low, msg, m, n) == match reduced_parse(a, per, low, msg, m, n) {
            Ok((m2, n2)) => reduced_parse(b, per, low, msg, m2, n2),
            Err(e) => Err(e),
        },
{
    reveal_with_fuel(reduced_parse, 2);
    if a.len() == 1 {
        assert((a + b).skip(1) =~= b);
        assert((a + b)[0] == a[0]);
        assert(a.skip(1) =~= Seq::<Seq<char>>::empty());
    } else {
        assert(a + b =~= b);
    }
}

/// The standard-deck index of card `i` (see `reduced_to_std`).
pub fn reduced_to_std_index(i: usize, per: usize, low: usize) -> (r: usize)
    requires
        1 <= per <= 13,
        low <= 13,
        i / per * 13 + 26 <= usize::MAX,
    ensures
        r == reduced_to_std(i as int, per as int, low as int),
{
    let suit = i / per;
    let rank_offset = i % per;
    suit * 13 + (rank_offset + low)
}

/// The card that standard-deck card `j` is (see `reduced_from_std`).
pub fn reduced_from_std_index(j: usize, per: usize, low: usize) -> (r: Option<usize>)
    requires
        j / 13 * per + 13 <= usize::MAX,
        1 <= per <= 13,
        low + per == 13,
    ensures
        r matches Some(v) ==> reduced_from_std(j as int, per as int, low as int) == Some(v as int),
        r is None ==> reduced_from_std(j as int, per as int, low as int) is None,
{
    let suit = j / 13;
    let rank = j % 13;
    if rank < low {
        None
    } else {
        Some(suit * per + (rank - low))
    }
}

/// The card named by `s` (see `reduced_string_card`).
pub fn reduced_string_to_card(s: &str, per: usize, low: usize) -> (r: Option<usize>)
    requires
        1 <= per <= 13,
        low + per == 13,
    ensures
        r matches Some(v) ==> reduced_string_card(s@, per as int, low as int) == Some(v as int) && v < 4 * per,
        r is None ==> reduced_string_card(s@, per as int, low as int) is None,
{
    match StdDeck::string_to_card(s) {
        Some(j) => {
            proof {
                assert(j / 13 * per <= 3 * 13) by (nonlinear_arith)
                    requires j < 52, per <= 13;
            }
            let r = reduced_from_std_index(j, per, low);
            proof {
                if let Some(v) = r {
                    assert((j / 13) * per + (j % 13 - low) < 4 * per) by (nonlinear_arith)
                        requires j < 52, j % 13 - low < per, j % 13 >= low, per >= 1;
                }
            }
            r
        },
        None => None,
    }
}

/// Reads the words of `s`, each naming a card (see `reduced_parse`, started on
/// the empty mask), failing with `msg` and the first word naming none.
pub fn reduced_string_to_mask(s: &str, per: usize, low: usize, msg: &str) -> (res: Result<(u64, usize), String>)
    requires
        1 <= per <= 13,
        low + per == 13,
        4 * per <= 64,
    ensures
        match (res, reduced_parse(words(s@), per as int, low as int, msg@, 0, 0)) {
            (Ok((m, n)), Ok((sm, sn))) => m == sm && n == sn,
            (Err(e), Err(se)) => e@ == se,
            _ => false,
        },
{
    let len = s.unicode_len();
    let mut m: u64 = 0;
    let mut n: usize = 0;
    let mut cur = String::new();
    let mut i: usize = 0;
    proof {
        assert(s@.skip(0) =~= s@);
    }
    while i < len
        invariant
            len == s@.len(),
            i <= len,
            n + (if cur@.len() > 0 { 1int } else { 0int }) <= i,
            1 <= per <= 13,
            low + per == 13,
            4 * per <= 64,
            reduced_parse(words(s@), per as int, low as int, msg@, 0, 0) == reduced_parse(
                split_words(s@.skip(i as int), cur@),
                per as int,
                low as int,
                msg@,
                m,
                n as nat,
            ),
        decreases len - i,
    {
        let c = s.get_char(i);
        proof {
            lemma_split_skip(s@, cur@, i as int);
        }
        if is_whitespace(c) {
            if cur.unicode_len() > 0 {
                let ghost rest = split_words(s@.skip(i as int + 1), seq![]);
                proof {
                    lemma_parse_concat(seq![cur@], rest, per as int, low as int, msg@, m, n as nat);
                    assert(seq![cur@].skip(1) =~= Seq::<Seq<char>>::empty());
                    reveal_with_fuel(reduced_parse, 2);
                }
                match reduced_string_to_card(cur.as_str(), per, low) {
                    Some(card) => {
                        m = m | (1u64 << (card as u64));
                        n = n + 1;
                    },
                    None => {
                        let mut e = String::new();
                        push_str(&mut e, msg);
                        push_str(&mut e, cur.as_str());
                        return Err(e);
                    },
                }
            } else {
                proof {
                    assert(Seq::<Seq<char>>::empty() + split_words(s@.skip(i as int + 1), seq![]) =~= split_words(s@.skip(i as int + 1), seq![]));
                }
            }
            cur = String::new();
        } else {
            push_char(&mut cur, c);
        }
        i = i + 1;
    }
    proof {
        assert(s@.skip(i as int) =~= Seq::<char>::empty());
    }
    if cur.unicode_len() > 0 {
        proof {
            assert(seq![cur@].skip(1) =~= Seq::<Seq<char>>::empty());
            reveal_with_fuel(reduced_parse, 2);
        }
        match reduced_string_to_card(cur.as_str(), per, low) {
            Some(card) => {
                m = m | (1u64 << (card as u64));
                n = n + 1;
            },
            None => {
                let mut e = String::new();
                push_str(&mut e, msg);
                push_str(&mut e, cur.as_str());
                return Err(e);
            },
        }
    }
    Ok((m, n))
}

/// The number of set bits among the lowest `k` bits of `m`.
pub open spec fn bits_below(m: u64, k: int) -> nat
    decreases k,
{
    if k <= 0 {
        0
    } else {
        bits_below(m, k - 1) + if (m >> ((k - 1) as u64)) & 1 == 1 {
            1nat
        } else {
            0nat
        }
    }
}

/// The number of set bits of `m`, as `u64::count_ones` gives it.
pub fn count_bits64(m: u64) -> (n: usize)
    ensures
        n == bits_below(m, 64),
{
    let mut n: usize = 0;
    let mut i: u64 = 0;
    while i < 64
        invariant
            i <= 64,
            n == bits_below(m, i as int),
            n <= i,
        decreases 64 - i,
    {
        if (m >> i) & 1 == 1 {
            n = n + 1;
        }
        i = i + 1;
    }
    n
}

/// The names of the cards `idx` of such a deck, separated by single spaces.
pub open spec fn reduced_cards_text(idx: Seq<int>, per: int, low: int) -> Seq<char>
    decreases idx.len(),
{
    if idx.len() == 0 {
        seq![]
    } else if idx.len() == 1 {
        card_chars(reduced_to_std(idx[0], per, low))
    } else {
        reduced_cards_text(idx.drop_last(), per, low) + seq![' '] + card_chars(reduced_to_std(idx.last(), per, low))
    }
}

/// The names of the cards below `ncards` of the mask `m` of such a deck, in
/// index order, separated by spaces.
pub fn reduced_mask_to_string(m: u64, ncards: usize, per: usize, low: usize) -> (s: String)
    requires
        ncards <= 64,
        1 <= per <= 13,
        low + per == 13,
    ensures
        s@ == reduced_cards_text(joker_cards_below(m, ncards as int), per as int, low as int),
{
    let mut s = String::new();
    let mut i: usize = 0;
    let mut first = true;
    while i < ncards
        invariant
            i <= ncards <= 64,
            1 <= per <= 13,
            low + per == 13,
            first == (joker_cards_below(m, i as int).len() == 0),
            s@ == reduced_cards_text(joker_cards_below(m, i as int), per as int, low as int),
        decreases ncards - i,
    {
        proof {
            lemma_bit_test(m, i as u64);
        }
        if m & (1u64 << (i as u64)) != 0 {
            let ghost prev = joker_cards_below(m, i as int);
            if !first {
                push_char(&mut s, ' ');
            }
            let t = StdDeck::card_to_string(reduced_to_std_index(i, per, low));
            push_str(&mut s, t.as_str());
            first = false;
            proof {
                let cur = joker_cards_below(m, i as int + 1);
                assert(cur =~= prev.push(i as int));
                assert(cur.drop_last() =~= prev);
                if prev.len() == 0 {
                    assert(s@ =~= card_chars(reduced_to_std(i as int, per as int, low as int)));
                } else {
                    assert(s@ =~= reduced_cards_text(prev, per as int, low as int) + seq![' '] + card_chars(reduced_to_std(i as int, per as int, low as int)));
                }
            }
        }
        i = i + 1;
    }
    s
}

/// The standard-deck mask of the cards below `ncards` of the mask `m` of such a deck.
pub open spec fn reduced_std_mask(m: u64, k: int, per: int, low: int) -> u64
    decreases k,
{
    if k <= 0 {
        0
    } else if joker_card_in(m, k - 1) {
        reduced_std_mask(m, k - 1, per, low) | card_mask_value(reduced_to_std(k - 1, per, low))
    } else {
        reduced_std_mask(m, k - 1, per, low)
    }
}

/// The standard-deck mask of the cards below `ncards` of `m` (see `reduced_std_mask`).
pub fn reduced_to_std_mask(m: u64, ncards: usize, per: usize, low: usize) -> (r: StdDeckCardMask)
    requires
        ncards <= 4 * per,
        4 * per <= 64,
        1 <= per <= 13,
        low + per == 13,
    ensures
        r.mask == reduced_std_mask(m, ncards as int, per as int, low as int),
{
    let mut std_mask = StdDeckCardMask::new();
    let mut i: usize = 0;
    while i < ncards
        invariant
            i <= ncards <= 4 * per,
            4 * per <= 64,
            1 <= per <= 13,
            low + per == 13,
            std_mask.mask == reduced_std_mask(m, i as int, per as int, low as int),
        decreases ncards - i,
    {
        proof {
            lemma_bit_test(m, i as u64);
            assert(i / per * 13 + 26 <= usize::MAX) by (nonlinear_arith)
                requires i < 4 * per, per >= 1;
            assert((i / per) * 13 + (i % per + low) < 52) by (nonlinear_arith)
                requires i < 4 * per, per >= 1, low + per == 13;
        }
        if m & (1u64 << (i as u64)) != 0 {
            std_mask.set(reduced_to_std_index(i, per, low));
        }
        i = i + 1;
    }
    std_mask
}

proof fn lemma_string_card_bound(s: Seq<char>, per: int, low: int)
    requires
        1 <= per <= 13,
        low + per == 13,
    ensures
        reduced_string_card(s, per, low) matches Some(c) ==> 0 <= c < 4 * per,
{
    if let Some(j) = string_card(s) {
        assert(0 <= j < 52);
        if let Some(c) = reduced_from_std(j, per, low) {
            assert((j / 13) * per + (j % 13 - low) < 4 * per) by (nonlinear_arith)
                requires 0 <= j < 52, j % 13 >= low, j % 13 < 13, low + per == 13, per >= 1;
            assert(0 <= (j / 13) * per) by (nonlinear_arith)
                requires 0 <= j, per >= 1;
        }
    }
}

proof fn lemma_or_bit32(m: u64, c: u64)
    by (bit_vector)
    requires
        m <= 0xFFFF_FFFF,
        c < 32,
    ensures
        m | (1u64 << c) <= 0xFFFF_FFFF,
{
}

/// Reading cards of a deck of at most 32 cards keeps the mask within 32 bits.
pub proof fn lemma_parse_u32(ws: Seq<Seq<char>>, per: int, low: int, msg: Seq<char>, m: u64, n: nat)
    requires
        1 <= per <= 8,
        low + per == 13,
        m <= 0xFFFF_FFFF,
    ensures
        reduced_parse(ws, per, low, msg, m, n) matches Ok((sm, sn)) ==> sm <= 0xFFFF_FFFF,
    decreases ws.len(),
{
    if ws.len() > 0 {
        lemma_string_card_bound(ws[0], per, low);
        if let Some(c) = reduced_string_card(ws[0], per, low) {
            lemma_or_bit32(m, c as u64);
            lemma_parse_u32(ws.skip(1), per, low, msg, m | (1u64 << (c as u64)), n + 1);
        }
    }
}


/// Adding card `x` to a standard-deck mask adds that card and no other.
pub(crate) proof fn lemma_card_in_or(a: u64, x: int, j: int)
    requires
        0 <= x < 52,
        0 <= j < 52,
    ensures
        card_in(a | card_mask_value(x), j) == (card_in(a, j) || x == j),
        !card_in(0u64, j),
{
    crate::deck::std_deck::lemma_card_bit_range(x);
    crate::deck::std_deck::lemma_card_bit_range(j);
    let bx = card_bit(x) as u64;
    let bj = card_bit(j) as u64;
    crate::bits::lemma_mask_bits(a, bx, bj, 0, 0, 0, 0, 0, 0);
    if bx == bj {
        assert(x % 13 + 16 * (3 - x / 13) == j % 13 + 16 * (3 - j / 13));
        assert(x == j) by (nonlinear_arith)
            requires
                0 <= x < 52,
                0 <= j < 52,
                x % 13 + 16 * (3 - x / 13) == j % 13 + 16 * (3 - j / 13),
        ;
    }
}

/// Card `i` of a deck keeping `per` ranks per suit from rank `low` up is the
/// standard-deck card `j` exactly when `j` is that deck's card `i`.
proof fn lemma_reduced_from_to(i: int, j: int, per: int, low: int)
    requires
        1 <= per <= 13,
        low + per == 13,
        0 <= i < 4 * per,
        0 <= j < 52,
    ensures
        (reduced_from_std(j, per, low) == Some(i)) == (j == reduced_to_std(i, per, low)),
{
    let q = i / per;
    let r = i % per;
    assert(0 <= q < 4 && 0 <= r < per && i == q * per + r) by (nonlinear_arith)
        requires
            1 <= per,
            0 <= i < 4 * per,
            q == i / per,
            r == i % per,
    ;
    if j == reduced_to_std(i, per, low) {
        assert(j % 13 == r + low && j / 13 == q) by (nonlinear_arith)
            requires
                j == q * 13 + (r + low),
                0 <= r + low < 13,
        ;
    }
    if reduced_from_std(j, per, low) == Some(i) {
        let jq = j / 13;
        let jr = j % 13;
        assert(0 <= jr < 13 && j == jq * 13 + jr) by (nonlinear_arith)
            requires
                0 <= j,
                jq == j / 13,
                jr == j % 13,
        ;
        assert(i == jq * per + (jr - low));
        assert(0 <= jr - low < per);
        assert(q == jq && r == jr - low) by (nonlinear_arith)
            requires
                i == jq * per + (jr - low),
                0 <= jr - low < per,
                i == q * per + r,
                0 <= r < per,
                1 <= per,
        ;
    }
}

/// The standard-deck mask of the cards below `k` of the mask `m` holds exactly
/// the standard-deck cards of the cards of `m` below `k`.
pub proof fn lemma_reduced_std_cards(m: u64, k: int, per: int, low: int, j: int)
    requires
        1 <= per <= 13,
        low + per == 13,
        0 <= k <= 4 * per,
        0 <= j < 52,
    ensures
        card_in(reduced_std_mask(m, k, per, low), j) == (reduced_from_std(j, per, low) matches Some(i) && i < k
            && joker_card_in(m, i)),
    decreases k,
{
    if k > 0 {
        lemma_reduced_std_cards(m, k - 1, per, low, j);
        lemma_reduced_from_to(k - 1, j, per, low);
        let x = reduced_to_std(k - 1, per, low);
        assert(0 <= x < 52) by {
            let q = (k - 1) / per;
            let r = (k - 1) % per;
            assert(0 <= q < 4 && 0 <= r < per) by (nonlinear_arith)
                requires
                    1 <= per,
                    0 <= k - 1 < 4 * per,
                    q == (k - 1) / per,
                    r == (k - 1) % per,
            ;
        }
        if joker_card_in(m, k - 1) {
            lemma_card_in_or(reduced_std_mask(m, k - 1, per, low), x, j);
        }
    } else {
        lemma_card_in_or(0u64, 0, j);
    }
}


/// Adding a card that a standard-deck mask lacks adds one to its count below `k`.
proof fn lemma_cards_below_or(a: u64, x: int, k: int)
    requires
        0 <= x < 52,
        !card_in(a, x),
        0 <= k <= 52,
    ensures
        cards_below(a | card_mask_value(x), k).len() == cards_below(a, k).len() + if x < k { 1int } else { 0int },
    decreases k,
{
    if k > 0 {
        lemma_cards_below_or(a, x, k - 1);
        lemma_card_in_or(a, x, k - 1);
    }
}

/// The standard-deck mask of the cards below `k` of the mask `m` counts as many
/// cards as `m` holds below `k`.
pub proof fn lemma_reduced_std_count(m: u64, k: int, per: int, low: int)
    requires
        1 <= per <= 13,
        low + per == 13,
        0 <= k <= 4 * per,
    ensures
        cards_of(reduced_std_mask(m, k, per, low)).len() == joker_cards_below(m, k).len(),
    decreases k,
{
    if k > 0 {
        lemma_reduced_std_count(m, k - 1, per, low);
        if joker_card_in(m, k - 1) {
            let prev = reduced_std_mask(m, k - 1, per, low);
            let x = reduced_to_std(k - 1, per, low);
            assert(0 <= x < 52) by {
                let q = (k - 1) / per;
                let r = (k - 1) % per;
                assert(0 <= q < 4 && 0 <= r < per) by (nonlinear_arith)
                    requires
                        1 <= per,
                        0 <= k - 1 < 4 * per,
                        q == (k - 1) / per,
                        r == (k - 1) % per,
                ;
            }
            lemma_reduced_from_to(k - 1, x, per, low);
            lemma_reduced_std_cards(m, k - 1, per, low, x);
            assert(!card_in(prev, x));
            lemma_cards_below_or(prev, x, 52);
        }
    } else {
        assert forall|j: int| 0 <= j < 52 implies !card_in(0u64, j) by {
            lemma_card_in_or(0u64, 0, j);
        }
        lemma_no_cards_count(52);
    }
}

/// The empty standard-deck mask holds no card.
proof fn lemma_no_cards_count(k: int)
    requires
        0 <= k <= 52,
        forall|j: int| 0 <= j < 52 ==> !card_in(0u64, j),
    ensures
        cards_below(0u64, k).len() == 0,
    decreases k,
{
    if k > 0 {
        lemma_no_cards_count(k - 1);
    }
}

} // verus!

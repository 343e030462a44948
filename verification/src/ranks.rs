//! Helpers over 13-bit rank masks: bit `i` set means rank `i` is present,
//! rank 0 being the deuce and rank 12 the ace.
use vstd::prelude::*;

verus! {

/// Number of ranks in a suit.
pub const RANK_COUNT: u32 = 13;

/// Largest value of a 13-bit rank mask, plus one.
pub const N_RANKMASKS: u32 = 8192;

/// True when bit `i` of the mask `r` is set.
pub open spec fn has_rank(r: u32, i: int) -> bool {
    0 <= i < 32 && (r >> (i as u32)) & 1u32 == 1u32
}

/// The ranks below `k` present in `r`, in increasing order.
pub open spec fn asc_below(r: u32, k: int) -> Seq<int>
    decreases k,
{
    if k <= 0 {
        seq![]
    } else {
        asc_below(r, k - 1) + if has_rank(r, k - 1) {
            seq![k - 1]
        } else {
            seq![]
        }
    }
}

/// The ranks from `k` up to the ace present in `r`, in decreasing order.
pub open spec fn desc_from(r: u32, k: int) -> Seq<int>
    decreases 13 - k,
{
    if k >= 13 {
        seq![]
    } else {
        desc_from(r, k + 1) + if has_rank(r, k) {
            seq![k]
        } else {
            seq![]
        }
    }
}

/// All ranks present in `r`, lowest first.
pub open spec fn ranks_asc(r: u32) -> Seq<int> {
    asc_below(r, 13)
}

/// All ranks present in `r`, highest first.
pub open spec fn ranks_desc(r: u32) -> Seq<int> {
    desc_from(r, 0)
}

/// The `j`-th element of `s`, or 0 past its end.
pub open spec fn nth_or_zero(s: Seq<int>, j: int) -> int {
    if 0 <= j < s.len() {
        s[j]
    } else {
        0
    }
}

/// Number of ranks present in a 13-bit rank mask.
pub open spec fn nbits(r: u32) -> nat {
    ranks_asc(r).len()
}

/// The highest rank present in `r`, or 0 when none is.
pub open spec fn top_rank(r: u32) -> int {
    nth_or_zero(ranks_desc(r), 0)
}

/// The lowest rank present in `r`, or 0 when none is.
pub open spec fn bottom_rank(r: u32) -> int {
    nth_or_zero(ranks_asc(r), 0)
}

pub proof fn lemma_asc_bounds(r: u32, k: int)
    ensures
        asc_below(r, k).len() <= if k < 0 { 0 } else { k },
        forall|j: int|
            0 <= j < asc_below(r, k).len() ==> 0 <= #[trigger] asc_below(r, k)[j] < k
                && has_rank(r, asc_below(r, k)[j]),
        forall|a: int, b: int|
            0 <= a < b < asc_below(r, k).len() ==> asc_below(r, k)[a] < asc_below(r, k)[b],
    decreases k,
{
    if k > 0 {
        lemma_asc_bounds(r, k - 1);
    }
}

pub proof fn lemma_desc_bounds(r: u32, k: int)
    ensures
        desc_from(r, k).len() <= if k > 13 { 0 } else { 13 - k },
        forall|j: int|
            0 <= j < desc_from(r, k).len() ==> k <= #[trigger] desc_from(r, k)[j] < 13
                && has_rank(r, desc_from(r, k)[j]),
        forall|a: int, b: int|
            0 <= a < b < desc_from(r, k).len() ==> desc_from(r, k)[a] > desc_from(r, k)[b],
    decreases 13 - k,
{
    if k < 13 {
        lemma_desc_bounds(r, k + 1);
    }
}

/// `asc_below(r, a)` is a prefix of `asc_below(r, b)` when `a <= b`.
pub proof fn lemma_asc_prefix(r: u32, a: int, b: int)
    requires
        a <= b,
    ensures
        asc_below(r, a).len() <= asc_below(r, b).len(),
        asc_below(r, b).subrange(0, asc_below(r, a).len() as int) =~= asc_below(r, a),
    decreases b - a,
{
    if a < b {
        lemma_asc_prefix(r, a, b - 1);
        if b > 0 {
            assert(asc_below(r, b).subrange(0, asc_below(r, b - 1).len() as int) =~= asc_below(
                r,
                b - 1,
            ));
        }
    }
}

/// `desc_from(r, b)` is a prefix of `desc_from(r, a)` when `a <= b`.
pub proof fn lemma_desc_prefix(r: u32, a: int, b: int)
    requires
        a <= b,
    ensures
        desc_from(r, b).len() <= desc_from(r, a).len(),
        desc_from(r, a).subrange(0, desc_from(r, b).len() as int) =~= desc_from(r, b),
    decreases b - a,
{
    if a < b {
        lemma_desc_prefix(r, a + 1, b);
        if a < 13 {
            assert(desc_from(r, a).subrange(0, desc_from(r, a + 1).len() as int) =~= desc_from(
                r,
                a + 1,
            ));
        }
    }
}

/// The ranks from `k` up and those below `k` together make all ranks of `r`.
pub proof fn lemma_desc_len(r: u32, k: int)
    requires
        0 <= k <= 13,
    ensures
        desc_from(r, k).len() + asc_below(r, k).len() == asc_below(r, 13).len(),
    decreases 13 - k,
{
    if k < 13 {
        lemma_desc_len(r, k + 1);
    }
}

/// A rank of `r` from `k` up is listed in `desc_from(r, k)`.
pub proof fn lemma_desc_complete(r: u32, k: int, y: int)
    requires
        0 <= k <= y < 13,
        has_rank(r, y),
    ensures
        exists|j: int| 0 <= j < desc_from(r, k).len() && #[trigger] desc_from(r, k)[j] == y,
    decreases 13 - k,
{
    if y == k {
        let j = desc_from(r, k + 1).len() as int;
        assert(desc_from(r, k)[j] == y);
    } else {
        lemma_desc_complete(r, k + 1, y);
        let j = choose|j: int| 0 <= j < desc_from(r, k + 1).len() && #[trigger] desc_from(r, k + 1)[j] == y;
        assert(desc_from(r, k)[j] == y);
    }
}

/// A rank of `r` below `k` is listed in `asc_below(r, k)`.
pub proof fn lemma_asc_complete(r: u32, k: int, y: int)
    requires
        0 <= y < k <= 13,
        has_rank(r, y),
    ensures
        exists|j: int| 0 <= j < asc_below(r, k).len() && #[trigger] asc_below(r, k)[j] == y,
    decreases k,
{
    if y == k - 1 {
        let j = asc_below(r, k - 1).len() as int;
        assert(asc_below(r, k)[j] == y);
    } else {
        lemma_asc_complete(r, k - 1, y);
        let j = choose|j: int| 0 <= j < asc_below(r, k - 1).len() && #[trigger] asc_below(r, k - 1)[j] == y;
        assert(asc_below(r, k)[j] == y);
    }
}

/// `a > b > c` are the three highest ranks of `r` other than `p`: each is a
/// rank of `r` other than `p`, and every further rank of `r` but `p` is below `c`.
pub open spec fn highest_three_except(r: u32, p: int, a: int, b: int, c: int) -> bool {
    &&& 13 > a > b > c >= 0
    &&& has_rank(r, a) && has_rank(r, b) && has_rank(r, c)
    &&& a != p && b != p && c != p
    &&& forall|y: int|
        0 <= y < 13 && #[trigger] has_rank(r, y) && y != p && y != a && y != b && y != c ==> y < c
}

/// `k` is the highest rank of `r` other than `p` and `q`.
pub open spec fn highest_except_two(r: u32, p: int, q: int, k: int) -> bool {
    &&& 0 <= k < 13 && has_rank(r, k) && k != p && k != q
    &&& forall|y: int| 0 <= y < 13 && #[trigger] has_rank(r, y) && y != p && y != q ==> y <= k
}

/// Masks holding the same ranks agree on which are the highest three but one.
pub proof fn lemma_highest_three_same(r1: u32, r2: u32, p: int, a: int, b: int, c: int)
    requires
        forall|i: int| 0 <= i < 13 ==> #[trigger] has_rank(r1, i) == has_rank(r2, i),
        highest_three_except(r1, p, a, b, c),
    ensures
        highest_three_except(r2, p, a, b, c),
{
    assert(has_rank(r1, a) && has_rank(r1, b) && has_rank(r1, c));
    assert forall|y: int|
        0 <= y < 13 && #[trigger] has_rank(r2, y) && y != p && y != a && y != b && y != c implies y < c by {
        assert(has_rank(r1, y));
    }
}

/// `a < b < c` are the three lowest ranks of `r` other than `p`: each is a rank
/// of `r` other than `p`, and every further rank of `r` but `p` is above `c`.
pub open spec fn lowest_three_except(r: u32, p: int, a: int, b: int, c: int) -> bool {
    &&& 0 <= a < b < c < 13
    &&& has_rank(r, a) && has_rank(r, b) && has_rank(r, c)
    &&& a != p && b != p && c != p
    &&& forall|y: int|
        0 <= y < 13 && #[trigger] has_rank(r, y) && y != p && y != a && y != b && y != c ==> y > c
}

/// `a > b > c > d > e` are the five highest ranks of `r`.
pub open spec fn highest_five(r: u32, a: int, b: int, c: int, d: int, e: int) -> bool {
    &&& 13 > a > b > c > d > e >= 0
    &&& has_rank(r, a) && has_rank(r, b) && has_rank(r, c) && has_rank(r, d) && has_rank(r, e)
    &&& forall|y: int|
        0 <= y < 13 && #[trigger] has_rank(r, y) && y != a && y != b && y != c && y != d && y != e ==> y < e
}

/// `a > b` are the two highest ranks of `r` other than `p`.
pub open spec fn highest_two_except(r: u32, p: int, a: int, b: int) -> bool {
    &&& 13 > a > b >= 0
    &&& has_rank(r, a) && has_rank(r, b) && a != p && b != p
    &&& forall|y: int| 0 <= y < 13 && #[trigger] has_rank(r, y) && y != p && y != a && y != b ==> y < b
}

/// `a` is the highest rank of `r` other than `p`.
pub open spec fn highest_except(r: u32, p: int, a: int) -> bool {
    &&& 0 <= a < 13 && has_rank(r, a) && a != p
    &&& forall|y: int| 0 <= y < 13 && #[trigger] has_rank(r, y) && y != p ==> y <= a
}

/// `a < b < c < d < e` are the five lowest ranks of `r`.
pub open spec fn lowest_five(r: u32, a: int, b: int, c: int, d: int, e: int) -> bool {
    &&& 0 <= a < b < c < d < e < 13
    &&& has_rank(r, a) && has_rank(r, b) && has_rank(r, c) && has_rank(r, d) && has_rank(r, e)
    &&& forall|y: int|
        0 <= y < 13 && #[trigger] has_rank(r, y) && y != a && y != b && y != c && y != d && y != e ==> y > e
}

/// Counts the ranks present in a 13-bit rank mask.
pub fn n_bits(r: u32) -> (n: u32)
    ensures
        n == nbits(r),
        n <= 13,
{
    let mut n: u32 = 0;
    let mut i: u32 = 0;
    while i < 13
        invariant
            i <= 13,
            n == asc_below(r, i as int).len(),
            n <= i,
        decreases 13 - i,
    {
        if (r >> i) & 1 == 1 {
            n = n + 1;
        }
        i = i + 1;
    }
    n
}

/// Index of the highest rank present in `r`, 0 when none is.
pub fn top_card(r: u32) -> (t: u32)
    ensures
        t == top_rank(r),
        t < 13,
{
    let mut i: u32 = 13;
    while i > 0
        invariant
            i <= 13,
            desc_from(r, i as int).len() == 0,
        decreases i,
    {
        i = i - 1;
        if (r >> i) & 1 == 1 {
            proof {
                lemma_desc_prefix(r, 0, i as int);
                assert(has_rank(r, i as int));
                assert(desc_from(r, i as int) =~= seq![i as int]);
                assert(desc_from(r, 0).subrange(0, 1)[0] == desc_from(r, 0)[0]);
            }
            return i;
        }
    }
    0
}

/// Index of the lowest rank present in `r`, 0 when none is.
pub fn bottom_card(r: u32) -> (b: u32)
    ensures
        b == bottom_rank(r),
        b < 13,
{
    let mut i: u32 = 0;
    while i < 13
        invariant
            i <= 13,
            asc_below(r, i as int).len() == 0,
        decreases 13 - i,
    {
        if (r >> i) & 1 == 1 {
            proof {
                lemma_asc_prefix(r, i as int + 1, 13);
                assert(has_rank(r, i as int));
                assert(asc_below(r, i as int + 1) =~= seq![i as int]);
                assert(asc_below(r, 13).subrange(0, 1)[0] == asc_below(r, 13)[0]);
            }
            return i;
        }
        i = i + 1;
    }
    0
}


/// The five highest ranks present in `r` (as many as there are), highest first,
/// padded with zeros.
pub fn desc_five(r: u32) -> (v: Vec<u32>)
    ensures
        v.len() == 5,
        forall|j: int| 0 <= j < 5 ==> v[j] == nth_or_zero(ranks_desc(r), j),
        forall|j: int| 0 <= j < 5 ==> v[j] < 13,
{
    let mut v: Vec<u32> = Vec::new();
    let mut i: u32 = 13;
    while i > 0 && v.len() < 5
        invariant
            i <= 13,
            v.len() <= 5,
            v.len() <= desc_from(r, i as int).len(),
            v.len() < 5 ==> v.len() == desc_from(r, i as int).len(),
            forall|j: int| 0 <= j < v.len() ==> v[j] == desc_from(r, i as int)[j],
        decreases i,
    {
        i = i - 1;
        proof {
            assert(desc_from(r, i as int + 1).len() <= desc_from(r, i as int).len());
            assert forall|j: int| 0 <= j < v.len() implies v[j] == desc_from(r, i as int)[j] by {
                assert(desc_from(r, i as int)[j] == desc_from(r, i as int + 1)[j]);
            }
        }
        if (r >> i) & 1 == 1 {
            proof {
                assert(has_rank(r, i as int));
                assert(desc_from(r, i as int)[desc_from(r, i as int + 1).len() as int] == i);
            }
            v.push(i);
        }
    }
    proof {
        lemma_desc_prefix(r, 0, i as int);
        lemma_desc_bounds(r, 0);
        lemma_desc_bounds(r, i as int);
        assert forall|j: int| 0 <= j < v.len() implies v[j] == ranks_desc(r)[j] by {
            assert(desc_from(r, 0).subrange(0, desc_from(r, i as int).len() as int)[j]
                == desc_from(r, 0)[j]);
        }
        if v.len() < 5 {
            assert(i == 0);
        }
    }
    while v.len() < 5
        invariant
            v.len() <= 5,
            forall|j: int| 0 <= j < v.len() ==> v[j] == nth_or_zero(ranks_desc(r), j),
            forall|j: int| 0 <= j < v.len() ==> v[j] < 13,
            v.len() < 5 ==> v.len() >= ranks_desc(r).len(),
        decreases 5 - v.len(),
    {
        v.push(0);
    }
    v
}

/// The five lowest ranks present in `r` (as many as there are), lowest first,
/// padded with zeros; `count` tells how many are real.
pub fn asc_five(r: u32) -> (res: (Vec<u32>, usize))
    ensures
        res.0.len() == 5,
        res.1 <= 5,
        res.1 == if nbits(r) < 5 { nbits(r) } else { 5 },
        forall|j: int| 0 <= j < res.1 ==> res.0[j] == ranks_asc(r)[j],
        forall|j: int| res.1 <= j < 5 ==> res.0[j] == 0,
        forall|j: int| 0 <= j < 5 ==> res.0[j] < 13,
{
    let mut v: Vec<u32> = Vec::new();
    let mut i: u32 = 0;
    while i < 13 && v.len() < 5
        invariant
            i <= 13,
            v.len() <= 5,
            v.len() <= asc_below(r, i as int).len(),
            v.len() < 5 ==> v.len() == asc_below(r, i as int).len(),
            forall|j: int| 0 <= j < v.len() ==> v[j] == asc_below(r, i as int)[j],
            forall|j: int| 0 <= j < v.len() ==> v[j] < 13,
        decreases 13 - i,
    {
        if (r >> i) & 1 == 1 {
            proof {
                assert(has_rank(r, i as int));
            }
            v.push(i);
        }
        i = i + 1;
    }
    proof {
        lemma_asc_prefix(r, i as int, 13);
        assert forall|j: int| 0 <= j < v.len() implies v[j] == ranks_asc(r)[j] by {
            assert(asc_below(r, 13).subrange(0, asc_below(r, i as int).len() as int)[j]
                == asc_below(r, 13)[j]);
        }
        if v.len() < 5 {
            assert(i == 13);
        }
    }
    let count = v.len();
    while v.len() < 5
        invariant
            count <= v.len() <= 5,
            forall|j: int| 0 <= j < count ==> v[j] == ranks_asc(r)[j],
            forall|j: int| count <= j < v.len() ==> v[j] == 0,
            forall|j: int| 0 <= j < v.len() ==> v[j] < 13,
        decreases 5 - v.len(),
    {
        v.push(0);
    }
    (v, count)
}


/// Ranks `t-4 ..= t` are all present in `r`.
pub open spec fn has_run(r: u32, t: int) -> bool {
    has_rank(r, t) && has_rank(r, t - 1) && has_rank(r, t - 2) && has_rank(r, t - 3) && has_rank(
        r,
        t - 4,
    )
}

/// Ace, deuce, trey, four and five are all present in `r`.
pub open spec fn has_wheel(r: u32) -> bool {
    has_rank(r, 12) && has_rank(r, 0) && has_rank(r, 1) && has_rank(r, 2) && has_rank(r, 3)
}

/// Top rank of the highest straight whose top is at most `t`, the wheel
/// counting with the five (rank 3) on top; 0 when there is none.
pub open spec fn straight_below(r: u32, t: int) -> int
    decreases t,
{
    if t < 4 {
        if has_wheel(r) {
            3
        } else {
            0
        }
    } else if has_run(r, t) {
        t
    } else {
        straight_below(r, t - 1)
    }
}

/// Top rank of the highest straight in `r` (3 for the wheel), 0 when there is none.
pub open spec fn straight_top(r: u32) -> int {
    straight_below(r, 12)
}

pub open spec fn bit_count(r: u32, i: int) -> int {
    if has_rank(r, i) {
        1
    } else {
        0
    }
}

/// How many of the ranks `t-4 ..= t` are present in `r`.
pub open spec fn window_count(r: u32, t: int) -> int {
    bit_count(r, t) + bit_count(r, t - 1) + bit_count(r, t - 2) + bit_count(r, t - 3) + bit_count(
        r,
        t - 4,
    )
}

/// How many of the wheel ranks (ace to five) are present in `r`.
pub open spec fn wheel_count(r: u32) -> int {
    bit_count(r, 12) + bit_count(r, 0) + bit_count(r, 1) + bit_count(r, 2) + bit_count(r, 3)
}

/// Top rank of the highest straight, with top at most `t`, that a joker can
/// complete (four of its five ranks present); 0 when there is none.
pub open spec fn joker_straight_below(r: u32, t: int) -> int
    decreases t,
{
    if t < 4 {
        if wheel_count(r) >= 4 {
            3
        } else {
            0
        }
    } else if window_count(r, t) >= 4 {
        t
    } else {
        joker_straight_below(r, t - 1)
    }
}

/// Top rank of the highest straight in `r` that a joker can complete, 0 when none.
pub open spec fn joker_straight_top(r: u32) -> int {
    joker_straight_below(r, 12)
}

fn bit(r: u32, i: u32) -> (b: u32)
    requires
        i < 32,
    ensures
        b == bit_count(r, i as int),
{
    if (r >> i) & 1 == 1 {
        1
    } else {
        0
    }
}

/// Top rank of the highest straight present in `r` (3 for the wheel), 0 when none.
pub fn straight_card(r: u32) -> (t: u32)
    ensures
        t == straight_top(r),
        t < 13,
{
    let mut t: u32 = 12;
    while t >= 4
        invariant
            3 <= t <= 12,
            straight_top(r) == straight_below(r, t as int),
        decreases t,
    {
        if bit(r, t) + bit(r, t - 1) + bit(r, t - 2) + bit(r, t - 3) + bit(r, t - 4) == 5 {
            return t;
        }
        t = t - 1;
    }
    if bit(r, 12) + bit(r, 0) + bit(r, 1) + bit(r, 2) + bit(r, 3) == 5 {
        3
    } else {
        0
    }
}

/// Top rank of the highest straight in `r` that a joker can complete, 0 when none.
pub fn joker_straight_card(r: u32) -> (t: u32)
    ensures
        t == joker_straight_top(r),
        t < 13,
{
    let mut t: u32 = 12;
    while t >= 4
        invariant
            3 <= t <= 12,
            joker_straight_top(r) == joker_straight_below(r, t as int),
        decreases t,
    {
        if bit(r, t) + bit(r, t - 1) + bit(r, t - 2) + bit(r, t - 3) + bit(r, t - 4) >= 4 {
            return t;
        }
        t = t - 1;
    }
    if bit(r, 12) + bit(r, 0) + bit(r, 1) + bit(r, 2) + bit(r, 3) >= 4 {
        3
    } else {
        0
    }
}

/// The five highest ranks of `r`, packed four bits apiece with the highest in
/// bits 16..20 and zeros for missing ranks.
pub open spec fn top_five_value(r: u32) -> int {
    nth_or_zero(ranks_desc(r), 0) * 65536 + nth_or_zero(ranks_desc(r), 1) * 4096 + nth_or_zero(
        ranks_desc(r),
        2,
    ) * 256 + nth_or_zero(ranks_desc(r), 3) * 16 + nth_or_zero(ranks_desc(r), 4)
}

/// The five lowest ranks of `r`, packed four bits apiece with the lowest in
/// bits 0..4; 0 when fewer than five ranks are present.
pub open spec fn bottom_five_value(r: u32) -> int {
    if nbits(r) < 5 {
        0
    } else {
        ranks_asc(r)[0] + ranks_asc(r)[1] * 16 + ranks_asc(r)[2] * 256 + ranks_asc(r)[3] * 4096
            + ranks_asc(r)[4] * 65536
    }
}

/// Packs the five highest ranks of `r` (see `top_five_value`).
pub fn top_five_cards(r: u32) -> (v: u32)
    ensures
        v == top_five_value(r),
        v < 0x100000,
{
    let c = desc_five(r);
    c[0] * 65536 + c[1] * 4096 + c[2] * 256 + c[3] * 16 + c[4]
}

/// Packs the five lowest ranks of `r` (see `bottom_five_value`).
pub fn bottom_five_cards(r: u32) -> (v: u32)
    ensures
        v == bottom_five_value(r),
        v < 0x100000,
{
    let (c, count) = asc_five(r);
    if count < 5 {
        0
    } else {
        c[0] + c[1] * 16 + c[2] * 256 + c[3] * 4096 + c[4] * 65536
    }
}

/// The packed five lowest ranks (see `bottom_five_value`) of each of the 8192
/// rank masks, in mask order.
pub fn bottom_five_cards_table() -> (t: Vec<u32>)
    ensures
        t@.len() == 8192,
        forall|i: int| 0 <= i < 8192 ==> #[trigger] t@[i] == bottom_five_value(i as u32),
{
    let mut t: Vec<u32> = Vec::new();
    let mut i: u32 = 0;
    while i < 8192
        invariant
            i <= 8192,
            t@.len() == i,
            forall|x: int| 0 <= x < i ==> #[trigger] t@[x] == bottom_five_value(x as u32),
        decreases 8192 - i,
    {
        t.push(bottom_five_cards(i));
        i = i + 1;
    }
    t
}

pub proof fn lemma_bit_and(a: u32, b: u32, i: int)
    requires
        0 <= i < 32,
    ensures
        has_rank(a & b, i) == (has_rank(a, i) && has_rank(b, i)),
        has_rank(a & !b, i) == (has_rank(a, i) && !has_rank(b, i)),
        has_rank(a | b, i) == (has_rank(a, i) || has_rank(b, i)),
        has_rank(a ^ b, i) == (has_rank(a, i) != has_rank(b, i)),
{
    let iu = i as u32;
    assert((((a & b) >> iu) & 1u32 == 1u32) == (((a >> iu) & 1u32 == 1u32) && ((b >> iu) & 1u32
        == 1u32)) && (((a & !b) >> iu) & 1u32 == 1u32) == (((a >> iu) & 1u32 == 1u32) && !((b >> iu)
        & 1u32 == 1u32)) && (((a | b) >> iu) & 1u32 == 1u32) == (((a >> iu) & 1u32 == 1u32) || ((b
        >> iu) & 1u32 == 1u32)) && (((a ^ b) >> iu) & 1u32 == 1u32) == (((a >> iu) & 1u32 == 1u32)
        != ((b >> iu) & 1u32 == 1u32))) by (bit_vector);
}

pub proof fn lemma_bit_single(t: u32, i: int)
    requires
        0 <= i < 32,
        t < 32,
    ensures
        has_rank(1u32 << t, i) == (i == t),
{
    let iu = i as u32;
    assert((((1u32 << t) >> iu) & 1u32 == 1u32) == (iu == t)) by (bit_vector)
        requires
            t < 32u32,
            iu < 32u32,
    ;
}

/// Splitting a mask by another one splits its count of ranks.
pub proof fn lemma_count_split(a: u32, b: u32, k: int)
    requires
        k <= 32,
    ensures
        asc_below(a, k).len() == asc_below(a & b, k).len() + asc_below(a & !b, k).len(),
    decreases k,
{
    if k > 0 {
        lemma_count_split(a, b, k - 1);
        lemma_bit_and(a, b, k - 1);
    }
}

/// Ranks common to `a` and `b` are at most as many as those of `b`.
pub proof fn lemma_count_and_le(a: u32, b: u32, k: int)
    requires
        k <= 32,
    ensures
        asc_below(a & b, k).len() <= asc_below(b, k).len(),
    decreases k,
{
    if k > 0 {
        lemma_count_and_le(a, b, k - 1);
        lemma_bit_and(a, b, k - 1);
    }
}

/// Equal masks up to bit `k` have equal counts.
pub proof fn lemma_count_same(a: u32, b: u32, k: int)
    requires
        k <= 32,
        forall|i: int| 0 <= i < k ==> has_rank(a, i) == has_rank(b, i),
    ensures
        asc_below(a, k) == asc_below(b, k),
    decreases k,
{
    if k > 0 {
        lemma_count_same(a, b, k - 1);
    }
}

/// A single rank below 13 counts once.
pub proof fn lemma_nbits_single(t: u32)
    requires
        t < 13,
    ensures
        nbits(1u32 << t) == 1,
{
    assert forall|k: int| 0 <= k <= 13 implies asc_below(1u32 << t, k).len() == if k > t {
        1int
    } else {
        0int
    } by {
        lemma_single_count(t, k);
    }
}

proof fn lemma_single_count(t: u32, k: int)
    requires
        t < 13,
        0 <= k <= 13,
    ensures
        asc_below(1u32 << t, k).len() == if k > t { 1int } else { 0int },
    decreases k,
{
    if k > 0 {
        lemma_single_count(t, k - 1);
        lemma_bit_single(t, k - 1);
    }
}

/// Removing one rank lowers the count by at most one.
pub proof fn lemma_nbits_remove_one(a: u32, t: u32)
    requires
        t < 13,
    ensures
        nbits(a & !(1u32 << t)) + 1 >= nbits(a),
        nbits(a & !(1u32 << t)) <= nbits(a),
{
    lemma_count_split(a, 1u32 << t, 13);
    lemma_count_and_le(a, 1u32 << t, 13);
    lemma_nbits_single(t);
}


/// Top and bottom ranks lie between 0 and 12.
pub proof fn lemma_rank_bounds(r: u32)
    ensures
        0 <= top_rank(r) < 13,
        0 <= bottom_rank(r) < 13,
        forall|j: int| 0 <= #[trigger] nth_or_zero(ranks_desc(r), j) < 13,
        forall|j: int| 0 <= #[trigger] nth_or_zero(ranks_asc(r), j) < 13,
{
    lemma_asc_bounds(r, 13);
    lemma_desc_bounds(r, 0);
}


/// Ranks of a union are at most the ranks of both parts.
pub proof fn lemma_count_or_le(a: u32, b: u32, k: int)
    requires
        k <= 32,
    ensures
        asc_below(a | b, k).len() <= asc_below(a, k).len() + asc_below(b, k).len(),
    decreases k,
{
    if k > 0 {
        lemma_count_or_le(a, b, k - 1);
        lemma_bit_and(a, b, k - 1);
    }
}

} // verus!

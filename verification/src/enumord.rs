//! Final hand orderings of an enumeration: the rank of each player's hand,
//! encoded into one histogram index.
use vstd::prelude::*;
use crate::handval::HandVal;

verus! {

pub const ENUM_ORDERING_MAXPLAYERS: usize = 7;
pub const ENUM_ORDERING_MAXPLAYERS_HILO: usize = 5;

/// Which hand orderings are recorded.
#[derive(Debug, Clone, Copy, PartialEq, Eq, Structural)]
pub enum EnumOrderingMode {
    NoOrdering,
    Hi,
    Lo,
    Hilo,
}

impl EnumOrderingMode {
    /// The number of the mode: 0 none, 1 high, 2 low, 3 high-low.
    pub fn as_u32(&self) -> (c: u32)
        ensures
            c == match *self {
                EnumOrderingMode::NoOrdering => 0u32,
                EnumOrderingMode::Hi => 1u32,
                EnumOrderingMode::Lo => 2u32,
                EnumOrderingMode::Hilo => 3u32,
            },
    {
        match self {
            EnumOrderingMode::Hi => 1,
            EnumOrderingMode::Lo => 2,
            EnumOrderingMode::Hilo => 3,
            EnumOrderingMode::NoOrdering => 0,
        }
    }
}

/// A histogram of hand orderings.
#[derive(Debug)]
pub struct EnumOrdering {
    pub mode: EnumOrderingMode,
    pub nplayers: usize,
    pub nentries: usize,
    pub hist: Vec<u32>,
}

/// The number of bits that encode one player's rank among `n` players.
pub open spec fn nbits_for(n: int) -> int {
    if n <= 0 {
        0
    } else if n == 1 {
        1
    } else if n <= 3 {
        2
    } else {
        3
    }
}

fn enum_nbits(nplayers: usize) -> (b: i32)
    requires
        nplayers <= ENUM_ORDERING_MAXPLAYERS,
    ensures
        b == nbits_for(nplayers as int),
        0 <= b <= 3,
{
    match nplayers {
        0 => 0,
        1 => 1,
        2 => 2,
        3 => 2,
        _ => 3,
    }
}

/// The ranks `ranks` packed `b` bits each, the first rank in the highest bits.
pub open spec fn encode_ranks(start: i32, b: u32, ranks: Seq<i32>) -> i32
    decreases ranks.len(),
{
    if ranks.len() == 0 {
        start
    } else {
        (encode_ranks(start, b, ranks.drop_last()) << b) | ranks.last()
    }
}

/// The number of distinct values among `hands` that come before `v`: smaller
/// values, or greater ones when `reverse` is set.
pub open spec fn distinct_before(hands: Seq<HandVal>, v: u32, reverse: bool) -> nat {
    hands.map_values(|h: HandVal| h.value).to_set().filter(
        |w: u32| if reverse { w > v } else { w < v },
    ).len()
}

/// The values below index `k` of `hands` that come before `v` and that do not
/// occur earlier in `hands`.
pub open spec fn first_before(hands: Seq<HandVal>, v: u32, reverse: bool, k: int) -> nat
    decreases k,
{
    if k <= 0 {
        0
    } else {
        first_before(hands, v, reverse, k - 1) + if (if reverse {
            hands[k - 1].value > v
        } else {
            hands[k - 1].value < v
        }) && forall|j: int| 0 <= j < k - 1 ==> #[trigger] hands[j].value != hands[k - 1].value {
            1nat
        } else {
            0nat
        }
    }
}

/// Counting first occurrences below index `k` counts the distinct values of the
/// first `k` hands that come before `v`.
pub proof fn lemma_first_before_distinct(hands: Seq<HandVal>, v: u32, reverse: bool, k: int)
    requires
        0 <= k <= hands.len(),
    ensures
        first_before(hands, v, reverse, k) == distinct_before(hands.subrange(0, k), v, reverse),
    decreases k,
{
    let pred = |w: u32| if reverse { w > v } else { w < v };
    let f = |h: HandVal| h.value;
    let s = hands.subrange(0, k);
    if k == 0 {
        assert(s.map_values(f).to_set() =~= Set::<u32>::empty());
        assert(s.map_values(f).to_set().filter(pred) =~= Set::<u32>::empty());
    } else {
        lemma_first_before_distinct(hands, v, reverse, k - 1);
        let s1 = hands.subrange(0, k - 1);
        let x = hands[k - 1].value;
        assert(s.map_values(f) =~= s1.map_values(f).push(x));
        s1.map_values(f).lemma_push_to_set_commute(x);
        let t1 = s1.map_values(f).to_set();
        vstd::seq_lib::seq_to_set_is_finite(s1.map_values(f));
        let u1 = t1.filter(pred);
        assert(u1.finite()) by {
            vstd::set_lib::lemma_len_subset(u1, t1);
        }
        let fresh = forall|j: int| 0 <= j < k - 1 ==> #[trigger] hands[j].value != x;
        if fresh {
            assert(!t1.contains(x)) by {
                if t1.contains(x) {
                    let j = choose|j: int| 0 <= j < s1.map_values(f).len() && s1.map_values(f)[j] == x;
                    assert(hands[j].value == x);
                }
            }
        } else {
            let j = choose|j: int| 0 <= j < k - 1 && #[trigger] hands[j].value == x;
            assert(s1.map_values(f)[j] == x);
            assert(t1.contains(x));
        }
        if pred(x) {
            assert(t1.insert(x).filter(pred) =~= u1.insert(x));
        } else {
            assert(t1.insert(x).filter(pred) =~= u1);
        }
    }
}

/// The rank of hand `i`: the number of distinct hand values that come before its
/// own (ascending, or descending when `reverse`), or `nplayers` when its value is
/// the non-qualifying one.
pub open spec fn hand_rank(hands: Seq<HandVal>, noqual: HandVal, nplayers: usize, reverse: bool, i: int) -> i32 {
    if hands[i].value == noqual.value {
        nplayers as i32
    } else {
        first_before(hands, hands[i].value, reverse, hands.len() as int) as i32
    }
}

/// Ranks the hands `hands`: `ranks[i]` receives the rank of hand `i` (see `hand_rank`).
pub fn enum_ordering_rank(
    hands: &mut [HandVal],
    noqual: HandVal,
    nplayers: usize,
    ranks: &mut [i32],
    reverse: bool,
)
    requires
        old(hands)@.len() >= 1,
        old(ranks)@.len() >= old(hands)@.len(),
    ensures
        final(hands)@ == old(hands)@,
        final(ranks)@.len() == old(ranks)@.len(),
        forall|i: int| 0 <= i < old(hands)@.len() ==> #[trigger] final(ranks)@[i] == hand_rank(old(hands)@, noqual, nplayers, reverse, i),
        forall|i: int| 0 <= i < old(hands)@.len() && old(hands)@[i].value != noqual.value
            ==> #[trigger] final(ranks)@[i] == distinct_before(old(hands)@, old(hands)@[i].value, reverse) as i32,
        forall|i: int| old(hands)@.len() <= i < old(ranks)@.len() ==> #[trigger] final(ranks)@[i] == old(ranks)@[i],
{
    let n = hands.len();
    let mut i: usize = 0;
    while i < n
        invariant
            n == hands@.len(),
            hands@ == old(hands)@,
            i <= n,
            ranks@.len() == old(ranks)@.len(),
            ranks@.len() >= n,
            forall|x: int| 0 <= x < i ==> #[trigger] ranks@[x] == hand_rank(hands@, noqual, nplayers, reverse, x),
            forall|x: int| i <= x < ranks@.len() ==> #[trigger] ranks@[x] == old(ranks)@[x],
        decreases n - i,
    {
        let v = hands[i].value;
        let mut count: usize = 0;
        let mut j: usize = 0;
        while j < n
            invariant
                n == hands@.len(),
                i < n,
                v == hands@[i as int].value,
                j <= n,
                count == first_before(hands@, v, reverse, j as int),
                count <= j,
            decreases n - j,
        {
            let w = hands[j].value;
            let before = if reverse { w > v } else { w < v };
            let mut first = true;
            let mut l: usize = 0;
            while l < j
                invariant
                    n == hands@.len(),
                    j < n,
                    w == hands@[j as int].value,
                    l <= j,
                    first == forall|x: int| 0 <= x < l ==> #[trigger] hands@[x].value != w,
                decreases j - l,
            {
                if hands[l].value == w {
                    first = false;
                }
                l = l + 1;
            }
            if before && first {
                count = count + 1;
            }
            j = j + 1;
        }
        if v == noqual.value {
            ranks[i] = nplayers as i32;
        } else {
            ranks[i] = count as i32;
        }
        i = i + 1;
    }
    proof {
        assert forall|i: int| 0 <= i < old(hands)@.len() && old(hands)@[i].value != noqual.value
            implies #[trigger] ranks@[i] == distinct_before(old(hands)@, old(hands)@[i].value, reverse) as i32 by {
            lemma_first_before_distinct(old(hands)@, old(hands)@[i].value, reverse, old(hands)@.len() as int);
            assert(old(hands)@.subrange(0, old(hands)@.len() as int) =~= old(hands)@);
        }
    }
}

/// Encodes the ranks of the `nplayers` players into one integer.
pub fn enum_ordering_encode(nplayers: usize, ranks: &[i32]) -> (e: i32)
    requires
        nplayers <= ENUM_ORDERING_MAXPLAYERS,
    ensures
        e == encode_ranks(0, nbits_for(nplayers as int) as u32, ranks@),
{
    let mut encoding: i32 = 0;
    let nbits = enum_nbits(nplayers) as u32;
    let mut i: usize = 0;
    while i < ranks.len()
        invariant
            i <= ranks@.len(),
            nbits == nbits_for(nplayers as int) as u32,
            encoding == encode_ranks(0, nbits, ranks@.subrange(0, i as int)),
        decreases ranks@.len() - i,
    {
        proof {
            assert(ranks@.subrange(0, i as int + 1).drop_last() =~= ranks@.subrange(0, i as int));
        }
        encoding = (encoding << nbits) | ranks[i];
        i = i + 1;
    }
    proof {
        assert(ranks@.subrange(0, i as int) =~= ranks@);
    }
    encoding
}

/// Encodes the high ranks, then the low ranks, of the players into one integer.
pub fn enum_ordering_encode_hilo(nplayers: usize, hiranks: &[i32], loranks: &[i32]) -> (e: i32)
    requires
        nplayers <= ENUM_ORDERING_MAXPLAYERS,
    ensures
        e == encode_ranks(encode_ranks(0, nbits_for(nplayers as int) as u32, hiranks@), nbits_for(nplayers as int) as u32, loranks@),
{
    let mut encoding: i32 = 0;
    let nbits = enum_nbits(nplayers) as u32;
    let mut i: usize = 0;
    while i < hiranks.len()
        invariant
            i <= hiranks@.len(),
            nbits == nbits_for(nplayers as int) as u32,
            encoding == encode_ranks(0, nbits, hiranks@.subrange(0, i as int)),
        decreases hiranks@.len() - i,
    {
        proof {
            assert(hiranks@.subrange(0, i as int + 1).drop_last() =~= hiranks@.subrange(0, i as int));
        }
        encoding = (encoding << nbits) | hiranks[i];
        i = i + 1;
    }
    proof {
        assert(hiranks@.subrange(0, i as int) =~= hiranks@);
    }
    let ghost hi = encoding;
    let mut j: usize = 0;
    while j < loranks.len()
        invariant
            j <= loranks@.len(),
            nbits == nbits_for(nplayers as int) as u32,
            encoding == encode_ranks(hi, nbits, loranks@.subrange(0, j as int)),
        decreases loranks@.len() - j,
    {
        proof {
            assert(loranks@.subrange(0, j as int + 1).drop_last() =~= loranks@.subrange(0, j as int));
        }
        encoding = (encoding << nbits) | loranks[j];
        j = j + 1;
    }
    proof {
        assert(loranks@.subrange(0, j as int) =~= loranks@);
    }
    encoding
}

/// The `nbits`-bit field of `encoding` that starts `shift` bits up.
pub open spec fn field_at(encoding: i32, shift: u32, nbits: u32) -> i32 {
    (encoding >> shift) & (((1i32 << nbits) - 1) as i32)
}

proof fn lemma_field_bounds(nplayers: usize, k: usize, nbits: u32)
    requires
        nplayers <= ENUM_ORDERING_MAXPLAYERS,
        k < nplayers,
        nbits <= 3,
    ensures
        ((nplayers - k - 1) as u32) * nbits <= 18,
        (k as u32 + 1) * nbits <= (nplayers as u32) * nbits,
        (nplayers as u32) * nbits * 2 <= 42,
        (1i32 << nbits) >= 1,
{
    assert(((nplayers - k - 1) as u32) * nbits <= 18) by (nonlinear_arith)
        requires
            nplayers <= 7,
            k < nplayers,
            nbits <= 3,
    ;
    let (ku, nu) = (k as u32, nplayers as u32);
    assert(ku < nu);
    assert((ku + 1) * nbits <= nu * nbits) by (nonlinear_arith)
        requires
            ku < nu,
    ;
    assert((nplayers as u32) * nbits * 2 <= 42) by (nonlinear_arith)
        requires
            nplayers <= 7,
            nbits <= 3,
    ;
    assert((1i32 << nbits) >= 1) by (bit_vector)
        requires
            nbits <= 3,
    ;
}

/// The rank of player `k` in an ordering encoded by `enum_ordering_encode`.
pub fn enum_ordering_decode_k(encoding: i32, nplayers: usize, k: usize) -> (r: i32)
    requires
        nplayers <= ENUM_ORDERING_MAXPLAYERS,
        k < nplayers,
    ensures
        r == field_at(encoding, ((nplayers - k - 1) * nbits_for(nplayers as int)) as u32, nbits_for(nplayers as int) as u32),
{
    let nbits = enum_nbits(nplayers) as u32;
    proof {
        lemma_field_bounds(nplayers, k, nbits);
    }
    let shift = ((nplayers - k - 1) as u32) * nbits;
    (encoding >> shift) & ((1i32 << nbits) - 1)
}

/// The high rank of player `k` in an ordering encoded by `enum_ordering_encode_hilo`:
/// the high ranks sit above the `nplayers` low-rank fields.
pub fn enum_ordering_decode_hilo_k_hi(encoding: i32, nplayers: usize, k: usize) -> (r: i32)
    requires
        nplayers <= ENUM_ORDERING_MAXPLAYERS_HILO,
        k < nplayers,
    ensures
        r == field_at(
            encoding,
            ((nplayers - k - 1) * nbits_for(nplayers as int) + nplayers * nbits_for(nplayers as int)) as u32,
            nbits_for(nplayers as int) as u32,
        ),
{
    let nbits_per_rank = enum_nbits(nplayers) as u32;
    proof {
        lemma_field_bounds(nplayers, k, nbits_per_rank);
        assert((nplayers as u32) * nbits_per_rank <= 15) by (nonlinear_arith)
            requires
                nplayers <= 5,
                nbits_per_rank <= 3,
        ;
        assert(((nplayers - k - 1) as u32) * nbits_per_rank <= (nplayers as u32) * nbits_per_rank) by (nonlinear_arith)
            requires
                ((nplayers - k - 1) as u32) <= (nplayers as u32),
        ;
    }
    let high_bits_offset = nbits_per_rank * (nplayers as u32);
    let shift = ((nplayers - k - 1) as u32) * nbits_per_rank + high_bits_offset;
    (encoding >> shift) & ((1i32 << nbits_per_rank) - 1)
}

/// The low rank of player `k` in an ordering encoded by `enum_ordering_encode_hilo`.
pub fn enum_ordering_decode_hilo_k_lo(encoding: i32, nplayers: usize, k: usize) -> (r: i32)
    requires
        nplayers <= ENUM_ORDERING_MAXPLAYERS,
        k < nplayers,
    ensures
        r == field_at(encoding, ((nplayers - k - 1) * nbits_for(nplayers as int)) as u32, nbits_for(nplayers as int) as u32),
{
    let nbits_per_rank = enum_nbits(nplayers) as u32;
    proof {
        lemma_field_bounds(nplayers, k, nbits_per_rank);
    }
    let shift = ((nplayers - k - 1) as u32) * nbits_per_rank;
    (encoding >> shift) & ((1i32 << nbits_per_rank) - 1)
}

proof fn lemma_shl_one(s: u32)
    requires
        s <= 30,
    ensures
        (1u32 << s) == vstd::arithmetic::power2::pow2(s as nat),
        (1u32 << s) <= 0x4000_0000,
{
    vstd::arithmetic::power2::lemma2_to64();
    if s < 30 {
        vstd::arithmetic::power2::lemma_pow2_strictly_increases(s as nat, 30);
    }
    vstd::bits::lemma_u32_shl_is_mul(1, s);
}

/// The number of histogram entries for `nplayers` players, or -1 past the maximum.
pub fn enum_ordering_nentries(nplayers: usize) -> (n: i32)
    ensures
        nplayers > ENUM_ORDERING_MAXPLAYERS ==> n == -1,
        nplayers <= ENUM_ORDERING_MAXPLAYERS ==> n == vstd::arithmetic::power2::pow2((nplayers * nbits_for(nplayers as int)) as nat),
{
    if nplayers > ENUM_ORDERING_MAXPLAYERS || enum_nbits(nplayers) < 0 {
        -1
    } else {
        let b = enum_nbits(nplayers) as u32;
        proof {
            assert((nplayers as u32) * b <= 21) by (nonlinear_arith)
                requires
                    nplayers <= 7,
                    b <= 3,
            ;
        }
        let s = (nplayers as u32) * b;
        proof {
            lemma_shl_one(s);
        }
        (1u32 << s) as i32
    }
}

/// The number of histogram entries for a high-low game of `nplayers` players,
/// or -1 past the maximum.
pub fn enum_ordering_nentries_hilo(nplayers: usize) -> (n: i32)
    ensures
        nplayers > ENUM_ORDERING_MAXPLAYERS_HILO ==> n == -1,
        nplayers <= ENUM_ORDERING_MAXPLAYERS_HILO ==> n == vstd::arithmetic::power2::pow2((2 * nplayers * nbits_for(nplayers as int)) as nat),
{
    if nplayers > ENUM_ORDERING_MAXPLAYERS_HILO || enum_nbits(nplayers) < 0 {
        -1
    } else {
        let b = enum_nbits(nplayers) as u32;
        proof {
            assert(2 * (nplayers as u32) * b <= 30) by (nonlinear_arith)
                requires
                    nplayers <= 5,
                    b <= 3,
            ;
        }
        let s = 2 * (nplayers as u32) * b;
        proof {
            lemma_shl_one(s);
        }
        (1u32 << s) as i32
    }
}

/// Counts one occurrence of the ordering `ranks`.
pub fn enum_ordering_increment(ordering: &mut EnumOrdering, ranks: &[i32])
    requires
        old(ordering).nplayers <= ENUM_ORDERING_MAXPLAYERS,
        0 <= encode_ranks(0, nbits_for(old(ordering).nplayers as int) as u32, ranks@) < old(ordering).hist@.len(),
        old(ordering).hist@[encode_ranks(0, nbits_for(old(ordering).nplayers as int) as u32, ranks@) as int] < u32::MAX,
    ensures
        final(ordering).mode == old(ordering).mode,
        final(ordering).nplayers == old(ordering).nplayers,
        final(ordering).nentries == old(ordering).nentries,
        final(ordering).hist@ == old(ordering).hist@.update(
            encode_ranks(0, nbits_for(old(ordering).nplayers as int) as u32, ranks@) as int,
            (old(ordering).hist@[encode_ranks(0, nbits_for(old(ordering).nplayers as int) as u32, ranks@) as int] + 1) as u32,
        ),
{
    let encoding = enum_ordering_encode(ordering.nplayers, ranks);
    let idx = encoding as usize;
    let c = ordering.hist[idx];
    ordering.hist.set(idx, c + 1);
}

/// Counts one occurrence of the high-low ordering `hiranks`, `loranks`.
pub fn enum_ordering_increment_hilo(ordering: &mut EnumOrdering, hiranks: &[i32], loranks: &[i32])
    requires
        old(ordering).nplayers <= ENUM_ORDERING_MAXPLAYERS,
        0 <= encode_ranks(encode_ranks(0, nbits_for(old(ordering).nplayers as int) as u32, hiranks@), nbits_for(old(ordering).nplayers as int) as u32, loranks@)
            < old(ordering).hist@.len(),
        old(ordering).hist@[encode_ranks(encode_ranks(0, nbits_for(old(ordering).nplayers as int) as u32, hiranks@), nbits_for(old(ordering).nplayers as int) as u32, loranks@) as int] < u32::MAX,
    ensures
        final(ordering).mode == old(ordering).mode,
        final(ordering).nplayers == old(ordering).nplayers,
        final(ordering).nentries == old(ordering).nentries,
        final(ordering).hist@ == old(ordering).hist@.update(
            encode_ranks(encode_ranks(0, nbits_for(old(ordering).nplayers as int) as u32, hiranks@), nbits_for(old(ordering).nplayers as int) as u32, loranks@) as int,
            (old(ordering).hist@[encode_ranks(encode_ranks(0, nbits_for(old(ordering).nplayers as int) as u32, hiranks@), nbits_for(old(ordering).nplayers as int) as u32, loranks@) as int] + 1) as u32,
        ),
{
    let encoding = enum_ordering_encode_hilo(ordering.nplayers, hiranks, loranks);
    let idx = encoding as usize;
    let c = ordering.hist[idx];
    ordering.hist.set(idx, c + 1);
}

impl EnumOrdering {
    /// An empty histogram for `nplayers` players in mode `mode`.
    pub fn new(mode: EnumOrderingMode, nplayers: usize) -> (o: EnumOrdering)
        requires
            mode == EnumOrderingMode::Hilo ==> nplayers <= ENUM_ORDERING_MAXPLAYERS_HILO,
            mode != EnumOrderingMode::Hilo ==> nplayers <= ENUM_ORDERING_MAXPLAYERS,
        ensures
            o.mode == mode,
            o.nplayers == nplayers,
            o.nentries == (if mode == EnumOrderingMode::Hilo {
                vstd::arithmetic::power2::pow2((2 * nplayers * nbits_for(nplayers as int)) as nat)
            } else {
                vstd::arithmetic::power2::pow2((nplayers * nbits_for(nplayers as int)) as nat)
            }),
            o.hist@.len() == o.nentries,
            forall|i: int| 0 <= i < o.hist@.len() ==> #[trigger] o.hist@[i] == 0,
    {
        let nentries = match mode {
            EnumOrderingMode::Hilo => enum_ordering_nentries_hilo(nplayers) as usize,
            _ => enum_ordering_nentries(nplayers) as usize,
        };
        let mut hist: Vec<u32> = Vec::new();
        while hist.len() < nentries
            invariant
                hist@.len() <= nentries,
                forall|i: int| 0 <= i < hist@.len() ==> #[trigger] hist@[i] == 0,
            decreases nentries - hist@.len(),
        {
            hist.push(0);
        }
        EnumOrdering { mode, nplayers, nentries, hist }
    }
}

proof fn lemma_push_rank(e: i32, r: i32, b: u32, s: u32)
    by (bit_vector)
    requires
        1 <= b <= 3,
        s + b <= 30,
        0 <= e < (1i32 << s),
        0 <= r < (1i32 << b),
    ensures
        0 <= ((e << b) | r) < (1i32 << (s + b)),
        ((e << b) | r) >> b == e,
        ((e << b) | r) & (((1i32 << b) - 1) as i32) == r,
{
}

proof fn lemma_shift_zero(e: i32)
    by (bit_vector)
    ensures
        e >> 0u32 == e,
        1i32 << 0u32 == 1,
{
}

proof fn lemma_shr_shr(x: i32, a: u32, c: u32, d: u32)
    by (bit_vector)
    requires
        0 <= x,
        a + c == d,
        d < 32,
    ensures
        (x >> a) >> c == x >> d,
{
}

/// Every rank of `ranks` fits in `b` bits.
pub open spec fn ranks_fit(ranks: Seq<i32>, b: u32) -> bool {
    forall|j: int| 0 <= j < ranks.len() ==> 0 <= #[trigger] ranks[j] < (1i32 << b)
}

proof fn lemma_encode_bound(start: i32, s0: u32, b: u32, p: Seq<i32>)
    requires
        1 <= b <= 3,
        s0 + p.len() * b <= 30,
        0 <= start < (1i32 << s0),
        ranks_fit(p, b),
    ensures
        0 <= encode_ranks(start, b, p) < (1i32 << ((s0 + p.len() * b) as u32)),
    decreases p.len(),
{
    if p.len() > 0 {
        let q = p.drop_last();
        assert((p.len() - 1) * b + b == p.len() * b) by (nonlinear_arith);
        assert(q.len() * b <= p.len() * b) by (nonlinear_arith)
            requires q.len() <= p.len();
        lemma_encode_bound(start, s0, b, q);
        assert(p.last() == p[p.len() - 1]);
        lemma_push_rank(encode_ranks(start, b, q), p.last(), b, (s0 + q.len() * b) as u32);
    }
}

proof fn lemma_encode_shift(start: i32, s0: u32, b: u32, p: Seq<i32>, j: int)
    requires
        1 <= b <= 3,
        s0 + p.len() * b <= 30,
        0 <= start < (1i32 << s0),
        ranks_fit(p, b),
        0 <= j <= p.len(),
    ensures
        encode_ranks(start, b, p) >> ((j * b) as u32) == encode_ranks(start, b, p.subrange(0, p.len() - j)),
    decreases j,
{
    lemma_encode_bound(start, s0, b, p);
    if j == 0 {
        assert(p.subrange(0, p.len() as int) =~= p);
        lemma_shift_zero(encode_ranks(start, b, p));
        assert(j * b == 0) by (nonlinear_arith)
            requires j == 0;
        assert(((j * b) as u32) == 0u32);
        assert(encode_ranks(start, b, p) >> ((j * b) as u32) == encode_ranks(start, b, p.subrange(0, p.len() - j)));
    } else {
        lemma_encode_shift(start, s0, b, p, j - 1);
        let q = p.subrange(0, p.len() - (j - 1));
        let q1 = p.subrange(0, p.len() - j);
        assert(q.drop_last() =~= q1);
        assert(q.len() * b <= p.len() * b) by (nonlinear_arith)
            requires q.len() <= p.len();
        assert(q1.len() * b + b <= p.len() * b) by (nonlinear_arith)
            requires q1.len() + 1 <= p.len();
        assert(ranks_fit(q1, b));
        lemma_encode_bound(start, s0, b, q1);
        assert(q.last() == p[p.len() - j]);
        lemma_push_rank(encode_ranks(start, b, q1), q.last(), b, (s0 + q1.len() * b) as u32);
        assert((j - 1) * b + b == j * b) by (nonlinear_arith);
        assert(j * b <= p.len() * b) by (nonlinear_arith)
            requires j <= p.len();
        let a = ((j - 1) * b) as u32;
        let e = encode_ranks(start, b, p);
        lemma_shr_shr(e, a, b, (j * b) as u32);
        assert(encode_ranks(start, b, q) == (encode_ranks(start, b, q1) << b) | q.last());
        assert(e >> a == encode_ranks(start, b, q));
        assert((e >> a) >> b == encode_ranks(start, b, q1));
        assert(e >> ((j * b) as u32) == encode_ranks(start, b, q1));
    }
}

proof fn lemma_encode_field(start: i32, s0: u32, b: u32, p: Seq<i32>, k: int)
    requires
        1 <= b <= 3,
        s0 + p.len() * b <= 30,
        0 <= start < (1i32 << s0),
        ranks_fit(p, b),
        0 <= k < p.len(),
    ensures
        field_at(encode_ranks(start, b, p), ((p.len() - k - 1) * b) as u32, b) == p[k],
{
    lemma_encode_shift(start, s0, b, p, p.len() - k - 1);
    let q = p.subrange(0, k + 1);
    assert(p.subrange(0, p.len() - (p.len() - k - 1)) =~= q);
    let q1 = p.subrange(0, k);
    assert(q.drop_last() =~= q1);
    assert(q1.len() * b + b <= p.len() * b) by (nonlinear_arith)
        requires q1.len() + 1 <= p.len();
    assert(ranks_fit(q1, b));
    lemma_encode_bound(start, s0, b, q1);
    lemma_push_rank(encode_ranks(start, b, q1), p[k], b, (s0 + q1.len() * b) as u32);
}

/// Decoding the rank of player `k` from an encoded ordering gives back the rank
/// that was encoded for that player.
pub proof fn lemma_decode_encode(ranks: Seq<i32>, k: int)
    requires
        1 <= ranks.len() <= ENUM_ORDERING_MAXPLAYERS,
        0 <= k < ranks.len(),
        ranks_fit(ranks, nbits_for(ranks.len() as int) as u32),
    ensures
        field_at(
            encode_ranks(0, nbits_for(ranks.len() as int) as u32, ranks),
            ((ranks.len() - k - 1) * nbits_for(ranks.len() as int)) as u32,
            nbits_for(ranks.len() as int) as u32,
        ) == ranks[k],
{
    let b = nbits_for(ranks.len() as int) as u32;
    assert(ranks.len() * b <= 21) by (nonlinear_arith)
        requires ranks.len() <= 7, b <= 3;
    lemma_shift_zero(0);
    lemma_encode_field(0, 0, b, ranks, k);
}

/// Decoding the low rank of player `k` from an encoded high-low ordering gives
/// back the low rank that was encoded for that player.
pub proof fn lemma_decode_encode_hilo_lo(hiranks: Seq<i32>, loranks: Seq<i32>, k: int)
    requires
        1 <= loranks.len() <= ENUM_ORDERING_MAXPLAYERS_HILO,
        hiranks.len() == loranks.len(),
        0 <= k < loranks.len(),
        ranks_fit(hiranks, nbits_for(loranks.len() as int) as u32),
        ranks_fit(loranks, nbits_for(loranks.len() as int) as u32),
    ensures
        field_at(
            encode_ranks(
                encode_ranks(0, nbits_for(loranks.len() as int) as u32, hiranks),
                nbits_for(loranks.len() as int) as u32,
                loranks,
            ),
            ((loranks.len() - k - 1) * nbits_for(loranks.len() as int)) as u32,
            nbits_for(loranks.len() as int) as u32,
        ) == loranks[k],
{
    let b = nbits_for(loranks.len() as int) as u32;
    let n = loranks.len();
    assert(n * b <= 15) by (nonlinear_arith)
        requires n <= 5, b <= 3;
    lemma_shift_zero(0);
    lemma_encode_bound(0, 0, b, hiranks);
    lemma_encode_field(encode_ranks(0, b, hiranks), (n * b) as u32, b, loranks, k);
}


/// Decoding the high rank of player `k` from an encoded high-low ordering gives
/// back the high rank that was encoded for that player.
pub proof fn lemma_decode_encode_hilo_hi(hiranks: Seq<i32>, loranks: Seq<i32>, k: int)
    requires
        1 <= loranks.len() <= ENUM_ORDERING_MAXPLAYERS_HILO,
        hiranks.len() == loranks.len(),
        0 <= k < loranks.len(),
        ranks_fit(hiranks, nbits_for(loranks.len() as int) as u32),
        ranks_fit(loranks, nbits_for(loranks.len() as int) as u32),
    ensures
        field_at(
            encode_ranks(
                encode_ranks(0, nbits_for(loranks.len() as int) as u32, hiranks),
                nbits_for(loranks.len() as int) as u32,
                loranks,
            ),
            ((loranks.len() - k - 1) * nbits_for(loranks.len() as int)
                + loranks.len() * nbits_for(loranks.len() as int)) as u32,
            nbits_for(loranks.len() as int) as u32,
        ) == hiranks[k],
{
    let b = nbits_for(loranks.len() as int) as u32;
    let n = loranks.len();
    assert(n * b <= 15) by (nonlinear_arith)
        requires n <= 5, b <= 3;
    assert((n - k - 1) * b <= n * b) by (nonlinear_arith)
        requires 0 <= k < n, b <= 3;
    lemma_shift_zero(0);
    lemma_encode_bound(0, 0, b, hiranks);
    let ehi = encode_ranks(0, b, hiranks);
    lemma_encode_bound(ehi, (n * b) as u32, b, loranks);
    lemma_encode_shift(ehi, (n * b) as u32, b, loranks, n as int);
    assert(loranks.subrange(0, 0) =~= Seq::<i32>::empty());
    assert(encode_ranks(ehi, b, loranks.subrange(0, 0)) == ehi);
    let e = encode_ranks(ehi, b, loranks);
    let s = ((n - k - 1) * b) as u32;
    lemma_shr_shr(e, (n * b) as u32, s, ((n - k - 1) * b + n * b) as u32);
    lemma_encode_field(0, 0, b, hiranks, k);
}

} // verus!

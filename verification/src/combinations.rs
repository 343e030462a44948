//! Combinations of `k` indices out of `0..n`, in lexicographic order.
use vstd::prelude::*;
use vstd::arithmetic::power::pow;

verus! {

/// `s` is a combination of `s.len()` indices of `0..n`: strictly increasing, below `n`.
pub open spec fn is_combination(s: Seq<usize>, n: int) -> bool {
    &&& forall|j: int| 0 <= j < s.len() ==> #[trigger] s[j] < n
    &&& forall|a: int, b: int| 0 <= a < b < s.len() ==> s[a] < s[b]
}

/// The first combination of `k` indices: `0, 1, ..., k - 1`.
pub open spec fn first_combination(k: int) -> Seq<usize> {
    Seq::new(k as nat, |j: int| j as usize)
}

/// The rightmost position below `i` whose index can still grow in a combination
/// of `s.len()` indices of `0..n`, or -1.
pub open spec fn pivot(s: Seq<usize>, n: int, i: int) -> int
    decreases i,
{
    if i <= 0 {
        -1
    } else if s[i - 1] < n - s.len() + (i - 1) {
        i - 1
    } else {
        pivot(s, n, i - 1)
    }
}

/// The combination following `s` in lexicographic order: the pivot index grows by
/// one and the indices after it follow consecutively; `None` after the last one.
pub open spec fn next_combination(s: Seq<usize>, n: int) -> Option<Seq<usize>> {
    let p = pivot(s, n, s.len() as int);
    if p < 0 {
        None
    } else {
        Some(Seq::new(s.len(), |j: int| if j < p { s[j] } else { (s[p] + 1 + (j - p)) as usize }))
    }
}

/// `s` comes before `t` in lexicographic order: at the first index where they
/// differ, `s` holds the smaller value.
pub open spec fn lex_before(s: Seq<usize>, t: Seq<usize>) -> bool {
    exists|q: int|
        0 <= q < s.len() && q < t.len() && #[trigger] s[q] < t[q] && forall|j: int| 0 <= j < q ==> s[j] == t[j]
}

/// The value of `s` as digits in base `base`, the first index most significant.
pub open spec fn comb_weight(s: Seq<usize>, base: int) -> int
    decreases s.len(),
{
    if s.len() == 0 {
        0
    } else {
        comb_weight(s.drop_last(), base) * base + s.last()
    }
}

proof fn lemma_pivot(s: Seq<usize>, n: int, i: int)
    requires
        0 <= i <= s.len(),
    ensures
        -1 <= pivot(s, n, i) < i,
        pivot(s, n, i) >= 0 ==> s[pivot(s, n, i)] < n - s.len() + pivot(s, n, i),
        forall|j: int| pivot(s, n, i) < j < i ==> #[trigger] s[j] >= n - s.len() + j,
    decreases i,
{
    if i > 0 && !(s[i - 1] < n - s.len() + (i - 1)) {
        lemma_pivot(s, n, i - 1);
    }
}

/// The combination after a combination is a combination.
pub proof fn lemma_next_combination(s: Seq<usize>, n: int)
    requires
        is_combination(s, n),
        s.len() <= n <= usize::MAX,
    ensures
        next_combination(s, n) matches Some(t) ==> is_combination(t, n) && t.len() == s.len(),
{
    lemma_pivot(s, n, s.len() as int);
    let p = pivot(s, n, s.len() as int);
    if p >= 0 {
        let t = next_combination(s, n)->0;
        let k = s.len();
        assert forall|j: int| 0 <= j < t.len() implies #[trigger] t[j] < n && (j >= p ==> t[j] == s[p] + 1 + (j - p)) by {
            if j >= p {
                assert(s[p] + 1 + (j - p) <= n - k + j);
            }
        }
        assert forall|a: int, b: int| 0 <= a < b < t.len() implies t[a] < t[b] by {
            if b < p {
            } else if a < p {
                assert(s[a] < s[p]);
            }
        }
    }
}

pub proof fn lemma_weight_bound(s: Seq<usize>, base: int)
    requires
        base >= 1,
        forall|j: int| 0 <= j < s.len() ==> #[trigger] s[j] < base,
    ensures
        0 <= comb_weight(s, base) < pow(base, s.len()),
    decreases s.len(),
{
    reveal(pow);
    if s.len() > 0 {
        let q = s.drop_last();
        lemma_weight_bound(q, base);
        let w = comb_weight(q, base);
        let p = pow(base, q.len());
        assert(q.len() == (s.len() - 1) as nat);
        assert(pow(base, s.len()) == base * pow(base, (s.len() - 1) as nat));
        assert(pow(base, s.len()) == base * p);
        assert(s.last() < base);
        assert(w * base + s.last() < base * p) by (nonlinear_arith)
            requires
                0 <= w < p,
                0 <= s.last() < base,
        ;
        assert(0 <= w * base) by (nonlinear_arith)
            requires 0 <= w, base >= 1;
    }
}

proof fn lemma_weight_lex(s: Seq<usize>, t: Seq<usize>, base: int, p: int)
    requires
        base >= 1,
        s.len() == t.len(),
        0 <= p < s.len(),
        forall|j: int| 0 <= j < p ==> s[j] == t[j],
        s[p] < t[p],
        forall|j: int| 0 <= j < s.len() ==> #[trigger] s[j] < base,
        forall|j: int| 0 <= j < t.len() ==> #[trigger] t[j] < base,
    ensures
        comb_weight(s, base) < comb_weight(t, base),
    decreases s.len(),
{
    let qs = s.drop_last();
    let qt = t.drop_last();
    if p == s.len() - 1 {
        assert(qs =~= qt);
    } else {
        lemma_weight_lex(qs, qt, base, p);
        let ws = comb_weight(qs, base);
        let wt = comb_weight(qt, base);
        assert(s.last() < base);
        assert(ws * base + s.last() < wt * base + t.last()) by (nonlinear_arith)
            requires
                ws < wt,
                0 <= s.last() < base,
                0 <= t.last(),
        ;
    }
}

pub proof fn lemma_next_weight(s: Seq<usize>, n: int)
    requires
        is_combination(s, n),
        s.len() <= n <= usize::MAX,
        next_combination(s, n) is Some,
    ensures
        comb_weight(s, n + 1) < comb_weight(next_combination(s, n)->0, n + 1),
        comb_weight(next_combination(s, n)->0, n + 1) < pow(n + 1, s.len()),
{
    lemma_pivot(s, n, s.len() as int);
    lemma_next_combination(s, n);
    let t = next_combination(s, n)->0;
    let p = pivot(s, n, s.len() as int);
    assert(t[p] == s[p] + 1);
    assert forall|j: int| 0 <= j < s.len() implies #[trigger] s[j] < n + 1 by {}
    assert forall|j: int| 0 <= j < t.len() implies #[trigger] t[j] < n + 1 by {}
    lemma_weight_lex(s, t, n + 1, p);
    lemma_weight_bound(t, n + 1);
}

/// The first index where `s` and `t` differ, or their common length.
pub open spec fn first_diff(s: Seq<usize>, t: Seq<usize>, i: int) -> int
    decreases s.len() - i,
{
    if i >= s.len() || i >= t.len() || s[i] != t[i] {
        i
    } else {
        first_diff(s, t, i + 1)
    }
}

proof fn lemma_first_diff(s: Seq<usize>, t: Seq<usize>, i: int)
    requires
        0 <= i <= s.len(),
        s.len() == t.len(),
        forall|j: int| 0 <= j < i ==> s[j] == t[j],
    ensures
        i <= first_diff(s, t, i) <= s.len(),
        forall|j: int| 0 <= j < first_diff(s, t, i) ==> s[j] == t[j],
        first_diff(s, t, i) < s.len() ==> s[first_diff(s, t, i)] != t[first_diff(s, t, i)],
        first_diff(s, t, i) == s.len() ==> s == t,
    decreases s.len() - i,
{
    if i < s.len() && s[i] == t[i] {
        lemma_first_diff(s, t, i + 1);
    } else if i == s.len() {
        assert(s =~= t);
    }
}

/// Two sequences of digits below `base` of one length with the same weight are
/// equal, and otherwise their weights are ordered as their first differing digits.
pub(crate) proof fn lemma_weight_order(s: Seq<usize>, t: Seq<usize>, base: int)
    requires
        base >= 1,
        s.len() == t.len(),
        forall|j: int| 0 <= j < s.len() ==> #[trigger] s[j] < base,
        forall|j: int| 0 <= j < t.len() ==> #[trigger] t[j] < base,
    ensures
        comb_weight(s, base) == comb_weight(t, base) ==> s == t,
        comb_weight(s, base) < comb_weight(t, base) ==> {
            let q = first_diff(s, t, 0);
            &&& 0 <= q < s.len()
            &&& s[q] < t[q]
            &&& forall|j: int| 0 <= j < q ==> s[j] == t[j]
        },
{
    lemma_first_diff(s, t, 0);
    let q = first_diff(s, t, 0);
    if q < s.len() {
        if s[q] < t[q] {
            lemma_weight_lex(s, t, base, q);
        } else {
            lemma_weight_lex(t, s, base, q);
        }
    }
}

/// No combination of `k` indices below `n` has a smaller weight than the first one.
pub(crate) proof fn lemma_first_is_least(c: Seq<usize>, n: int)
    requires
        is_combination(c, n),
        c.len() <= n <= usize::MAX,
    ensures
        comb_weight(first_combination(c.len() as int), n + 1) <= comb_weight(c, n + 1),
{
    let f = first_combination(c.len() as int);
    lemma_increasing_from(c, c.len() as int);
    assert forall|j: int| 0 <= j < f.len() implies #[trigger] f[j] < n + 1 by {}
    assert forall|j: int| 0 <= j < c.len() implies #[trigger] c[j] < n + 1 by {}
    lemma_weight_order(c, f, n + 1);
}

/// The indices of a combination are at least their positions.
proof fn lemma_increasing_from(c: Seq<usize>, i: int)
    requires
        forall|a: int, b: int| 0 <= a < b < c.len() ==> c[a] < c[b],
        0 <= i <= c.len(),
    ensures
        forall|j: int| 0 <= j < i ==> #[trigger] c[j] >= j,
    decreases i,
{
    if i > 0 {
        lemma_increasing_from(c, i - 1);
        if i - 1 > 0 {
            assert(c[i - 2] < c[i - 1]);
        }
    }
}

/// The indices of a combination of `c.len()` indices below `n` leave room for the
/// ones after them: index `j` is at most `n - c.len() + j`.
proof fn lemma_room_after(c: Seq<usize>, n: int, i: int)
    requires
        is_combination(c, n),
        0 <= i <= c.len(),
    ensures
        forall|j: int| c.len() - i <= j < c.len() ==> #[trigger] c[j] <= n - c.len() + j,
    decreases i,
{
    if i > 0 {
        lemma_room_after(c, n, i - 1);
        let j = c.len() - i;
        if j + 1 < c.len() {
            assert(c[j] < c[j + 1]);
        }
    }
}

/// The successor of a combination `s` comes no later than any combination `c`
/// that comes after `s`: the successors list the combinations without skipping any.
pub(crate) proof fn lemma_next_is_least_after(s: Seq<usize>, c: Seq<usize>, n: int)
    requires
        is_combination(s, n),
        is_combination(c, n),
        s.len() == c.len(),
        s.len() <= n <= usize::MAX,
        comb_weight(s, n + 1) < comb_weight(c, n + 1),
    ensures
        next_combination(s, n) is Some,
        comb_weight(next_combination(s, n)->0, n + 1) <= comb_weight(c, n + 1),
{
    let k = s.len();
    assert forall|j: int| 0 <= j < s.len() implies #[trigger] s[j] < n + 1 by {}
    assert forall|j: int| 0 <= j < c.len() implies #[trigger] c[j] < n + 1 by {}
    lemma_weight_order(s, c, n + 1);
    let q = first_diff(s, c, 0);
    lemma_room_after(c, n, k as int);
    assert(c[q] <= n - k + q);
    lemma_pivot(s, n, k as int);
    let p = pivot(s, n, k as int);
    if p < q {
        assert(s[q] >= n - k + q);
        assert(false);
    }
    lemma_next_combination(s, n);
    let t = next_combination(s, n)->0;
    assert forall|j: int| 0 <= j < t.len() implies #[trigger] t[j] < n + 1 by {}
    if p > q {
        assert(t[q] == s[q]);
        assert forall|j: int| 0 <= j < q implies t[j] == c[j] by {}
        lemma_weight_lex(t, c, n + 1, q);
    } else {
        assert(t[q] == s[q] + 1);
        if t[q] < c[q] {
            lemma_weight_lex(t, c, n + 1, q);
        } else {
            lemma_first_diff(t, c, 0);
            let d = first_diff(t, c, 0);
            if d < k {
                assert(d > q);
                assert(t[d] < c[d]) by {
                    assert(t[d] == t[q] + (d - q));
                    lemma_gap(c, q, d);
                }
                lemma_weight_lex(t, c, n + 1, d);
            }
        }
    }
}

/// Indices of a combination grow by at least one per position.
proof fn lemma_gap(c: Seq<usize>, a: int, b: int)
    requires
        forall|x: int, y: int| 0 <= x < y < c.len() ==> c[x] < c[y],
        0 <= a <= b < c.len(),
    ensures
        c[b] >= c[a] + (b - a),
    decreases b - a,
{
    if a < b {
        lemma_gap(c, a, b - 1);
        assert(c[b - 1] < c[b]);
    }
}

fn copy_indices(v: &Vec<usize>) -> (r: Vec<usize>)
    ensures
        r@ == v@,
{
    let mut r: Vec<usize> = Vec::new();
    let mut i: usize = 0;
    while i < v.len()
        invariant
            i <= v.len(),
            r@ == v@.subrange(0, i as int),
        decreases v.len() - i,
    {
        r.push(v[i]);
        i = i + 1;
        proof {
            assert(r@ =~= v@.subrange(0, i as int));
        }
    }
    proof {
        assert(v@.subrange(0, i as int) =~= v@);
    }
    r
}

pub(crate) fn first_indices(k: usize) -> (v: Vec<usize>)
    ensures
        v@ == first_combination(k as int),
{
    let mut v: Vec<usize> = Vec::new();
    let mut i: usize = 0;
    while i < k
        invariant
            i <= k,
            v@ == first_combination(i as int),
        decreases k - i,
    {
        v.push(i);
        i = i + 1;
        proof {
            assert(v@ =~= first_combination(i as int));
        }
    }
    v
}

/// Moves `indices`, a combination of `0..n`, to the next one; tells whether
/// there was one (else `indices` is left as it was).
pub(crate) fn advance_indices(indices: &mut Vec<usize>, n: usize) -> (found: bool)
    requires
        old(indices)@.len() <= n,
    ensures
        found == next_combination(old(indices)@, n as int) is Some,
        found ==> final(indices)@ == next_combination(old(indices)@, n as int)->0,
        !found ==> final(indices)@ == old(indices)@,
{
    let k = indices.len();
    let mut i = k;
    while i > 0
        invariant
            i <= k,
            k == indices@.len(),
            k <= n,
            indices@ == old(indices)@,
            pivot(indices@, n as int, k as int) == pivot(indices@, n as int, i as int),
        decreases i,
    {
        i = i - 1;
        if indices[i] < n - k + i {
            let ghost s = indices@;
            let v = indices[i] + 1;
            indices.set(i, v);
            let mut j = i + 1;
            while j < k
                invariant
                    i < j <= k,
                    k == indices@.len(),
                    k <= n,
                    v == s[i as int] + 1,
                    v < n - k + i + 1,
                    forall|x: int| 0 <= x < i ==> indices@[x] == s[x],
                    forall|x: int| i <= x < j ==> indices@[x] == v + (x - i),
                decreases k - j,
            {
                let prev = indices[j - 1];
                indices.set(j, prev + 1);
                j = j + 1;
            }
            proof {
                assert(indices@ =~= next_combination(s, n as int)->0);
            }
            return true;
        }
    }
    false
}

/// Successive combinations of `k` indices out of `0..n`, in lexicographic order.
pub struct Combinations {
    n: usize,
    k: usize,
    indices: Vec<usize>,
    first: bool,
}

impl View for Combinations {
    type V = (nat, nat, Seq<usize>, bool);

    closed spec fn view(&self) -> (nat, nat, Seq<usize>, bool) {
        (self.n as nat, self.k as nat, self.indices@, self.first)
    }
}

impl Combinations {
    /// Internal consistency: the current indices form a combination of `k` out of `n`
    /// (when `k <= n`).
    pub closed spec fn wf(&self) -> bool {
        &&& self.indices@.len() == self.k
        &&& self.k <= self.n ==> is_combination(self.indices@, self.n as int)
    }

    /// The combinations of `k` out of `n`, starting before `0, 1, ..., k - 1`.
    pub fn new(n: usize, k: usize) -> (c: Combinations)
        ensures
            c.wf(),
            c@ == (n as nat, k as nat, first_combination(k as int), true),
    {
        let indices = first_indices(k);
        Combinations { n, k, indices, first: true }
    }

    /// The next combination: first `0, 1, ..., k - 1`, then each one's successor
    /// (see `next_combination`); `None` once they are exhausted or when `k > n`.
    pub fn next(&mut self) -> (r: Option<Vec<usize>>)
        requires
            old(self).wf(),
        ensures
            final(self).wf(),
            final(self)@.0 == old(self)@.0,
            final(self)@.1 == old(self)@.1,
            old(self)@.1 > old(self)@.0 ==> r is None && final(self)@ == old(self)@,
            old(self)@.1 <= old(self)@.0 && old(self)@.3 ==> (r matches Some(v) && v@ == old(self)@.2
                && final(self)@ == (old(self)@.0, old(self)@.1, old(self)@.2, false)),
            old(self)@.1 <= old(self)@.0 && !old(self)@.3 ==> match next_combination(old(self)@.2, old(self)@.0 as int) {
                Some(t) => (r matches Some(v) && v@ == t && final(self)@ == (old(self)@.0, old(self)@.1, t, false)),
                None => r is None && final(self)@ == old(self)@,
            },
    {
        if self.k > self.n {
            return None;
        }
        if self.first {
            self.first = false;
            return Some(copy_indices(&self.indices));
        }
        proof {
            lemma_next_combination(self.indices@, self.n as int);
        }
        if advance_indices(&mut self.indices, self.n) {
            Some(copy_indices(&self.indices))
        } else {
            None
        }
    }
}

/// The combinations of `k` out of `n` (see `Combinations::next`).
pub fn combinations(n: usize, k: usize) -> (c: Combinations)
    ensures
        c.wf(),
        c@ == (n as nat, k as nat, first_combination(k as int), true),
{
    Combinations::new(n, k)
}

/// The binomial coefficient "`n` choose `k`", by Pascal's rule.
pub open spec fn binomial(n: nat, k: nat) -> nat
    decreases n,
{
    if k == 0 {
        1
    } else if n == 0 {
        0
    } else {
        binomial((n - 1) as nat, (k - 1) as nat) + binomial((n - 1) as nat, k)
    }
}

/// There is no group of more than `n` among `n`.
pub proof fn lemma_binomial_small(n: nat, k: nat)
    requires
        k > n,
    ensures
        binomial(n, k) == 0,
    decreases n,
{
    if n > 0 {
        lemma_binomial_small((n - 1) as nat, (k - 1) as nat);
        lemma_binomial_small((n - 1) as nat, k);
    }
}

/// The combinations of `k` indices below `n`.
pub open spec fn combination_set(n: nat, k: nat) -> Set<Seq<usize>> {
    Set::new(|c: Seq<usize>| c.len() == k && is_combination(c, n as int))
}

/// Appends the index `v` to a combination.
pub open spec fn push_index(v: usize) -> spec_fn(Seq<usize>) -> Seq<usize> {
    |c: Seq<usize>| c.push(v)
}

/// The combinations of `k` indices below `n` are those below `n - 1`, and those
/// below `n - 1` of `k - 1` indices followed by `n - 1`.
proof fn lemma_combination_set_split(n: nat, k: nat)
    requires
        0 < n <= usize::MAX,
        0 < k,
    ensures
        combination_set(n, k) == combination_set((n - 1) as nat, k) + combination_set(
            (n - 1) as nat,
            (k - 1) as nat,
        ).map(push_index((n - 1) as usize)),
        combination_set((n - 1) as nat, k).disjoint(
            combination_set((n - 1) as nat, (k - 1) as nat).map(push_index((n - 1) as usize)),
        ),
{
    let a = combination_set((n - 1) as nat, k);
    let b = combination_set((n - 1) as nat, (k - 1) as nat);
    let f = push_index((n - 1) as usize);
    assert forall|c: Seq<usize>| #[trigger] combination_set(n, k).contains(c) implies (a + b.map(f)).contains(c) by {
        let l = c.len() - 1;
        if c[l] < n - 1 {
            assert forall|j: int| 0 <= j < c.len() implies #[trigger] c[j] < n - 1 by {
                if j < l {
                    assert(c[j] < c[l]);
                }
            }
            assert(a.contains(c));
        } else {
            let d = c.drop_last();
            assert forall|j: int| 0 <= j < d.len() implies #[trigger] d[j] < n - 1 by {
                assert(c[j] < c[l]);
            }
            assert(b.contains(d));
            assert(d.push((n - 1) as usize) =~= c);
            assert(f(d) == c);
        }
    }
    assert forall|c: Seq<usize>| #[trigger] (a + b.map(f)).contains(c) implies combination_set(n, k).contains(c) by {
        if !a.contains(c) {
            let d = choose|d: Seq<usize>| b.contains(d) && f(d) == c;
            assert(c =~= d.push((n - 1) as usize));
            assert forall|x: int, y: int| 0 <= x < y < c.len() implies c[x] < c[y] by {
                if y == c.len() - 1 {
                    assert(d[x] < n - 1);
                }
            }
        }
    }
    assert(combination_set(n, k) =~= a + b.map(f));
    assert forall|c: Seq<usize>| a.contains(c) implies !#[trigger] b.map(f).contains(c) by {
        if b.map(f).contains(c) {
            let d = choose|d: Seq<usize>| b.contains(d) && f(d) == c;
            assert(c[c.len() - 1] == n - 1);
        }
    }
}

/// There are `binomial(n, k)` combinations of `k` indices below `n`.
pub proof fn lemma_combination_count(n: nat, k: nat)
    requires
        n <= usize::MAX,
    ensures
        combination_set(n, k).finite(),
        combination_set(n, k).len() == binomial(n, k),
    decreases n,
{
    if k == 0 {
        assert forall|s: Seq<usize>| #[trigger] combination_set(n, k).contains(s) implies s == Seq::<usize>::empty() by {
            assert(s =~= Seq::<usize>::empty());
        }
        assert(combination_set(n, k).contains(Seq::<usize>::empty()));
        assert(combination_set(n, k) =~= set![Seq::<usize>::empty()]);
    } else if n == 0 {
        assert forall|c: Seq<usize>| !#[trigger] combination_set(n, k).contains(c) by {
            if combination_set(n, k).contains(c) {
                assert(c[0] < 0);
            }
        }
        assert(combination_set(n, k) =~= Set::<Seq<usize>>::empty());
    } else {
        let m = (n - 1) as nat;
        lemma_combination_count(m, k);
        lemma_combination_count(m, (k - 1) as nat);
        lemma_combination_set_split(n, k);
        let a = combination_set(m, k);
        let b = combination_set(m, (k - 1) as nat);
        let f = push_index(m as usize);
        assert(vstd::relations::injective_on(f, b)) by {
            assert forall|x: Seq<usize>, y: Seq<usize>| b.contains(x) && b.contains(y) && #[trigger] f(x) == #[trigger] f(y) implies x == y by {
                assert(x =~= f(x).drop_last());
                assert(y =~= f(y).drop_last());
            }
        }
        vstd::set_lib::lemma_map_size(b, b.map(f), f);
        vstd::set_lib::lemma_set_disjoint_lens(a, b.map(f));
    }
}

/// `c` is one of the vectors of `r`.
pub open spec fn listed(r: Seq<Vec<usize>>, c: Seq<usize>) -> bool {
    exists|j: int| 0 <= j < r.len() && r[j]@ == c
}

/// No combination has more indices than there are values below `n`.
proof fn lemma_no_long_combination(c: Seq<usize>, n: int)
    requires
        is_combination(c, n),
        0 <= n,
    ensures
        c.len() <= n,
{
    if c.len() > n {
        lemma_increasing_from(c, c.len() as int);
        assert(c[c.len() - 1] >= c.len() - 1);
    }
}

/// All combinations of `k` indices out of `0..n`, in lexicographic order: the
/// first is `0, 1, ..., k - 1`, each next one its successor, and the last has
/// none; no combination when `k > n`. Each combination of `k` indices below `n`
/// is listed, exactly once.
pub fn for_each_combination(n: usize, k: usize) -> (r: Vec<Vec<usize>>)
    ensures
        k > n ==> r@.len() == 0,
        k <= n ==> {
            &&& r@.len() >= 1
            &&& r@[0]@ == first_combination(k as int)
            &&& forall|j: int| 0 <= j < r@.len() - 1 ==> next_combination(#[trigger] r@[j]@, n as int) == Some(r@[j + 1]@)
            &&& next_combination(r@[r@.len() - 1]@, n as int) is None
        },
        forall|c: Seq<usize>|
            #![trigger is_combination(c, n as int)]
            #![trigger listed(r@, c)]
            (c.len() == k && is_combination(c, n as int)) <==> listed(r@, c),
        forall|a: int, b: int| 0 <= a < b < r@.len() ==> r@[a]@ != r@[b]@,
        forall|a: int, b: int| 0 <= a < b < r@.len() ==> lex_before(#[trigger] r@[a]@, #[trigger] r@[b]@),
        r@.len() == binomial(n as nat, k as nat),
{
    let mut r: Vec<Vec<usize>> = Vec::new();
    if k > n {
        proof {
            assert forall|c: Seq<usize>| #![trigger is_combination(c, n as int)]
                c.len() == k && is_combination(c, n as int) implies listed(r@, c) by {
                lemma_no_long_combination(c, n as int);
            }
            lemma_listed_count(r@, n, k);
        }
        return r;
    }
    let mut indices = first_indices(k);
    r.push(copy_indices(&indices));
    proof {
        assert(is_combination(indices@, n as int));
        lemma_weight_bound(indices@, n as int + 1);
        assert forall|c: Seq<usize>| #![trigger is_combination(c, n as int)]
            c.len() == k && is_combination(c, n as int) && comb_weight(c, n as int + 1) < comb_weight(indices@, n as int + 1)
            implies listed(r@, c) by {
            lemma_first_is_least(c, n as int);
        }
    }
    loop
        invariant
            k <= n,
            indices@.len() == k,
            is_combination(indices@, n as int),
            0 <= comb_weight(indices@, n as int + 1) < pow(n as int + 1, k as nat),
            r@.len() >= 1,
            r@[0]@ == first_combination(k as int),
            r@[r@.len() - 1]@ == indices@,
            forall|j: int| 0 <= j < r@.len() - 1 ==> next_combination(#[trigger] r@[j]@, n as int) == Some(r@[j + 1]@),
            forall|j: int| 0 <= j < r@.len() ==> (#[trigger] r@[j]@).len() == k && is_combination(r@[j]@, n as int),
            forall|a: int, b: int|
                0 <= a < b < r@.len() ==> comb_weight(#[trigger] r@[a]@, n as int + 1) < comb_weight(#[trigger] r@[b]@, n as int + 1),
            forall|c: Seq<usize>|
                #![trigger is_combination(c, n as int)]
                c.len() == k && is_combination(c, n as int) && comb_weight(c, n as int + 1) < comb_weight(indices@, n as int + 1)
                    ==> listed(r@, c),
        ensures
            r@.len() >= 1,
            r@[0]@ == first_combination(k as int),
            forall|j: int| 0 <= j < r@.len() - 1 ==> next_combination(#[trigger] r@[j]@, n as int) == Some(r@[j + 1]@),
            next_combination(r@[r@.len() - 1]@, n as int) is None,
            forall|j: int| 0 <= j < r@.len() ==> (#[trigger] r@[j]@).len() == k && is_combination(r@[j]@, n as int),
            forall|a: int, b: int|
                0 <= a < b < r@.len() ==> comb_weight(#[trigger] r@[a]@, n as int + 1) < comb_weight(#[trigger] r@[b]@, n as int + 1),
            forall|c: Seq<usize>|
                #![trigger is_combination(c, n as int)]
                c.len() == k && is_combination(c, n as int) ==> listed(r@, c),
        decreases pow(n as int + 1, k as nat) - comb_weight(indices@, n as int + 1),
    {
        let ghost before = indices@;
        proof {
            lemma_next_combination(before, n as int);
            if next_combination(before, n as int) is Some {
                lemma_next_weight(before, n as int);
            }
        }
        let found = advance_indices(&mut indices, n);
        if !found {
            proof {
                assert forall|c: Seq<usize>| #![trigger is_combination(c, n as int)]
                    c.len() == k && is_combination(c, n as int) implies listed(r@, c) by {
                    assert forall|j: int| 0 <= j < c.len() implies #[trigger] c[j] < n + 1 by {}
                    assert forall|j: int| 0 <= j < before.len() implies #[trigger] before[j] < n + 1 by {}
                    lemma_weight_order(c, before, n as int + 1);
                    if comb_weight(before, n as int + 1) < comb_weight(c, n as int + 1) {
                        lemma_next_is_least_after(before, c, n as int);
                    } else if comb_weight(c, n as int + 1) == comb_weight(before, n as int + 1) {
                        assert(r@[r@.len() - 1]@ == c);
                    }
                }
            }
            break;
        }
        let ghost old_r = r@;
        r.push(copy_indices(&indices));
        proof {
            assert forall|j: int| 0 <= j < r@.len() - 1 implies next_combination(#[trigger] r@[j]@, n as int) == Some(r@[j + 1]@) by {
                if j < old_r.len() - 1 {
                    assert(r@[j] == old_r[j] && r@[j + 1] == old_r[j + 1]);
                } else {
                    assert(r@[j] == old_r[j]);
                }
            }
            assert forall|j: int| 0 <= j < r@.len() implies (#[trigger] r@[j]@).len() == k && is_combination(r@[j]@, n as int) by {
                if j < old_r.len() {
                    assert(r@[j] == old_r[j]);
                }
            }
            assert forall|a: int, b: int| 0 <= a < b < r@.len() implies comb_weight(#[trigger] r@[a]@, n as int + 1) < comb_weight(#[trigger] r@[b]@, n as int + 1) by {
                assert(r@[a] == old_r[a]);
                if b < old_r.len() {
                    assert(r@[b] == old_r[b]);
                } else {
                    if a < old_r.len() - 1 {
                        assert(comb_weight(old_r[a]@, n as int + 1) < comb_weight(old_r[old_r.len() - 1]@, n as int + 1));
                    }
                }
            }
            assert forall|c: Seq<usize>| #![trigger is_combination(c, n as int)]
                c.len() == k && is_combination(c, n as int) && comb_weight(c, n as int + 1) < comb_weight(indices@, n as int + 1)
                implies listed(r@, c) by {
                assert forall|j: int| 0 <= j < c.len() implies #[trigger] c[j] < n + 1 by {}
                assert forall|j: int| 0 <= j < before.len() implies #[trigger] before[j] < n + 1 by {}
                lemma_weight_order(c, before, n as int + 1);
                if comb_weight(c, n as int + 1) < comb_weight(before, n as int + 1) {
                    let j = choose|j: int| 0 <= j < old_r.len() && old_r[j]@ == c;
                    assert(r@[j] == old_r[j]);
                } else if comb_weight(c, n as int + 1) == comb_weight(before, n as int + 1) {
                    assert(r@[old_r.len() - 1] == old_r[old_r.len() - 1]);
                } else {
                    lemma_next_is_least_after(before, c, n as int);
                }
            }
        }
    }
    proof {
        assert forall|c: Seq<usize>| #![trigger listed(r@, c)]
            listed(r@, c) implies c.len() == k && is_combination(c, n as int) by {
            let j = choose|j: int| 0 <= j < r@.len() && r@[j]@ == c;
            assert((r@[j]@).len() == k);
        }
        assert forall|a: int, b: int| 0 <= a < b < r@.len() implies r@[a]@ != r@[b]@ by {
            assert(comb_weight(r@[a]@, n as int + 1) < comb_weight(r@[b]@, n as int + 1));
        }
        assert forall|a: int, b: int| 0 <= a < b < r@.len() implies lex_before(#[trigger] r@[a]@, #[trigger] r@[b]@) by {
            let (s, t) = (r@[a]@, r@[b]@);
            assert(comb_weight(s, n as int + 1) < comb_weight(t, n as int + 1));
            assert(s.len() == k && is_combination(s, n as int));
            assert(t.len() == k && is_combination(t, n as int));
            assert forall|j: int| 0 <= j < s.len() implies #[trigger] s[j] < n + 1 by {}
            assert forall|j: int| 0 <= j < t.len() implies #[trigger] t[j] < n + 1 by {}
            lemma_weight_order(s, t, n as int + 1);
            let q = first_diff(s, t, 0);
            assert(s[q] < t[q]);
        }
        lemma_listed_count(r@, n, k);
    }
    r
}

/// A list of distinct vectors that lists exactly the combinations of `k` indices
/// below `n` has `binomial(n, k)` of them.
proof fn lemma_listed_count(r: Seq<Vec<usize>>, n: usize, k: usize)
    requires
        forall|c: Seq<usize>|
            #![trigger is_combination(c, n as int)]
            #![trigger listed(r, c)]
            (c.len() == k && is_combination(c, n as int)) <==> listed(r, c),
        forall|a: int, b: int| 0 <= a < b < r.len() ==> r[a]@ != r[b]@,
    ensures
        r.len() == binomial(n as nat, k as nat),
{
    let views = r.map_values(|v: Vec<usize>| v@);
    assert(views.no_duplicates()) by {
        assert forall|a: int, b: int| 0 <= a < views.len() && 0 <= b < views.len() && a != b implies views[a] != views[b] by {
            if a < b {
                assert(r[a]@ != r[b]@);
            } else {
                assert(r[b]@ != r[a]@);
            }
        }
    }
    assert forall|c: Seq<usize>| #[trigger] views.to_set().contains(c) <==> combination_set(n as nat, k as nat).contains(c) by {
        if views.to_set().contains(c) {
            let j = choose|j: int| 0 <= j < views.len() && views[j] == c;
            assert(listed(r, c));
            assert(is_combination(c, n as int));
        }
        if combination_set(n as nat, k as nat).contains(c) {
            assert(is_combination(c, n as int));
            assert(listed(r, c));
            let j = choose|j: int| 0 <= j < r.len() && r[j]@ == c;
            assert(views[j] == c);
        }
    }
    assert(views.to_set() =~= combination_set(n as nat, k as nat));
    views.unique_seq_to_set();
    lemma_combination_count(n as nat, k as nat);
}

} // verus!

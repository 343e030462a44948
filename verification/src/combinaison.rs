//! All combinations of `nelem` indices out of `0..nuniv`, computed at once.
use vstd::prelude::*;
use crate::combinations::{
    binomial, combination_set, comb_weight, first_combination, first_diff, lex_before, next_combination,
    is_combination,
    lemma_combination_count, lemma_first_is_least, lemma_next_combination, lemma_next_is_least_after,
    lemma_next_weight, lemma_weight_order,
};

verus! {

/// The product `(n/1) * ((n-1)/2) * ...` over `i` steps, each division rounding down.
pub open spec fn ncombo_fold(n: int, i: int) -> int
    decreases i,
{
    if i <= 0 {
        1
    } else {
        ncombo_fold(n, i - 1) * (n - (i - 1)) / i
    }
}

/// The combination reached from the first one after `j` successors, if any.
pub open spec fn nth_combination(n: int, k: int, j: nat) -> Option<Seq<usize>>
    decreases j,
{
    if j == 0 {
        Some(first_combination(k))
    } else {
        match nth_combination(n, k, (j - 1) as nat) {
            Some(s) => next_combination(s, n),
            None => None,
        }
    }
}

proof fn lemma_binomial_step(n: nat)
    ensures
        forall|i: nat| #[trigger] binomial(n, i) * (n - i) == binomial(n, i + 1) * (i + 1),
    decreases n,
{
    if n == 0 {
        assert forall|i: nat| #[trigger] binomial(0, i) * (0 - i) == binomial(0, i + 1) * (i + 1) by {
            let a = binomial(0, i);
            let b = binomial(0, i + 1);
            assert(b == 0);
            if i > 0 {
                assert(a == 0);
            }
            assert(a * (0 - i) == b * (i + 1)) by (nonlinear_arith)
                requires b == 0, i > 0 ==> a == 0, i >= 0;
        }
    } else {
        let m = (n - 1) as nat;
        lemma_binomial_step(m);
        assert forall|i: nat| #[trigger] binomial(n, i) * (n - i) == binomial(n, i + 1) * (i + 1) by {
            let b1 = binomial(m, i + 1);
            let b0 = binomial(m, i);
            assert(binomial(n, i + 1) == b0 + b1);
            assert(b0 * (m - i) == b1 * (i + 1));
            if i == 0 {
                assert(binomial(n, 0) == 1);
                assert(b0 == 1);
                assert(b1 == m) by (nonlinear_arith)
                    requires b0 * (m - 0) == b1 * (0 + 1), b0 == 1;
                assert(1 * (n - 0) == (b0 + b1) * (0 + 1)) by (nonlinear_arith)
                    requires b1 == m, b0 == 1, n == m + 1;
            } else {
                let i1 = (i - 1) as nat;
                let bm = binomial(m, i1);
                assert(binomial(n, i) == bm + b0);
                assert(bm * (m - i1) == b0 * (i1 + 1));
                assert((bm + b0) * (n - i) == (b0 + b1) * (i + 1)) by (nonlinear_arith)
                    requires
                        bm * (m - i1) == b0 * (i1 + 1),
                        b0 * (m - i) == b1 * (i + 1),
                        n == m + 1,
                        i == i1 + 1,
                ;
            }
        }
    }
}

proof fn lemma_binomial_pos(n: nat, k: nat)
    requires
        k <= n,
    ensures
        binomial(n, k) >= 1,
    decreases n,
{
    if k > 0 {
        lemma_binomial_pos((n - 1) as nat, (k - 1) as nat);
    }
}

/// The product computed by `Combination::new` is the binomial coefficient: the
/// number of combinations of `k` out of `n`.
pub proof fn lemma_ncombo_is_binomial(n: nat, k: nat)
    ensures
        ncombo_fold(n as int, k as int) == binomial(n, k),
    decreases k,
{
    if k > 0 {
        let i = (k - 1) as nat;
        lemma_ncombo_is_binomial(n, i);
        lemma_binomial_step(n);
        assert(binomial(n, i) * (n - i) == binomial(n, i + 1) * (i + 1));
        let b = binomial(n, k) as int;
        let kk = k as int;
        assert(ncombo_fold(n as int, k as int) == binomial(n, i) * (n - i) / kk);
        assert((b * kk) / kk == b) by (nonlinear_arith)
            requires kk > 0;
    }
}

/// Along the successors of the first combination, up to the `y`-th: each is a
/// combination, their weights grow, and every combination of no greater weight
/// than the `y`-th is one of them.
proof fn lemma_nth_chain(n: int, k: int, y: nat)
    requires
        0 <= k <= n <= usize::MAX,
        nth_combination(n, k, y) is Some,
    ensures
        is_combination(nth_combination(n, k, y)->0, n),
        (nth_combination(n, k, y)->0).len() == k,
        forall|x: nat| x < y ==> (#[trigger] nth_combination(n, k, x)) is Some && comb_weight(
            nth_combination(n, k, x)->0,
            n + 1,
        ) < comb_weight(nth_combination(n, k, y)->0, n + 1),
        forall|c: Seq<usize>|
            #![trigger is_combination(c, n)]
            c.len() == k && is_combination(c, n) && comb_weight(c, n + 1) <= comb_weight(
                nth_combination(n, k, y)->0,
                n + 1,
            ) ==> exists|x: nat| x <= y && #[trigger] nth_combination(n, k, x) == Some(c),
    decreases y,
{
    let s = nth_combination(n, k, y)->0;
    if y == 0 {
        assert(is_combination(first_combination(k), n));
        assert forall|c: Seq<usize>| #![trigger is_combination(c, n)]
            c.len() == k && is_combination(c, n) && comb_weight(c, n + 1) <= comb_weight(s, n + 1)
            implies exists|x: nat| x <= y && #[trigger] nth_combination(n, k, x) == Some(c) by {
            lemma_first_is_least(c, n);
            assert forall|j: int| 0 <= j < c.len() implies #[trigger] c[j] < n + 1 by {}
            assert forall|j: int| 0 <= j < s.len() implies #[trigger] s[j] < n + 1 by {}
            lemma_weight_order(c, s, n + 1);
            assert(nth_combination(n, k, 0) == Some(c));
        }
    } else {
        let py = (y - 1) as nat;
        assert(nth_combination(n, k, py) is Some);
        lemma_nth_chain(n, k, py);
        let p = nth_combination(n, k, py)->0;
        lemma_next_combination(p, n);
        lemma_next_weight(p, n);
        assert forall|x: nat| x < y implies (#[trigger] nth_combination(n, k, x)) is Some && comb_weight(
            nth_combination(n, k, x)->0,
            n + 1,
        ) < comb_weight(s, n + 1) by {
            if x < py {
                assert(nth_combination(n, k, x) is Some);
            }
        }
        assert forall|c: Seq<usize>| #![trigger is_combination(c, n)]
            c.len() == k && is_combination(c, n) && comb_weight(c, n + 1) <= comb_weight(s, n + 1)
            implies exists|x: nat| x <= y && #[trigger] nth_combination(n, k, x) == Some(c) by {
            if comb_weight(c, n + 1) <= comb_weight(p, n + 1) {
                let x = choose|x: nat| x <= py && #[trigger] nth_combination(n, k, x) == Some(c);
                assert(x <= y);
            } else {
                lemma_next_is_least_after(p, c, n);
                assert forall|j: int| 0 <= j < c.len() implies #[trigger] c[j] < n + 1 by {}
                assert forall|j: int| 0 <= j < s.len() implies #[trigger] s[j] < n + 1 by {}
                lemma_weight_order(c, s, n + 1);
                assert(nth_combination(n, k, y) == Some(c));
            }
        }
    }
}

/// Some successor of the first combination before the `j`-th has none.
proof fn lemma_first_none(n: int, k: int, j: nat) -> (j0: nat)
    requires
        nth_combination(n, k, j) is None,
    ensures
        0 < j0 <= j,
        nth_combination(n, k, (j0 - 1) as nat) is Some,
        nth_combination(n, k, j0) is None,
    decreases j,
{
    let pj = (j - 1) as nat;
    if nth_combination(n, k, pj) is None {
        lemma_first_none(n, k, pj)
    } else {
        j
    }
}

/// The first combination has a successor after another, `binomial(n, k)` of them
/// in all: every one of them up to that count exists.
pub proof fn lemma_nth_combination_exists(n: nat, k: nat, j: nat)
    requires
        k <= n <= usize::MAX,
        j < binomial(n, k),
    ensures
        nth_combination(n as int, k as int, j) is Some,
{
    if nth_combination(n as int, k as int, j) is None {
        let j0 = lemma_first_none(n as int, k as int, j);
        let last = (j0 - 1) as nat;
        lemma_nth_chain(n as int, k as int, last);
        let s = nth_combination(n as int, k as int, last)->0;
        let g = |x: int| nth_combination(n as int, k as int, x as nat)->0;
        let listed = vstd::set_lib::set_int_range(0, j0 as int).map(g);
        assert forall|c: Seq<usize>| #[trigger] combination_set(n, k).contains(c) implies listed.contains(c) by {
            assert(is_combination(c, n as int));
            if comb_weight(s, n as int + 1) < comb_weight(c, n as int + 1) {
                lemma_next_is_least_after(s, c, n as int);
            }
            let x = choose|x: nat| x <= last && #[trigger] nth_combination(n as int, k as int, x) == Some(c);
            assert(vstd::set_lib::set_int_range(0, j0 as int).contains(x as int));
            assert(g(x as int) == c);
        }
        vstd::set_lib::lemma_int_range(0, j0 as int);
        vstd::set_lib::lemma_map_size_bound(vstd::set_lib::set_int_range(0, j0 as int), listed, g);
        vstd::set_lib::lemma_len_subset(combination_set(n, k), listed);
        lemma_combination_count(n, k);
    }
}

/// The first combination has fewer than `binomial(n, k)` successors: when its
/// `m - 1`-th successor exists, `m` is at most `binomial(n, k)`.
pub proof fn lemma_nth_combination_bound(n: nat, k: nat, m: nat)
    requires
        k <= n <= usize::MAX,
        m >= 1,
        nth_combination(n as int, k as int, (m - 1) as nat) is Some,
    ensures
        m <= binomial(n, k),
{
    let g = |x: int| nth_combination(n as int, k as int, x as nat)->0;
    let range = vstd::set_lib::set_int_range(0, m as int);
    lemma_nth_chain(n as int, k as int, (m - 1) as nat);
    assert forall|x: int| 0 <= x < m implies #[trigger] nth_combination(n as int, k as int, x as nat) is Some by {
        if x < m - 1 {
            assert(nth_combination(n as int, k as int, x as nat) is Some);
        }
    }
    assert(vstd::relations::injective_on(g, range)) by {
        assert forall|a: int, b: int| range.contains(a) && range.contains(b) && #[trigger] g(a) == #[trigger] g(b) implies a == b by {
            if a < b {
                lemma_nth_chain(n as int, k as int, b as nat);
                assert(nth_combination(n as int, k as int, a as nat) is Some);
            } else if b < a {
                lemma_nth_chain(n as int, k as int, a as nat);
                assert(nth_combination(n as int, k as int, b as nat) is Some);
            }
        }
    }
    assert forall|c: Seq<usize>| #[trigger] range.map(g).contains(c) implies combination_set(n, k).contains(c) by {
        let x = choose|x: int| range.contains(x) && g(x) == c;
        assert(nth_combination(n as int, k as int, x as nat) is Some);
        lemma_nth_chain(n as int, k as int, x as nat);
    }
    vstd::set_lib::lemma_int_range(0, m as int);
    vstd::set_lib::lemma_map_size(range, range.map(g), g);
    lemma_combination_count(n, k);
    vstd::set_lib::lemma_len_subset(range.map(g), combination_set(n, k));
}

/// All combinations of `nelem` indices out of `0..nuniv`: `combos[i][j]` is the
/// `i`-th index of the `j`-th combination.
pub struct Combination {
    pub nelem: usize,
    pub ncombo: usize,
    pub combos: Vec<Vec<usize>>,
}

impl Combination {
    /// Every row holds one index of each of the `ncombo` combinations.
    pub open spec fn wf(&self) -> bool {
        &&& self.combos@.len() == self.nelem
        &&& forall|i: int| 0 <= i < self.nelem ==> (#[trigger] self.combos@[i])@.len() == self.ncombo
    }

    /// All the combinations of `nelem` out of `nuniv`, in lexicographic order;
    /// `None` when `nelem > nuniv`.
    pub fn new(nuniv: usize, nelem: usize) -> (r: Option<Combination>)
        requires
            nelem <= nuniv ==> forall|i: int| 0 <= i < nelem ==> ncombo_fold(nuniv as int, i) * (nuniv - i) <= usize::MAX,
        ensures
            r is Some <==> nelem <= nuniv,
            r matches Some(c) ==> {
                &&& c.wf()
                &&& c.nelem == nelem
                &&& c.ncombo == binomial(nuniv as nat, nelem as nat)
                &&& forall|i: int, j: int| 0 <= i < nelem && 0 <= j < c.ncombo
                    ==> #[trigger] c.combos@[i]@[j] == nth_combination(nuniv as int, nelem as int, j as nat)->0[i]
            },
    {
        if nelem > nuniv {
            return None;
        }
        let mut ncombo: usize = 1;
        let mut i: usize = 0;
        while i < nelem
            invariant
                nelem <= nuniv,
                i <= nelem,
                ncombo == ncombo_fold(nuniv as int, i as int),
                forall|x: int| 0 <= x < nelem ==> ncombo_fold(nuniv as int, x) * (nuniv - x) <= usize::MAX,
            decreases nelem - i,
        {
            assert(ncombo_fold(nuniv as int, i as int) * (nuniv - i) <= usize::MAX);
            ncombo = ncombo * (nuniv - i) / (i + 1);
            i = i + 1;
        }
        proof {
            lemma_ncombo_is_binomial(nuniv as nat, nelem as nat);
            lemma_binomial_pos(nuniv as nat, nelem as nat);
        }
        // The combinations, one after the other.
        let mut cols: Vec<Vec<usize>> = Vec::new();
        let mut cur: Vec<usize> = Vec::new();
        let mut x: usize = 0;
        while x < nelem
            invariant
                x <= nelem,
                cur@ == first_combination(x as int),
            decreases nelem - x,
        {
            cur.push(x);
            x = x + 1;
            proof {
                assert(cur@ =~= first_combination(x as int));
            }
        }
        cols.push(copy_row(&cur));
        let mut j: usize = 1;
        while j < ncombo
            invariant
                nelem <= nuniv,
                1 <= j <= ncombo,
                cols@.len() == j,
                cur@.len() == nelem,
                is_combination(cur@, nuniv as int),
                nth_combination(nuniv as int, nelem as int, (j - 1) as nat) == Some(cur@),
                forall|y: int| 0 <= y < j ==> nth_combination(nuniv as int, nelem as int, y as nat) == Some(
                    (#[trigger] cols@[y])@,
                ),
                forall|y: int| 0 <= y < j ==> (#[trigger] cols@[y])@.len() == nelem,
                ncombo == binomial(nuniv as nat, nelem as nat),
            decreases ncombo - j,
        {
            let ghost before = cur@;
            proof {
                lemma_next_combination(before, nuniv as int);
            }
            let found = advance_combination(&mut cur, nuniv);
            if !found {
                // Not reached: the first combination has `ncombo - 1` successors.
                proof {
                    assert(nth_combination(nuniv as int, nelem as int, j as nat) is None);
                    lemma_nth_combination_exists(nuniv as nat, nelem as nat, j as nat);
                }
                return None;
            }
            cols.push(copy_row(&cur));
            j = j + 1;
        }
        // One row per index position.
        let mut combos: Vec<Vec<usize>> = Vec::new();
        let mut p: usize = 0;
        while p < nelem
            invariant
                p <= nelem,
                cols@.len() == ncombo,
                forall|y: int| 0 <= y < ncombo ==> nth_combination(nuniv as int, nelem as int, y as nat) == Some(
                    (#[trigger] cols@[y])@,
                ),
                forall|y: int| 0 <= y < ncombo ==> (#[trigger] cols@[y])@.len() == nelem,
                combos@.len() == p,
                forall|q: int| 0 <= q < p ==> (#[trigger] combos@[q])@.len() == ncombo,
                forall|q: int, y: int| 0 <= q < p && 0 <= y < ncombo ==> #[trigger] combos@[q]@[y]
                    == cols@[y]@[q],
            decreases nelem - p,
        {
            let mut row: Vec<usize> = Vec::new();
            let mut y: usize = 0;
            while y < ncombo
                invariant
                    p < nelem,
                    y <= ncombo,
                    cols@.len() == ncombo,
                    forall|z: int| 0 <= z < ncombo ==> (#[trigger] cols@[z])@.len() == nelem,
                    row@.len() == y,
                    forall|z: int| 0 <= z < y ==> row@[z] == (#[trigger] cols@[z])@[p as int],
                decreases ncombo - y,
            {
                row.push(cols[y][p]);
                y = y + 1;
            }
            combos.push(row);
            p = p + 1;
        }
        Some(Combination { nelem, ncombo, combos })
    }

    /// The number of combinations.
    pub fn num_combinations(&self) -> (n: usize)
        ensures
            n == self.ncombo,
    {
        self.ncombo
    }

    /// The `cnum`-th combination, `None` past the last one.
    pub fn get_combination(&self, cnum: usize) -> (r: Option<Vec<usize>>)
        requires
            self.wf(),
        ensures
            cnum >= self.ncombo ==> r is None,
            cnum < self.ncombo ==> (r matches Some(v) && v@.len() == self.nelem && forall|i: int|
                0 <= i < self.nelem ==> v@[i] == (#[trigger] self.combos@[i])@[cnum as int]),
    {
        if cnum >= self.ncombo {
            return None;
        }
        let mut v: Vec<usize> = Vec::new();
        let mut i: usize = 0;
        while i < self.combos.len()
            invariant
                self.wf(),
                cnum < self.ncombo,
                i <= self.combos@.len(),
                v@.len() == i,
                forall|x: int| 0 <= x < i ==> v@[x] == (#[trigger] self.combos@[x])@[cnum as int],
            decreases self.combos@.len() - i,
        {
            v.push(self.combos[i][cnum]);
            i = i + 1;
        }
        Some(v)
    }
}

fn copy_row(v: &Vec<usize>) -> (r: Vec<usize>)
    ensures
        r@ == v@,
{
    let mut r: Vec<usize> = Vec::new();
    let mut i: usize = 0;
    while i < v.len()
        invariant
            i <= v.len(),
            r@ == v@.subrange(0, i as int),
        decreases v.len() - i,
    {
        r.push(v[i]);
        i = i + 1;
        proof {
            assert(r@ =~= v@.subrange(0, i as int));
        }
    }
    proof {
        assert(v@.subrange(0, i as int) =~= v@);
    }
    r
}

/// Moves `cur`, a combination of `0..nuniv`, to the next one (see
/// `next_combination`); tells whether there was one.
fn advance_combination(cur: &mut Vec<usize>, nuniv: usize) -> (found: bool)
    requires
        old(cur)@.len() <= nuniv,
    ensures
        found == next_combination(old(cur)@, nuniv as int) is Some,
        found ==> final(cur)@ == next_combination(old(cur)@, nuniv as int)->0,
        !found ==> final(cur)@ == old(cur)@,
{
    crate::combinations::advance_indices(cur, nuniv)
}


/// The combinations that `Combination::new` lists come in lexicographic order,
/// and each combination of `k` indices below `n` is one of them: the `j`-th is
/// the `j`-th in lexicographic order.
pub proof fn lemma_nth_combination_lex(n: nat, k: nat, j1: nat, j2: nat, c: Seq<usize>)
    requires
        k <= n <= usize::MAX,
        j1 < j2 < binomial(n, k),
    ensures
        nth_combination(n as int, k as int, j1) is Some,
        nth_combination(n as int, k as int, j2) is Some,
        lex_before(nth_combination(n as int, k as int, j1)->0, nth_combination(n as int, k as int, j2)->0),
        c.len() == k && is_combination(c, n as int) ==> exists|j: nat| j < binomial(n, k) && #[trigger] nth_combination(n as int, k as int, j) == Some(c),
{
    lemma_nth_combination_exists(n, k, j2);
    lemma_nth_chain(n as int, k as int, j2);
    let s = nth_combination(n as int, k as int, j1)->0;
    let t = nth_combination(n as int, k as int, j2)->0;
    lemma_nth_chain(n as int, k as int, j1);
    assert forall|j: int| 0 <= j < s.len() implies #[trigger] s[j] < n + 1 by {}
    assert forall|j: int| 0 <= j < t.len() implies #[trigger] t[j] < n + 1 by {}
    lemma_weight_order(s, t, n as int + 1);
    let q = first_diff(s, t, 0);
    assert(s[q] < t[q]);
    if c.len() == k && is_combination(c, n as int) {
        let last = (binomial(n, k) - 1) as nat;
        lemma_nth_combination_exists(n, k, last);
        lemma_nth_chain(n as int, k as int, last);
        let l = nth_combination(n as int, k as int, last)->0;
        if comb_weight(l, n as int + 1) < comb_weight(c, n as int + 1) {
            lemma_next_is_least_after(l, c, n as int);
            lemma_nth_combination_bound(n, k, last + 2);
        }
        let x = choose|x: nat| x <= last && #[trigger] nth_combination(n as int, k as int, x) == Some(c);
        assert(x < binomial(n, k));
    }
}

} // verus!

//! The low-discrepancy sequence of quasi-Monte Carlo sampling: a Halton
//! sequence, one prime base per dimension, under the name `SobolGenerator`.
//! The points themselves are fractions; this module holds their integer part:
//! the bases, the running index, and the digits of the index in each base.
use vstd::prelude::*;

verus! {

/// The largest number of dimensions: one per prime base below.
pub const QMC_MAX_DIMENSIONS: usize = 16;

/// The bases of the dimensions: the first sixteen primes.
pub open spec fn halton_bases() -> Seq<u32> {
    seq![2u32, 3, 5, 7, 11, 13, 17, 19, 23, 29, 31, 37, 41, 43, 47, 53]
}

/// The base of dimension `d` (`d` in 0..16).
fn halton_base(d: usize) -> (b: u32)
    requires
        d < QMC_MAX_DIMENSIONS,
    ensures
        b == halton_bases()[d as int],
{
    match d {
        0 => 2,
        1 => 3,
        2 => 5,
        3 => 7,
        4 => 11,
        5 => 13,
        6 => 17,
        7 => 19,
        8 => 23,
        9 => 29,
        10 => 31,
        11 => 37,
        12 => 41,
        13 => 43,
        14 => 47,
        _ => 53,
    }
}

/// A generator of the points of the sequence, in as many dimensions as it was
/// made with (at most sixteen).
pub struct SobolGenerator {
    index: u64,
    dimensions: usize,
    bases: Vec<u32>,
}

impl SobolGenerator {
    /// The number of points drawn so far (it stops at `u64::MAX`).
    pub closed spec fn spec_index(&self) -> u64 {
        self.index
    }

    /// The number of dimensions of the points.
    pub closed spec fn spec_dimensions(&self) -> nat {
        self.dimensions as nat
    }

    /// The base of each dimension.
    pub closed spec fn spec_bases(&self) -> Seq<u32> {
        self.bases@
    }

    /// The generator's invariant: one prime base per dimension, in order.
    pub closed spec fn wf(&self) -> bool {
        &&& self.dimensions <= QMC_MAX_DIMENSIONS
        &&& self.bases@ == halton_bases().take(self.dimensions as int)
    }

    /// A generator of points in `dimensions` dimensions, capped at sixteen; no
    /// point has been drawn.
    pub fn new(dimensions: usize) -> (g: SobolGenerator)
        ensures
            g.wf(),
            g.spec_index() == 0,
            g.spec_dimensions() == if dimensions <= QMC_MAX_DIMENSIONS {
                dimensions
            } else {
                QMC_MAX_DIMENSIONS
            },
            g.spec_bases() == halton_bases().take(g.spec_dimensions() as int),
    {
        let capped = if dimensions <= QMC_MAX_DIMENSIONS {
            dimensions
        } else {
            QMC_MAX_DIMENSIONS
        };
        let mut bases: Vec<u32> = Vec::with_capacity(capped);
        let mut d: usize = 0;
        while d < capped
            invariant
                capped <= QMC_MAX_DIMENSIONS,
                d <= capped,
                bases@ == halton_bases().take(d as int),
            decreases capped - d,
        {
            let b = halton_base(d);
            bases.push(b);
            proof {
                assert(halton_bases().take(d as int + 1) =~= halton_bases().take(d as int).push(b));
            }
            d = d + 1;
        }
        SobolGenerator { index: 0, dimensions: capped, bases }
    }

    /// The number of dimensions of the points.
    pub fn dimensions(&self) -> (n: usize)
        ensures
            n == self.spec_dimensions(),
    {
        self.dimensions
    }

    /// The base of dimension `d`.
    pub fn base(&self, d: usize) -> (b: u32)
        requires
            self.wf(),
            d < self.spec_dimensions(),
        ensures
            b == halton_bases()[d as int],
    {
        self.bases[d]
    }

    /// Moves to the next point and answers its index: the index grows by one,
    /// and stays at `u64::MAX` once there.
    pub fn advance(&mut self) -> (i: u64)
        requires
            old(self).wf(),
        ensures
            final(self).wf(),
            final(self).spec_dimensions() == old(self).spec_dimensions(),
            final(self).spec_bases() == old(self).spec_bases(),
            i == final(self).spec_index(),
            i == if old(self).spec_index() == u64::MAX {
                u64::MAX as int
            } else {
                old(self).spec_index() + 1
            },
    {
        self.index = self.index.saturating_add(1);
        self.index
    }
}

/// The digits of `n` in base `b`, least significant first (none for 0).
pub open spec fn radical_digits_spec(n: nat, b: nat) -> Seq<nat>
    decreases n,
{
    if n == 0 || b < 2 {
        seq![]
    } else {
        proof {
            assert(n / b < n) by (nonlinear_arith)
                requires
                    n > 0,
                    b >= 2,
            ;
        }
        seq![n % b] + radical_digits_spec(n / b, b)
    }
}

/// The digits of `n` in base `base`, least significant first: the coordinate of
/// the point of index `n` is their sum, the `k`-th digit over `base` to the
/// power `k + 1`.
pub fn radical_digits(n: u64, base: u32) -> (v: Vec<u64>)
    requires
        base >= 2,
    ensures
        v@.map_values(|d: u64| d as nat) == radical_digits_spec(n as nat, base as nat),
{
    let mut v: Vec<u64> = Vec::new();
    let mut m: u64 = n;
    let b: u64 = base as u64;
    while m > 0
        invariant
            b == base,
            b >= 2,
            v@.map_values(|d: u64| d as nat) + radical_digits_spec(m as nat, b as nat)
                == radical_digits_spec(n as nat, b as nat),
        decreases m,
    {
        let d = m % b;
        proof {
            let s = radical_digits_spec(m as nat, b as nat);
            assert(s == seq![(m % b) as nat] + radical_digits_spec((m / b) as nat, b as nat));
            assert(v@.push(d).map_values(|x: u64| x as nat) =~= v@.map_values(|x: u64| x as nat).push(
                d as nat,
            ));
            assert(v@.map_values(|x: u64| x as nat) + s =~= v@.push(d).map_values(|x: u64| x as nat)
                + radical_digits_spec((m / b) as nat, b as nat));
        }
        v.push(d);
        m = m / b;
    }
    proof {
        assert(v@.map_values(|d: u64| d as nat) + radical_digits_spec(0, b as nat) =~= v@.map_values(
            |d: u64| d as nat,
        ));
    }
    v
}

} // verus!

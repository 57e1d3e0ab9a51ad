use vstd::prelude::*;

use vstd::arithmetic::div_mod::{
    lemma_div_is_ordered, lemma_div_multiples_vanish, lemma_div_pos_is_pos,
};
use vstd::arithmetic::mul::{lemma_mul_inequality, lemma_mul_is_commutative, lemma_mul_upper_bound};

use crate::error::Error;
use crate::num::{abs_of, MAX_FIELD, MU_MAX};
use crate::sample::{absorption_wf, AbsorptionSample};

verus! {

/// Each element is strictly smaller than every later one.
pub open spec fn strictly_increasing(xs: Seq<i64>) -> bool {
    forall|a: int, b: int| 0 <= a < b < xs.len() ==> xs[a] < xs[b]
}

/// The energies of a sample sequence, in order.
pub open spec fn energies_of(samples: Seq<AbsorptionSample>) -> Seq<i64> {
    samples.map_values(|s: AbsorptionSample| s.energy)
}

/// The absorption values of a sample sequence, in order.
pub open spec fn values_of(samples: Seq<AbsorptionSample>) -> Seq<i64> {
    samples.map_values(|s: AbsorptionSample| s.absorption)
}

/// Pairwise order follows from adjacent order.
pub proof fn lemma_adjacent_increasing(xs: Seq<i64>, a: int, b: int)
    requires
        forall|k: int| 0 <= k < xs.len() - 1 ==> #[trigger] xs[k] < xs[k + 1],
        0 <= a < b < xs.len(),
    ensures
        xs[a] < xs[b],
    decreases b - a,
{
    if b > a + 1 {
        lemma_adjacent_increasing(xs, a, b - 1);
    }
}

/// Index of the segment `[xs[j], xs[j+1])` an evaluation point falls in,
/// counted from the left.
pub open spec fn seg_of(xs: Seq<i64>, e: int) -> int
    decreases xs.len(),
{
    if xs.len() <= 2 || e < xs[1] {
        0
    } else {
        1 + seg_of(xs.drop_first(), e)
    }
}

/// Value at offset `t` on the straight line through `(0, y0)` and
/// `(dx, y1)`, the magnitude of the correction truncated toward zero.
pub open spec fn lerp(y0: int, y1: int, t: int, dx: int) -> int {
    if y1 >= y0 {
        y0 + ((y1 - y0) * t) / dx
    } else {
        y0 - (((y0 - y1) * t) / dx)
    }
}

/// Value of the piecewise-linear interpolant through `(xs, ys)` at `e`:
/// exact at the sample energies, linear between neighbours, constant
/// beyond either end.
pub open spec fn interp_at(xs: Seq<i64>, ys: Seq<i64>, e: int) -> int {
    if e <= xs.first() {
        ys.first() as int
    } else if e >= xs.last() {
        ys.last() as int
    } else {
        let j = seg_of(xs, e);
        lerp(ys[j] as int, ys[j + 1] as int, e - xs[j], xs[j + 1] - xs[j])
    }
}

/// `seg_of` lands on a segment that contains the evaluation point.
pub proof fn lemma_seg_of_bounds(xs: Seq<i64>, e: int)
    requires
        strictly_increasing(xs),
        xs.len() >= 2,
        xs.first() <= e < xs.last(),
    ensures
        0 <= seg_of(xs, e) < xs.len() - 1,
        xs[seg_of(xs, e)] <= e < xs[seg_of(xs, e) + 1],
    decreases xs.len(),
{
    if xs.len() <= 2 || e < xs[1] {
    } else {
        let rest = xs.drop_first();
        assert(forall|m: int| 0 <= m < rest.len() ==> rest[m] == xs[m + 1]);
        assert(strictly_increasing(rest));
        assert(rest.first() == xs[1]);
        assert(rest.last() == xs.last());
        lemma_seg_of_bounds(rest, e);
    }
}

/// The containing segment is unique, so any index that contains the point
/// is the one `seg_of` finds.
pub proof fn lemma_seg_of_unique(xs: Seq<i64>, e: int, j: int)
    requires
        strictly_increasing(xs),
        xs.len() >= 2,
        0 <= j < xs.len() - 1,
        xs[j] <= e < xs[j + 1],
    ensures
        seg_of(xs, e) == j,
{
    assert(xs.first() <= xs[j] <= e);
    assert(e < xs[j + 1] <= xs.last());
    lemma_seg_of_bounds(xs, e);
    let s = seg_of(xs, e);
    if s < j {
        assert(xs[s + 1] <= xs[j]);
        assert(false);
    }
    if s > j {
        assert(xs[j + 1] <= xs[s]);
        assert(false);
    }
}

/// Interpolation exactness: at each sample energy the interpolant takes
/// exactly that sample's value.
pub proof fn lemma_interp_exact(xs: Seq<i64>, ys: Seq<i64>, i: int)
    requires
        strictly_increasing(xs),
        xs.len() >= 2,
        ys.len() == xs.len(),
        0 <= i < xs.len(),
    ensures
        interp_at(xs, ys, xs[i] as int) == ys[i],
{
    let e = xs[i] as int;
    if i == 0 {
        assert(e <= xs.first());
    } else if i == xs.len() - 1 {
        assert(xs.first() < e);
        assert(e >= xs.last());
    } else {
        assert(xs.first() < e);
        assert(e < xs.last());
        lemma_seg_of_unique(xs, e, i);
        let dx = xs[i + 1] - xs[i];
        assert(dx > 0);
        if ys[i + 1] >= ys[i] {
            assert(((ys[i + 1] - ys[i]) * 0) / dx == 0) by {
                vstd::arithmetic::div_mod::lemma_div_basics_1(dx);
            }
        } else {
            assert(((ys[i] - ys[i + 1]) * 0) / dx == 0) by {
                vstd::arithmetic::div_mod::lemma_div_basics_1(dx);
            }
        }
    }
}

/// A fitted scattered-data interpolant: a smooth (piecewise-linear,
/// continuous) function through every input point, evaluable anywhere.
#[derive(Debug)]
pub struct Interpolant {
    xs: Vec<i64>,
    ys: Vec<i64>,
}

impl Interpolant {
    /// The sample energies the interpolant was fitted to.
    pub closed spec fn energies(&self) -> Seq<i64> {
        self.xs@
    }

    /// The sample values the interpolant reproduces.
    pub closed spec fn values(&self) -> Seq<i64> {
        self.ys@
    }

    /// Well-formedness: a non-degenerate, bounded, strictly ordered basis.
    pub closed spec fn wf(&self) -> bool {
        &&& self.xs@.len() == self.ys@.len()
        &&& self.xs@.len() >= 2
        &&& strictly_increasing(self.xs@)
        &&& forall|k: int| 0 <= k < self.xs@.len() ==> abs_of((#[trigger] self.xs@[k]) as int) <= MAX_FIELD
        &&& forall|k: int| 0 <= k < self.ys@.len() ==> abs_of((#[trigger] self.ys@[k]) as int) <= MU_MAX
    }

    /// Fits the interpolant to an ordered sample sequence. A well-posed
    /// basis needs at least two samples with strictly increasing
    /// energies; anything less fails with `InterpolationFailure`.
    pub fn new(samples: &Vec<AbsorptionSample>) -> (r: Result<Interpolant, Error>)
        requires
            forall|k: int| 0 <= k < samples@.len() ==> absorption_wf(#[trigger] samples@[k]),
        ensures
            match r {
                Ok(it) => {
                    &&& samples@.len() >= 2
                    &&& strictly_increasing(energies_of(samples@))
                    &&& it.wf()
                    &&& it.energies() == energies_of(samples@)
                    &&& it.values() == values_of(samples@)
                },
                Err(e) => {
                    &&& e == Error::InterpolationFailure
                    &&& (samples@.len() < 2 || !strictly_increasing(energies_of(samples@)))
                },
            },
    {
        if samples.len() < 2 {
            return Err(Error::InterpolationFailure);
        }
        let mut xs: Vec<i64> = Vec::new();
        let mut ys: Vec<i64> = Vec::new();
        let mut i: usize = 0;
        while i < samples.len()
            invariant
                i <= samples@.len(),
                xs@.len() == i,
                ys@.len() == i,
                forall|k: int| 0 <= k < samples@.len() ==> absorption_wf(#[trigger] samples@[k]),
                forall|k: int| 0 <= k < i ==> (#[trigger] xs@[k]) == samples@[k].energy,
                forall|k: int| 0 <= k < i ==> (#[trigger] ys@[k]) == samples@[k].absorption,
                forall|k: int| 0 <= k < i - 1 ==> #[trigger] xs@[k] < xs@[k + 1],
            decreases samples@.len() - i,
        {
            let s = samples[i];
            if i > 0 {
                let prev = xs[i - 1];
                if prev >= s.energy {
                    proof {
                        assert(energies_of(samples@)[i as int - 1] == samples@[i as int - 1].energy);
                        assert(energies_of(samples@)[i as int] == samples@[i as int].energy);
                        assert(!strictly_increasing(energies_of(samples@)));
                    }
                    return Err(Error::InterpolationFailure);
                }
            }
            xs.push(s.energy);
            ys.push(s.absorption);
            i = i + 1;
        }
        proof {
            assert forall|a: int, b: int| 0 <= a < b < xs@.len() implies xs@[a] < xs@[b] by {
                lemma_adjacent_increasing(xs@, a, b);
            }
            assert(xs@ =~= energies_of(samples@));
            assert(ys@ =~= values_of(samples@));
        }
        Ok(Interpolant { xs, ys })
    }

    /// Evaluates the interpolant at one energy.
    pub fn eval(&self, e: i64) -> (r: i64)
        requires
            self.wf(),
        ensures
            r as int == interp_at(self.energies(), self.values(), e as int),
            abs_of(r as int) <= MU_MAX,
    {
        let n = self.xs.len();
        if e <= self.xs[0] {
            proof {
                assert(self.xs@.first() == self.xs@[0]);
            }
            return self.ys[0];
        }
        if e >= self.xs[n - 1] {
            proof {
                assert(self.xs@.last() == self.xs@[n as int - 1]);
            }
            return self.ys[n - 1];
        }
        let mut j: usize = 0;
        while j + 1 < n - 1 && self.xs[j + 1] <= e
            invariant
                self.wf(),
                n == self.xs@.len(),
                0 <= j < n - 1,
                self.xs@[j as int] <= e,
            decreases n - j,
        {
            j = j + 1;
        }
        proof {
            if j + 1 < n - 1 {
                assert(e < self.xs@[j as int + 1]);
            } else {
                assert(j == n - 2);
                assert(self.xs@.last() == self.xs@[n as int - 1]);
                assert(e < self.xs@[j as int + 1]);
            }
            lemma_seg_of_unique(self.xs@, e as int, j as int);
        }
        let x0 = self.xs[j];
        let x1 = self.xs[j + 1];
        let y0 = self.ys[j];
        let y1 = self.ys[j + 1];
        let t: u64 = (e - x0) as u64;
        let dx: u64 = (x1 - x0) as u64;
        if y1 >= y0 {
            let dy: u64 = (y1 - y0) as u64;
            proof {
                lemma_mul_upper_bound(dy as int, u64::MAX as int, t as int, u64::MAX as int);
            }
            let q: u128 = (dy as u128 * t as u128) / (dx as u128);
            proof {
                lemma_div_pos_is_pos(dy as int * t as int, dx as int);
                lemma_mul_inequality(t as int, dx as int, dy as int);
                lemma_mul_is_commutative(t as int, dy as int);
                lemma_mul_is_commutative(dx as int, dy as int);
                lemma_div_is_ordered(dy as int * t as int, dy as int * dx as int, dx as int);
                lemma_div_multiples_vanish(dy as int, dx as int);
                lemma_mul_is_commutative(dx as int, dy as int);
                assert((dy as int * dx as int) / (dx as int) == dy as int);
                assert(q <= dy);
            }
            y0 + (q as i64)
        } else {
            let dy: u64 = (y0 - y1) as u64;
            proof {
                lemma_mul_upper_bound(dy as int, u64::MAX as int, t as int, u64::MAX as int);
            }
            let q: u128 = (dy as u128 * t as u128) / (dx as u128);
            proof {
                lemma_div_pos_is_pos(dy as int * t as int, dx as int);
                lemma_mul_inequality(t as int, dx as int, dy as int);
                lemma_mul_is_commutative(t as int, dy as int);
                lemma_mul_is_commutative(dx as int, dy as int);
                lemma_div_is_ordered(dy as int * t as int, dy as int * dx as int, dx as int);
                lemma_div_multiples_vanish(dy as int, dx as int);
                assert((dy as int * dx as int) / (dx as int) == dy as int);
                assert(q <= dy);
            }
            y0 - (q as i64)
        }
    }

    /// Evaluates the interpolant at every grid energy, producing the
    /// resampled curve, one value per grid point.
    pub fn eval_grid(&self, grid: &Vec<i64>) -> (r: Vec<i64>)
        requires
            self.wf(),
        ensures
            r@.len() == grid@.len(),
            forall|k: int|
                0 <= k < grid@.len() ==> (#[trigger] r@[k]) as int == interp_at(
                    self.energies(),
                    self.values(),
                    grid@[k] as int,
                ) && abs_of(r@[k] as int) <= MU_MAX,
    {
        let mut out: Vec<i64> = Vec::new();
        let mut i: usize = 0;
        while i < grid.len()
            invariant
                self.wf(),
                i <= grid@.len(),
                out@.len() == i,
                forall|k: int|
                    0 <= k < i ==> (#[trigger] out@[k]) as int == interp_at(
                        self.energies(),
                        self.values(),
                        grid@[k] as int,
                    ) && abs_of(out@[k] as int) <= MU_MAX,
            decreases grid@.len() - i,
        {
            let v = self.eval(grid[i]);
            out.push(v);
            i = i + 1;
        }
        out
    }
}

} // verus!

use vstd::prelude::*;

use vstd::arithmetic::div_mod::{lemma_div_pos_is_pos, lemma_fundamental_div_mod};
use vstd::arithmetic::mul::lemma_mul_inequality;

use crate::error::Error;
use crate::num::{abs_of, lemma_round_unit_monotone, round_energy, round_unit, MAX_FIELD, SCALE};
use crate::sample::{absorption_wf, AbsorptionSample};

verus! {

/// Lowest grid energy: the first sample's energy rounded to a whole unit.
pub open spec fn grid_start(samples: Seq<AbsorptionSample>) -> int {
    round_unit(samples.first().energy as int)
}

/// Upper grid bound: the last sample's energy rounded to a whole unit.
pub open spec fn grid_stop(samples: Seq<AbsorptionSample>) -> int {
    round_unit(samples.last().energy as int)
}

/// Number of grid points spanning `start` toward `stop` with spacing
/// `step`.
pub open spec fn grid_len(start: int, stop: int, step: int) -> int {
    (stop - start) / step + 1
}

/// The `k`-th grid energy.
pub open spec fn grid_point(start: int, step: int, k: int) -> int {
    start + k * step
}

/// Builds the canonical uniform energy grid for an ordered sample
/// sequence: `grid_len` energies from the rounded first energy upward in
/// constant steps of `step`, never passing the rounded last energy.
pub fn build_grid(samples: &Vec<AbsorptionSample>, step: i64) -> (r: Result<Vec<i64>, Error>)
    requires
        step >= 1,
        forall|k: int| 0 <= k < samples@.len() ==> absorption_wf(#[trigger] samples@[k]),
        samples@.len() >= 2 ==> samples@.first().energy <= samples@.last().energy,
        samples@.len() >= 2 ==> grid_len(grid_start(samples@), grid_stop(samples@), step as int)
            <= usize::MAX,
    ensures
        match r {
            Ok(g) => {
                &&& samples@.len() >= 2
                &&& g@.len() == grid_len(grid_start(samples@), grid_stop(samples@), step as int)
                &&& g@.len() >= 1
                &&& forall|k: int|
                    0 <= k < g@.len() ==> (#[trigger] g@[k]) as int == grid_point(
                        grid_start(samples@),
                        step as int,
                        k,
                    )
                &&& forall|k: int|
                    0 <= k < g@.len() ==> grid_start(samples@) <= (#[trigger] g@[k]) as int
                        <= grid_stop(samples@)
                &&& forall|k: int|
                    0 <= k < g@.len() ==> abs_of((#[trigger] g@[k]) as int) <= MAX_FIELD + SCALE
                &&& forall|k: int|
                    0 <= k < g@.len() - 1 ==> (#[trigger] g@[k + 1]) - g@[k] == step
            },
            Err(e) => {
                &&& samples@.len() < 2
                &&& e == (if samples@.len() == 0 {
                    Error::EmptyInput
                } else {
                    Error::InsufficientData
                })
            },
        },
{
    let m = samples.len();
    if m == 0 {
        return Err(Error::EmptyInput);
    }
    if m == 1 {
        return Err(Error::InsufficientData);
    }
    let first = samples[0].energy;
    let last = samples[m - 1].energy;
    let start = round_energy(first);
    let stop = round_energy(last);
    proof {
        lemma_round_unit_monotone(first as int, last as int);
        assert(samples@.first() == samples@[0]);
        assert(samples@.last() == samples@[m as int - 1]);
    }
    let d: u64 = (stop - start) as u64;
    let nm1: u64 = d / (step as u64);
    proof {
        lemma_div_pos_is_pos(d as int, step as int);
        lemma_fundamental_div_mod(d as int, step as int);
    }
    let count: usize = (nm1 + 1) as usize;
    let ghost gstart = grid_start(samples@);
    let ghost gstop = grid_stop(samples@);
    let mut g: Vec<i64> = Vec::new();
    let mut k: usize = 0;
    while k < count
        invariant
            k <= count,
            g@.len() == k,
            step >= 1,
            start == gstart,
            stop == gstop,
            gstart <= gstop,
            abs_of(gstart as int) <= MAX_FIELD + SCALE,
            abs_of(gstop as int) <= MAX_FIELD + SCALE,
            count == grid_len(gstart, gstop, step as int),
            count == (gstop - gstart) / (step as int) + 1,
            forall|j: int|
                0 <= j < k ==> (#[trigger] g@[j]) as int == grid_point(gstart, step as int, j),
            forall|j: int| 0 <= j < k ==> gstart <= (#[trigger] g@[j]) as int <= gstop,
        decreases count - k,
    {
        proof {
            let q = (gstop - gstart) / (step as int);
            lemma_mul_inequality(k as int, q, step as int);
            lemma_fundamental_div_mod(gstop - gstart, step as int);
            vstd::arithmetic::div_mod::lemma_mod_bound(gstop - gstart, step as int);
        }
        let v: i64 = start + (k as i64) * step;
        g.push(v);
        k = k + 1;
    }
    proof {
        assert forall|j: int|
            0 <= j < g@.len() - 1 implies (#[trigger] g@[j + 1]) as int - g@[j] as int
            == step as int by {
            assert(g@[j + 1] as int == gstart + (j + 1) * step);
            assert(g@[j] as int == gstart + j * step);
            vstd::arithmetic::mul::lemma_mul_is_distributive_add_other_way(step as int, j, 1);
            assert((j + 1) * step == j * step + 1 * step);
        }
        assert(forall|j: int|
            0 <= j < g@.len() ==> abs_of((#[trigger] g@[j]) as int) <= MAX_FIELD + SCALE);
    }
    Ok(g)
}

} // verus!

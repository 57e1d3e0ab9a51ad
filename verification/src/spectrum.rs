use vstd::prelude::*;

use crate::edge::{argmax_of, find_edge};
use crate::error::Error;
use crate::grid::{build_grid, grid_len, grid_start, grid_stop, grid_point};
use crate::interp::{energies_of, interp_at, strictly_increasing, values_of, Interpolant};
use crate::num::ratio_spec;
use crate::parse::{bad_field_of, effective_len, line_ok, line_sample, parse_lines};
use crate::sample::{compute_absorption, AbsorptionSample, RawSample};

verus! {

/// Every record line of the input (after ignoring blank trailing lines)
/// is well-formed.
pub open spec fn parse_ok(lines: Seq<Seq<u8>>) -> bool {
    forall|k: int| 0 <= k < effective_len(lines) ==> line_ok(#[trigger] lines[k])
}

/// The raw samples a well-formed input denotes.
pub open spec fn raw_of(lines: Seq<Seq<u8>>) -> Seq<RawSample> {
    Seq::new(effective_len(lines) as nat, |k: int| line_sample(lines[k]))
}

/// No raw sample divides by a zero incident intensity.
pub open spec fn no_zero_incident(raw: Seq<RawSample>) -> bool {
    forall|k: int| 0 <= k < raw.len() ==> (#[trigger] raw[k]).incident != 0
}

/// The absorption signal derived from the raw samples.
pub open spec fn absorption_of(raw: Seq<RawSample>) -> Seq<AbsorptionSample> {
    raw.map_values(
        |s: RawSample|
            AbsorptionSample {
                energy: s.energy,
                absorption: ratio_spec(s.transmitted as int, s.incident as int) as i64,
            },
    )
}

/// Number of grid points the resampler would produce for this input.
pub open spec fn pipeline_grid_len(lines: Seq<Seq<u8>>, step: int) -> int {
    let ab = absorption_of(raw_of(lines));
    grid_len(grid_start(ab), grid_stop(ab), step)
}

/// The machine limit on the grid: whenever the input reaches the
/// resampling stage, the grid must be addressable.
pub open spec fn spectrum_feasible(lines: Seq<Seq<u8>>, step: int) -> bool {
    (parse_ok(lines) && no_zero_incident(raw_of(lines)) && effective_len(lines) >= 2
        && strictly_increasing(energies_of(absorption_of(raw_of(lines)))))
        ==> pipeline_grid_len(lines, step) <= usize::MAX
}

/// Any grid spacing of at least a thousandth of a unit is feasible for
/// every input: parsed fields are bounded, so the grid can never outgrow
/// the machine's addressing.
pub proof fn lemma_coarse_step_feasible(lines: Seq<Seq<u8>>, step: int)
    requires
        step >= 1000,
    ensures
        spectrum_feasible(lines, step),
{
    if parse_ok(lines) && no_zero_incident(raw_of(lines)) && effective_len(lines) >= 2
        && strictly_increasing(energies_of(absorption_of(raw_of(lines)))) {
        let raw = raw_of(lines);
        let ab = absorption_of(raw);
        let m = raw.len() as int;
        assert(m == effective_len(lines));
        assert(line_ok(lines[0]));
        assert(line_ok(lines[m - 1]));
        assert(raw[0] == line_sample(lines[0]));
        assert(raw[m - 1] == line_sample(lines[m - 1]));
        let e1 = raw[0].energy as int;
        let e2 = raw[m - 1].energy as int;
        assert(crate::num::abs_of(e1) <= crate::num::MAX_FIELD);
        assert(crate::num::abs_of(e2) <= crate::num::MAX_FIELD);
        assert(ab[0].energy == raw[0].energy);
        assert(ab[m - 1].energy == raw[m - 1].energy);
        assert(ab.first() == ab[0]);
        assert(ab.last() == ab[m - 1]);
        assert(energies_of(ab)[0] == ab[0].energy);
        assert(energies_of(ab)[m - 1] == ab[m - 1].energy);
        assert(e1 < e2);
        crate::num::lemma_round_unit_bounds(e1);
        crate::num::lemma_round_unit_bounds(e2);
        crate::num::lemma_round_unit_monotone(e1, e2);
        let gs = grid_start(ab);
        let ge = grid_stop(ab);
        assert(0 <= ge - gs <= 2 * (crate::num::MAX_FIELD + crate::num::SCALE));
        vstd::arithmetic::div_mod::lemma_div_is_ordered(
            ge - gs,
            2 * (crate::num::MAX_FIELD + crate::num::SCALE),
            step,
        );
        vstd::arithmetic::div_mod::lemma_div_is_ordered_by_denominator(
            2 * (crate::num::MAX_FIELD + crate::num::SCALE),
            1000,
            step,
        );
        assert(2 * (crate::num::MAX_FIELD + crate::num::SCALE) == 2_000_002_000_000int);
        assert(2_000_002_000_000int / 1000 == 2_000_002_000int);
        assert(grid_len(gs, ge, step) <= 2_000_002_001int);
    }
}

/// At any grid energy that coincides with a sample energy, a curve that
/// was resampled through the interpolant reproduces that sample's
/// absorption value exactly.
pub proof fn lemma_curve_reproduces_samples(
    curve: Seq<i64>,
    grid: Seq<i64>,
    ab: Seq<AbsorptionSample>,
    k: int,
    i: int,
)
    requires
        ab.len() >= 2,
        strictly_increasing(energies_of(ab)),
        forall|j: int|
            0 <= j < curve.len() ==> (#[trigger] curve[j]) as int == interp_at(
                energies_of(ab),
                values_of(ab),
                grid[j] as int,
            ),
        0 <= k < curve.len(),
        0 <= i < ab.len(),
        grid[k] == ab[i].energy,
    ensures
        curve[k] == ab[i].absorption,
{
    crate::interp::lemma_interp_exact(energies_of(ab), values_of(ab), i);
    assert(energies_of(ab)[i] == ab[i].energy);
    assert(values_of(ab)[i] == ab[i].absorption);
}

/// Length of the grid and curve after reconciliation: the full grid, cut
/// back to the sample count when rounding made it longer.
pub open spec fn reconciled_len(full: int, m: int) -> int {
    if full > m {
        m
    } else {
        full
    }
}

/// The final immutable spectrum record: raw samples, absorption signal,
/// uniform grid, resampled curve and the edge energy, all in fixed-point
/// micro-units.
#[derive(Clone, Debug)]
pub struct Spectrum {
    pub raw: Vec<RawSample>,
    pub absorption: Vec<AbsorptionSample>,
    pub grid: Vec<i64>,
    pub curve: Vec<i64>,
    pub e0: i64,
}

impl Spectrum {
    /// Runs the whole pipeline on a batch of text lines: parse, derive
    /// absorption, build the uniform grid with spacing `step`, resample
    /// through the exact interpolant, reconcile lengths, and locate the
    /// edge. The first failure aborts the construction; no partial
    /// spectrum is ever produced.
    pub fn new(lines: &Vec<Vec<u8>>, step: i64) -> (r: Result<Spectrum, Error>)
        requires
            step >= 1,
            spectrum_feasible(lines.deep_view(), step as int),
        ensures
            match r {
                Ok(s) => {
                    let lv = lines.deep_view();
                    let raw = raw_of(lv);
                    let ab = absorption_of(raw);
                    let gs = grid_start(ab);
                    let full = grid_len(gs, grid_stop(ab), step as int);
                    let n = reconciled_len(full, raw.len() as int);
                    &&& parse_ok(lv)
                    &&& effective_len(lv) >= 2
                    &&& no_zero_incident(raw)
                    &&& strictly_increasing(energies_of(ab))
                    &&& s.raw@ == raw
                    &&& s.absorption@ == ab
                    &&& s.grid@.len() == n
                    &&& s.curve@.len() == n
                    &&& 1 <= n
                    &&& forall|k: int|
                        0 <= k < n ==> (#[trigger] s.grid@[k]) as int == grid_point(
                            gs,
                            step as int,
                            k,
                        )
                    &&& forall|k: int|
                        0 <= k < n - 1 ==> (#[trigger] s.grid@[k + 1]) - s.grid@[k] == step
                    &&& forall|k: int| 0 <= k < n - 1 ==> (#[trigger] s.grid@[k]) < s.grid@[k + 1]
                    &&& forall|k: int|
                        0 <= k < n ==> (#[trigger] s.curve@[k]) as int == interp_at(
                            energies_of(ab),
                            values_of(ab),
                            s.grid@[k] as int,
                        )
                    &&& s.e0 == s.grid@[argmax_of(s.curve@)]
                },
                Err(e) => {
                    let lv = lines.deep_view();
                    let raw = raw_of(lv);
                    let ab = absorption_of(raw);
                    if !parse_ok(lv) {
                        exists|k: int|
                            {
                                &&& 0 <= k < effective_len(lv)
                                &&& !line_ok(#[trigger] lv[k])
                                &&& forall|m: int| 0 <= m < k ==> line_ok(#[trigger] lv[m])
                                &&& e == (Error::MalformedRecord {
                                    line: k as usize,
                                    field: bad_field_of(lv[k]) as usize,
                                })
                            }
                    } else if !no_zero_incident(raw) {
                        e == Error::DivisionByZero
                    } else if effective_len(lv) == 0 {
                        e == Error::EmptyInput
                    } else if effective_len(lv) == 1 {
                        e == Error::InsufficientData
                    } else {
                        e == Error::InterpolationFailure && !strictly_increasing(energies_of(ab))
                    }
                },
            },
    {
        let ghost lv = lines.deep_view();
        let raw = match parse_lines(lines) {
            Ok(v) => v,
            Err(e) => {
                return Err(e);
            },
        };
        proof {
            assert(raw@ =~= raw_of(lv));
        }
        let absorption = match compute_absorption(&raw) {
            Ok(v) => v,
            Err(e) => {
                return Err(e);
            },
        };
        proof {
            assert(absorption@ =~= absorption_of(raw@));
        }
        let m = absorption.len();
        if m == 0 {
            return Err(Error::EmptyInput);
        }
        if m == 1 {
            return Err(Error::InsufficientData);
        }
        let interp = match Interpolant::new(&absorption) {
            Ok(it) => it,
            Err(e) => {
                return Err(e);
            },
        };
        proof {
            assert(energies_of(absorption@)[0] == absorption@[0].energy);
            assert(energies_of(absorption@)[m as int - 1] == absorption@[m as int - 1].energy);
            assert(absorption@[0].energy < absorption@[m as int - 1].energy);
            assert(absorption@.first() == absorption@[0]);
            assert(absorption@.last() == absorption@[m as int - 1]);
        }
        let mut grid = match build_grid(&absorption, step) {
            Ok(g) => g,
            Err(_) => {
                proof {
                    assert(false);
                }
                return Err(Error::EmptyInput);
            },
        };
        let mut curve = interp.eval_grid(&grid);
        if grid.len() > m {
            grid.truncate(m);
            curve.truncate(m);
        }
        let e0 = match find_edge(&curve, &grid) {
            Ok(v) => v,
            Err(_) => {
                proof {
                    assert(false);
                }
                return Err(Error::EmptyInput);
            },
        };
        Ok(Spectrum { raw, absorption, grid, curve, e0 })
    }
}

} // verus!

use vstd::prelude::*;

use crate::error::Error;
use crate::num::{abs_of, ratio_scaled, ratio_spec, MAX_FIELD, MU_MAX};

verus! {

/// One measured record: energy, incident intensity, transmitted intensity,
/// all in fixed-point micro-units.
#[derive(Clone, Copy, Debug, PartialEq, Eq, Structural)]
pub struct RawSample {
    pub energy: i64,
    pub incident: i64,
    pub transmitted: i64,
}

/// Field bounds the line parser guarantees; they keep the later arithmetic
/// stages free of overflow.
pub open spec fn raw_wf(s: RawSample) -> bool {
    &&& abs_of(s.energy as int) <= MAX_FIELD
    &&& abs_of(s.incident as int) <= MAX_FIELD
    &&& abs_of(s.transmitted as int) <= MAX_FIELD
}

/// One point of the absorption signal: energy and the absorption ratio
/// `transmitted / incident`, in fixed-point micro-units.
#[derive(Clone, Copy, Debug, PartialEq, Eq, Structural)]
pub struct AbsorptionSample {
    pub energy: i64,
    pub absorption: i64,
}

/// Bounds carried by every absorption sample the calculator produces.
pub open spec fn absorption_wf(s: AbsorptionSample) -> bool {
    &&& abs_of(s.energy as int) <= MAX_FIELD
    &&& abs_of(s.absorption as int) <= MU_MAX
}

/// Maps every raw sample to its absorption ratio, preserving order and
/// count. The whole batch fails with `DivisionByZero` as soon as any
/// sample carries a zero incident intensity.
pub fn compute_absorption(raw: &Vec<RawSample>) -> (r: Result<Vec<AbsorptionSample>, Error>)
    requires
        forall|k: int| 0 <= k < raw@.len() ==> raw_wf(#[trigger] raw@[k]),
    ensures
        match r {
            Ok(v) => {
                &&& forall|k: int| 0 <= k < raw@.len() ==> (#[trigger] raw@[k]).incident != 0
                &&& v@.len() == raw@.len()
                &&& forall|k: int|
                    0 <= k < raw@.len() ==> {
                        &&& (#[trigger] v@[k]).energy == raw@[k].energy
                        &&& v@[k].absorption as int == ratio_spec(
                            raw@[k].transmitted as int,
                            raw@[k].incident as int,
                        )
                        &&& absorption_wf(v@[k])
                    }
            },
            Err(e) => {
                &&& e == Error::DivisionByZero
                &&& exists|k: int| 0 <= k < raw@.len() && (#[trigger] raw@[k]).incident == 0
            },
        },
{
    let mut out: Vec<AbsorptionSample> = Vec::new();
    let mut i: usize = 0;
    while i < raw.len()
        invariant
            i <= raw@.len(),
            out@.len() == i,
            forall|k: int| 0 <= k < raw@.len() ==> raw_wf(#[trigger] raw@[k]),
            forall|k: int| 0 <= k < i ==> (#[trigger] raw@[k]).incident != 0,
            forall|k: int|
                0 <= k < i ==> {
                    &&& (#[trigger] out@[k]).energy == raw@[k].energy
                    &&& out@[k].absorption as int == ratio_spec(
                        raw@[k].transmitted as int,
                        raw@[k].incident as int,
                    )
                    &&& absorption_wf(out@[k])
                },
        decreases raw@.len() - i,
    {
        let s = raw[i];
        if s.incident == 0 {
            return Err(Error::DivisionByZero);
        }
        let a = ratio_scaled(s.transmitted, s.incident);
        out.push(AbsorptionSample { energy: s.energy, absorption: a });
        i = i + 1;
    }
    Ok(out)
}

} // verus!

use vstd::prelude::*;

use crate::error::Error;

verus! {

/// Index of the first occurrence of the maximum of a non-empty sequence.
pub open spec fn argmax_of(s: Seq<i64>) -> int
    decreases s.len(),
{
    if s.len() <= 1 {
        0
    } else {
        let j = argmax_of(s.drop_last());
        if s.last() > s[j] {
            s.len() - 1
        } else {
            j
        }
    }
}

/// Edge detection determinism: `argmax_of` points at a maximum, and at
/// the earliest index holding it, so a unique maximum is found exactly
/// and ties go to the lowest index.
pub proof fn lemma_argmax_first_max(s: Seq<i64>)
    requires
        s.len() >= 1,
    ensures
        0 <= argmax_of(s) < s.len(),
        forall|k: int| 0 <= k < s.len() ==> #[trigger] s[k] <= s[argmax_of(s)],
        forall|k: int| 0 <= k < argmax_of(s) ==> #[trigger] s[k] < s[argmax_of(s)],
    decreases s.len(),
{
    if s.len() > 1 {
        lemma_argmax_first_max(s.drop_last());
        assert(forall|k: int| 0 <= k < s.len() - 1 ==> s.drop_last()[k] == s[k]);
        assert(s.last() == s[s.len() - 1]);
    }
}

/// Locates the absorption edge: the grid energy at the index of the
/// curve's maximum, the earliest such index on a tie. The policy chosen
/// and documented here is maximum-of-curve (not maximum first
/// difference). Fails with `EmptyInput` on an empty curve.
pub fn find_edge(curve: &Vec<i64>, grid: &Vec<i64>) -> (r: Result<i64, Error>)
    requires
        curve@.len() == grid@.len(),
    ensures
        match r {
            Ok(e0) => curve@.len() > 0 && e0 == grid@[argmax_of(curve@)],
            Err(e) => curve@.len() == 0 && e == Error::EmptyInput,
        },
{
    let n = curve.len();
    if n == 0 {
        return Err(Error::EmptyInput);
    }
    let mut best: usize = 0;
    let mut i: usize = 1;
    proof {
        assert(curve@.take(1) =~= seq![curve@[0]]);
    }
    while i < n
        invariant
            1 <= i <= n,
            n == curve@.len(),
            best < i,
            best == argmax_of(curve@.take(i as int)),
        decreases n - i,
    {
        proof {
            assert(curve@.take(i as int + 1).drop_last() =~= curve@.take(i as int));
            assert(curve@.take(i as int + 1).last() == curve@[i as int]);
            assert(forall|k: int| 0 <= k <= i ==> curve@.take(i as int + 1)[k] == curve@[k]);
        }
        if curve[i] > curve[best] {
            best = i;
        }
        i = i + 1;
    }
    proof {
        assert(curve@.take(n as int) =~= curve@);
    }
    Ok(grid[best])
}

} // verus!

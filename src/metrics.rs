use vstd::prelude::*;

use crate::loss_functions::Ratio;
use crate::TreeError;

verus! {

/// The scoring metrics that can be named; only `Accuracy` is computed.
#[derive(Clone, Copy, Debug, PartialEq, Eq, Structural)]
pub enum Metric {
    Accuracy,
    Precision,
    Recall,
}

/// Number of positions below `k` where `p` and `t` agree.
pub open spec fn count_matches(p: Seq<isize>, t: Seq<isize>, k: nat) -> nat
    decreases k,
{
    if k == 0 {
        0
    } else {
        count_matches(p, t, (k - 1) as nat) + if p[k - 1] == t[k - 1] { 1nat } else { 0nat }
    }
}

/// Fraction of positions where the prediction equals the target; the two
/// sequences must be non-empty and of equal length.
pub fn accuracy(predictions: &Vec<isize>, target: &Vec<isize>) -> (r: Result<Ratio, TreeError>)
    ensures
        r is Err <==> predictions.len() != target.len() || predictions.len() == 0,
        r is Err ==> r == Err::<Ratio, TreeError>(TreeError::InvalidInput),
        r matches Ok(v) ==> v.value() == (
            count_matches(predictions@, target@, predictions.len() as nat) as int,
            predictions.len() as int,
        ),
{
    if predictions.len() != target.len() || predictions.len() == 0 {
        return Err(TreeError::InvalidInput);
    }
    let mut correct: usize = 0;
    let mut i: usize = 0;
    while i < predictions.len()
        invariant
            predictions.len() == target.len(),
            i <= predictions.len(),
            correct == count_matches(predictions@, target@, i as nat),
            correct <= i,
        decreases predictions.len() - i,
    {
        if predictions[i] == target[i] {
            correct = correct + 1;
        }
        i = i + 1;
    }
    Ok(Ratio { num: correct as u128, den: predictions.len() as u128 })
}

} // verus!

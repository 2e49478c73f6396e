//! Bookkeeping shared by the optimizers: pairing each tracked parameter with
//! its gradient before an update step.
use vstd::prelude::*;

verus! {

/// Why an optimizer refused to update.
#[derive(Debug, PartialEq, Eq)]
pub enum OptimizerUpdateError {
    /// These tracked parameters (by id, in the order they were given) have
    /// no entry in the gradient map.
    UnusedParams(Vec<u64>),
}

/// The ids among the first `n` of `params` that `grads` does not hold, in order.
pub open spec fn missing(params: Seq<u64>, grads: Seq<u64>, n: int) -> Seq<u64>
    decreases n,
{
    if n <= 0 {
        Seq::empty()
    } else {
        let rest = missing(params, grads, n - 1);
        if grads.contains(params[n - 1]) {
            rest
        } else {
            rest.push(params[n - 1])
        }
    }
}

/// Position of `id` in `grads`, or `None` where `grads` does not hold it.
fn find_gradient(grads: &Vec<u64>, id: u64) -> (r: Option<usize>)
    ensures
        r is None <==> !grads@.contains(id),
        r is Some ==> r->Some_0 < grads@.len() && grads@[r->Some_0 as int] == id,
{
    let mut j: usize = 0;
    while j < grads.len()
        invariant
            0 <= j <= grads@.len(),
            forall|k: int| 0 <= k < j ==> grads@[k] != id,
        decreases grads.len() - j,
    {
        if grads[j] == id {
            return Some(j);
        }
        j = j + 1;
    }
    None
}

/// Pairs every tracked parameter with its entry in the gradient map, given
/// as the parameter ids of its entries: `Ok(slots)` where `grads[slots[k]]`
/// is `params[k]`. An update must not skip a parameter silently, so where
/// some parameter has no gradient this fails with the ids of all of those.
pub fn match_gradients(params: &Vec<u64>, grads: &Vec<u64>) -> (r: Result<
    Vec<usize>,
    OptimizerUpdateError,
>)
    ensures
        r is Ok <==> forall|k: int| 0 <= k < params@.len() ==> grads@.contains(#[trigger] params@[k]),
        r is Ok ==> ({
            let slots = r->Ok_0@;
            &&& slots.len() == params@.len()
            &&& forall|k: int|
                0 <= k < params@.len() ==> #[trigger] slots[k] < grads@.len() && grads@[slots[k] as int]
                    == params@[k]
        }),
        r is Err ==> match r->Err_0 {
            OptimizerUpdateError::UnusedParams(ids) => ids@ == missing(
                params@,
                grads@,
                params@.len() as int,
            ),
        },
{
    let mut slots: Vec<usize> = Vec::new();
    let mut unused: Vec<u64> = Vec::new();
    let mut i: usize = 0;
    while i < params.len()
        invariant
            0 <= i <= params@.len(),
            unused@ == missing(params@, grads@, i as int),
            unused@.len() == 0 <==> forall|k: int| 0 <= k < i ==> grads@.contains(#[trigger] params@[k]),
            unused@.len() == 0 ==> slots@.len() == i,
            unused@.len() == 0 ==> forall|k: int|
                0 <= k < i ==> #[trigger] slots@[k] < grads@.len() && grads@[slots@[k] as int]
                    == params@[k],
        decreases params.len() - i,
    {
        match find_gradient(grads, params[i]) {
            Some(j) => {
                slots.push(j);
                proof {
                    assert(grads@.contains(params@[i as int]));
                }
            },
            None => {
                unused.push(params[i]);
            },
        }
        i = i + 1;
    }
    if unused.len() == 0 {
        Ok(slots)
    } else {
        Err(OptimizerUpdateError::UnusedParams(unused))
    }
}

} // verus!

use crate::model::{MatchError, Solution};
use crate::random::pick;
use vstd::prelude::*;

verus! {

/// Solution `i` has the fewest fallback rooms of all, and the most
/// mutually preferred rooms of those that tie with it on that.
pub open spec fn is_optimal(sols: Seq<Solution>, i: int) -> bool {
    &&& 0 <= i < sols.len()
    &&& forall|j: int| 0 <= j < sols.len() ==> sols[i].unpreferred <= #[trigger] sols[j].unpreferred
    &&& forall|j: int|
        0 <= j < sols.len() && #[trigger] sols[j].unpreferred == sols[i].unpreferred
            ==> sols[j].preferred <= sols[i].preferred
}

/// The positions of the optimal solutions, in increasing order.
pub fn optimal_indices(solutions: &Vec<Solution>) -> (r: Vec<usize>)
    ensures
        forall|i: usize| r@.contains(i) <==> is_optimal(solutions@, i as int),
        forall|a: int, b: int| 0 <= a < b < r@.len() ==> r@[a] < r@[b],
        solutions@.len() > 0 ==> r@.len() > 0,
{
    let sols = solutions;
    let n = sols.len();
    if n == 0 {
        return Vec::new();
    }
    let mut min_unpreferred: u64 = sols[0].unpreferred;
    let mut i: usize = 1;
    while i < n
        invariant
            n == sols@.len(),
            1 <= i <= n,
            exists|j: int| 0 <= j < n && sols@[j].unpreferred == min_unpreferred,
            forall|j: int| 0 <= j < i ==> min_unpreferred <= #[trigger] sols@[j].unpreferred,
        decreases n - i,
    {
        if sols[i].unpreferred < min_unpreferred {
            min_unpreferred = sols[i].unpreferred;
        }
        i = i + 1;
    }
    let mut max_preferred: u64 = 0;
    let mut found = false;
    i = 0;
    while i < n
        invariant
            n == sols@.len(),
            0 <= i <= n,
            found <==> exists|j: int| 0 <= j < i && sols@[j].unpreferred == min_unpreferred,
            found ==> exists|j: int|
                0 <= j < i && sols@[j].unpreferred == min_unpreferred && sols@[j].preferred
                    == max_preferred,
            forall|j: int|
                0 <= j < i && #[trigger] sols@[j].unpreferred == min_unpreferred
                    ==> sols@[j].preferred <= max_preferred,
        decreases n - i,
    {
        if sols[i].unpreferred == min_unpreferred && (!found || sols[i].preferred > max_preferred) {
            max_preferred = sols[i].preferred;
            found = true;
        }
        i = i + 1;
    }
    let mut result: Vec<usize> = Vec::new();
    i = 0;
    while i < n
        invariant
            n == sols@.len(),
            0 <= i <= n,
            forall|j: int| 0 <= j < n ==> min_unpreferred <= #[trigger] sols@[j].unpreferred,
            exists|j: int|
                0 <= j < n && sols@[j].unpreferred == min_unpreferred && sols@[j].preferred
                    == max_preferred,
            forall|j: int|
                0 <= j < n && #[trigger] sols@[j].unpreferred == min_unpreferred
                    ==> sols@[j].preferred <= max_preferred,
            forall|x: usize|
                result@.contains(x) <==> x < i && sols@[x as int].unpreferred == min_unpreferred
                    && sols@[x as int].preferred == max_preferred,
            forall|a: int, b: int| 0 <= a < b < result@.len() ==> result@[a] < result@[b],
            forall|a: int| 0 <= a < result@.len() ==> result@[a] < i,
        decreases n - i,
    {
        let ghost before = result@;
        if sols[i].unpreferred == min_unpreferred && sols[i].preferred == max_preferred {
            result.push(i);
            proof {
                assert forall|x: usize| result@.contains(x) <==> before.contains(x) || x == i by {
                    if before.contains(x) {
                        let k = choose|k: int| 0 <= k < before.len() && before[k] == x;
                        assert(result@[k] == x);
                    }
                    if x == i {
                        assert(result@[before.len() as int] == x);
                    }
                }
            }
        }
        proof {
            assert forall|x: usize|
                result@.contains(x) <==> x < i + 1 && sols@[x as int].unpreferred == min_unpreferred
                    && sols@[x as int].preferred == max_preferred by {
                if before.contains(x) {
                    let k = choose|k: int| 0 <= k < before.len() && before[k] == x;
                    assert(before[k] < i);
                }
                if result@ == before && result@.contains(x) {
                    assert(before.contains(x));
                }
            }
        }
        i = i + 1;
    }
    proof {
        let w = choose|j: int|
            0 <= j < n && sols@[j].unpreferred == min_unpreferred && sols@[j].preferred
                == max_preferred;
        assert(result@.contains(w as usize));
        assert forall|x: usize| is_optimal(sols@, x as int) implies result@.contains(x) by {
            assert(sols@[x as int].unpreferred <= sols@[w].unpreferred);
            assert(sols@[w].preferred <= sols@[x as int].preferred);
        }
    }
    result
}

/// Picks one of the optimal solutions at random and gives its position.
pub fn select_best(solutions: &Vec<Solution>, rng: &mut rand::rngs::ThreadRng) -> (r: Result<
    usize,
    MatchError,
>)
    ensures
        solutions@.len() == 0 <==> r is Err,
        r matches Err(e) ==> e == MatchError::EmptyInput,
        r matches Ok(i) ==> is_optimal(solutions@, i as int),
        solutions@.len() == 1 ==> r == Ok::<usize, MatchError>(0),
{
    let best = optimal_indices(solutions);
    match pick(&best, rng) {
        Some(i) => Ok(i),
        None => Err(MatchError::EmptyInput),
    }
}

} // verus!

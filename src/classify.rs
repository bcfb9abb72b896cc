use crate::model::Preferences;
use vstd::prelude::*;

verus! {

/// Those of `people` that `a` and they both prefer, in order.
pub open spec fn preferred_among(prefs: &Preferences, a: usize, people: Seq<usize>) -> Seq<usize> {
    people.filter(|b: usize| prefs.mutually_preferred(a, b))
}

/// Those of `people` that neither `a` nor they unprefer, in order.
pub open spec fn accepted_among(prefs: &Preferences, a: usize, people: Seq<usize>) -> Seq<usize> {
    people.filter(|b: usize| prefs.mutually_accepted(a, b))
}

/// Classifying `a` against `people` finds every preferred entry it needs.
pub open spec fn preferred_entries_present(prefs: &Preferences, a: usize, people: Seq<usize>) -> bool {
    people.len() == 0 || (prefs.has_preferred_entry(a) && forall|i: int|
        0 <= i < people.len() ==> prefs.has_preferred_entry(#[trigger] people[i]))
}

/// Classifying `a` against `people` finds every unpreferred entry it needs.
pub open spec fn unpreferred_entries_present(prefs: &Preferences, a: usize, people: Seq<usize>) -> bool {
    people.len() == 0 || (prefs.has_unpreferred_entry(a) && forall|i: int|
        0 <= i < people.len() ==> prefs.has_unpreferred_entry(#[trigger] people[i]))
}

fn list_contains(list: &Vec<usize>, x: usize) -> (r: bool)
    ensures
        r == list@.contains(x),
{
    let mut i: usize = 0;
    while i < list.len()
        invariant
            i <= list@.len(),
            forall|j: int| 0 <= j < i ==> list@[j] != x,
        decreases list@.len() - i,
    {
        if list[i] == x {
            return true;
        }
        i = i + 1;
    }
    false
}

impl Preferences {
    /// The preferred list of `x`, if the relation has one.
    pub fn preferred_of(&self, x: usize) -> (r: Option<&Vec<usize>>)
        ensures
            r is Some <==> self.has_preferred_entry(x),
            r matches Some(l) ==> *l == self.preferred@[x as int].unwrap(),
    {
        if x < self.preferred.len() {
            match &self.preferred[x] {
                Some(l) => Some(l),
                None => None,
            }
        } else {
            None
        }
    }

    /// The unpreferred list of `x`, if the relation has one.
    pub fn unpreferred_of(&self, x: usize) -> (r: Option<&Vec<usize>>)
        ensures
            r is Some <==> self.has_unpreferred_entry(x),
            r matches Some(l) ==> *l == self.unpreferred@[x as int],
    {
        if x < self.unpreferred.len() {
            Some(&self.unpreferred[x])
        } else {
            None
        }
    }
}

/// The candidates among `people` that `a` and they both prefer, or `None`
/// where an entry of the preferred relation that is needed is missing.
pub fn get_preferred_people(a: usize, people: &[usize], prefs: &Preferences) -> (r: Option<Vec<usize>>)
    ensures
        r is Some <==> preferred_entries_present(prefs, a, people@),
        r matches Some(v) ==> v@ == preferred_among(prefs, a, people@),
{
    let mut result: Vec<usize> = Vec::new();
    let mut i: usize = 0;
    while i < people.len()
        invariant
            i <= people@.len(),
            result@ == preferred_among(prefs, a, people@.take(i as int)),
            i > 0 ==> prefs.has_preferred_entry(a),
            forall|j: int| 0 <= j < i ==> prefs.has_preferred_entry(#[trigger] people@[j]),
        decreases people@.len() - i,
    {
        let b = people[i];
        let a_prefers_b = match prefs.preferred_of(a) {
            Some(l) => list_contains(l, b),
            None => return None,
        };
        let b_prefers_a = match prefs.preferred_of(b) {
            Some(l) => list_contains(l, a),
            None => return None,
        };
        proof {
            reveal(Seq::filter);
            assert(people@.take(i + 1).drop_last() =~= people@.take(i as int));
            assert(people@.take(i + 1).last() == b);
        }
        if a_prefers_b && b_prefers_a {
            result.push(b);
        }
        i = i + 1;
    }
    proof {
        assert(people@.take(i as int) =~= people@);
    }
    Some(result)
}

/// The candidates among `people` that neither `a` nor they unprefer, or
/// `None` where an entry of the unpreferred relation that is needed is
/// missing.
pub fn get_accepted_people(a: usize, people: &[usize], prefs: &Preferences) -> (r: Option<Vec<usize>>)
    ensures
        r is Some <==> unpreferred_entries_present(prefs, a, people@),
        r matches Some(v) ==> v@ == accepted_among(prefs, a, people@),
{
    let mut result: Vec<usize> = Vec::new();
    let mut i: usize = 0;
    while i < people.len()
        invariant
            i <= people@.len(),
            result@ == accepted_among(prefs, a, people@.take(i as int)),
            i > 0 ==> prefs.has_unpreferred_entry(a),
            forall|j: int| 0 <= j < i ==> prefs.has_unpreferred_entry(#[trigger] people@[j]),
        decreases people@.len() - i,
    {
        let b = people[i];
        let a_unprefers_b = match prefs.unpreferred_of(a) {
            Some(l) => list_contains(l, b),
            None => return None,
        };
        let b_unprefers_a = match prefs.unpreferred_of(b) {
            Some(l) => list_contains(l, a),
            None => return None,
        };
        proof {
            reveal(Seq::filter);
            assert(people@.take(i + 1).drop_last() =~= people@.take(i as int));
            assert(people@.take(i + 1).last() == b);
        }
        if !a_unprefers_b && !b_unprefers_a {
            result.push(b);
        }
        i = i + 1;
    }
    proof {
        assert(people@.take(i as int) =~= people@);
    }
    Some(result)
}

/// Mutual preference does not depend on who is classified against whom:
/// where `b` is a preferred candidate for `a`, `a` is one for `b` in any
/// pool that holds `a`.
pub proof fn lemma_mutual_preference_symmetric(
    prefs: &Preferences,
    a: usize,
    b: usize,
    pool_of_a: Seq<usize>,
    pool_of_b: Seq<usize>,
)
    requires
        preferred_among(prefs, a, pool_of_a).contains(b),
        pool_of_b.contains(a),
    ensures
        preferred_among(prefs, b, pool_of_b).contains(a),
{
    broadcast use vstd::seq_lib::group_filter_ensures;

    let pa = preferred_among(prefs, a, pool_of_a);
    let k = choose|k: int| 0 <= k < pa.len() && pa[k] == b;
    assert(prefs.mutually_preferred(a, b));
    let j = choose|j: int| 0 <= j < pool_of_b.len() && pool_of_b[j] == a;
    pool_of_b.lemma_filter_contains(|x: usize| prefs.mutually_preferred(b, x), j);
}

} // verus!

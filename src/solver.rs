use crate::classify::{
    get_accepted_people, get_preferred_people, preferred_entries_present,
    unpreferred_entries_present,
};
use crate::model::{
    everyone, lemma_members_len_sum, lemma_tier_counts_sum, members, MatchError, Preferences,
    Solution, Tier,
};
use crate::random::{pick, shuffle};
use vstd::prelude::*;

verus! {

broadcast use vstd::seq_lib::group_to_multiset_ensures, vstd::multiset::group_multiset_axioms;

/// What a filter keeps comes from the filtered sequence and meets the predicate.
proof fn lemma_filter_kept(s: Seq<usize>, pred: spec_fn(usize) -> bool, x: usize)
    requires
        s.filter(pred).contains(x),
    ensures
        s.contains(x),
        pred(x),
    decreases s.len(),
{
    reveal(Seq::filter);
    if s.len() > 0 {
        let rest = s.drop_last().filter(pred);
        if rest.contains(x) {
            lemma_filter_kept(s.drop_last(), pred, x);
            let i = choose|i: int| 0 <= i < s.drop_last().len() && s.drop_last()[i] == x;
            assert(s[i] == x);
        } else {
            assert(x == s.last());
        }
    }
}

/// The position of the first `item` in `array`.
pub fn find_index(item: usize, array: &[usize]) -> (r: Result<usize, MatchError>)
    ensures
        match r {
            Ok(i) => i < array@.len() && array@[i as int] == item && forall|j: int|
                0 <= j < i ==> array@[j] != item,
            Err(e) => e == MatchError::NotFound && !array@.contains(item),
        },
{
    let mut i: usize = 0;
    while i < array.len()
        invariant
            i <= array@.len(),
            forall|j: int| 0 <= j < i ==> array@[j] != item,
        decreases array@.len() - i,
    {
        if array[i] == item {
            return Ok(i);
        }
        i = i + 1;
    }
    Err(MatchError::NotFound)
}

/// Picks one person of `list` at random and takes them out of `index_list`.
pub fn choose_person(
    list: &Vec<usize>,
    index_list: &mut Vec<usize>,
    rng: &mut rand::rngs::ThreadRng,
) -> (r: Result<usize, MatchError>)
    ensures
        list@.len() == 0 <==> r == Err::<usize, MatchError>(MatchError::EmptyInput),
        (forall|x: usize| list@.contains(x) ==> old(index_list)@.contains(x)) ==> r matches Ok(_)
            || list@.len() == 0,
        r matches Err(e) ==> (e == MatchError::EmptyInput || e == MatchError::NotFound)
            && final(index_list)@ == old(index_list)@,
        r matches Ok(p) ==> list@.contains(p) && exists|i: int|
            0 <= i < old(index_list)@.len() && old(index_list)@[i] == p && final(index_list)@
                == old(index_list)@.remove(i),
{
    let person = match pick(list, rng) {
        Some(p) => p,
        None => return Err(MatchError::EmptyInput),
    };
    let index = match find_index(person, index_list.as_slice()) {
        Ok(i) => i,
        Err(e) => return Err(e),
    };
    Ok(index_list.remove(index))
}


/// The people `0..n` as a list.
fn all_people(n: usize) -> (r: Vec<usize>)
    ensures
        r@ == everyone(n as nat),
{
    let mut r: Vec<usize> = Vec::new();
    let mut i: usize = 0;
    while i < n
        invariant
            i <= n,
            r@ == everyone(i as nat),
        decreases n - i,
    {
        r.push(i);
        i = i + 1;
        proof {
            assert(r@ =~= everyone(i as nat));
        }
    }
    r
}

/// A person of `everyone(n)` is below `n`.
proof fn lemma_everyone_below(n: nat, x: usize)
    requires
        everyone(n).to_multiset().count(x) > 0,
    ensures
        x < n,
{
    assert(everyone(n).contains(x));
}

/// Each person below `n` is in `everyone(n)`.
proof fn lemma_everyone_holds(n: nat, x: usize)
    requires
        x < n,
    ensures
        everyone(n).to_multiset().count(x) > 0,
{
    assert(everyone(n)[x as int] == x);
    assert(everyone(n).contains(x));
}

/// Runs one trial: shuffles the people, then repeatedly takes the last one
/// and pairs them at random with a remaining person of the best tier that
/// is on offer.
pub fn solve(prefs: &Preferences, rng: &mut rand::rngs::ThreadRng) -> (r: Result<
    Solution,
    MatchError,
>)
    ensures
        match r {
            Ok(sol) => prefs.solvable() && prefs.is_solution(sol) && prefs.greedy(sol.rooms@),
            Err(e) => !prefs.solvable() && e == prefs.trial_error(),
        },
{
    let n = prefs.unpreferred.len();
    let ghost everyone_n = everyone(n as nat);
    let mut people = all_people(n);
    shuffle(&mut people, rng);
    proof {
        assert(people@.len() == people@.to_multiset().len());
        assert(everyone_n.len() == everyone_n.to_multiset().len());
    }
    let mut rooms: Vec<(usize, usize)> = Vec::new();
    let mut preferred: u64 = 0;
    let mut accepted: u64 = 0;
    let mut unpreferred: u64 = 0;
    proof {
        assert(members(rooms@) =~= Seq::<usize>::empty());
        assert(people@.to_multiset().add(members(rooms@).to_multiset()) =~= everyone_n.to_multiset());
    }
    while people.len() > 0
        invariant
            n == prefs.count(),
            everyone_n == everyone(n as nat),
            people@.to_multiset().add(members(rooms@).to_multiset()) == everyone_n.to_multiset(),
            2 * rooms@.len() + people@.len() == n,
            rooms@.len() > 0 ==> prefs.complete(),
            preferred == prefs.count_tier(rooms@, Tier::Preferred),
            accepted == prefs.count_tier(rooms@, Tier::Accepted),
            unpreferred == prefs.count_tier(rooms@, Tier::Unpreferred),
            prefs.greedy(rooms@),
            forall|k: int, x: usize|
                0 <= k < rooms@.len() && people@.contains(x) ==> #[trigger] prefs.no_better_with(
                    rooms@[k],
                    x,
                ),
        decreases people@.len(),
    {
        let ghost pool0 = people@;
        let ghost rooms0 = rooms@;
        let person = people.pop().unwrap();
        proof {
            assert(pool0 =~= people@.push(person));
            assert(pool0.to_multiset().count(person) > 0);
            assert(everyone_n.to_multiset().count(person) == pool0.to_multiset().count(person)
                + members(rooms0).to_multiset().count(person));
            lemma_everyone_below(n as nat, person);
            assert forall|x: usize| people@.contains(x) implies x < n by {
                assert(pool0.to_multiset().count(x) > 0);
                assert(everyone_n.to_multiset().count(x) == pool0.to_multiset().count(x)
                    + members(rooms0).to_multiset().count(x));
                lemma_everyone_below(n as nat, x);
            }
        }
        if people.len() == 0 {
            proof {
                lemma_members_len_sum(rooms@);
            }
            return Err(MatchError::PoolExhausted);
        }
        let preferred_people = match get_preferred_people(person, people.as_slice(), prefs) {
            Some(v) => v,
            None => {
                proof {
                    if prefs.complete() {
                        assert forall|i: int| 0 <= i < people@.len() implies prefs.has_preferred_entry(
                            #[trigger] people@[i],
                        ) by {
                            assert(people@.contains(people@[i]));
                        }
                        assert(preferred_entries_present(prefs, person, people@));
                    }
                }
                return Err(MatchError::MissingEntry);
            },
        };
        proof {
            if rooms@.len() == 0 && !prefs.complete() {
                let x = choose|x: usize| x < prefs.count() && !prefs.has_preferred_entry(x);
                lemma_everyone_holds(n as nat, x);
                assert(members(rooms@) =~= Seq::<usize>::empty());
                assert(pool0.to_multiset().count(x) > 0);
                assert(pool0.contains(x));
                if x != person {
                    let i = choose|i: int| 0 <= i < pool0.len() && pool0[i] == x;
                    assert(people@[i] == x);
                }
            }
            assert(prefs.complete());
        }
        let accepted_people = match get_accepted_people(person, people.as_slice(), prefs) {
            Some(v) => v,
            None => {
                proof {
                    assert forall|i: int| 0 <= i < people@.len() implies prefs.has_unpreferred_entry(
                        #[trigger] people@[i],
                    ) by {
                        assert(people@.contains(people@[i]));
                    }
                    assert(unpreferred_entries_present(prefs, person, people@));
                }
                return Err(MatchError::MissingEntry);
            },
        };
        let ghost pool1 = people@;
        let tier: Tier;
        let second_person: usize;
        if preferred_people.len() > 0 {
            proof {
                assert forall|x: usize| preferred_people@.contains(x) implies pool1.contains(x) by {
                    lemma_filter_kept(pool1, |b: usize| prefs.mutually_preferred(person, b), x);
                }
            }
            second_person = match choose_person(&preferred_people, &mut people, rng) {
                Ok(p) => p,
                Err(e) => return Err(e),
            };
            proof {
                lemma_filter_kept(pool1, |b: usize| prefs.mutually_preferred(person, b), second_person);
            }
            tier = Tier::Preferred;
        } else if accepted_people.len() > 0 {
            proof {
                assert forall|x: usize| accepted_people@.contains(x) implies pool1.contains(x) by {
                    lemma_filter_kept(pool1, |b: usize| prefs.mutually_accepted(person, b), x);
                }
            }
            second_person = match choose_person(&accepted_people, &mut people, rng) {
                Ok(p) => p,
                Err(e) => return Err(e),
            };
            proof {
                lemma_filter_kept(pool1, |b: usize| prefs.mutually_accepted(person, b), second_person);
                lemma_not_kept(pool1, |b: usize| prefs.mutually_preferred(person, b), second_person);
            }
            tier = Tier::Accepted;
        } else {
            let candidates = people.clone();
            proof {
                assert(candidates@ =~= pool1);
            }
            second_person = match choose_person(&candidates, &mut people, rng) {
                Ok(p) => p,
                Err(e) => return Err(e),
            };
            proof {
                lemma_not_kept(pool1, |b: usize| prefs.mutually_preferred(person, b), second_person);
                lemma_not_kept(pool1, |b: usize| prefs.mutually_accepted(person, b), second_person);
            }
            tier = Tier::Unpreferred;
        }
        proof {
            assert(prefs.tier_of(person, second_person) == tier);
            lemma_tier_counts_sum(prefs, rooms@);
            assert forall|x: usize| pool1.contains(x) implies tier.rank() <= prefs.tier_of(
                person,
                x,
            ).rank() by {
                if tier != Tier::Preferred {
                    lemma_not_kept(pool1, |b: usize| prefs.mutually_preferred(person, b), x);
                }
                if tier == Tier::Unpreferred {
                    lemma_not_kept(pool1, |b: usize| prefs.mutually_accepted(person, b), x);
                }
            }
        }
        rooms.push((person, second_person));
        proof {
            assert(rooms@.drop_last() =~= rooms0);
            assert(members(rooms@) == members(rooms0).push(person).push(second_person));
            let i = choose|i: int|
                0 <= i < pool1.len() && pool1[i] == second_person && people@ == pool1.remove(i);
            assert(people@.to_multiset() == pool1.to_multiset().remove(second_person));
            assert(people@.to_multiset().add(members(rooms@).to_multiset()) =~= everyone_n.to_multiset());
            assert forall|x: usize| people@.contains(x) implies pool1.contains(x) && pool0.contains(x) by {
                assert(people@.to_multiset().count(x) > 0);
                assert(pool1.to_multiset().count(x) > 0);
                assert(pool0.to_multiset().count(x) > 0);
            }
            assert(pool0.contains(second_person)) by {
                assert(pool1[i] == second_person);
                assert(pool0[i] == second_person);
            }
            assert(pool0.contains(person)) by {
                assert(pool0[pool0.len() - 1] == person);
            }
            assert forall|k: int, j: int| 0 <= k < j < rooms@.len() implies prefs.ranked_before(
                #[trigger] rooms@[k],
                #[trigger] rooms@[j],
            ) by {
                if j == rooms@.len() - 1 && k < j {
                    assert(rooms@[k] == rooms0[k]);
                }
            }
            assert forall|k: int, x: usize|
                0 <= k < rooms@.len() && people@.contains(x) implies #[trigger] prefs.no_better_with(
                rooms@[k],
                x,
            ) by {
                assert(pool1.contains(x) && pool0.contains(x));
                if k < rooms@.len() - 1 {
                    assert(rooms@[k] == rooms0[k]);
                    assert(prefs.no_better_with(rooms0[k], x));
                } else {
                    assert(rooms@[k] == (person, second_person));
                    assert(tier.rank() <= prefs.tier_of(person, x).rank());
                }
            }
        }
        match tier {
            Tier::Preferred => preferred = preferred + 1,
            Tier::Accepted => accepted = accepted + 1,
            Tier::Unpreferred => unpreferred = unpreferred + 1,
        }
    }
    proof {
        lemma_members_len_sum(rooms@);
        assert(people@ =~= Seq::<usize>::empty());
        assert(members(rooms@).to_multiset() =~= everyone_n.to_multiset());
    }
    Ok(Solution { rooms, preferred, accepted, unpreferred })
}

/// Runs `trials` independent trials; the first one that fails ends the run.
pub fn generate_solutions(
    prefs: &Preferences,
    trials: u64,
    rng: &mut rand::rngs::ThreadRng,
) -> (r: Result<Vec<Solution>, MatchError>)
    ensures
        match r {
            Ok(v) => v@.len() == trials && (trials > 0 ==> prefs.solvable()) && forall|i: int|
                0 <= i < v@.len() ==> prefs.is_solution(#[trigger] v@[i]) && prefs.greedy(
                    v@[i].rooms@,
                ),
            Err(e) => trials > 0 && !prefs.solvable() && e == prefs.trial_error(),
        },
{
    let mut result: Vec<Solution> = Vec::new();
    let mut k: u64 = 0;
    while k < trials
        invariant
            k <= trials,
            result@.len() == k,
            k > 0 ==> prefs.solvable(),
            forall|i: int|
                0 <= i < result@.len() ==> prefs.is_solution(#[trigger] result@[i])
                    && prefs.greedy(result@[i].rooms@),
        decreases trials - k,
    {
        match solve(prefs, rng) {
            Ok(sol) => result.push(sol),
            Err(e) => return Err(e),
        }
        k = k + 1;
    }
    Ok(result)
}

/// Membership in a filter is decided by the predicate, for members of the source.
proof fn lemma_not_kept(s: Seq<usize>, pred: spec_fn(usize) -> bool, x: usize)
    requires
        s.contains(x),
        s.filter(pred).len() == 0,
    ensures
        !pred(x),
{
    broadcast use vstd::seq_lib::group_filter_ensures;

    if pred(x) {
        let i = choose|i: int| 0 <= i < s.len() && s[i] == x;
        s.lemma_filter_contains(pred, i);
    }
}

} // verus!

use vstd::prelude::*;

verus! {

/// The two preference relations over people, who are numbered `0..n`.
///
/// The people are exactly the entries of `unpreferred`: person `x` has the
/// list `unpreferred[x]` of those they do not want to share with. Person `x`
/// lists whom they prefer in `preferred[x]`; a person with no such entry
/// (`None`, or past the end) is a gap in the data, not an empty list.
pub struct Preferences {
    pub preferred: Vec<Option<Vec<usize>>>,
    pub unpreferred: Vec<Vec<usize>>,
}

/// One complete pairing and how many of its rooms fall in each tier.
pub struct Solution {
    pub rooms: Vec<(usize, usize)>,
    pub preferred: u64,
    pub accepted: u64,
    pub unpreferred: u64,
}

/// How well the two people of a room suit each other, best first.
#[derive(Clone, Copy, Debug, PartialEq, Eq, Structural)]
pub enum Tier {
    Preferred,
    Accepted,
    Unpreferred,
}

impl Tier {
    /// Position in the order of preference, best first.
    pub open spec fn rank(self) -> nat {
        match self {
            Tier::Preferred => 0,
            Tier::Accepted => 1,
            Tier::Unpreferred => 2,
        }
    }
}

/// Why a run produced no result.
#[derive(Clone, Copy, Debug, PartialEq, Eq, Structural)]
pub enum MatchError {
    /// A person met during matching has no entry in one of the relations.
    MissingEntry,
    /// A partner was needed but nobody was left: the number of people is odd.
    PoolExhausted,
    /// A random pick, or the ranking, was asked of an empty list.
    EmptyInput,
    /// A picked person is not in the list they were to be taken from.
    NotFound,
}

impl Preferences {
    /// The number of people.
    pub open spec fn count(&self) -> nat {
        self.unpreferred@.len()
    }

    pub open spec fn has_preferred_entry(&self, x: usize) -> bool {
        x < self.preferred@.len() && self.preferred@[x as int] is Some
    }

    pub open spec fn has_unpreferred_entry(&self, x: usize) -> bool {
        x < self.unpreferred@.len()
    }

    /// `x` lists `y` as preferred.
    pub open spec fn prefers(&self, x: usize, y: usize) -> bool {
        self.has_preferred_entry(x) && self.preferred@[x as int].unwrap()@.contains(y)
    }

    /// `x` lists `y` as unpreferred.
    pub open spec fn unprefers(&self, x: usize, y: usize) -> bool {
        self.has_unpreferred_entry(x) && self.unpreferred@[x as int]@.contains(y)
    }

    pub open spec fn mutually_preferred(&self, a: usize, b: usize) -> bool {
        self.prefers(a, b) && self.prefers(b, a)
    }

    pub open spec fn mutually_accepted(&self, a: usize, b: usize) -> bool {
        !self.unprefers(a, b) && !self.unprefers(b, a)
    }

    /// Every person has an entry in the preferred relation.
    pub open spec fn complete(&self) -> bool {
        forall|x: usize| #![trigger self.has_preferred_entry(x)]
            x < self.count() ==> self.has_preferred_entry(x)
    }

    /// The tier a room of `a` and `b` falls in.
    pub open spec fn tier_of(&self, a: usize, b: usize) -> Tier {
        if self.mutually_preferred(a, b) {
            Tier::Preferred
        } else if self.mutually_accepted(a, b) {
            Tier::Accepted
        } else {
            Tier::Unpreferred
        }
    }

    /// The number of rooms of `rooms` that fall in tier `t`.
    pub open spec fn count_tier(&self, rooms: Seq<(usize, usize)>, t: Tier) -> nat
        decreases rooms.len(),
    {
        if rooms.len() == 0 {
            0
        } else {
            self.count_tier(rooms.drop_last(), t) + if self.tier_of(rooms.last().0, rooms.last().1)
                == t {
                1nat
            } else {
                0nat
            }
        }
    }

    /// `sol` pairs every person exactly once and its counters are the
    /// numbers of its rooms in each tier.
    pub open spec fn is_solution(&self, sol: Solution) -> bool {
        &&& members(sol.rooms@).to_multiset() == everyone(self.count()).to_multiset()
        &&& sol.preferred == self.count_tier(sol.rooms@, Tier::Preferred)
        &&& sol.accepted == self.count_tier(sol.rooms@, Tier::Accepted)
        &&& sol.unpreferred == self.count_tier(sol.rooms@, Tier::Unpreferred)
    }

    /// When room `r` was made, pairing its first person with either person
    /// of the later room `later` would have been no better.
    pub open spec fn ranked_before(&self, r: (usize, usize), later: (usize, usize)) -> bool {
        self.no_better_with(r, later.0) && self.no_better_with(r, later.1)
    }

    /// Pairing the first person of room `r` with `x` gives no better tier.
    pub open spec fn no_better_with(&self, r: (usize, usize), x: usize) -> bool {
        self.tier_of(r.0, r.1).rank() <= self.tier_of(r.0, x).rank()
    }

    /// Each room was made with the best tier that was still on offer to its
    /// first person: nobody placed in a later room would have done better.
    pub open spec fn greedy(&self, rooms: Seq<(usize, usize)>) -> bool {
        forall|k: int, j: int|
            0 <= k < j < rooms.len() ==> self.ranked_before(#[trigger] rooms[k], #[trigger] rooms[j])
    }

    /// A single trial succeeds: the people can be paired off, and whenever
    /// some pairing is to be made every person has a preferred entry.
    pub open spec fn solvable(&self) -> bool {
        self.count() % 2 == 0 && (self.count() == 0 || self.complete())
    }

    /// The error that a trial ends in when it cannot succeed.
    pub open spec fn trial_error(&self) -> MatchError {
        if self.count() >= 2 && !self.complete() {
            MatchError::MissingEntry
        } else {
            MatchError::PoolExhausted
        }
    }
}

/// The people `0..n` in order.
pub open spec fn everyone(n: nat) -> Seq<usize> {
    Seq::new(n, |i: int| i as usize)
}

/// The people of the rooms, room by room, each room's two in order.
pub open spec fn members(rooms: Seq<(usize, usize)>) -> Seq<usize>
    decreases rooms.len(),
{
    if rooms.len() == 0 {
        Seq::empty()
    } else {
        members(rooms.drop_last()).push(rooms.last().0).push(rooms.last().1)
    }
}

/// The people of the rooms are two per room, and as many as their multiset holds.
pub proof fn lemma_members_len_sum(rooms: Seq<(usize, usize)>)
    ensures
        members(rooms).len() == 2 * rooms.len(),
        members(rooms).to_multiset().len() == 2 * rooms.len(),
{
    broadcast use vstd::seq_lib::group_to_multiset_ensures;

    lemma_members_len(rooms);
}

pub proof fn lemma_members_len(rooms: Seq<(usize, usize)>)
    ensures
        members(rooms).len() == 2 * rooms.len(),
    decreases rooms.len(),
{
    if rooms.len() > 0 {
        lemma_members_len(rooms.drop_last());
    }
}

/// The tier counts of a list of rooms add up to its length.
pub proof fn lemma_tier_counts_sum(prefs: &Preferences, rooms: Seq<(usize, usize)>)
    ensures
        prefs.count_tier(rooms, Tier::Preferred) + prefs.count_tier(rooms, Tier::Accepted)
            + prefs.count_tier(rooms, Tier::Unpreferred) == rooms.len(),
    decreases rooms.len(),
{
    if rooms.len() > 0 {
        lemma_tier_counts_sum(prefs, rooms.drop_last());
    }
}

/// In a solution every person is in exactly one room, nobody else is in
/// any, and there are half as many rooms as people.
pub proof fn lemma_each_person_once(prefs: &Preferences, sol: Solution)
    requires
        prefs.is_solution(sol),
    ensures
        forall|x: usize|
            #[trigger] members(sol.rooms@).to_multiset().count(x) == if x < prefs.count() {
                1nat
            } else {
                0nat
            },
        2 * sol.rooms@.len() == prefs.count(),
{
    broadcast use vstd::seq_lib::group_to_multiset_ensures;

    let all = everyone(prefs.count());
    assert(prefs.count() <= usize::MAX) by {
        assert(prefs.unpreferred@.len() == prefs.unpreferred.len());
    }
    assert forall|i: int, j: int| 0 <= i < all.len() && 0 <= j < all.len() && i != j implies all[i]
        != all[j] by {
        assert(all[i] == i);
        assert(all[j] == j);
    }
    assert(all.no_duplicates());
    all.lemma_multiset_has_no_duplicates();
    assert forall|x: usize|
        #[trigger] members(sol.rooms@).to_multiset().count(x) == if x < prefs.count() {
            1nat
        } else {
            0nat
        } by {
        if x < prefs.count() {
            assert(all[x as int] == x);
            assert(all.contains(x));
        } else {
            assert(!all.contains(x));
        }
    }
    lemma_members_len_sum(sol.rooms@);
    assert(all.len() == all.to_multiset().len());
}

/// A solution's three counters add up to its number of rooms.
pub proof fn lemma_counters_sum(prefs: &Preferences, sol: Solution)
    requires
        prefs.is_solution(sol),
    ensures
        sol.preferred + sol.accepted + sol.unpreferred == sol.rooms@.len(),
{
    lemma_tier_counts_sum(prefs, sol.rooms@);
}

/// An odd number of people cannot be paired off: no solution exists, and
/// a trial always ends in an error.
pub proof fn lemma_odd_has_no_solution(prefs: &Preferences, sol: Solution)
    requires
        prefs.count() % 2 == 1,
    ensures
        !prefs.is_solution(sol),
        !prefs.solvable(),
{
    broadcast use vstd::seq_lib::group_to_multiset_ensures;

    if prefs.is_solution(sol) {
        lemma_members_len_sum(sol.rooms@);
        assert(everyone(prefs.count()).len() == everyone(prefs.count()).to_multiset().len());
    }
}

} // verus!

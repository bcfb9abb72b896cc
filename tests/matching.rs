use roommates::{
    choose_person, find_index, generate_solutions, get_accepted_people, get_preferred_people,
    optimal_indices, select_best, solve, MatchError, Preferences, Solution,
};

const A: usize = 0;
const B: usize = 1;
const C: usize = 2;
const D: usize = 3;

fn prefs(preferred: Vec<Option<Vec<usize>>>, unpreferred: Vec<Vec<usize>>) -> Preferences {
    Preferences { preferred, unpreferred }
}

fn sorted_rooms(sol: &Solution) -> Vec<(usize, usize)> {
    let mut rooms: Vec<(usize, usize)> = sol
        .rooms
        .iter()
        .map(|&(a, b)| if a < b { (a, b) } else { (b, a) })
        .collect();
    rooms.sort();
    rooms
}

fn assert_perfect(sol: &Solution, n: usize) {
    assert_eq!(sol.rooms.len() * 2, n);
    let mut seen = vec![0usize; n];
    for &(a, b) in &sol.rooms {
        seen[a] += 1;
        seen[b] += 1;
    }
    assert!(seen.iter().all(|&c| c == 1));
    assert_eq!(
        sol.preferred + sol.accepted + sol.unpreferred,
        sol.rooms.len() as u64
    );
}

/// A and B prefer each other; nobody is unpreferred.
fn a_b_mutual() -> Preferences {
    prefs(
        vec![Some(vec![B]), Some(vec![A]), Some(vec![]), Some(vec![])],
        vec![vec![], vec![], vec![], vec![]],
    )
}

/// Everybody unprefers everybody else.
fn all_unpreferred() -> Preferences {
    prefs(
        vec![Some(vec![]), Some(vec![]), Some(vec![]), Some(vec![])],
        vec![vec![B, C, D], vec![A, C, D], vec![A, B, D], vec![A, B, C]],
    )
}

#[test]
fn mutual_pair_is_chosen() {
    let p = a_b_mutual();
    let mut rng = rand::thread_rng();
    for _ in 0..20 {
        let sol = solve(&p, &mut rng).unwrap();
        assert_perfect(&sol, 4);
        assert_eq!(sol.unpreferred, 0);
        if sorted_rooms(&sol) == vec![(A, B), (C, D)] {
            assert_eq!((sol.preferred, sol.accepted), (1, 1));
        } else {
            assert_eq!((sol.preferred, sol.accepted), (0, 2));
        }
    }
    let sols = generate_solutions(&p, 200, &mut rng).unwrap();
    assert_eq!(sols.len(), 200);
    let best = select_best(&sols, &mut rng).unwrap();
    assert_eq!(sorted_rooms(&sols[best]), vec![(A, B), (C, D)]);
    assert_eq!(sols[best].preferred, 1);
    assert_eq!(sols[best].unpreferred, 0);
}

#[test]
fn everyone_unpreferred_falls_back() {
    let p = all_unpreferred();
    let mut rng = rand::thread_rng();
    let sols = generate_solutions(&p, 30, &mut rng).unwrap();
    for sol in &sols {
        assert_perfect(sol, 4);
        assert_eq!(sol.unpreferred, 2);
        assert_eq!(sol.preferred, 0);
        assert_eq!(sol.accepted, 0);
    }
    assert_eq!(optimal_indices(&sols), (0..30).collect::<Vec<usize>>());
    let best = select_best(&sols, &mut rng).unwrap();
    assert!(best < 30);
}

#[test]
fn single_trial_is_selected() {
    let p = a_b_mutual();
    let mut rng = rand::thread_rng();
    let sols = generate_solutions(&p, 1, &mut rng).unwrap();
    assert_eq!(sols.len(), 1);
    assert_eq!(select_best(&sols, &mut rng), Ok(0));
}

#[test]
fn odd_people_exhaust_the_pool() {
    let p = prefs(
        vec![Some(vec![B]), Some(vec![A]), Some(vec![])],
        vec![vec![], vec![], vec![]],
    );
    let mut rng = rand::thread_rng();
    for _ in 0..20 {
        assert_eq!(solve(&p, &mut rng).err(), Some(MatchError::PoolExhausted));
    }
    let one = prefs(vec![], vec![vec![]]);
    assert_eq!(solve(&one, &mut rng).err(), Some(MatchError::PoolExhausted));
    assert_eq!(
        generate_solutions(&p, 3, &mut rng).err(),
        Some(MatchError::PoolExhausted)
    );
}

#[test]
fn missing_preferred_entry_is_an_error() {
    let p = prefs(
        vec![Some(vec![B]), Some(vec![A]), None, Some(vec![])],
        vec![vec![], vec![], vec![], vec![]],
    );
    let mut rng = rand::thread_rng();
    for _ in 0..20 {
        assert_eq!(solve(&p, &mut rng).err(), Some(MatchError::MissingEntry));
    }
    let short = prefs(vec![Some(vec![]), Some(vec![])], vec![vec![], vec![], vec![]]);
    assert_eq!(solve(&short, &mut rng).err(), Some(MatchError::MissingEntry));
}

#[test]
fn nobody_gives_an_empty_solution() {
    let p = prefs(vec![], vec![]);
    let mut rng = rand::thread_rng();
    let sol = solve(&p, &mut rng).unwrap();
    assert!(sol.rooms.is_empty());
    assert_eq!((sol.preferred, sol.accepted, sol.unpreferred), (0, 0, 0));
}

#[test]
fn zero_trials_give_no_solutions() {
    let mut rng = rand::thread_rng();
    let sols = generate_solutions(&a_b_mutual(), 0, &mut rng).unwrap();
    assert!(sols.is_empty());
    assert_eq!(select_best(&sols, &mut rng), Err(MatchError::EmptyInput));
    assert!(optimal_indices(&sols).is_empty());
}

#[test]
fn preferred_people_need_both_sides() {
    // A prefers B and C, only B prefers A back; D prefers A alone.
    let p = prefs(
        vec![Some(vec![B, C]), Some(vec![A]), Some(vec![]), Some(vec![A])],
        vec![vec![], vec![], vec![], vec![]],
    );
    assert_eq!(get_preferred_people(A, &[B, C, D], &p), Some(vec![B]));
    assert_eq!(get_preferred_people(B, &[A, C], &p), Some(vec![A]));
    assert_eq!(get_preferred_people(C, &[A, B, D], &p), Some(vec![]));
    assert_eq!(get_preferred_people(A, &[], &p), Some(vec![]));
}

#[test]
fn preferred_people_missing_entry() {
    let p = prefs(
        vec![Some(vec![B]), None],
        vec![vec![], vec![], vec![]],
    );
    assert_eq!(get_preferred_people(A, &[B], &p), None);
    assert_eq!(get_preferred_people(B, &[A], &p), None);
    assert_eq!(get_preferred_people(A, &[C], &p), None);
    assert_eq!(get_preferred_people(B, &[], &p), Some(vec![]));
}

#[test]
fn accepted_people_need_neither_side_to_object() {
    // A unprefers C; D unprefers B.
    let p = prefs(
        vec![],
        vec![vec![C], vec![], vec![], vec![B]],
    );
    assert_eq!(get_accepted_people(A, &[B, C, D], &p), Some(vec![B, D]));
    assert_eq!(get_accepted_people(B, &[A, C, D], &p), Some(vec![A, C]));
    assert_eq!(get_accepted_people(C, &[A], &p), Some(vec![]));
    assert_eq!(get_accepted_people(A, &[7], &p), None);
    assert_eq!(get_accepted_people(9, &[A], &p), None);
}

#[test]
fn find_index_gives_first_position() {
    assert_eq!(find_index(5, &[1, 5, 3, 5]), Ok(1));
    assert_eq!(find_index(1, &[1]), Ok(0));
    assert_eq!(find_index(4, &[1, 5, 3]), Err(MatchError::NotFound));
    assert_eq!(find_index(4, &[]), Err(MatchError::NotFound));
}

#[test]
fn choose_person_takes_from_the_pool() {
    let mut rng = rand::thread_rng();
    let mut pool = vec![4, 7, 9];
    assert_eq!(choose_person(&vec![7], &mut pool, &mut rng), Ok(7));
    assert_eq!(pool, vec![4, 9]);
    let got = choose_person(&vec![4, 9], &mut pool, &mut rng).unwrap();
    assert!(got == 4 || got == 9);
    assert_eq!(pool.len(), 1);
    assert!(!pool.contains(&got));
}

#[test]
fn choose_person_errors() {
    let mut rng = rand::thread_rng();
    let mut pool = vec![4, 7];
    assert_eq!(
        choose_person(&vec![], &mut pool, &mut rng),
        Err(MatchError::EmptyInput)
    );
    assert_eq!(
        choose_person(&vec![5], &mut pool, &mut rng),
        Err(MatchError::NotFound)
    );
    assert_eq!(pool, vec![4, 7]);
}

fn sol(preferred: u64, accepted: u64, unpreferred: u64) -> Solution {
    Solution { rooms: vec![], preferred, accepted, unpreferred }
}

#[test]
fn ranking_minimises_fallback_then_maximises_preferred() {
    let sols = vec![
        sol(3, 0, 1),
        sol(1, 1, 0),
        sol(2, 0, 0),
        sol(0, 2, 0),
        sol(2, 1, 0),
        sol(4, 0, 2),
    ];
    assert_eq!(optimal_indices(&sols), vec![2, 4]);
    let mut rng = rand::thread_rng();
    for _ in 0..20 {
        let best = select_best(&sols, &mut rng).unwrap();
        assert!(best == 2 || best == 4);
    }
}

#[test]
fn ranking_single_candidate() {
    let sols = vec![sol(0, 0, 5)];
    assert_eq!(optimal_indices(&sols), vec![0]);
}

fn tier_rank(p: &Preferences, a: usize, b: usize) -> u8 {
    let prefers = |x: usize, y: usize| p.preferred[x].as_ref().unwrap().contains(&y);
    let unprefers = |x: usize, y: usize| p.unpreferred[x].contains(&y);
    if prefers(a, b) && prefers(b, a) {
        0
    } else if !unprefers(a, b) && !unprefers(b, a) {
        1
    } else {
        2
    }
}

#[test]
fn each_room_takes_the_best_tier_on_offer() {
    // A and B prefer each other, C and D refuse each other, E prefers F
    // but F does not prefer E back.
    let p = prefs(
        vec![
            Some(vec![B]),
            Some(vec![A]),
            Some(vec![]),
            Some(vec![]),
            Some(vec![5]),
            Some(vec![]),
        ],
        vec![vec![], vec![], vec![D], vec![C], vec![], vec![]],
    );
    let mut rng = rand::thread_rng();
    for _ in 0..50 {
        let sol = solve(&p, &mut rng).unwrap();
        assert_perfect(&sol, 6);
        let ranks: Vec<u8> = sol.rooms.iter().map(|&(a, b)| tier_rank(&p, a, b)).collect();
        assert_eq!(sol.preferred, ranks.iter().filter(|&&r| r == 0).count() as u64);
        assert_eq!(sol.accepted, ranks.iter().filter(|&&r| r == 1).count() as u64);
        assert_eq!(sol.unpreferred, ranks.iter().filter(|&&r| r == 2).count() as u64);
        for k in 0..sol.rooms.len() {
            let first = sol.rooms[k].0;
            for &(x, y) in &sol.rooms[k + 1..] {
                assert!(ranks[k] <= tier_rank(&p, first, x));
                assert!(ranks[k] <= tier_rank(&p, first, y));
            }
        }
        // Only C and D, left to the end together, can end in a fallback room.
        if sol.unpreferred == 1 {
            let last = sol.rooms[2];
            assert!(last == (C, D) || last == (D, C));
        }
        assert!(sol.unpreferred <= 1);
    }
}

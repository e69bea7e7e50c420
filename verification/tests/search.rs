use roomies::construct::construct;
use roomies::distribution::plan;
use roomies::driver::{compute_mutual_counts, SilentSink};
use roomies::hints::PairHints;
use roomies::rng::SearchRng;
use roomies::roster::index_people;
use roomies::solve::solve;
use roomies::types::{Person, SolveError};

fn person(name: &str, category: &str, choices: &[&str], avoids: &[&str]) -> Person {
    Person {
        name: name.to_string(),
        category: category.to_string(),
        choices: choices.iter().map(|s| s.to_string()).collect(),
        avoids: avoids.iter().map(|s| s.to_string()).collect(),
    }
}

#[test]
fn empty_population_is_trivially_solved() {
    let mut sink = SilentSink {};
    let res = solve(Vec::new(), 4, 100, &mut sink).unwrap();
    assert_eq!(res.total_rooms, 0);
    assert_eq!(res.choice_score, 0);
    assert_eq!(res.imbalance, 0);
    assert_eq!(res.without_choices, 0);
    assert!(res.rooms_by_category.is_empty());
}

#[test]
fn zero_room_size_rejected() {
    let mut sink = SilentSink {};
    let people = vec![person("Ann", "a", &[], &[])];
    match solve(people, 0, 100, &mut sink) {
        Err(SolveError::ZeroRoomSize) => {}
        _ => panic!("expected a zero-room-size error"),
    }
}

#[test]
fn zero_budget_finds_nothing() {
    let mut sink = SilentSink {};
    let people = vec![person("Ann", "a", &[], &[]), person("Ben", "a", &[], &[])];
    match solve(people, 2, 0, &mut sink) {
        Err(SolveError::NoSolutionFound) => {}
        _ => panic!("expected no solution for a zero budget"),
    }
}

#[test]
fn mutual_pair_scores_and_everyone_satisfied() {
    // four people, one category, rooms of two; X and Y list each other
    let people = vec![
        person("X", "a", &["Y"], &[]),
        person("Y", "a", &["X"], &[]),
        person("Z", "a", &[], &[]),
        person("W", "a", &[], &[]),
    ];
    assert_eq!(plan(4, 2), vec![2, 2]);
    let mut sink = SilentSink {};
    let res = solve(people, 2, 200, &mut sink).unwrap();
    assert!(res.choice_score >= 2);
    assert_eq!(res.without_choices, 0);
    assert_eq!(res.total_rooms, 2);
}

#[test]
fn avoid_constraint_never_violated() {
    let people = vec![
        person("Ann", "a", &[], &["Ben"]),
        person("Ben", "a", &[], &[]),
        person("Cal", "a", &[], &[]),
        person("Dee", "a", &[], &[]),
    ];
    let mut sink = SilentSink {};
    let res = solve(people, 2, 300, &mut sink).unwrap();
    for (_, rooms) in &res.rooms_by_category {
        for room in rooms {
            let ann = room.members.iter().any(|m| m == "Ann");
            let ben = room.members.iter().any(|m| m == "Ben");
            assert!(!(ann && ben), "Ann and Ben were placed together");
        }
    }
}

#[test]
fn five_people_three_rooms() {
    let people = vec![
        person("A", "a", &[], &[]),
        person("B", "a", &[], &[]),
        person("C", "a", &[], &[]),
        person("D", "a", &[], &[]),
        person("E", "a", &[], &[]),
    ];
    let mut sink = SilentSink {};
    let res = solve(people, 2, 200, &mut sink).unwrap();
    assert_eq!(res.total_rooms, 3);
    assert_eq!(res.rooms_by_category.len(), 1);
    assert_eq!(res.rooms_by_category[0].1.len(), 3);
    for room in &res.rooms_by_category[0].1 {
        assert!(room.members.len() <= 2);
        assert!(room.members.len() <= room.max_size);
    }
}

#[test]
fn categories_never_mixed() {
    let people = vec![
        person("Ann", "adult", &[], &[]),
        person("Ben", "adult", &[], &[]),
        person("Kid", "child", &[], &[]),
        person("Tot", "child", &[], &[]),
    ];
    let mut sink = SilentSink {};
    let res = solve(people, 2, 200, &mut sink).unwrap();
    assert_eq!(res.rooms_by_category.len(), 2);
    for (cat, rooms) in &res.rooms_by_category {
        for room in rooms {
            assert_eq!(&room.category, cat);
            for m in &room.members {
                let expected = if m == "Kid" || m == "Tot" { "child" } else { "adult" };
                assert_eq!(cat, expected);
            }
        }
    }
}

#[test]
fn unconstrained_population_is_always_solved() {
    // no avoid constraints and a positive budget: success is guaranteed,
    // and the rendered rooms seat every person exactly once
    let people = vec![
        person("Ann", "a", &["Ben"], &[]),
        person("Ben", "a", &[], &[]),
        person("Cal", "b", &[], &[]),
        person("Dee", "b", &["Cal"], &[]),
        person("Eli", "b", &[], &[]),
    ];
    let names: Vec<String> = people.iter().map(|p| p.name.clone()).collect();
    let mut sink = SilentSink {};
    let res = solve(people, 3, 1, &mut sink).unwrap();
    let mut seen: Vec<String> = Vec::new();
    for (_, rooms) in &res.rooms_by_category {
        for room in rooms {
            assert!(room.members.len() <= room.max_size);
            assert!(room.max_size <= 3);
            for m in &room.members {
                assert!(!seen.contains(m), "seated twice");
                seen.push(m.clone());
            }
        }
    }
    let mut sorted = seen.clone();
    sorted.sort();
    let mut expected = names.clone();
    expected.sort();
    assert_eq!(sorted, expected);
}

#[test]
fn construct_is_deterministic_for_a_seed() {
    let people = vec![
        person("A", "a", &["B", "C"], &[]),
        person("B", "a", &["A"], &[]),
        person("C", "a", &["D"], &[]),
        person("D", "a", &["C"], &["A"]),
        person("E", "a", &[], &[]),
        person("F", "a", &["E"], &[]),
    ];
    let ro = index_people(people).unwrap();
    let plans = vec![plan(6, 2)];
    let mc = compute_mutual_counts(&ro);
    let hints = PairHints::empty(6);
    for seed in 0..20u64 {
        let one = construct(&ro, &plans, &mc, &hints, seed);
        let two = construct(&ro, &plans, &mc, &hints, seed);
        match (one, two) {
            (None, None) => {}
            (Some(a), Some(b)) => {
                assert_eq!(a.len(), b.len());
                for (ra, rb) in a.iter().zip(b.iter()) {
                    assert_eq!(ra.category, rb.category);
                    assert_eq!(ra.max_size, rb.max_size);
                    assert_eq!(ra.members, rb.members);
                }
            }
            _ => panic!("same seed, different feasibility"),
        }
    }
}

#[test]
fn constructed_solutions_are_feasible() {
    let people = vec![
        person("A", "a", &["B"], &["C"]),
        person("B", "a", &["A"], &[]),
        person("C", "a", &[], &[]),
        person("D", "b", &[], &[]),
        person("E", "b", &[], &["D"]),
        person("F", "b", &[], &[]),
    ];
    let ro = index_people(people).unwrap();
    let plans = vec![plan(3, 2), plan(3, 2)];
    let mc = compute_mutual_counts(&ro);
    let hints = PairHints::empty(6);
    let mut feasible = 0usize;
    for seed in 0..50u64 {
        if let Some(sol) = construct(&ro, &plans, &mc, &hints, seed) {
            feasible += 1;
            let mut seen = vec![0usize; 6];
            for room in &sol {
                assert!(room.members.len() <= room.max_size);
                for &m in &room.members {
                    seen[m] += 1;
                }
            }
            assert_eq!(seen, vec![1, 1, 1, 1, 1, 1]);
        }
    }
    assert!(feasible > 0, "no seed produced a feasible assignment");
}

#[test]
fn seeded_stream_is_repeatable() {
    let mut one = SearchRng::new(42);
    let mut two = SearchRng::new(42);
    for bound in 1..50usize {
        assert_eq!(one.pick(bound), two.pick(bound));
    }
    assert_eq!(one.pick(1), 0);
}

#[test]
fn shuffle_keeps_the_items() {
    let mut rng = SearchRng::new(7);
    let mut items: Vec<usize> = (0..25).collect();
    rng.shuffle(&mut items);
    assert_eq!(items.len(), 25);
    let mut sorted = items.clone();
    sorted.sort();
    assert_eq!(sorted, (0..25).collect::<Vec<usize>>());
}

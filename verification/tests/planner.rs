use roomies::distribution::plan;
use roomies::hints::extract_pair_hints;
use roomies::roster::index_people;
use roomies::scoring::{choice_score, composite_score, imbalance, without_choice_count};
use roomies::solution::{is_feasible_addition, IxRoom};
use roomies::types::{Person, SolveError};

fn person(name: &str, category: &str, choices: &[&str], avoids: &[&str]) -> Person {
    Person {
        name: name.to_string(),
        category: category.to_string(),
        choices: choices.iter().map(|s| s.to_string()).collect(),
        avoids: avoids.iter().map(|s| s.to_string()).collect(),
    }
}

#[test]
fn plan_empty_population() {
    assert_eq!(plan(0, 5), Vec::<usize>::new());
}

#[test]
fn plan_exact_fit() {
    assert_eq!(plan(7, 7), vec![7]);
    assert_eq!(plan(8, 4), vec![4, 4]);
}

#[test]
fn plan_uneven_split_descending() {
    assert_eq!(plan(10, 4), vec![4, 3, 3]);
    assert_eq!(plan(11, 4), vec![4, 4, 3]);
}

#[test]
fn plan_five_people_max_two() {
    assert_eq!(plan(5, 2), vec![2, 2, 1]);
}

#[test]
fn plan_sizes_sum_and_spread() {
    for pop in 0..60usize {
        for max in 1..9usize {
            let sizes = plan(pop, max);
            assert_eq!(sizes.iter().sum::<usize>(), pop);
            assert!(sizes.iter().all(|&s| 1 <= s && s <= max));
            for a in &sizes {
                for b in &sizes {
                    assert!(a.max(b) - a.min(b) <= 1);
                }
            }
            assert_eq!(sizes.is_empty(), pop == 0);
        }
    }
}

#[test]
fn duplicate_names_rejected() {
    let people = vec![
        person("Ann", "adult", &[], &[]),
        person("Ann", "adult", &[], &[]),
    ];
    match index_people(people) {
        Err(SolveError::DuplicateName) => {}
        _ => panic!("expected a duplicate-name error"),
    }
}

#[test]
fn oversized_population_rejected() {
    let mut people = Vec::new();
    for i in 0..100001usize {
        people.push(person(&format!("p{}", i), "a", &[], &[]));
    }
    match index_people(people) {
        Err(SolveError::TooManyPeople) => {}
        _ => panic!("expected a too-many-people error"),
    }
}

#[test]
fn feasible_addition_category_mismatch() {
    let people = vec![person("Ann", "adult", &[], &[]), person("Kid", "child", &[], &[])];
    let ro = index_people(people).unwrap();
    // category index 0 is "adult", 1 is "child"
    let room = IxRoom { category: 0, members: vec![0], max_size: 4 };
    assert!(!is_feasible_addition(&ro, &room, 1));
}

#[test]
fn feasible_addition_blocks_both_orders() {
    let people = vec![
        person("Ann", "adult", &[], &["Ben"]),
        person("Ben", "adult", &[], &[]),
    ];
    let ro = index_people(people).unwrap();
    // Ann avoids Ben: adding either to a room holding the other is refused
    let with_ann = IxRoom { category: 0, members: vec![0], max_size: 4 };
    assert!(!is_feasible_addition(&ro, &with_ann, 1));
    let with_ben = IxRoom { category: 0, members: vec![1], max_size: 4 };
    assert!(!is_feasible_addition(&ro, &with_ben, 0));
    // an unrelated third person would be accepted
    let people2 = vec![
        person("Ann", "adult", &[], &["Ben"]),
        person("Ben", "adult", &[], &[]),
        person("Cal", "adult", &[], &[]),
    ];
    let ro2 = index_people(people2).unwrap();
    let with_ann2 = IxRoom { category: 0, members: vec![0], max_size: 4 };
    assert!(is_feasible_addition(&ro2, &with_ann2, 2));
}

#[test]
fn choice_score_counts_each_direction() {
    let people = vec![
        person("Ann", "a", &["Ben"], &[]),
        person("Ben", "a", &["Ann"], &[]),
        person("Cal", "a", &["Ann"], &[]),
    ];
    let ro = index_people(people).unwrap();
    let sol = vec![IxRoom { category: 0, members: vec![0, 1, 2], max_size: 3 }];
    // Ann-Ben mutual counts twice, Cal's choice of Ann counts once
    assert_eq!(choice_score(&ro, &sol), 3);
}

#[test]
fn choice_score_ignores_separated_choices() {
    let people = vec![
        person("Ann", "a", &["Ben"], &[]),
        person("Ben", "a", &["Ann"], &[]),
    ];
    let ro = index_people(people).unwrap();
    let sol = vec![
        IxRoom { category: 0, members: vec![0], max_size: 1 },
        IxRoom { category: 0, members: vec![1], max_size: 1 },
    ];
    assert_eq!(choice_score(&ro, &sol), 0);
}

#[test]
fn adding_a_listed_choice_raises_the_score_by_one() {
    let people = vec![
        person("Ann", "a", &["Ben"], &[]),
        person("Ben", "a", &[], &[]),
        person("Cal", "a", &[], &[]),
    ];
    let ro = index_people(people).unwrap();
    let alone = vec![IxRoom { category: 0, members: vec![0], max_size: 3 }];
    assert_eq!(choice_score(&ro, &alone), 0);
    // an unlisted roommate changes nothing
    let with_cal = vec![IxRoom { category: 0, members: vec![0, 2], max_size: 3 }];
    assert_eq!(choice_score(&ro, &with_cal), 0);
    // the listed choice adds exactly one point, whatever the room size
    let with_ben = vec![IxRoom { category: 0, members: vec![0, 1], max_size: 3 }];
    assert_eq!(choice_score(&ro, &with_ben), 1);
    let full = vec![IxRoom { category: 0, members: vec![0, 2, 1], max_size: 3 }];
    assert_eq!(choice_score(&ro, &full), 1);
}

#[test]
fn imbalance_spreads_per_category() {
    let people = vec![
        person("Ann", "a", &[], &[]),
        person("Ben", "a", &[], &[]),
        person("Cal", "a", &[], &[]),
        person("Dee", "b", &[], &[]),
    ];
    let ro = index_people(people).unwrap();
    let sol = vec![
        IxRoom { category: 0, members: vec![0, 1, 2], max_size: 3 },
        IxRoom { category: 0, members: vec![], max_size: 3 },
        IxRoom { category: 1, members: vec![3], max_size: 1 },
    ];
    // category a: 3 - 0 = 3, category b: single room contributes 0
    assert_eq!(imbalance(&ro, &sol), 3);
}

#[test]
fn without_choice_exempts_empty_choice_lists() {
    let people = vec![
        person("Ann", "a", &[], &[]),
        person("Ben", "a", &["Missing"], &[]),
        person("Cal", "a", &["Ann"], &[]),
    ];
    let ro = index_people(people).unwrap();
    let sol = vec![IxRoom { category: 0, members: vec![0, 1, 2], max_size: 3 }];
    // Ann has no choices: exempt. Ben's only choice names nobody in the
    // roster: counted. Cal rooms with Ann: satisfied.
    assert_eq!(without_choice_count(&ro, &sol), 1);
}

#[test]
fn without_choice_counts_unsatisfied_person() {
    let people = vec![
        person("Ann", "a", &["Ben"], &[]),
        person("Ben", "a", &[], &[]),
    ];
    let ro = index_people(people).unwrap();
    let apart = vec![
        IxRoom { category: 0, members: vec![0], max_size: 1 },
        IxRoom { category: 0, members: vec![1], max_size: 1 },
    ];
    assert_eq!(without_choice_count(&ro, &apart), 1);
    let together = vec![IxRoom { category: 0, members: vec![0, 1], max_size: 2 }];
    assert_eq!(without_choice_count(&ro, &together), 0);
}

#[test]
fn pair_hints_mark_seated_mutual_pairs() {
    let people = vec![
        person("Ann", "a", &["Ben"], &[]),
        person("Ben", "a", &["Ann"], &[]),
        person("Cal", "a", &["Ann"], &[]),
    ];
    let ro = index_people(people).unwrap();
    let together = vec![
        IxRoom { category: 0, members: vec![0, 1], max_size: 2 },
        IxRoom { category: 0, members: vec![2], max_size: 1 },
    ];
    let h = extract_pair_hints(&ro, &together);
    // the seated mutual pair is recorded under either order of lookup
    assert_eq!(h.get(0, 1), 1);
    assert_eq!(h.get(1, 0), 1);
    // Cal's one-sided choice of Ann is not a mutual pair
    assert_eq!(h.get(0, 2), 0);
    // the same pair seated apart is not recorded
    let apart = vec![
        IxRoom { category: 0, members: vec![0, 2], max_size: 2 },
        IxRoom { category: 0, members: vec![1], max_size: 1 },
    ];
    let h2 = extract_pair_hints(&ro, &apart);
    assert_eq!(h2.get(0, 1), 0);
}

#[test]
fn error_messages_name_their_category() {
    assert_eq!(SolveError::DuplicateName.message(), "duplicate person name in the input");
    assert_eq!(SolveError::TooManyPeople.message(), "too many people for the solver");
    assert_eq!(SolveError::ZeroRoomSize.message(), "maximum room size must be at least 1");
    assert_eq!(SolveError::NoSolutionFound.message(), "no valid solution found");
}

#[test]
fn composite_score_weighs_without_choices_heavily() {
    // everyone satisfied: balance decides
    assert_eq!(composite_score(5, 0, 1), 5 - 1000);
    // someone left without a choice: a million-point penalty each
    assert_eq!(composite_score(5, 1, 2), 50 - 1000000 - 20);
    // any fully satisfying assignment outranks any choiceless one
    assert!(composite_score(0, 0, 10) > composite_score(1000, 1, 0));
}

use iv_compat::infusion::CompatibilityData;
use iv_compat::infusion::Infusion;
use iv_compat::infusion::InfusionType;
use iv_compat::solver::CompatibilityProblem;
use std::collections::HashMap;
use std::collections::HashSet;
use std::rc::Rc;

/// A catalogue in which every pair is on record: incompatible for the pairs
/// of `edges`, compatible for all others.
fn catalog(ids: &[u32], edges: &[(u32, u32)]) -> HashMap<u32, Infusion> {
    let mut infusions = HashMap::new();
    for id in ids {
        infusions.insert(*id, Infusion::new(*id, format!("n{}", id), InfusionType::Drug));
    }
    for (i, a) in ids.iter().enumerate() {
        for b in &ids[i + 1..] {
            let apart = edges.contains(&(*a, *b)) || edges.contains(&(*b, *a));
            let data = if apart {
                Rc::new(CompatibilityData::new(0, 2, 0))
            } else {
                Rc::new(CompatibilityData::new(3, 0, 0))
            };
            infusions.get_mut(a).unwrap().add_compatibility_data(*b, &data);
            infusions.get_mut(b).unwrap().add_compatibility_data(*a, &data);
        }
    }
    infusions
}

fn seed(ids: &[u32]) -> HashSet<u32> {
    ids.iter().copied().collect()
}

fn ids_by_iv(result: &HashMap<u32, Vec<&Infusion>>) -> Vec<Vec<u32>> {
    let mut out = Vec::new();
    for iv in 0..result.len() as u32 {
        out.push(result[&iv].iter().map(|infusion| infusion.id()).collect());
    }
    out
}

fn solve(ids: &[u32], edges: &[(u32, u32)], seeds: Vec<HashSet<u32>>) -> Vec<Vec<u32>> {
    let mut problem = CompatibilityProblem::new(catalog(ids, edges));
    let result = problem.solve(seeds).unwrap();
    ids_by_iv(&result)
}

#[test]
fn empty_problem_has_no_ivs() {
    assert_eq!(solve(&[], &[], vec![]), Vec::<Vec<u32>>::new());
}

#[test]
fn seeded_only_keeps_the_seeded_ivs() {
    assert_eq!(solve(&[1, 2, 3], &[(1, 2)], vec![seed(&[1, 3]), seed(&[2])]), vec![vec![3, 1], vec![2]]);
}

#[test]
fn empty_seed_set_keeps_its_colour() {
    assert_eq!(solve(&[1, 2], &[], vec![seed(&[]), seed(&[1])]), vec![vec![], vec![1, 2]]);
}

#[test]
fn node_without_neighbors_takes_an_iv_that_exists() {
    assert_eq!(solve(&[1, 2, 3], &[(1, 2)], vec![]), vec![vec![2], vec![1, 3]]);
}

#[test]
fn path_of_five_needs_two_ivs() {
    assert_eq!(
        solve(&[1, 2, 3, 4, 5], &[(1, 2), (2, 3), (3, 4), (4, 5)], vec![]),
        vec![vec![4, 2], vec![3, 5, 1]]
    );
}

#[test]
fn colour_with_the_most_room_is_chosen() {
    assert_eq!(
        solve(&[1, 2, 3, 4, 5, 6], &[(2, 3), (2, 4), (2, 5)], vec![seed(&[1]), seed(&[2])]),
        vec![vec![1, 5, 4, 3, 6], vec![2]]
    );
}

#[test]
fn star_around_a_late_node() {
    assert_eq!(
        solve(&[10, 20, 30, 40, 50], &[(10, 20), (10, 30), (10, 40), (10, 50)], vec![seed(&[20])]),
        vec![vec![20, 50, 40, 30], vec![10]]
    );
}

#[test]
fn unknown_and_repeated_seed_members_are_passed_over() {
    assert_eq!(
        solve(&[1, 2, 3], &[(1, 2)], vec![seed(&[1, 9]), seed(&[1, 3])]),
        vec![vec![1], vec![3, 2]]
    );
}

#[test]
fn coloring_is_proper_and_complete() {
    let ids = [1, 2, 3, 4, 5, 6, 7, 8];
    let edges = [(1, 2), (1, 3), (2, 3), (3, 4), (4, 5), (5, 6), (6, 7), (7, 8), (8, 1), (2, 6)];
    let ivs = solve(&ids, &edges, vec![seed(&[4, 8])]);
    let mut seen = Vec::new();
    for iv in &ivs {
        for a in iv {
            assert!(!seen.contains(a));
            seen.push(*a);
            for b in iv {
                assert!(!edges.contains(&(*a, *b)) && !edges.contains(&(*b, *a)));
            }
        }
    }
    seen.sort();
    assert_eq!(seen, ids.to_vec());
}

#[test]
fn identical_inputs_give_identical_answers() {
    let ids = [5, 1, 9, 3, 7];
    let edges = [(5, 1), (9, 3), (3, 7), (1, 9)];
    let first = solve(&ids, &edges, vec![seed(&[9])]);
    let second = solve(&[7, 3, 9, 1, 5], &[(9, 1), (7, 3), (3, 9), (1, 5)], vec![seed(&[9])]);
    assert_eq!(first, second);
}

#[test]
fn solving_twice_gives_the_same_answer() {
    let mut problem = CompatibilityProblem::new(catalog(&[1, 2, 3], &[(1, 2), (2, 3)]));
    let first = ids_by_iv(&problem.solve(vec![seed(&[2])]).unwrap());
    let second = ids_by_iv(&problem.solve(vec![seed(&[2])]).unwrap());
    assert_eq!(first, second);
    assert_eq!(first, vec![vec![2], vec![3, 1]]);
}

#[test]
fn seeds_stay_on_their_ivs() {
    let seeds = vec![seed(&[2, 5]), seed(&[]), seed(&[1])];
    let ivs = solve(&[1, 2, 3, 4, 5, 6], &[(1, 2), (5, 6), (3, 4)], seeds.clone());
    for (i, members) in seeds.iter().enumerate() {
        for id in members {
            assert!(ivs[i].contains(id));
        }
    }
    assert!(ivs.len() >= 3);
}

#[test]
fn conflict_names_the_first_crowded_iv() {
    let mut problem = CompatibilityProblem::new(catalog(&[1, 2, 3, 4], &[(3, 4), (1, 2)]));
    let error = problem.solve(vec![seed(&[1]), seed(&[3, 4]), seed(&[2])]).unwrap_err();
    assert_eq!(error.iv, 1);
    assert_eq!(error.conflicting_items, ("n3".to_string(), "n4".to_string()));
    assert_eq!(error.iv_number(), 2);
    assert_eq!(error.to_string(), "There are incompatible infusions in IV #2");
}

#[test]
fn seeds_are_checked() {
    let problem = CompatibilityProblem::new(catalog(&[1, 2, 3], &[(1, 2)]));
    assert_eq!(problem.node_count(), 3);
    assert!(problem.seeds_valid(&vec![seed(&[1, 2]), seed(&[3])]));
    assert!(problem.seeds_valid(&vec![]));
    assert!(!problem.seeds_valid(&vec![seed(&[1, 9])]));
    assert!(!problem.seeds_valid(&vec![seed(&[1]), seed(&[2, 1])]));
}

#[test]
fn new_problem_waits_for_every_node() {
    let problem = CompatibilityProblem::new(catalog(&[4, 1, 3], &[(1, 3), (3, 4)]));
    assert_eq!(problem.uncolored_nodes(), vec![1, 3, 4]);
    assert_eq!(problem.adjacent_uncolored(1), Some(1));
    assert_eq!(problem.adjacent_uncolored(3), Some(2));
    assert_eq!(problem.adjacent_uncolored(2), None);
    assert_eq!(problem.color_max_count(0), None);
    assert_eq!(problem.possible_colors(3), Vec::<u32>::new());
}

#[test]
fn counters_after_solving() {
    let mut problem = CompatibilityProblem::new(catalog(&[1, 2, 3, 4], &[(1, 3), (2, 4)]));
    let ivs = ids_by_iv(&problem.solve(vec![seed(&[1]), seed(&[2])]).unwrap());
    assert_eq!(ivs, vec![vec![1, 4], vec![2, 3]]);
    assert_eq!(problem.uncolored_nodes(), Vec::<u32>::new());
    assert_eq!(problem.color_max_count(0), Some(1));
    assert_eq!(problem.color_max_count(1), Some(2));
    assert_eq!(problem.color_max_count(2), None);
    for node in 1..=4 {
        assert_eq!(problem.adjacent_uncolored(node), Some(0));
    }
    assert_eq!(problem.possible_colors(1), vec![0]);
    assert_eq!(problem.possible_colors(2), vec![1]);
    assert_eq!(problem.possible_colors(3), vec![1]);
    assert_eq!(problem.possible_colors(4), vec![0]);
}

#[test]
fn counters_are_accurate_when_seeding_is_done() {
    let mut problem = CompatibilityProblem::new(catalog(&[1, 2, 3], &[(1, 2)]));
    let ivs = ids_by_iv(&problem.solve(vec![seed(&[1, 3]), seed(&[2])]).unwrap());
    assert_eq!(ivs, vec![vec![3, 1], vec![2]]);
    assert_eq!(problem.uncolored_nodes(), Vec::<u32>::new());
    assert_eq!(problem.color_max_count(0), Some(2));
    assert_eq!(problem.color_max_count(1), Some(1));
}

#[test]
fn counters_when_seeding_stops() {
    let mut problem = CompatibilityProblem::new(catalog(&[1, 2, 3, 4], &[(1, 2)]));
    let error = problem.solve(vec![seed(&[3]), seed(&[1, 2, 4])]).unwrap_err();
    assert_eq!(error.iv, 1);
    assert_eq!(error.conflicting_items, ("n1".to_string(), "n2".to_string()));
    assert_eq!(problem.uncolored_nodes(), vec![1, 2, 4]);
    assert_eq!(problem.possible_colors(1), vec![0]);
    assert_eq!(problem.possible_colors(2), vec![0, 1]);
    assert_eq!(problem.possible_colors(3), vec![0]);
    assert_eq!(problem.possible_colors(4), vec![0, 1]);
    assert_eq!(problem.color_max_count(0), Some(2));
    assert_eq!(problem.color_max_count(1), Some(2));
    assert_eq!(problem.adjacent_uncolored(1), Some(0));
    assert_eq!(problem.adjacent_uncolored(2), Some(1));
    assert_eq!(problem.adjacent_uncolored(3), Some(0));
}

#[test]
fn painted_node_keeps_its_options() {
    let mut problem = CompatibilityProblem::new(catalog(&[1, 2], &[]));
    let ivs = ids_by_iv(&problem.solve(vec![]).unwrap());
    assert_eq!(ivs, vec![vec![2, 1]]);
    assert_eq!(problem.color_max_count(0), Some(1));
    assert_eq!(problem.possible_colors(1), vec![0]);
    assert_eq!(problem.possible_colors(2), Vec::<u32>::new());
}

#[test]
fn count_of_a_colour_may_fall_below_zero() {
    let mut problem =
        CompatibilityProblem::new(catalog(&[1, 2, 3, 4], &[(1, 3), (1, 4), (2, 4), (3, 4)]));
    let ivs = ids_by_iv(&problem.solve(vec![seed(&[]), seed(&[2, 3])]).unwrap());
    assert_eq!(ivs, vec![vec![4], vec![3, 2], vec![1]]);
    assert_eq!(problem.color_max_count(0), Some(-1));
    assert_eq!(problem.color_max_count(1), Some(2));
    assert_eq!(problem.color_max_count(2), Some(0));
}

#[test]
fn option_of_a_painted_neighbour_counts_again() {
    let mut problem = CompatibilityProblem::new(catalog(&[1, 2, 3, 4], &[(3, 4)]));
    let ivs = ids_by_iv(&problem.solve(vec![seed(&[1]), seed(&[2])]).unwrap());
    assert_eq!(ivs, vec![vec![1, 3], vec![2, 4]]);
    assert_eq!(problem.color_max_count(0), Some(1));
    assert_eq!(problem.color_max_count(1), Some(2));
}

use iv_compat::infusion::CompatibilityData;
use iv_compat::infusion::Infusion;
use iv_compat::infusion::InfusionType;
use iv_compat::solver::CompatibilityProblem;
use std::collections::HashMap;
use std::collections::HashSet;
use std::rc::Rc;

fn build(names: &[(u32, &str)], pairs: &[(u32, u32, bool)]) -> HashMap<u32, Infusion> {
    let mut infusions = HashMap::new();
    for (id, name) in names {
        infusions.insert(*id, Infusion::new(*id, name.to_string(), InfusionType::Drug));
    }
    for (a, b, compatible) in pairs {
        let data = if *compatible {
            Rc::new(CompatibilityData::new(1, 0, 0))
        } else {
            Rc::new(CompatibilityData::new(0, 1, 0))
        };
        infusions.get_mut(a).unwrap().add_compatibility_data(*b, &data);
        infusions.get_mut(b).unwrap().add_compatibility_data(*a, &data);
    }
    infusions
}

fn names_by_iv(result: &HashMap<u32, Vec<&Infusion>>) -> Vec<Vec<String>> {
    let mut out = Vec::new();
    for iv in 0..result.len() as u32 {
        out.push(result[&iv].iter().map(|inf| inf.name().to_string()).collect());
    }
    out
}

fn seed(ids: &[u32]) -> HashSet<u32> {
    ids.iter().copied().collect()
}

#[test]
fn trivial_pair_shares_one_iv() {
    let mut problem = CompatibilityProblem::new(build(&[(1, "A"), (2, "B")], &[(1, 2, true)]));
    let result = problem.solve(vec![]).unwrap();
    assert_eq!(names_by_iv(&result), vec![vec!["B".to_string(), "A".to_string()]]);
}

#[test]
fn incompatible_pair_is_split() {
    let mut problem = CompatibilityProblem::new(build(&[(1, "A"), (2, "B")], &[(1, 2, false)]));
    let result = problem.solve(vec![]).unwrap();
    assert_eq!(names_by_iv(&result), vec![vec!["B".to_string()], vec!["A".to_string()]]);
}

#[test]
fn seeded_conflict_is_reported() {
    let mut problem = CompatibilityProblem::new(build(&[(1, "A"), (2, "B")], &[(1, 2, false)]));
    let error = problem.solve(vec![seed(&[1, 2])]).unwrap_err();
    assert_eq!(error.iv, 0);
    assert_eq!(error.conflicting_items, ("A".to_string(), "B".to_string()));
}

#[test]
fn seeds_take_the_extras() {
    let catalog = build(
        &[(1, "A"), (2, "B"), (3, "C"), (4, "D")],
        &[(1, 3, false), (2, 4, false), (1, 2, true), (1, 4, true), (2, 3, true), (3, 4, true)],
    );
    let mut problem = CompatibilityProblem::new(catalog);
    let result = problem.solve(vec![seed(&[1]), seed(&[2])]).unwrap();
    assert_eq!(
        names_by_iv(&result),
        vec![vec!["A".to_string(), "D".to_string()], vec!["B".to_string(), "C".to_string()]]
    );
}

#[test]
fn triangle_needs_three_ivs() {
    let catalog = build(
        &[(1, "A"), (2, "B"), (3, "C")],
        &[(1, 2, false), (1, 3, false), (2, 3, false)],
    );
    let mut problem = CompatibilityProblem::new(catalog);
    let result = problem.solve(vec![]).unwrap();
    assert_eq!(result.len(), 3);
    assert_eq!(
        names_by_iv(&result),
        vec![vec!["C".to_string()], vec!["B".to_string()], vec!["A".to_string()]]
    );
}

#[test]
fn missing_pair_counts_as_incompatible() {
    let mut problem = CompatibilityProblem::new(build(&[(1, "A"), (2, "B")], &[]));
    let result = problem.solve(vec![]).unwrap();
    assert_eq!(result.len(), 2);
    assert_eq!(names_by_iv(&result), vec![vec!["B".to_string()], vec!["A".to_string()]]);
}

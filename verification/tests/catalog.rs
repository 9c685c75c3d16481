use iv_compat::db::build_catalog;
use iv_compat::db::CatalogError;
use iv_compat::db::compatibility_query;
use iv_compat::db::db_url;
use iv_compat::db::id_list;
use iv_compat::db::infusion_query;
use iv_compat::db::infusion_type;
use iv_compat::db::require_known;
use iv_compat::infusion::Compatibility;
use iv_compat::infusion::InfusionType;
use iv_compat::solver::CompatibilityProblem;

fn rows() -> Vec<(u32, String, u32)> {
    vec![(1, "A".to_string(), 1), (2, "B".to_string(), 2), (3, "C".to_string(), 1)]
}

#[test]
fn catalog_files_pairs_with_both_infusions() {
    let catalog = build_catalog(&rows(), &vec![(1, 2, 3, 0, 0), (2, 3, 0, 1, 0)]).unwrap();
    assert_eq!(catalog.len(), 3);
    assert_eq!(catalog[&1].name(), "A");
    assert_eq!(catalog[&2].infusion_type(), InfusionType::Solution);
    assert_eq!(catalog[&1].verdict_with(2), Compatibility::Compatible);
    assert_eq!(catalog[&2].verdict_with(1), Compatibility::Compatible);
    assert_eq!(catalog[&2].verdict_with(3), Compatibility::Incompatible);
    assert_eq!(catalog[&3].record(2).unwrap().incompatible(), 1);
    assert!(catalog[&1].record(3).is_none());
}

#[test]
fn catalog_rejects_unknown_type() {
    let mut bad = rows();
    bad.push((4, "D".to_string(), 3));
    assert_eq!(build_catalog(&bad, &vec![]).unwrap_err(), CatalogError::MalformedCatalog);
}

#[test]
fn catalog_rejects_pair_with_unknown_infusion() {
    assert_eq!(build_catalog(&rows(), &vec![(1, 9, 1, 0, 0)]).unwrap_err(), CatalogError::MalformedCatalog);
    assert_eq!(build_catalog(&rows(), &vec![(9, 1, 1, 0, 0)]).unwrap_err(), CatalogError::MalformedCatalog);
}

#[test]
fn catalog_rejects_pair_of_one_infusion() {
    assert_eq!(build_catalog(&rows(), &vec![(2, 2, 1, 0, 0)]).unwrap_err(), CatalogError::MalformedCatalog);
}

#[test]
fn catalog_rejects_conflicting_counts() {
    let pairs = vec![(1, 2, 1, 0, 0), (2, 3, 1, 0, 0), (2, 1, 1, 1, 0)];
    assert_eq!(build_catalog(&rows(), &pairs).unwrap_err(), CatalogError::MalformedCatalog);
}

#[test]
fn catalog_accepts_repeated_pair_with_same_counts() {
    let pairs = vec![(1, 2, 1, 0, 0), (2, 1, 1, 0, 0)];
    let catalog = build_catalog(&rows(), &pairs).unwrap();
    assert_eq!(catalog[&1].verdict_with(2), Compatibility::Compatible);
}

#[test]
fn order_of_ids_in_a_pair_makes_no_difference() {
    let one = build_catalog(&rows(), &vec![(1, 2, 3, 0, 0), (2, 3, 0, 1, 0), (1, 3, 2, 0, 0)]).unwrap();
    let other = build_catalog(&rows(), &vec![(2, 1, 3, 0, 0), (2, 3, 0, 1, 0), (3, 1, 2, 0, 0)]).unwrap();
    let mut first = CompatibilityProblem::new(one);
    let mut second = CompatibilityProblem::new(other);
    let a = first.solve(vec![]).unwrap();
    let b = second.solve(vec![]).unwrap();
    assert_eq!(a.len(), b.len());
    for iv in 0..a.len() as u32 {
        let left: Vec<u32> = a[&iv].iter().map(|i| i.id()).collect();
        let right: Vec<u32> = b[&iv].iter().map(|i| i.id()).collect();
        assert_eq!(left, right);
    }
    assert_eq!(a.len(), 2);
}

#[test]
fn known_infusions_are_required() {
    let catalog = build_catalog(&rows(), &vec![]).unwrap();
    assert_eq!(require_known(&catalog, &vec![3, 1]), Ok(()));
    assert_eq!(require_known(&catalog, &vec![]), Ok(()));
    assert_eq!(require_known(&catalog, &vec![3, 4]), Err(CatalogError::UnknownInfusion));
}

#[test]
fn type_codes() {
    assert_eq!(infusion_type(1), Some(InfusionType::Drug));
    assert_eq!(infusion_type(2), Some(InfusionType::Solution));
    assert_eq!(infusion_type(0), None);
    assert_eq!(infusion_type(3), None);
}

#[test]
fn queries_name_the_ids() {
    assert_eq!(id_list(&vec![]), "");
    assert_eq!(id_list(&vec![7]), "7");
    assert_eq!(id_list(&vec![10, 0, 4294967295]), "10,0,4294967295");
    assert_eq!(infusion_query(&vec![1, 23]), "SELECT id, name, type FROM infusion WHERE id IN (1,23)");
    assert_eq!(
        compatibility_query(&vec![1, 23]),
        "SELECT infusion_a, infusion_b, compatible_results, incompatible_results, mixed_results FROM infusion_compatibility WHERE infusion_a IN (1,23) AND infusion_b IN (1,23)"
    );
}

#[test]
fn address_of_the_store() {
    assert_eq!(db_url("u", "p", "h:3306", "iv"), "mysql://u:p@h:3306/iv");
}

use iv_compat::infusion::Infusion;
use iv_compat::infusion::InfusionType;
use iv_compat::request::iv_names;
use iv_compat::request::MalformedRequest;
use iv_compat::request::read_ivs;
use iv_compat::request::requested_ids;
use iv_compat::solver::ConflictError;
use iv_compat::text::numbered;
use std::collections::HashMap;
use std::collections::HashSet;

fn seed(ids: &[u32]) -> HashSet<u32> {
    ids.iter().copied().collect()
}

#[test]
fn ivs_are_read_from_json() {
    assert_eq!(read_ivs(2, "[[1,2],[3]]"), Ok(vec![seed(&[1, 2]), seed(&[3])]));
    assert_eq!(read_ivs(0, "[]"), Ok(vec![]));
    assert_eq!(read_ivs(1, " [ [ 5, 5, 6 ] ] "), Ok(vec![seed(&[5, 6])]));
}

#[test]
fn malformed_ivs_are_refused() {
    assert_eq!(read_ivs(1, "[[1,2]"), Err(MalformedRequest));
    assert_eq!(read_ivs(1, "[[-1]]"), Err(MalformedRequest));
    assert_eq!(read_ivs(1, "{}"), Err(MalformedRequest));
    assert_eq!(read_ivs(1, ""), Err(MalformedRequest));
}

#[test]
fn wrong_number_of_ivs_is_refused() {
    assert_eq!(read_ivs(3, "[[1,2],[3]]"), Err(MalformedRequest));
    assert_eq!(read_ivs(0, "[[1]]"), Err(MalformedRequest));
}

#[test]
fn requested_ids_come_once_and_sorted() {
    assert_eq!(requested_ids(&vec![seed(&[9, 2]), seed(&[]), seed(&[5])], &vec![7, 2, 1, 7]), vec![1, 2, 5, 7, 9]);
    assert_eq!(requested_ids(&vec![], &vec![]), Vec::<u32>::new());
    assert_eq!(requested_ids(&vec![], &vec![3]), vec![3]);
}

#[test]
fn names_come_by_ascending_iv() {
    let a = Infusion::new(1, "A".to_string(), InfusionType::Drug);
    let b = Infusion::new(2, "B".to_string(), InfusionType::Drug);
    let c = Infusion::new(3, "C".to_string(), InfusionType::Solution);
    let mut results: HashMap<u32, Vec<&Infusion>> = HashMap::new();
    results.insert(2, vec![&c]);
    results.insert(0, vec![&b, &a]);
    results.insert(1, vec![]);
    assert_eq!(
        iv_names(&results),
        vec![(0, vec!["B".to_string(), "A".to_string()]), (1, vec![]), (2, vec!["C".to_string()])]
    );
    assert_eq!(iv_names(&HashMap::new()), Vec::<(u32, Vec<String>)>::new());
}

#[test]
fn conflict_is_put_in_words() {
    let error = ConflictError { iv: 0, conflicting_items: ("A".to_string(), "B".to_string()) };
    assert_eq!(error.to_string(), "There are incompatible infusions in IV #1");
    let last = ConflictError { iv: u32::MAX, conflicting_items: ("A".to_string(), "B".to_string()) };
    assert_eq!(last.iv_number(), 4294967296);
    assert_eq!(last.to_string(), "There are incompatible infusions in IV #4294967296");
}

#[test]
fn numbers_in_decimal() {
    assert_eq!(numbered("", 0), "0");
    assert_eq!(numbered("n=", 9), "n=9");
    assert_eq!(numbered("n=", 10), "n=10");
    assert_eq!(numbered("#", 18446744073709551615), "#18446744073709551615");
}

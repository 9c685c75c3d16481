use iv_compat::infusion::Compatibility;
use iv_compat::infusion::CompatibilityData;
use iv_compat::infusion::Infusion;
use iv_compat::infusion::InfusionType;
use std::rc::Rc;

#[test]
fn verdict_follows_the_counts() {
    assert_eq!(CompatibilityData::new(1, 0, 0).compatibility(), Compatibility::Compatible);
    assert_eq!(CompatibilityData::new(7, 0, 0).compatibility(), Compatibility::Compatible);
    assert_eq!(CompatibilityData::new(0, 0, 0).compatibility(), Compatibility::Incompatible);
    assert_eq!(CompatibilityData::new(3, 1, 0).compatibility(), Compatibility::Incompatible);
    assert_eq!(CompatibilityData::new(3, 0, 1).compatibility(), Compatibility::Incompatible);
    assert_eq!(CompatibilityData::new(0, 4, 0).compatibility(), Compatibility::Incompatible);
}

#[test]
fn record_keeps_its_counts() {
    let data = CompatibilityData::new(4, 5, 6);
    assert_eq!((data.compatible(), data.incompatible(), data.mixed()), (4, 5, 6));
    assert!(data.same_as(&CompatibilityData::new(4, 5, 6)));
    assert!(!data.same_as(&CompatibilityData::new(4, 5, 7)));
}

#[test]
fn infusion_keeps_identity() {
    let infusion = Infusion::new(12, "Heparin".to_string(), InfusionType::Drug);
    assert_eq!(infusion.id(), 12);
    assert_eq!(infusion.name(), "Heparin");
    assert_eq!(infusion.infusion_type(), InfusionType::Drug);
    assert_eq!(infusion.get_compatible(), Vec::<u32>::new());
    assert!(infusion.record(3).is_none());
}

#[test]
fn compatible_partners_come_sorted() {
    let mut infusion = Infusion::new(1, "A".to_string(), InfusionType::Drug);
    let good = Rc::new(CompatibilityData::new(2, 0, 0));
    let bad = Rc::new(CompatibilityData::new(2, 1, 0));
    for other in [40u32, 7, 19, 3, 25] {
        infusion.add_compatibility_data(other, &good);
    }
    infusion.add_compatibility_data(19, &bad);
    infusion.add_compatibility_data(8, &bad);
    assert_eq!(infusion.get_compatible(), vec![3, 7, 25, 40]);
    assert_eq!(infusion.verdict_with(19), Compatibility::Incompatible);
    assert_eq!(infusion.verdict_with(7), Compatibility::Compatible);
    assert_eq!(infusion.verdict_with(1000), Compatibility::Incompatible);
    assert_eq!(infusion.record(8).unwrap().incompatible(), 1);
}

#[test]
fn incompatible_partners_keep_the_order_of_the_candidates() {
    let mut infusion = Infusion::new(5, "A".to_string(), InfusionType::Solution);
    let good = Rc::new(CompatibilityData::new(2, 0, 0));
    let bad = Rc::new(CompatibilityData::new(0, 0, 3));
    infusion.add_compatibility_data(2, &good);
    infusion.add_compatibility_data(9, &bad);
    let candidates = [9u32, 5, 2, 4, 9, 1];
    let refs: Vec<&u32> = candidates.iter().collect();
    assert_eq!(infusion.get_incompatible(&refs), vec![9, 4, 9, 1]);
    assert_eq!(infusion.get_incompatible(&vec![]), Vec::<u32>::new());
}

use lau_measure_agents::decomposition::{HahnDecomposition, PureType};
use lau_measure_agents::sigma_algebra::Subset;

#[test]
fn classify_each_combination() {
    assert_eq!(PureType::classify(true, false), PureType::AbsolutelyContinuous);
    assert_eq!(PureType::classify(false, true), PureType::Singular);
    assert_eq!(PureType::classify(true, true), PureType::Mixed);
    assert_eq!(PureType::classify(false, false), PureType::Zero);
}

#[test]
fn hahn_split_by_sign() {
    let h = HahnDecomposition::from_signs(&[
        ("a".to_string(), true),
        ("b".to_string(), false),
        ("c".to_string(), true),
    ]);
    assert_eq!(h.positive, Subset::from_slice(&["a", "c"]));
    assert_eq!(h.negative, Subset::from_slice(&["b"]));
}

#[test]
fn hahn_repeated_element_with_both_signs_is_in_both_sets() {
    let h = HahnDecomposition::from_signs(&[("a".to_string(), true), ("a".to_string(), false)]);
    assert_eq!(h.positive, Subset::from_slice(&["a"]));
    assert_eq!(h.negative, Subset::from_slice(&["a"]));
}

#[test]
fn hahn_of_nothing_is_empty() {
    let h = HahnDecomposition::from_signs(&[]);
    assert!(h.positive.is_empty());
    assert!(h.negative.is_empty());
}

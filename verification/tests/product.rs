use lau_measure_agents::product::{pair_key, product_sigma_algebra};
use lau_measure_agents::sigma_algebra::{Subset, SigmaAlgebra};

#[test]
fn test_pair_key() {
    assert_eq!(pair_key("a", "b"), "(a,b)");
}

// Further cases.

#[test]
fn pair_key_of_empty_names() {
    assert_eq!(pair_key("", ""), "(,)");
}

#[test]
fn product_algebra_is_power_set_of_pairs() {
    let sa1 = SigmaAlgebra::power_set(Subset::from_slice(&["a", "b"]));
    let sa2 = SigmaAlgebra::trivial(Subset::from_slice(&["x", "y"]));
    let p = product_sigma_algebra(&sa1, &sa2);
    assert_eq!(
        p.universal(),
        &Subset::from_slice(&["(a,x)", "(a,y)", "(b,x)", "(b,y)"])
    );
    assert_eq!(p.size(), 16);
    assert!(p.validate());
    assert!(p.is_measurable(&Subset::from_slice(&["(a,x)"])));
}

#[test]
fn product_with_empty_factor() {
    let sa1 = SigmaAlgebra::power_set(Subset::from_slice(&["a"]));
    let sa2 = SigmaAlgebra::trivial(Subset::empty());
    let p = product_sigma_algebra(&sa1, &sa2);
    assert_eq!(p.universal(), &Subset::empty());
    assert_eq!(p.size(), 1);
}

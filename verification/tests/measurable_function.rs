use lau_measure_agents::sigma_algebra::{Subset, SigmaAlgebra};
use lau_measure_agents::measurable_function::{MeasurableFunction, IndicatorFunction};

fn make_spaces() -> (SigmaAlgebra, SigmaAlgebra) {
    let domain = SigmaAlgebra::power_set(Subset::from_slice(&["a", "b", "c"]));
    let codomain = SigmaAlgebra::power_set(Subset::from_slice(&["x", "y"]));
    (domain, codomain)
}

#[test]
fn test_measurable_function_constant() {
    let (domain, codomain) = make_spaces();
    let f = MeasurableFunction::new(
        "const",
        &domain, &codomain,
        &[("a".into(), "x".into()), ("b".into(), "x".into()), ("c".into(), "x".into())],
    ).unwrap();
    assert_eq!(f.apply("a"), Some("x"));
    assert_eq!(f.apply("c"), Some("x"));
}

#[test]
fn test_measurable_function_two_values() {
    let (domain, codomain) = make_spaces();
    let f = MeasurableFunction::new(
        "f",
        &domain, &codomain,
        &[("a".into(), "x".into()), ("b".into(), "x".into()), ("c".into(), "y".into())],
    ).unwrap();
    assert_eq!(f.apply("a"), Some("x"));
    assert_eq!(f.apply("c"), Some("y"));
}

#[test]
fn test_preimage() {
    let (domain, codomain) = make_spaces();
    let f = MeasurableFunction::new(
        "f",
        &domain, &codomain,
        &[("a".into(), "x".into()), ("b".into(), "x".into()), ("c".into(), "y".into())],
    ).unwrap();
    let pre = f.preimage(&Subset::from_slice(&["x"]));
    assert_eq!(pre, Subset::from_slice(&["a", "b"]));
}

#[test]
fn test_image() {
    let (domain, codomain) = make_spaces();
    let f = MeasurableFunction::new(
        "f",
        &domain, &codomain,
        &[("a".into(), "x".into()), ("b".into(), "x".into()), ("c".into(), "y".into())],
    ).unwrap();
    let img = f.image(&Subset::from_slice(&["a", "c"]));
    assert_eq!(img, Subset::from_slice(&["x", "y"]));
}

#[test]
fn test_compose() {
    let f = MeasurableFunction::new_unchecked("f", &[
        ("a".into(), "x".into()), ("b".into(), "y".into()),
    ]);
    let g = MeasurableFunction::new_unchecked("g", &[
        ("x".into(), "α".into()), ("y".into(), "β".into()),
    ]);
    let h = f.compose(&g).unwrap();
    assert_eq!(h.apply("a"), Some("α"));
    assert_eq!(h.apply("b"), Some("β"));
}

#[test]
fn test_unmapped_element_rejected() {
    let (domain, codomain) = make_spaces();
    let result = MeasurableFunction::new(
        "bad",
        &domain, &codomain,
        &[("a".into(), "x".into()), ("b".into(), "x".into())], // missing "c"
    );
    assert!(result.is_err());
}

#[test]
fn test_function_name() {
    let f = MeasurableFunction::new_unchecked("my_func", &[]);
    assert_eq!(f.name(), "my_func");
}

// Further cases.

#[test]
fn unmapped_error_names_the_least_missing_element() {
    let (domain, codomain) = make_spaces();
    let result = MeasurableFunction::new("bad", &domain, &codomain, &[("b".into(), "x".into())]);
    assert_eq!(result.unwrap_err(), "Domain element 'a' not mapped");
    let result = MeasurableFunction::new("bad", &domain, &codomain, &[("a".into(), "x".into())]);
    assert_eq!(result.unwrap_err(), "Domain element 'b' not mapped");
}

#[test]
fn non_measurable_preimage_is_rejected_with_its_sets() {
    let u = Subset::from_slice(&["a", "b"]);
    let domain = SigmaAlgebra::trivial(u);
    let codomain = SigmaAlgebra::power_set(Subset::from_slice(&["x", "y"]));
    let result = MeasurableFunction::new(
        "split",
        &domain, &codomain,
        &[("a".into(), "x".into()), ("b".into(), "y".into())],
    );
    let msg = result.unwrap_err();
    let first = "Not measurable: preimage of {\"x\"} is {\"a\"}, which is not in the domain sigma-algebra";
    let second = "Not measurable: preimage of {\"y\"} is {\"b\"}, which is not in the domain sigma-algebra";
    assert!(msg == first || msg == second, "unexpected message: {}", msg);
}

#[test]
fn non_measurable_message_escapes_names() {
    let u = Subset::from_slice(&["p\"q", "r"]);
    let domain = SigmaAlgebra::trivial(u);
    let codomain = SigmaAlgebra::generate(
        Subset::from_slice(&["x", "y"]),
        &[Subset::from_slice(&["x"])],
    );
    let result = MeasurableFunction::new(
        "f",
        &domain, &codomain,
        &[("p\"q".into(), "x".into()), ("r".into(), "y".into())],
    );
    let msg = result.unwrap_err();
    let first = "Not measurable: preimage of {\"x\"} is {\"p\\\"q\"}, which is not in the domain sigma-algebra";
    let second = "Not measurable: preimage of {\"y\"} is {\"r\"}, which is not in the domain sigma-algebra";
    assert!(msg == first || msg == second, "unexpected message: {}", msg);
}

#[test]
fn constant_map_into_trivial_codomain_is_measurable() {
    let domain = SigmaAlgebra::trivial(Subset::from_slice(&["a", "b"]));
    let codomain = SigmaAlgebra::trivial(Subset::from_slice(&["x", "y"]));
    let f = MeasurableFunction::new(
        "c",
        &domain, &codomain,
        &[("a".into(), "x".into()), ("b".into(), "x".into())],
    );
    assert!(f.is_ok());
}

#[test]
fn last_pair_wins_for_a_repeated_source() {
    let f = MeasurableFunction::new_unchecked("f", &[
        ("a".into(), "x".into()), ("a".into(), "y".into()),
    ]);
    assert_eq!(f.apply("a"), Some("y"));
    assert_eq!(f.mapping().len(), 1);
    assert_eq!(f.apply("b"), None);
}

#[test]
fn compose_rejects_target_outside_second_domain() {
    let f = MeasurableFunction::new_unchecked("f", &[("a".into(), "z".into())]);
    let g = MeasurableFunction::new_unchecked("g", &[("x".into(), "α".into())]);
    assert_eq!(
        f.compose(&g).unwrap_err(),
        "Intermediate value 'z' not in domain of second function"
    );
}

#[test]
fn compose_names_the_composition() {
    let f = MeasurableFunction::new_unchecked("f", &[("a".into(), "x".into())]);
    let g = MeasurableFunction::new_unchecked("g", &[("x".into(), "y".into())]);
    let h = f.compose(&g).unwrap();
    assert_eq!(h.name(), "g_∘_f");
    assert_eq!(h.mapping().len(), 1);
}

#[test]
fn preimage_and_image_ignore_unmapped_points() {
    let f = MeasurableFunction::new_unchecked("f", &[
        ("a".into(), "x".into()), ("b".into(), "y".into()),
    ]);
    assert_eq!(f.preimage(&Subset::from_slice(&["x", "w"])), Subset::from_slice(&["a"]));
    assert_eq!(f.image(&Subset::from_slice(&["a", "q"])), Subset::from_slice(&["x"]));
    assert_eq!(f.image(&Subset::empty()), Subset::empty());
}

#[test]
fn indicator_function_set_and_membership() {
    let ind = IndicatorFunction::new(Subset::from_slice(&["a", "b"]));
    assert!(ind.indicates("a"));
    assert!(!ind.indicates("c"));
    assert_eq!(ind.set(), &Subset::from_slice(&["b", "a"]));
}

#[test]
fn cloned_function_keeps_map_and_name() {
    let f = MeasurableFunction::new_unchecked("f", &[("a".into(), "x".into())]);
    let g = f.clone();
    assert_eq!(g.name(), "f");
    assert_eq!(g.apply("a"), Some("x"));
}

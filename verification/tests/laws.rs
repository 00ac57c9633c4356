use lau_measure_agents::sigma_algebra::{Subset, SigmaAlgebra};
use lau_measure_agents::measurable_function::MeasurableFunction;
use lau_measure_agents::agent::{AgentStateSpace, ObservationModel};
use lau_measure_agents::decomposition::HahnDecomposition;

fn generated() -> (Subset, SigmaAlgebra) {
    let u = Subset::from_slice(&["a", "b", "c", "d"]);
    let sa = SigmaAlgebra::generate(u.clone(), &[Subset::from_slice(&["a", "b"]), Subset::from_slice(&["b", "c"])]);
    (u, sa)
}

#[test]
fn union_of_measurable_sets_is_measurable() {
    let (_, sa) = generated();
    let sets = sa.measurable_sets().to_vec();
    let u = sa.countable_union(&sets).unwrap();
    assert!(sa.is_measurable(&u));
    let pair = [Subset::from_slice(&["a", "b"]), Subset::from_slice(&["d"])];
    assert!(sa.is_measurable(&sa.countable_union(&pair).unwrap()));
}

#[test]
fn intersection_of_measurable_sets_is_measurable() {
    let (_, sa) = generated();
    let pair = [Subset::from_slice(&["a", "b"]), Subset::from_slice(&["b", "c"])];
    let meet = sa.countable_intersection(&pair).unwrap();
    assert_eq!(meet, Subset::from_slice(&["b"]));
    assert!(sa.is_measurable(&meet));
}

#[test]
fn complement_twice_gives_back_the_set() {
    let (_, sa) = generated();
    let s = Subset::from_slice(&["a", "b"]);
    let back = sa.complement(&sa.complement(&s).unwrap()).unwrap();
    assert_eq!(back, s);
}

#[test]
fn generated_algebra_holds_generators_and_is_smallest() {
    let (u, sa) = generated();
    assert!(sa.is_measurable(&Subset::from_slice(&["a", "b"])));
    assert!(sa.is_measurable(&Subset::from_slice(&["b", "c"])));
    let power = SigmaAlgebra::power_set(u);
    for s in sa.measurable_sets() {
        assert!(power.is_measurable(s));
    }
    // Atoms {a}, {b}, {c}, {d}: the generated algebra here is the whole power set.
    assert_eq!(sa.size(), 16);
    let small = SigmaAlgebra::generate(Subset::from_slice(&["a", "b", "c"]), &[Subset::from_slice(&["a", "b"])]);
    assert_eq!(small.size(), 4);
}

#[test]
fn preimage_preserves_set_operations() {
    let f = MeasurableFunction::new_unchecked("f", &[
        ("a".into(), "x".into()), ("b".into(), "y".into()), ("c".into(), "z".into()),
    ]);
    let v = Subset::from_slice(&["x", "y", "z"]);
    let p = Subset::from_slice(&["x", "y"]);
    let q = Subset::from_slice(&["y", "z"]);
    assert_eq!(f.preimage(&p.union(&q)), f.preimage(&p).union(&f.preimage(&q)));
    assert_eq!(f.preimage(&p.intersection(&q)), f.preimage(&p).intersection(&f.preimage(&q)));
    assert_eq!(f.preimage(&v.difference(&p)), f.preimage(&v).difference(&f.preimage(&p)));
}

#[test]
fn image_of_preimage_lies_in_the_set() {
    let f = MeasurableFunction::new_unchecked("f", &[("a".into(), "x".into()), ("b".into(), "x".into())]);
    let b = Subset::from_slice(&["x", "y"]);
    assert!(f.image(&f.preimage(&b)).is_subset_of(&b));
    let a = Subset::from_slice(&["a", "q"]);
    assert!(a.intersection(&Subset::from_slice(&["a", "b"])).is_subset_of(&f.preimage(&f.image(&a))));
}

#[test]
fn composition_of_measurable_functions_is_measurable() {
    let sa = SigmaAlgebra::generate(Subset::from_slice(&["a", "b", "c"]), &[Subset::from_slice(&["a"])]);
    let sb = SigmaAlgebra::generate(Subset::from_slice(&["x", "y"]), &[Subset::from_slice(&["x"])]);
    let sc = SigmaAlgebra::power_set(Subset::from_slice(&["p", "q"]));
    let pairs_f = [("a".to_string(), "x".to_string()), ("b".to_string(), "y".to_string()), ("c".to_string(), "y".to_string())];
    let pairs_g = [("x".to_string(), "p".to_string()), ("y".to_string(), "q".to_string())];
    let f = MeasurableFunction::new("f", &sa, &sb, &pairs_f).unwrap();
    let g = MeasurableFunction::new("g", &sb, &sc, &pairs_g).unwrap();
    let h = f.compose(&g).unwrap();
    let pairs_h: Vec<(String, String)> = h.mapping().to_vec();
    assert!(MeasurableFunction::new("h", &sa, &sc, &pairs_h).is_ok());
    let c = Subset::from_slice(&["q"]);
    assert_eq!(h.preimage(&c), f.preimage(&g.preimage(&c)));
}

#[test]
fn total_map_from_discrete_space_is_measurable() {
    let states = AgentStateSpace::discrete("s", &["1", "2", "3"]);
    let obs = AgentStateSpace::discrete("o", &["u", "v"]);
    let model = ObservationModel::new("m", &[
        ("1".into(), "u".into()), ("2".into(), "u".into()), ("3".into(), "u".into()),
    ]);
    assert!(model.as_measurable_function(&states, &obs).is_ok());
}

#[test]
fn hahn_sets_partition_distinct_elements() {
    let h = HahnDecomposition::from_signs(&[
        ("a".to_string(), true), ("b".to_string(), false), ("c".to_string(), false),
    ]);
    assert_eq!(h.positive.union(&h.negative), Subset::from_slice(&["a", "b", "c"]));
    assert!(h.positive.intersection(&h.negative).is_empty());
}

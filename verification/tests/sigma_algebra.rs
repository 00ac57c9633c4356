use lau_measure_agents::sigma_algebra::{Subset, SigmaAlgebra, MeasurableSpace};

#[test]
fn test_empty_and_universal() {
    let u = Subset::from_slice(&["a", "b", "c"]);
    let sa = SigmaAlgebra::trivial(u.clone());
    assert!(sa.validate());
    assert_eq!(sa.size(), 2);
    assert!(sa.is_measurable(&Subset::empty()));
    assert!(sa.is_measurable(&u));
}

#[test]
fn test_power_set() {
    let u = Subset::from_slice(&["a", "b"]);
    let sa = SigmaAlgebra::power_set(u);
    assert!(sa.validate());
    assert_eq!(sa.size(), 4); // 2^2
}

#[test]
fn test_power_set_three() {
    let u = Subset::from_slice(&["a", "b", "c"]);
    let sa = SigmaAlgebra::power_set(u);
    assert!(sa.validate());
    assert_eq!(sa.size(), 8);
}

#[test]
fn test_generated_algebra() {
    let u = Subset::from_slice(&["a", "b", "c"]);
    let gen = Subset::from_slice(&["a"]);
    let sa = SigmaAlgebra::generate(u.clone(), &[gen]);
    assert!(sa.validate());
    // Should contain: ∅, {a}, {b,c}, {a,b,c}
    assert_eq!(sa.size(), 4);
}

#[test]
fn test_countable_union() {
    let u = Subset::from_slice(&["a", "b", "c"]);
    let sa = SigmaAlgebra::power_set(u);
    let s1 = Subset::from_slice(&["a"]);
    let s2 = Subset::from_slice(&["b"]);
    let result = sa.countable_union(&[s1, s2]).unwrap();
    assert_eq!(result, Subset::from_slice(&["a", "b"]));
}

#[test]
fn test_countable_intersection() {
    let u = Subset::from_slice(&["a", "b", "c"]);
    let sa = SigmaAlgebra::power_set(u);
    let s1 = Subset::from_slice(&["a", "b"]);
    let s2 = Subset::from_slice(&["b", "c"]);
    let result = sa.countable_intersection(&[s1, s2]).unwrap();
    assert_eq!(result, Subset::from_slice(&["b"]));
}

#[test]
fn test_complement() {
    let u = Subset::from_slice(&["a", "b", "c"]);
    let sa = SigmaAlgebra::power_set(u);
    let s = Subset::from_slice(&["a", "b"]);
    let comp = sa.complement(&s).unwrap();
    assert_eq!(comp, Subset::from_slice(&["c"]));
}

#[test]
fn test_subset_operations() {
    let s1 = Subset::from_slice(&["a", "b"]);
    let s2 = Subset::from_slice(&["b", "c"]);
    assert_eq!(s1.union(&s2), Subset::from_slice(&["a", "b", "c"]));
    assert_eq!(s1.intersection(&s2), Subset::from_slice(&["b"]));
    assert_eq!(s1.difference(&s2), Subset::from_slice(&["a"]));
}

#[test]
fn test_subset_contains() {
    let s = Subset::from_slice(&["a", "b"]);
    assert!(s.contains("a"));
    assert!(!s.contains("c"));
}

#[test]
fn test_subset_is_subset_of() {
    let s1 = Subset::from_slice(&["a"]);
    let s2 = Subset::from_slice(&["a", "b"]);
    assert!(s1.is_subset_of(&s2));
    assert!(!s2.is_subset_of(&s1));
}

#[test]
fn test_trivial_algebra_two_elements() {
    let u = Subset::from_slice(&["x", "y"]);
    let sa = SigmaAlgebra::trivial(u);
    assert!(sa.validate());
    assert!(!sa.is_measurable(&Subset::from_slice(&["x"])));
}

#[test]
fn test_measurable_space() {
    let u = Subset::from_slice(&["a", "b"]);
    let sa = SigmaAlgebra::power_set(u);
    let ms = MeasurableSpace::new(sa);
    assert_eq!(ms.universal().len(), 2);
}

// Further cases.

#[test]
fn subset_from_slice_sorts_and_drops_repeats() {
    let s = Subset::from_slice(&["c", "a", "b", "a"]);
    let names: Vec<&str> = s.elements().iter().map(|x| x.as_str()).collect();
    assert_eq!(names, vec!["a", "b", "c"]);
    assert_eq!(s.len(), 3);
    assert_eq!(s, Subset::from_slice(&["a", "b", "c"]));
}

#[test]
fn subset_from_strings_matches_from_slice() {
    let owned = vec!["q".to_string(), "p".to_string()];
    assert_eq!(Subset::from_strings(&owned), Subset::from_slice(&["p", "q"]));
}

#[test]
fn subset_empty_and_is_empty() {
    assert!(Subset::empty().is_empty());
    assert_eq!(Subset::empty().len(), 0);
    assert!(!Subset::from_slice(&["a"]).is_empty());
}

#[test]
fn subset_complement_within_universe() {
    let u = Subset::from_slice(&["a", "b", "c", "d"]);
    let s = Subset::from_slice(&["b", "d", "z"]);
    assert_eq!(s.complement(&u), Subset::from_slice(&["a", "c"]));
}

#[test]
fn subset_unicode_names_are_ordered_by_code_point() {
    let s = Subset::from_slice(&["β", "α", "b", "B"]);
    let names: Vec<&str> = s.elements().iter().map(|x| x.as_str()).collect();
    assert_eq!(names, vec!["B", "b", "α", "β"]);
}

#[test]
fn subset_has_and_with_element_and_equals() {
    let s = Subset::from_slice(&["a"]);
    let t = s.with_element(&"b".to_string());
    assert!(t.has(&"b".to_string()));
    assert!(!s.has(&"b".to_string()));
    assert!(t.equals(&Subset::from_slice(&["b", "a"])));
    assert!(!t.equals(&s));
    assert_eq!(s.duplicate(), s);
}

#[test]
fn subset_prefix_names_order() {
    let s = Subset::from_slice(&["ab", "a", "abc", ""]);
    let names: Vec<&str> = s.elements().iter().map(|x| x.as_str()).collect();
    assert_eq!(names, vec!["", "a", "ab", "abc"]);
}

#[test]
fn countable_union_rejects_unmeasurable_set() {
    let u = Subset::from_slice(&["a", "b", "c"]);
    let sa = SigmaAlgebra::trivial(u);
    let r = sa.countable_union(&[Subset::from_slice(&["a"])]);
    assert_eq!(r, Err("Set is not measurable".to_string()));
}

#[test]
fn countable_intersection_rejects_unmeasurable_set() {
    let u = Subset::from_slice(&["a", "b", "c"]);
    let sa = SigmaAlgebra::trivial(u.clone());
    let r = sa.countable_intersection(&[u.clone(), Subset::from_slice(&["b"])]);
    assert_eq!(r, Err("Set is not measurable".to_string()));
}

#[test]
fn complement_rejects_unmeasurable_set() {
    let u = Subset::from_slice(&["a", "b"]);
    let sa = SigmaAlgebra::trivial(u);
    assert_eq!(sa.complement(&Subset::from_slice(&["a"])), Err("Set is not measurable".to_string()));
}

#[test]
fn countable_operations_on_empty_lists() {
    let u = Subset::from_slice(&["a", "b"]);
    let sa = SigmaAlgebra::power_set(u.clone());
    assert_eq!(sa.countable_union(&[]).unwrap(), Subset::empty());
    assert_eq!(sa.countable_intersection(&[]).unwrap(), u);
}

#[test]
fn generated_algebra_members() {
    let u = Subset::from_slice(&["a", "b", "c", "d"]);
    let sa = SigmaAlgebra::generate(u.clone(), &[Subset::from_slice(&["a"]), Subset::from_slice(&["b"])]);
    assert!(sa.validate());
    // Atoms {a}, {b}, {c,d}: 2^3 members.
    assert_eq!(sa.size(), 8);
    assert!(sa.is_measurable(&Subset::from_slice(&["c", "d"])));
    assert!(sa.is_measurable(&Subset::from_slice(&["a", "c", "d"])));
    assert!(!sa.is_measurable(&Subset::from_slice(&["c"])));
}

#[test]
fn generated_algebra_without_generators_is_trivial() {
    let u = Subset::from_slice(&["a", "b"]);
    let sa = SigmaAlgebra::generate(u.clone(), &[]);
    assert_eq!(sa.size(), 2);
    assert!(sa.is_measurable(&u));
    assert!(sa.is_measurable(&Subset::empty()));
}

#[test]
fn trivial_algebra_on_empty_space_has_one_set() {
    let sa = SigmaAlgebra::trivial(Subset::empty());
    assert_eq!(sa.size(), 1);
    assert!(sa.validate());
}

#[test]
fn power_set_lists_every_subset_once() {
    let u = Subset::from_slice(&["a", "b", "c"]);
    let sa = SigmaAlgebra::power_set(u.clone());
    let sets = sa.measurable_sets();
    assert_eq!(sets.len(), 8);
    for i in 0..sets.len() {
        assert!(sets[i].is_subset_of(&u));
        for j in (i + 1)..sets.len() {
            assert_ne!(sets[i], sets[j]);
        }
    }
    assert_eq!(sa.universal(), &u);
}

#[test]
fn measurable_space_exposes_its_algebra() {
    let u = Subset::from_slice(&["a", "b", "c"]);
    let ms = MeasurableSpace::new(SigmaAlgebra::trivial(u.clone()));
    assert_eq!(ms.sigma_algebra().size(), 2);
    assert_eq!(ms.universal(), &u);
}

#[test]
fn subset_key_is_its_debug_text() {
    assert_eq!(Subset::from_slice(&["b", "a"]).key(), "{\"a\", \"b\"}");
    assert_eq!(Subset::empty().key(), "{}");
    assert_eq!(Subset::from_slice(&["q\"r"]).key(), "{\"q\\\"r\"}");
}

use lau_measure_agents::lebesgue::LebesgueMeasure;

#[test]
fn test_lebesgue_dimension() {
    let m = LebesgueMeasure::new(3);
    assert_eq!(m.dimension(), 3);
}

#[test]
fn lebesgue_dimension_zero() {
    assert_eq!(LebesgueMeasure::new(0).dimension(), 0);
}

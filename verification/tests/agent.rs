use lau_measure_agents::agent::{AgentStateSpace, ObservationModel};
use lau_measure_agents::sigma_algebra::Subset;

fn world_space() -> AgentStateSpace {
    AgentStateSpace::discrete("world", &["sunny", "cloudy", "rainy"])
}

fn obs_space() -> AgentStateSpace {
    AgentStateSpace::discrete("obs", &["bright", "dim"])
}

fn weather_model() -> ObservationModel {
    ObservationModel::new("weather_obs", &[
        ("sunny".into(), "bright".into()),
        ("cloudy".into(), "dim".into()),
        ("rainy".into(), "dim".into()),
    ])
}

#[test]
fn test_state_space_creation() {
    let space = world_space();
    assert_eq!(space.elements().len(), 3);
    assert_eq!(space.name(), "world");
}

#[test]
fn test_observation_model() {
    let model = ObservationModel::new("weather_obs", &[
        ("sunny".into(), "bright".into()),
        ("cloudy".into(), "dim".into()),
        ("rainy".into(), "dim".into()),
    ]);
    assert_eq!(model.observe("sunny"), Some("bright"));
    assert_eq!(model.observe("rainy"), Some("dim"));
}

// Further cases.

#[test]
fn state_space_is_discrete() {
    let space = world_space();
    assert_eq!(space.sigma_algebra().size(), 8);
    assert!(space.sigma_algebra().validate());
    assert_eq!(space.universal(), &Subset::from_slice(&["sunny", "cloudy", "rainy"]));
    assert_eq!(space.measurable_space().universal().len(), 3);
    let names: Vec<&str> = space.elements().iter().map(|s| s.as_str()).collect();
    assert_eq!(names, vec!["sunny", "cloudy", "rainy"]);
}

#[test]
fn observe_unknown_state() {
    assert_eq!(weather_model().observe("foggy"), None);
}

#[test]
fn observation_model_is_measurable_between_discrete_spaces() {
    let f = weather_model().as_measurable_function(&world_space(), &obs_space()).unwrap();
    assert_eq!(f.name(), "weather_obs");
    assert_eq!(f.preimage(&Subset::from_slice(&["dim"])), Subset::from_slice(&["cloudy", "rainy"]));
}

#[test]
fn observation_model_missing_state_is_rejected() {
    let model = ObservationModel::new("partial", &[("sunny".into(), "bright".into())]);
    let r = model.as_measurable_function(&world_space(), &obs_space());
    assert_eq!(r.unwrap_err(), "Domain element 'cloudy' not mapped");
}

#[test]
fn likelihood_support_marks_matching_states() {
    let support = weather_model().likelihood_support("dim", &world_space());
    assert_eq!(support, vec![
        ("sunny".to_string(), false),
        ("cloudy".to_string(), true),
        ("rainy".to_string(), true),
    ]);
}

#[test]
fn unobserved_state_yields_the_empty_observation() {
    let model = ObservationModel::new("partial", &[("sunny".into(), "bright".into())]);
    assert!(model.yields("sunny", "bright"));
    assert!(!model.yields("sunny", "dim"));
    assert!(model.yields("rainy", ""));
    assert!(!model.yields("rainy", "dim"));
}

#[test]
fn cloned_model_observes_alike() {
    let m = weather_model();
    let c = m.clone();
    assert_eq!(c.observe("cloudy"), Some("dim"));
}

use lau_measure_agents::text::{brace_texts, set_text};
use lau_measure_agents::measurable_function::not_measurable_error;

#[test]
fn brace_texts_joins_with_commas() {
    let texts = vec!["\"a\"".to_string(), "\"b\"".to_string(), "\"c\"".to_string()];
    assert_eq!(brace_texts(&texts), "{\"a\", \"b\", \"c\"}");
    assert_eq!(brace_texts(&["x".to_string()]), "{x}");
    assert_eq!(brace_texts(&[]), "{}");
}

#[test]
fn set_text_quotes_each_name() {
    let names = vec!["a".to_string(), "tab\t".to_string()];
    assert_eq!(set_text(&names), "{\"a\", \"tab\\t\"}");
}

#[test]
fn not_measurable_error_text() {
    assert_eq!(
        not_measurable_error("{\"x\"}", "{\"a\"}"),
        "Not measurable: preimage of {\"x\"} is {\"a\"}, which is not in the domain sigma-algebra"
    );
}

use sqlexpr_load_congo_rust::cli::Args;

fn args(iterations: usize) -> Args {
    Args { iterations, input: "complex_expressions-max.json".to_string() }
}

#[test]
fn validate_accepts_one_or_more_iterations() {
    assert_eq!(args(1).validate(), Ok(()));
    assert_eq!(args(1000).validate(), Ok(()));
}

#[test]
fn validate_refuses_zero_iterations() {
    assert_eq!(
        args(0).validate(),
        Err("Invalid iterations value: 0. Must be >= 1".to_string())
    );
}

use duplicate_finder::output::OutputType;
use duplicate_finder::output::ParseOutputTypeError;

#[test]
fn recognizes_csv() {
    assert_eq!(OutputType::from_str("CSV"), Ok(OutputType::CSV));
}

#[test]
fn recognizes_json() {
    assert_eq!(OutputType::from_str("JSON"), Ok(OutputType::JSON));
}

#[test]
fn rejects_unrecognized_names() {
    assert_eq!(OutputType::from_str("csv"), Err(ParseOutputTypeError));
    assert_eq!(OutputType::from_str("XML"), Err(ParseOutputTypeError));
    assert_eq!(OutputType::from_str(""), Err(ParseOutputTypeError));
    assert_eq!(OutputType::from_str("CSV "), Err(ParseOutputTypeError));
}

#[test]
fn error_names_the_problem() {
    let err = ParseOutputTypeError;
    assert_eq!(
        err.message(),
        "provided string did not match any OutputType variant"
    );
}

use countdown::input::{parse_args, parse_source, InputError};
use countdown::search::Source;

fn toks(v: &[&str]) -> Vec<String> {
    v.iter().map(|s| s.to_string()).collect()
}

#[test]
fn bare_number_has_cost_one() {
    assert_eq!(parse_source("42", 0), Ok(Source { value: 42, cost: 1 }));
    assert_eq!(parse_source("-7", 3), Ok(Source { value: -7, cost: 1 }));
}

#[test]
fn number_with_cost() {
    assert_eq!(parse_source("3=5", 0), Ok(Source { value: 3, cost: 5 }));
    assert_eq!(parse_source("-3=+2", 0), Ok(Source { value: -3, cost: 2 }));
}

#[test]
fn zero_cost_token_is_rejected() {
    assert_eq!(parse_source("4=0", 0), Err(InputError::NonPositiveCost { index: 0 }));
}

#[test]
fn malformed_cost_is_rejected() {
    assert_eq!(parse_source("4=-1", 1), Err(InputError::BadCost { index: 1 }));
    assert_eq!(parse_source("4=", 1), Err(InputError::BadCost { index: 1 }));
    assert_eq!(parse_source("4=x", 1), Err(InputError::BadCost { index: 1 }));
    assert_eq!(parse_source("4=1=2", 1), Err(InputError::BadCost { index: 1 }));
}

#[test]
fn malformed_number_is_rejected() {
    assert_eq!(parse_source("x", 2), Err(InputError::BadNumber { index: 2 }));
    assert_eq!(parse_source("=3", 2), Err(InputError::BadNumber { index: 2 }));
    assert_eq!(parse_source("99999999999", 2), Err(InputError::BadNumber { index: 2 }));
    assert_eq!(parse_source(" 4", 2), Err(InputError::BadNumber { index: 2 }));
}

#[test]
fn args_give_target_and_sources() {
    let r = parse_args(&toks(&["12", "3", "4=2"])).unwrap();
    assert_eq!(r.0, 12);
    assert_eq!(r.1, vec![Source { value: 3, cost: 1 }, Source { value: 4, cost: 2 }]);
    let r = parse_args(&toks(&["-2147483648"])).unwrap();
    assert_eq!(r.0, i32::MIN);
    assert!(r.1.is_empty());
}

#[test]
fn args_errors() {
    assert_eq!(parse_args(&toks(&[])), Err(InputError::MissingTarget));
    assert_eq!(parse_args(&toks(&["t", "4=0"])), Err(InputError::BadTarget));
    assert_eq!(parse_args(&toks(&["12", "3", "4=0", "x"])), Err(InputError::NonPositiveCost { index: 1 }));
    assert_eq!(parse_args(&toks(&["12", "y", "4=0"])), Err(InputError::BadNumber { index: 0 }));
}

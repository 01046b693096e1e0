use eurus::port::parse_port;
use eurus::PatchError;

#[test]
fn parses_plain_port() {
    assert_eq!(parse_port("8080"), Ok(8080));
}

#[test]
fn parses_port_with_leading_plus() {
    assert_eq!(parse_port("+80"), Ok(80));
}

#[test]
fn parses_leading_zeros() {
    assert_eq!(parse_port("007"), Ok(7));
}

#[test]
fn parses_zero_and_maximum() {
    assert_eq!(parse_port("0"), Ok(0));
    assert_eq!(parse_port("65535"), Ok(65535));
}

#[test]
fn rejects_value_above_maximum() {
    assert_eq!(parse_port("65536"), Err(PatchError::InvalidPortValue));
    assert_eq!(parse_port("999999999999"), Err(PatchError::InvalidPortValue));
}

#[test]
fn rejects_empty_and_bare_sign() {
    assert_eq!(parse_port(""), Err(PatchError::InvalidPortValue));
    assert_eq!(parse_port("+"), Err(PatchError::InvalidPortValue));
}

#[test]
fn rejects_non_digits() {
    assert_eq!(parse_port("80a"), Err(PatchError::InvalidPortValue));
    assert_eq!(parse_port("-80"), Err(PatchError::InvalidPortValue));
    assert_eq!(parse_port(" 80"), Err(PatchError::InvalidPortValue));
}

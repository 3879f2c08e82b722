use minix_fs::error::Error;
use minix_fs::nc::parse_args;

#[test]
fn parses_host_and_port() {
    assert_eq!(
        parse_args(&["nc", "example.com", "8080"]).unwrap(),
        ("example.com", 8080)
    );
}

#[test]
fn rejects_invalid_arguments() {
    assert!(parse_args(&["nc"]).is_err());
    assert!(parse_args(&["nc", "localhost", "0"]).is_err());
    assert!(parse_args(&["nc", "localhost", "invalid"]).is_err());
}

#[test]
fn parse_args_reports_each_error() {
    assert_eq!(parse_args(&["nc"]), Err(Error::InvalidArguments));
    assert_eq!(parse_args(&["nc", "a", "1", "2"]), Err(Error::InvalidArguments));
    assert_eq!(parse_args(&["nc", "localhost", "0"]), Err(Error::PortZero));
    assert_eq!(parse_args(&["nc", "localhost", "invalid"]), Err(Error::InvalidPort));
    assert_eq!(parse_args(&["nc", "localhost", "65536"]), Err(Error::InvalidPort));
    assert_eq!(parse_args(&["nc", "localhost", ""]), Err(Error::InvalidPort));
    assert_eq!(parse_args(&["nc", "localhost", "+"]), Err(Error::InvalidPort));
    assert_eq!(parse_args(&["nc", "localhost", "-1"]), Err(Error::InvalidPort));
}

#[test]
fn parse_args_accepts_plus_sign_and_largest_port() {
    assert_eq!(parse_args(&["nc", "h", "+80"]), Ok(("h", 80)));
    assert_eq!(parse_args(&["nc", "h", "65535"]), Ok(("h", 65535)));
    assert_eq!(parse_args(&["nc", "h", "007"]), Ok(("h", 7)));
}

#[test]
fn error_messages_are_their_descriptions() {
    assert_eq!(Error::PortZero.message(), "Port must not be zero");
    assert_eq!(Error::InvalidPort.message(), "Invalid port");
    assert_eq!(Error::LookupFailed.message(), "lookup failed");
}

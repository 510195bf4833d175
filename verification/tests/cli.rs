use drafftink_server::args::{parse_args, parse_port, ParsedArgs};

fn strings(parts: &[&str]) -> Vec<String> {
    parts.iter().map(|s| s.to_string()).collect()
}

#[test]
fn defaults_without_options() {
    match parse_args(&strings(&["prog"])) {
        ParsedArgs::Run(c) => {
            assert_eq!(c.port, 8080);
            assert_eq!(c.address, "127.0.0.1");
            assert!(!c.cors);
        }
        _ => panic!("expected a configuration"),
    }
}

#[test]
fn port_address_and_cors() {
    match parse_args(&strings(&["prog", "--port", "3000", "--address", "0.0.0.0", "--cors"])) {
        ParsedArgs::Run(c) => {
            assert_eq!(c.port, 3000);
            assert_eq!(c.address, "0.0.0.0");
            assert!(c.cors);
        }
        _ => panic!("expected a configuration"),
    }
}

#[test]
fn help_wins_wherever_it_stands() {
    match parse_args(&strings(&["prog", "--port", "80", "--help"])) {
        ParsedArgs::Help => {}
        _ => panic!("expected help"),
    }
}

#[test]
fn port_without_value() {
    match parse_args(&strings(&["prog", "--port"])) {
        ParsedArgs::MissingPortValue => {}
        _ => panic!("expected the missing-value error"),
    }
}

#[test]
fn port_out_of_range() {
    match parse_args(&strings(&["prog", "--port", "70000"])) {
        ParsedArgs::InvalidPort(s) => assert_eq!(s, "70000"),
        _ => panic!("expected the invalid-port error"),
    }
}

#[test]
fn port_with_stray_characters() {
    match parse_args(&strings(&["prog", "--port", "12a"])) {
        ParsedArgs::InvalidPort(s) => assert_eq!(s, "12a"),
        _ => panic!("expected the invalid-port error"),
    }
}

#[test]
fn address_without_value() {
    match parse_args(&strings(&["prog", "--address"])) {
        ParsedArgs::MissingAddressValue => {}
        _ => panic!("expected the missing-value error"),
    }
}

#[test]
fn unknown_option_is_reported() {
    match parse_args(&strings(&["prog", "--bogus"])) {
        ParsedArgs::UnknownOption(s) => assert_eq!(s, "--bogus"),
        _ => panic!("expected the unknown-option error"),
    }
}

#[test]
fn later_option_wins() {
    match parse_args(&strings(&["prog", "--port", "1000", "--port", "2000"])) {
        ParsedArgs::Run(c) => assert_eq!(c.port, 2000),
        _ => panic!("expected a configuration"),
    }
}

#[test]
fn port_parsing_edges() {
    assert_eq!(parse_port("0"), Some(0));
    assert_eq!(parse_port("007"), Some(7));
    assert_eq!(parse_port("+123"), Some(123));
    assert_eq!(parse_port("65535"), Some(65535));
    assert_eq!(parse_port("65536"), None);
    assert_eq!(parse_port("000000000065535"), Some(65535));
    assert_eq!(parse_port(""), None);
    assert_eq!(parse_port("+"), None);
    assert_eq!(parse_port("-1"), None);
    assert_eq!(parse_port("80 "), None);
}

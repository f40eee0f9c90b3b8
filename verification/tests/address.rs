//! Addresses.

use sedc::command::{Address, Command, ProcessingContext};
use sedc::compiler::address::{
    ERR_ADDRESS_0_USAGE, compile_address, compile_address_range, parse_number,
};
use sedc::script_char_provider::ScriptCharProvider;
use sedc::script_line_provider::ScriptLineProvider;

// Return an empty line provider and a char provider for the specified str.
fn make_providers(input: &str) -> (ScriptLineProvider, ScriptCharProvider) {
    let lines = ScriptLineProvider::new(vec![]); // Empty for tests
    let line = ScriptCharProvider::new(input.as_bytes());
    (lines, line)
}

/// Return a default ProcessingContext for use in tests.
fn ctx() -> ProcessingContext {
    ProcessingContext::default()
}

// parse_number
#[test]
fn test_parse_number_basic() {
    let (lines, mut chars) = make_providers("123abc");
    assert_eq!(parse_number(&lines, &mut chars, true).unwrap(), Some(123));
    assert_eq!(chars.current(), 'a'); // Should stop at first non-digit
}

#[test]
fn test_parse_optional_number_missing() {
    let (lines, mut chars) = make_providers(" ;");
    assert_eq!(parse_number(&lines, &mut chars, false).unwrap(), None);
}

#[test]
fn test_parse_number_invalid() {
    let (lines, mut chars) = make_providers("537654897563495734653453434534534534545");
    let err = parse_number(&lines, &mut chars, true).unwrap_err();
    assert!(err.to_string().contains("invalid number"));
}

#[test]
fn test_parse_required_number_missing() {
    let (lines, mut chars) = make_providers("");
    let err = parse_number(&lines, &mut chars, true).unwrap_err();
    assert!(err.to_string().contains("number expected"));
}

// compile_address
#[test]
fn test_compile_addr_line_number() {
    let (lines, mut chars) = make_providers("42");
    let addr = compile_address(&lines, &mut chars, &ctx()).unwrap();
    assert!(matches!(addr, Address::Line(42)));
}

#[test]
fn test_compile_addr_relative_line() {
    let (lines, mut chars) = make_providers("+7");
    let addr = compile_address(&lines, &mut chars, &ctx()).unwrap();
    assert!(matches!(addr, Address::RelLine(7)));
}

#[test]
fn test_compile_addr_last_line() {
    let (lines, mut chars) = make_providers("$");
    let addr = compile_address(&lines, &mut chars, &ctx()).unwrap();
    assert!(matches!(addr, Address::Last));
}

#[test]
fn test_compile_addr_regex() {
    let (lines, mut chars) = make_providers("/hello/");
    let addr = compile_address(&lines, &mut chars, &ctx()).unwrap();

    let Address::Re(Some(re)) = addr else {
        panic!("expected Address::Re(Some(_))");
    };

    assert!(re.is_match("hello".as_bytes()).unwrap());
}

#[test]
fn test_compile_addr_regex_backref_match() {
    let (lines, mut chars) = make_providers(r"/he\(.\)\1o/");
    let addr = compile_address(&lines, &mut chars, &ctx()).unwrap();

    match addr {
        Address::Re(Some(re)) => {
            assert!(re.is_match("hello".as_bytes()).unwrap());
        }
        _ => panic!("expected Address::Re(Some(_))"),
    }
}

#[test]
fn test_compile_addr_regex_backref_no_match() {
    let (lines, mut chars) = make_providers(r"/he\(.\)\1o/");
    let addr = compile_address(&lines, &mut chars, &ctx()).unwrap();

    match addr {
        Address::Re(Some(re)) => {
            assert!(!re.is_match("helio".as_bytes()).unwrap());
        }
        _ => panic!("expected Address::Re(Some(_))"),
    }
}

#[test]
fn test_compile_addr_regex_other_delimiter() {
    let (lines, mut chars) = make_providers("\\#hello#");
    let addr = compile_address(&lines, &mut chars, &ctx()).unwrap();

    match addr {
        Address::Re(Some(re)) => {
            assert!(re.is_match("hello".as_bytes()).unwrap());
        }
        _ => panic!("expected Address::Re(Some(_))"),
    }
}

#[test]
fn test_compile_addr_regex_with_modifier() {
    let (lines, mut chars) = make_providers("/hello/I");
    let addr = compile_address(&lines, &mut chars, &ctx()).unwrap();

    match addr {
        Address::Re(Some(re)) => {
            // Case-insensitive
            assert!(re.is_match("HELLO".as_bytes()).unwrap());
        }
        _ => panic!("expected Address::Re(Some(_))"),
    }
}

// compile_address_range
#[test]
fn test_compile_single_line_address() {
    let (lines, mut chars) = make_providers("42");
    let mut cmd = Command::default();
    let n_addr = compile_address_range(&lines, &mut chars, &mut cmd, &ctx()).unwrap();

    assert_eq!(n_addr, 1);
    assert!(matches!(cmd.addr1, Some(Address::Line(42))));
}

#[test]
fn test_compile_relative_address_range() {
    let (lines, mut chars) = make_providers("2,+3");
    let mut cmd = Command::default();
    let n_addr = compile_address_range(&lines, &mut chars, &mut cmd, &ctx()).unwrap();

    assert_eq!(n_addr, 2);

    assert!(matches!(cmd.addr1, Some(Address::Line(2))));
    assert!(matches!(cmd.addr2, Some(Address::RelLine(3))));
}

#[test]
fn test_compile_step_match_address() {
    let (lines, mut chars) = make_providers("0~2");
    let mut cmd = Command::default();
    let n_addr = compile_address_range(&lines, &mut chars, &mut cmd, &ctx()).unwrap();

    assert_eq!(n_addr, 2);
    assert!(matches!(cmd.addr1, Some(Address::Line(0))));
    assert!(matches!(cmd.addr2, Some(Address::StepMatch(2))));
}

#[test]
fn test_compile_step_end_address() {
    let (lines, mut chars) = make_providers("1,~10");
    let mut cmd = Command::default();
    let n_addr = compile_address_range(&lines, &mut chars, &mut cmd, &ctx()).unwrap();

    assert_eq!(n_addr, 2);
    assert!(matches!(cmd.addr1, Some(Address::Line(1))));
    assert!(matches!(cmd.addr2, Some(Address::StepEnd(10))));
}

#[test]
fn test_compile_step_re_address_rejected() {
    let (lines, mut chars) = make_providers("1~/x/");
    let mut cmd = Command::default();
    let err = compile_address_range(&lines, &mut chars, &mut cmd, &ctx()).unwrap_err();

    assert!(
        err.to_string()
            .contains("~step can only be specified through numeric values")
    );
}

#[test]
fn test_compile_last_address() {
    let (lines, mut chars) = make_providers("$");
    let mut cmd = Command::default();
    let n_addr = compile_address_range(&lines, &mut chars, &mut cmd, &ctx()).unwrap();

    assert_eq!(n_addr, 1);
    assert!(matches!(cmd.addr1, Some(Address::Last)));
}

#[test]
fn test_compile_absolute_address_range() {
    let (lines, mut chars) = make_providers("5,10");
    let mut cmd = Command::default();
    let n_addr = compile_address_range(&lines, &mut chars, &mut cmd, &ctx()).unwrap();

    assert_eq!(n_addr, 2);
    assert!(matches!(cmd.addr1, Some(Address::Line(5))));
    assert!(matches!(cmd.addr2, Some(Address::Line(10))));
}

#[test]
fn test_compile_regex_address() {
    let (lines, mut chars) = make_providers("/foo/");
    let mut cmd = Command::default();
    let n_addr = compile_address_range(&lines, &mut chars, &mut cmd, &ctx()).unwrap();

    assert_eq!(n_addr, 1);

    match cmd.addr1.as_ref().unwrap() {
        Address::Re(Some(re)) => {
            assert!(re.is_match("foo".as_bytes()).unwrap());
            assert!(!re.is_match("bar".as_bytes()).unwrap());
        }
        _ => panic!("expected regex address"),
    }
}

#[test]
fn test_compile_regex_address_range_other_delimiter() {
    let (lines, mut chars) = make_providers("\\#foo# , \\|bar|");
    let mut cmd = Command::default();
    let n_addr = compile_address_range(&lines, &mut chars, &mut cmd, &ctx()).unwrap();

    assert_eq!(n_addr, 2);

    match cmd.addr1.as_ref().unwrap() {
        Address::Re(Some(re)) => {
            assert!(re.is_match("foo".as_bytes()).unwrap());
            assert!(!re.is_match("bar".as_bytes()).unwrap());
        }
        _ => panic!("expected regex address"),
    }

    match cmd.addr2.as_ref().unwrap() {
        Address::Re(Some(re)) => {
            assert!(re.is_match("bar".as_bytes()).unwrap());
            assert!(!re.is_match("foo".as_bytes()).unwrap());
        }
        _ => panic!("expected regex address"),
    }
}

#[test]
fn test_compile_regex_with_modifier() {
    let (lines, mut chars) = make_providers("/foo/I");
    let mut cmd = Command::default();
    let n_addr = compile_address_range(&lines, &mut chars, &mut cmd, &ctx()).unwrap();

    assert_eq!(n_addr, 1);

    match cmd.addr1.as_ref().unwrap() {
        Address::Re(Some(re)) => {
            assert!(re.is_match("FOO".as_bytes()).unwrap());
            assert!(re.is_match("foo".as_bytes()).unwrap());
        }
        _ => panic!("expected regex address"),
    }
}

#[test]
fn test_compile_address_range_error_propagation() {
    let (lines, mut chars) = make_providers("1,/abc");
    let mut cmd = Command::default();
    let result = compile_address_range(&lines, &mut chars, &mut cmd, &ctx());

    assert!(result.is_err());
    let msg = result.unwrap_err().to_string();
    assert!(msg.contains("unterminated address regex"));
}

#[test]
fn test_zero_addr_r_accepted() {
    for input in ["0r", "0  r"] {
        let (lines, mut chars) = make_providers(input);
        let mut cmd = Command::default();
        let n_addr = compile_address_range(&lines, &mut chars, &mut cmd, &ctx()).unwrap();

        assert_eq!(n_addr, 1);
        assert!(matches!(cmd.addr1, Some(Address::Line(0))));
        assert_eq!(chars.current(), 'r');
    }
}

// Zero-address with no commands
#[test]
fn test_zero_addr_no_commands() {
    let (lines, mut chars) = make_providers("0");
    let mut cmd = Command::default();
    let result = compile_address_range(&lines, &mut chars, &mut cmd, &ctx());

    assert!(result.is_err());
    assert!(
        result
            .unwrap_err()
            .to_string()
            .contains(ERR_ADDRESS_0_USAGE)
    );
}

// Zero-address with a command other than 'r' must still be rejected.
#[test]
fn test_zero_addr_non_r_rejected() {
    let (lines, mut chars) = make_providers("0p");
    let mut cmd = Command::default();
    let result = compile_address_range(&lines, &mut chars, &mut cmd, &ctx());

    assert!(result.is_err());
    assert!(
        result
            .unwrap_err()
            .to_string()
            .contains(ERR_ADDRESS_0_USAGE)
    );
}

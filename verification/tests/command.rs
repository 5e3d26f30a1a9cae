use scpify::binary64::Binary64;
use scpify::{header_matches, mnemonic_matches, Command, Param, Response};

fn float(v: f64) -> Binary64 {
    Binary64 { bits: v.to_bits() }
}

fn read(s: &str) -> Option<Binary64> {
    s.parse::<f64>().ok().map(float)
}

fn write(v: Binary64) -> String {
    format!("{}", f64::from_bits(v.bits))
}

fn write_scientific(v: Binary64) -> String {
    format!("{:.6E}", f64::from_bits(v.bits))
}

#[test]
fn mnemonic_short_form() {
    assert!(mnemonic_matches("MEAS", "MEASure"));
    assert!(mnemonic_matches("measure", "MEASure"));
    assert!(mnemonic_matches("MEASure", "MEASure"));
}

#[test]
fn mnemonic_no_match() {
    assert!(!mnemonic_matches("VOLT", "MEASure"));
    assert!(!mnemonic_matches("MEASU", "MEASure")); // partial long form
}

#[test]
fn header_segment_count() {
    assert!(!header_matches("MEASure", "MEASure:VOLTage"));
}

#[test]
fn header_full_path() {
    assert!(header_matches("MEAS:VOLT:DC", "MEASure:VOLTage:DC"));
}

#[test]
fn response_display_integer() {
    assert_eq!(Response::Integer(42).to_string(&write_scientific), "42");
}

#[test]
fn response_display_bool() {
    assert_eq!(Response::Bool(true).to_string(&write_scientific), "1");
    assert_eq!(Response::Bool(false).to_string(&write_scientific), "0");
}

#[test]
fn response_display_string() {
    assert_eq!(
        Response::Str("hello".into()).to_string(&write_scientific),
        "\"hello\""
    );
}

#[test]
fn response_display_compound() {
    let r = Response::Compound(vec![
        Response::Integer(1),
        Response::Integer(2),
        Response::Integer(3),
    ]);
    assert_eq!(r.to_string(&write_scientific), "1,2,3");
}

#[test]
fn param_as_bool() {
    assert_eq!(Param::Character("ON".into()).as_bool(), Some(true));
    assert_eq!(Param::Character("OFF".into()).as_bool(), Some(false));
    assert_eq!(Param::Integer(0).as_bool(), Some(false));
    assert_eq!(Param::Integer(1).as_bool(), Some(true));
}

#[test]
fn other_params_as_bool() {
    assert_eq!(Param::Character("on".into()).as_bool(), Some(true));
    assert_eq!(Param::Character("1".into()).as_bool(), Some(true));
    assert_eq!(Param::Character("0".into()).as_bool(), Some(false));
    assert_eq!(Param::Character("MAX".into()).as_bool(), None);
    assert_eq!(Param::Integer(-3).as_bool(), Some(true));
    assert_eq!(Param::Bool(false).as_bool(), Some(false));
    assert_eq!(Param::Str("ON".into()).as_bool(), None);
    assert_eq!(Param::Float(float(1.0)).as_bool(), None);
}

#[test]
fn params_as_integer() {
    assert_eq!(Param::Integer(-7).as_integer(), Some(-7));
    assert_eq!(Param::Float(float(2.9)).as_integer(), Some(2));
    assert_eq!(Param::Float(float(-2.9)).as_integer(), Some(-2));
    assert_eq!(Param::Character("+15".into()).as_integer(), Some(15));
    assert_eq!(
        Param::Character("-9223372036854775808".into()).as_integer(),
        Some(i64::MIN)
    );
    assert_eq!(
        Param::Character("9223372036854775808".into()).as_integer(),
        None
    );
    assert_eq!(Param::Character("1e3".into()).as_integer(), None);
    assert_eq!(Param::Bool(true).as_integer(), None);
    assert_eq!(Param::Str("5".into()).as_integer(), None);
}

#[test]
fn params_as_float() {
    assert_eq!(Param::Float(float(2.5)).as_float(&read), Some(float(2.5)));
    assert_eq!(Param::Integer(3).as_float(&read), Some(float(3.0)));
    assert_eq!(
        Param::Character("1e3".into()).as_float(&read),
        Some(float(1000.0))
    );
    assert_eq!(Param::Character("MIN".into()).as_float(&read), None);
    assert_eq!(Param::Bool(true).as_float(&read), None);
    assert_eq!(Param::Str("1".into()).as_float(&read), None);
}

#[test]
fn params_as_str() {
    assert_eq!(Param::Str("a b".into()).as_str(), Some("a b"));
    assert_eq!(Param::Character("MIN".into()).as_str(), Some("MIN"));
    assert_eq!(Param::Integer(1).as_str(), None);
}

#[test]
fn param_display() {
    assert_eq!(Param::Character("Min".into()).to_string(&write), "Min");
    assert_eq!(Param::Integer(-12).to_string(&write), "-12");
    assert_eq!(Param::Float(float(1.5)).to_string(&write), "1.5");
    assert_eq!(Param::Str("a b".into()).to_string(&write), "\"a b\"");
    assert_eq!(Param::Bool(true).to_string(&write), "1");
    assert_eq!(Param::Bool(false).to_string(&write), "0");
}

#[test]
fn response_display_others() {
    assert_eq!(Response::Empty.to_string(&write_scientific), "");
    assert_eq!(
        Response::Float(float(3.3)).to_string(&write_scientific),
        "3.300000E0"
    );
    assert_eq!(
        Response::Character("max".into()).to_string(&write_scientific),
        "MAX"
    );
    assert_eq!(
        Response::Integer(i64::MIN).to_string(&write_scientific),
        "-9223372036854775808"
    );
    let nested = Response::Compound(vec![
        Response::Compound(vec![Response::Bool(true), Response::Str("x".into())]),
        Response::Empty,
        Response::Compound(vec![]),
    ]);
    assert_eq!(nested.to_string(&write_scientific), "1,\"x\",,");
}

#[test]
fn responses_are_cloned_whole() {
    let r = Response::Compound(vec![
        Response::Str("a".into()),
        Response::Compound(vec![Response::Float(float(0.5))]),
        Response::Empty,
    ]);
    assert_eq!(r.clone(), r);
    assert!(!r.is_empty());
    assert!(Response::Empty.is_empty());
}

#[test]
fn command_matches_its_header() {
    let cmd = Command {
        header: "MEAS:voltage".into(),
        is_query: true,
        suffix: None,
        params: vec![],
    };
    assert!(cmd.matches_header("MEASure:VOLTage"));
    assert!(!cmd.matches_header("MEASure:CURRent"));
    assert!(!cmd.matches_header("MEASure"));
}

#[test]
fn headers_match_in_any_case() {
    assert!(header_matches("meas:VOLT", "MEASure:VOLTage"));
    assert!(header_matches("measURE:volTAGE", "MEASure:VOLTage"));
    assert!(!header_matches("meas:volt:", "MEASure:VOLTage"));
}

#[test]
fn every_pattern_matches_itself() {
    for p in ["MEASure", "*IDN", "a:b:c", "", "SYSTem:ERRor"] {
        assert!(header_matches(p, p));
    }
}

#[test]
fn the_short_form_is_the_uppercase_prefix() {
    assert!(mnemonic_matches("FOO", "FOObAR"));
    assert!(!mnemonic_matches("FOOAR", "FOObAR"));
    assert!(mnemonic_matches("foobar", "FOObAR"));
    assert!(mnemonic_matches("volt", "VOLTage"));
    assert!(!mnemonic_matches("IDN", "*IDN"));
}

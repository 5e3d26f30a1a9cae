use scpify::binary64::Binary64;
use scpify::parser::{parse_char_param, parse_literal};
use scpify::{parse, Param};

fn float(v: f64) -> Binary64 {
    Binary64 { bits: v.to_bits() }
}

fn read(s: &str) -> Option<Binary64> {
    s.parse::<f64>().ok().map(float)
}

#[test]
fn parse_idn_query() {
    let cmds = parse("*IDN?", &read);
    assert_eq!(cmds.len(), 1);
    assert_eq!(cmds[0].header, "*IDN");
    assert!(cmds[0].is_query);
    assert!(cmds[0].params.is_empty());
}

#[test]
fn parse_rst_command() {
    let cmds = parse("*RST", &read);
    assert_eq!(cmds.len(), 1);
    assert_eq!(cmds[0].header, "*RST");
    assert!(!cmds[0].is_query);
}

#[test]
fn parse_subsystem_query() {
    let cmds = parse(":MEASure:VOLTage:DC?", &read);
    assert_eq!(cmds.len(), 1);
    assert!(cmds[0].is_query);
    assert_eq!(cmds[0].header, "MEASure:VOLTage:DC");
}

#[test]
fn parse_command_with_bool_param() {
    let cmds = parse(":OUTPut:STATe ON", &read);
    assert_eq!(cmds.len(), 1);
    assert!(!cmds[0].is_query);
    assert_eq!(cmds[0].params, vec![Param::Bool(true)]);
}

#[test]
fn parse_compound_message() {
    let cmds = parse("*RST;*IDN?", &read);
    assert_eq!(cmds.len(), 2);
    assert_eq!(cmds[0].header, "*RST");
    assert_eq!(cmds[1].header, "*IDN");
    assert!(cmds[1].is_query);
}

#[test]
fn parse_integer_param() {
    let cmds = parse(":FREQuency 1000", &read);
    assert_eq!(cmds[0].params, vec![Param::Integer(1000)]);
}

#[test]
fn parse_float_param() {
    let cmds = parse(":FREQuency 1.5e3", &read);
    assert_eq!(cmds[0].params, vec![Param::Float(float(1500.0))]);
}

#[test]
fn parse_string_param() {
    let cmds = parse(":SYSTem:LABel \"scope 1\"", &read);
    assert_eq!(cmds[0].params, vec![Param::Str("scope 1".into())]);
}

#[test]
fn parse_multiple_params() {
    let cmds = parse(":DATA:POINTS 100,200,300", &read);
    assert_eq!(cmds[0].params.len(), 3);
}

#[test]
fn parse_channel_suffix() {
    let cmds = parse(":CHANnel2:DISPlay ON", &read);
    assert_eq!(cmds[0].suffix, Some(2));
    assert_eq!(cmds[0].header, "CHANnel:DISPlay");
}

#[test]
fn parse_ese_with_integer_param() {
    let cmds = parse("*ESE 32", &read);
    assert_eq!(cmds.len(), 1);
    assert_eq!(cmds[0].header, "*ESE");
    assert!(!cmds[0].is_query);
    assert_eq!(cmds[0].params, vec![Param::Integer(32)]);
}

#[test]
fn character_data_becomes_the_most_specific_parameter() {
    assert_eq!(parse_char_param("on", None), Param::Bool(true));
    assert_eq!(parse_char_param("Off", None), Param::Bool(false));
    assert_eq!(parse_char_param("1", None), Param::Bool(true));
    assert_eq!(parse_char_param("+0", None), Param::Bool(false));
    assert_eq!(parse_char_param("-12", None), Param::Integer(-12));
    assert_eq!(
        parse_char_param("2.5", Some(float(2.5))),
        Param::Float(float(2.5))
    );
    assert_eq!(parse_char_param("MAX", None), Param::Character("MAX".into()));
    // A floating-point reading does not count where there is an integer.
    assert_eq!(
        parse_char_param("7", Some(float(7.0))),
        Param::Integer(7)
    );
}

#[test]
fn integers_beyond_64_bits_are_floats() {
    let cmds = parse("FREQ 9223372036854775808", &read);
    assert_eq!(
        cmds[0].params,
        vec![Param::Float(float(9223372036854775808.0))]
    );
}

#[test]
fn parameters_of_several_kinds() {
    let cmds = parse("CONF? MIN, 1.5, \"x,y\", -3, OFF", &read);
    assert_eq!(cmds.len(), 1);
    assert!(cmds[0].is_query);
    assert_eq!(
        cmds[0].params,
        vec![
            Param::Character("MIN".into()),
            Param::Float(float(1.5)),
            Param::Str("x,y".into()),
            Param::Integer(-3),
            Param::Bool(false),
        ]
    );
}

#[test]
fn compound_messages_are_parsed_part_by_part() {
    let a = ":SOUR:FREQ 10";
    let b = "OUTP ON;*IDN?";
    let mut parts = parse(a, &read);
    parts.extend(parse(b, &read));
    assert_eq!(parse(":SOUR:FREQ 10;OUTP ON;*IDN?", &read), parts);
    assert_eq!(parts.len(), 3);
}

#[test]
fn empty_parts_are_no_commands() {
    assert!(parse("", &read).is_empty());
    assert!(parse(" ;; ; ", &read).is_empty());
    assert_eq!(parse(";*RST;", &read).len(), 1);
}

#[test]
fn parameters_without_a_header_are_dropped() {
    for message in ["? 5;*RST", "\"a\";*RST", "\"a\";;? 1,2;*RST"] {
        let cmds = parse(message, &read);
        assert_eq!(cmds.len(), 1);
        assert_eq!(cmds[0].header, "*RST");
        assert!(!cmds[0].is_query);
        assert_eq!(cmds[0].suffix, None);
        assert!(cmds[0].params.is_empty());
    }
}

#[test]
fn a_word_behind_a_string_is_a_parameter() {
    let cmds = parse("LAB:\"a\"FOO", &read);
    assert_eq!(cmds.len(), 1);
    assert_eq!(cmds[0].header, "LAB");
    assert_eq!(
        cmds[0].params,
        vec![Param::Str("a".into()), Param::Character("FOO".into())]
    );
}

#[test]
fn the_last_suffix_counts() {
    let cmds = parse("CH1:TRAC2;MEAS", &read);
    assert_eq!(cmds[0].suffix, Some(2));
    assert_eq!(cmds[1].suffix, None);
}

#[test]
fn integers_are_written_and_parsed_back() {
    for n in [-5i64, 2, 10, 255, i64::MAX, i64::MIN] {
        let cmds = parse(&format!("*ESE {}", n), &read);
        assert_eq!(cmds.len(), 1);
        assert_eq!(cmds[0].header, "*ESE");
        assert_eq!(cmds[0].params, vec![Param::Integer(n)]);
    }
}

#[test]
fn literal_parameters_keep_one_and_zero() {
    let message = "A 1,+0,ON,off,2;B 2.5,MAX,\"1\"";
    let literal = parse_literal(message, &read);
    assert_eq!(
        literal[0].params,
        vec![
            Param::Integer(1),
            Param::Integer(0),
            Param::Bool(true),
            Param::Bool(false),
            Param::Integer(2),
        ]
    );
    let cmds = parse(message, &read);
    assert_eq!(
        cmds[0].params,
        vec![
            Param::Bool(true),
            Param::Bool(false),
            Param::Bool(true),
            Param::Bool(false),
            Param::Integer(2),
        ]
    );
    assert_eq!(literal[1], cmds[1]);
}

#[test]
fn headers_have_no_empty_segments() {
    for message in ["::A::B:;:C", "*IDN?", ": :D :E", "1A2:3"] {
        for cmd in parse(message, &read) {
            assert!(cmd.header.split(':').all(|segment| !segment.is_empty()));
        }
    }
}

#[test]
fn parsing_twice_gives_the_same() {
    let message = "CONF:VOLT 1.5,MIN;\"a\";*ESE 3";
    assert_eq!(parse(message, &read), parse(message, &read));
}

use scpify::token::{tokenize, Token, Tokenizer};

fn tokens(s: &str) -> Vec<Token<'_>> {
    tokenize(s).collect()
}

#[test]
fn simple_idn_query() {
    let t = tokens("*IDN?");
    assert_eq!(t, vec![Token::Mnemonic("*IDN"), Token::Query]);
}

#[test]
fn simple_rst() {
    let t = tokens("*RST");
    assert_eq!(t, vec![Token::Mnemonic("*RST")]);
}

#[test]
fn subsystem_query() {
    let t = tokens(":MEASure:VOLTage:DC?");
    assert_eq!(
        t,
        vec![
            Token::Mnemonic("MEASure"),
            Token::Mnemonic("VOLTage"),
            Token::Mnemonic("DC"),
            Token::Query,
        ]
    );
}

#[test]
fn command_with_bool_param() {
    let t = tokens(":OUTPut:STATe ON");
    assert_eq!(
        t,
        vec![
            Token::Mnemonic("OUTPut"),
            Token::Mnemonic("STATe"),
            Token::CharParam("ON"),
        ]
    );
}

#[test]
fn token_compound_message() {
    let t = tokens("*RST;*IDN?");
    assert_eq!(
        t,
        vec![
            Token::Mnemonic("*RST"),
            Token::MessageTerminator,
            Token::Mnemonic("*IDN"),
            Token::Query,
        ]
    );
}

#[test]
fn numeric_suffix_no_space() {
    // `2` immediately follows `CHANnel`: it is a suffix, not a param.
    let t = tokens(":CHANnel2:DISPlay ON");
    assert_eq!(
        t,
        vec![
            Token::Mnemonic("CHANnel"),
            Token::NumericSuffix(2),
            Token::Mnemonic("DISPlay"),
            Token::CharParam("ON"),
        ]
    );
}

#[test]
fn numeric_param_after_whitespace() {
    // `32` is separated by whitespace: it is a parameter.
    let t = tokens("*ESE 32");
    assert_eq!(t, vec![Token::Mnemonic("*ESE"), Token::CharParam("32")],);
}

#[test]
fn string_parameter() {
    let t = tokens(":SYSTem:LABel \"Hello\"");
    assert_eq!(
        t,
        vec![
            Token::Mnemonic("SYSTem"),
            Token::Mnemonic("LABel"),
            Token::StringParam("Hello"),
        ]
    );
}

#[test]
fn float_parameter() {
    let t = tokens(":FREQuency 1.5e3");
    assert_eq!(
        t,
        vec![Token::Mnemonic("FREQuency"), Token::CharParam("1.5e3")],
    );
}

#[test]
fn multiple_params_with_comma() {
    let t = tokens(":DATA:POINTS 100,200,300");
    assert_eq!(
        t,
        vec![
            Token::Mnemonic("DATA"),
            Token::Mnemonic("POINTS"),
            Token::CharParam("100"),
            Token::ParameterSeparator,
            Token::CharParam("200"),
            Token::ParameterSeparator,
            Token::CharParam("300"),
        ]
    );
}

#[test]
fn query_with_param() {
    // Some instruments accept params on queries, e.g. `*ESE? 32` (rare).
    let t = tokens(":CHANnel1:MEASure? RMS");
    assert_eq!(
        t,
        vec![
            Token::Mnemonic("CHANnel"),
            Token::NumericSuffix(1),
            Token::Mnemonic("MEASure"),
            Token::Query,
            Token::CharParam("RMS"),
        ]
    );
}

#[test]
fn next_walks_through_a_message() {
    let mut lexer = Tokenizer::new(":OUTP ON");
    assert_eq!(lexer.next(), Some(Token::Mnemonic("OUTP")));
    assert_eq!(lexer.next(), Some(Token::CharParam("ON")));
    assert_eq!(lexer.next(), None);
    assert_eq!(lexer.next(), None);
}

#[test]
fn blank_messages_have_no_tokens() {
    assert_eq!(tokens(""), vec![]);
    assert_eq!(tokens(" \t\r\n"), vec![]);
    assert_eq!(tokens(":::"), vec![]);
}

#[test]
fn a_suffix_beyond_32_bits_counts_as_zero() {
    assert_eq!(
        tokens("CH4294967295"),
        vec![Token::Mnemonic("CH"), Token::NumericSuffix(4294967295)]
    );
    assert_eq!(
        tokens("CH4294967296"),
        vec![Token::Mnemonic("CH"), Token::NumericSuffix(0)]
    );
}

#[test]
fn star_mnemonics_keep_their_digits() {
    assert_eq!(tokens("*DDT2"), vec![Token::Mnemonic("*DDT2")]);
    assert_eq!(
        tokens("A1B2"),
        vec![Token::Mnemonic("A1B"), Token::NumericSuffix(2)]
    );
}

#[test]
fn an_open_string_swallows_the_semicolon() {
    assert_eq!(
        tokens("LAB \"a;*RST"),
        vec![Token::Mnemonic("LAB"), Token::StringParam("a;*RST")]
    );
    assert_eq!(
        tokens("LAB \"a\";*RST"),
        vec![
            Token::Mnemonic("LAB"),
            Token::StringParam("a"),
            Token::MessageTerminator,
            Token::Mnemonic("*RST"),
        ]
    );
}

#[test]
fn a_quote_within_character_data_is_kept() {
    assert_eq!(
        tokens("LAB x\"y;z"),
        vec![
            Token::Mnemonic("LAB"),
            Token::CharParam("x\"y"),
            Token::MessageTerminator,
            Token::Mnemonic("z"),
        ]
    );
}

#[test]
fn white_space_around_parameters_is_dropped() {
    assert_eq!(
        tokens("FREQ   10 \u{a0}, -5 "),
        vec![
            Token::Mnemonic("FREQ"),
            Token::CharParam("10"),
            Token::ParameterSeparator,
            Token::CharParam("-5"),
        ]
    );
}

#[test]
fn signs_and_other_characters_are_skipped_in_a_header() {
    assert_eq!(
        tokens("+-.%\u{e9}FREQ?"),
        vec![Token::Mnemonic("FREQ"), Token::Query]
    );
}

#[test]
fn space_behind_a_colon_stays_in_the_header() {
    assert_eq!(
        tokens(": MEAS: VOLT?"),
        vec![
            Token::Mnemonic("MEAS"),
            Token::Mnemonic("VOLT"),
            Token::Query,
        ]
    );
}

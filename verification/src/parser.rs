//! SCPI message parser.
//!
//! Converts a raw SCPI string into a list of [`Command`]s ready for
//! dispatch by a [`crate::Device`].
//!
//! The parser uses the token stream from [`crate::token`] and reconstructs
//! the hierarchical header path, splitting on `;` compound-message
//! separators.

use vstd::prelude::*;

use crate::binary64::Binary64;
use crate::command::{
    all_with_shorthands, command_views, lemma_keywords, param_views, read_with, reads, reads_any,
    shorthand, take_shorthand, take_shorthands, with_shorthands, Command, CommandView, Param, ParamView,
};
use crate::number::{
    decimal, law_decimal_reads_back, law_signed_decimal_reads_back, parse_signed, signed_decimal,
    signed_value,
};
use crate::text::{
    colon_pieces, join, joined, lemma_pieces_of_joined, same_text, texts, to_ascii_uppercase,
    upper, CharClass,
};
use crate::token::{
    can_be_ended, compound, is_numeric_text, is_segment_token, is_star_word, law_compound_tokens,
    law_mnemonics_are_segments, law_star_word_query, law_star_word_with_number,
    lemma_lex_consumes, message_tokens, tokenize, tokens, Token, TokenView,
};

verus! {

// ---------------------------------------------------------------------------
// Character data
// ---------------------------------------------------------------------------

/// The truth value that a keyword stands for.
pub open spec fn boolean_keyword(s: Seq<char>) -> Option<bool> {
    if upper(s) == "ON"@ {
        Some(true)
    } else if upper(s) == "OFF"@ {
        Some(false)
    } else {
        None
    }
}

/// Whether it takes a floating-point reading of `s` to tell what it is:
/// `s` is neither a boolean keyword nor an integer.
pub open spec fn needs_float(s: Seq<char>) -> bool {
    boolean_keyword(s) is None && signed_value(s) is None
}

/// The most specific parameter that `s` can stand for as it is written,
/// where `float` is its floating-point reading.
pub open spec fn literal_param(s: Seq<char>, float: Option<Binary64>) -> ParamView {
    if boolean_keyword(s) is Some {
        ParamView::Bool(boolean_keyword(s)->0)
    } else if signed_value(s) is Some {
        ParamView::Integer(signed_value(s)->0)
    } else if float is Some {
        ParamView::Float(float->0)
    } else {
        ParamView::Character(s)
    }
}

/// The most specific parameter that `s` can stand for, where `float` is its
/// floating-point reading: 1 and 0 are boolean shorthands.
pub open spec fn char_param(s: Seq<char>, float: Option<Binary64>) -> ParamView {
    shorthand(literal_param(s, float))
}

/// Read a boolean keyword.
fn read_keyword(s: &str) -> (r: Option<bool>)
    ensures
        r == boolean_keyword(s@),
{
    let u = to_ascii_uppercase(s);
    if same_text(u.as_str(), "ON") {
        Some(true)
    } else if same_text(u.as_str(), "OFF") {
        Some(false)
    } else {
        None
    }
}

/// Convert a raw character-data string into the most specific [`Param`]
/// variant possible, without taking 1 and 0 for truth values.
fn parse_literal_param(s: &str, float: Option<Binary64>) -> (r: Param)
    ensures
        r@ == literal_param(s@, float),
{
    // Boolean keyword?
    if let Some(b) = read_keyword(s) {
        return Param::Bool(b);
    }

    // Integer?
    if let Some(n) = parse_signed(s) {
        return Param::Integer(n);
    }

    // Float?
    if let Some(f) = float {
        return Param::Float(f);
    }

    // Character data / mnemonic.
    Param::Character(s.to_owned())
}

/// Convert a raw character-data string into the most specific [`Param`]
/// variant possible.  `float` is what the string reads as a floating-point
/// number; it counts only where the string is neither a boolean keyword nor
/// an integer.  1 and 0 are boolean shorthands.
pub fn parse_char_param(s: &str, float: Option<Binary64>) -> (r: Param)
    ensures
        r@ == char_param(s@, float),
{
    take_shorthand(&parse_literal_param(s, float))
}

/// Read character data as it is written, asking `read` about it where
/// needed.
fn read_literal_param<F: Fn(&str) -> Option<Binary64>>(s: &str, read: &F) -> (r: (
    Param,
    Ghost<Option<Binary64>>,
))
    requires
        reads_any(*read),
    ensures
        r.0@ == literal_param(s@, r.1@),
        needs_float(s@) ==> reads(*read, s@, r.1@),
{
    let mut float: Option<Binary64> = None;
    if read_keyword(s).is_none() && parse_signed(s).is_none() {
        float = read_with(read, s);
    }
    (parse_literal_param(s, float), Ghost(float))
}

// ---------------------------------------------------------------------------
// The command grammar
// ---------------------------------------------------------------------------

/// How far a message has been parsed.
#[verifier::ext_equal]
pub struct ParseState {
    /// The commands that are complete.
    pub done: Seq<CommandView>,
    /// The header segments of the command at hand.
    pub segments: Seq<Seq<char>>,
    pub suffix: Option<u32>,
    pub is_query: bool,
    pub params: Seq<ParamView>,
    /// A parameter or the query mark has been seen.
    pub in_params: bool,
}

/// The state before the first token.
pub open spec fn parse_start() -> ParseState {
    ParseState {
        done: Seq::empty(),
        segments: Seq::empty(),
        suffix: None,
        is_query: false,
        params: Seq::empty(),
        in_params: false,
    }
}

/// The commands once the one at hand is complete too.  Without a header
/// there is none.
pub open spec fn flushed(st: ParseState) -> Seq<CommandView> {
    if st.segments.len() > 0 {
        st.done.push(
            CommandView {
                header: joined(st.segments, ':'),
                is_query: st.is_query,
                suffix: st.suffix,
                params: st.params,
            },
        )
    } else {
        st.done
    }
}

/// The state behind one more token.  `float` is the floating-point reading
/// of the token, where it takes one.
pub open spec fn parse_step(st: ParseState, token: TokenView, float: Option<Binary64>) -> ParseState {
    match token {
        TokenView::Mnemonic(m) => if st.in_params {
            // A mnemonic appearing in param position is character data.
            ParseState { params: st.params.push(literal_param(m, float)), ..st }
        } else {
            ParseState { segments: st.segments.push(m), ..st }
        },
        TokenView::NumericSuffix(n) => ParseState { suffix: Some(n), ..st },
        TokenView::Query => ParseState { is_query: true, in_params: true, ..st },
        TokenView::CharParam(s) => ParseState {
            params: st.params.push(literal_param(s, float)),
            in_params: true,
            ..st
        },
        TokenView::StringParam(s) => ParseState {
            params: st.params.push(ParamView::Str(s)),
            in_params: true,
            ..st
        },
        TokenView::ParameterSeparator => st,
        TokenView::MessageTerminator => ParseState { done: flushed(st), ..parse_start() },
    }
}

/// The text of a token whose floating-point reading counts.
pub open spec fn float_text(st: ParseState, token: TokenView) -> Option<Seq<char>> {
    match token {
        TokenView::Mnemonic(m) => if st.in_params && needs_float(m) { Some(m) } else { None },
        TokenView::CharParam(s) => if needs_float(s) { Some(s) } else { None },
        _ => None,
    }
}

/// The state behind a run of tokens, with the floating-point reading of
/// each.
pub open spec fn parse_state(ts: Seq<TokenView>, floats: Seq<Option<Binary64>>) -> ParseState
    decreases ts.len(),
{
    if ts.len() == 0 {
        parse_start()
    } else {
        parse_step(parse_state(ts.drop_last(), floats.drop_last()), ts.last(), floats.last())
    }
}

/// The readings are such that `read` may give, wherever one counts.
pub open spec fn reads_tokens<F: Fn(&str) -> Option<Binary64>>(
    read: F,
    ts: Seq<TokenView>,
    floats: Seq<Option<Binary64>>,
) -> bool
    decreases ts.len(),
{
    if ts.len() == 0 {
        floats.len() == 0
    } else {
        &&& floats.len() > 0
        &&& reads_tokens(read, ts.drop_last(), floats.drop_last())
        &&& float_text(parse_state(ts.drop_last(), floats.drop_last()), ts.last()) matches Some(s)
            ==> reads(read, s, floats.last())
    }
}

/// The commands that a run of tokens stands for, with the floating-point
/// reading of each.
pub open spec fn commands_of(ts: Seq<TokenView>, floats: Seq<Option<Binary64>>) -> Seq<CommandView> {
    flushed(parse_state(ts, floats))
}

/// `commands` is what `message` may stand for, with every parameter as it is
/// written, where `read` reads floating-point numbers.
pub open spec fn parses_literally<F: Fn(&str) -> Option<Binary64>>(
    read: F,
    message: Seq<char>,
    commands: Seq<CommandView>,
) -> bool {
    exists|floats: Seq<Option<Binary64>>| #[trigger]
        reads_tokens(read, message_tokens(message), floats) && commands == commands_of(
            message_tokens(message),
            floats,
        )
}

/// `commands` is what `message` may stand for where `read` reads
/// floating-point numbers.
pub open spec fn parses<F: Fn(&str) -> Option<Binary64>>(
    read: F,
    message: Seq<char>,
    commands: Seq<CommandView>,
) -> bool {
    exists|literal: Seq<CommandView>| #[trigger]
        parses_literally(read, message, literal) && commands == all_with_shorthands(literal)
}

// ---------------------------------------------------------------------------
// Parser
// ---------------------------------------------------------------------------

/// Parse a raw SCPI message string into a `Vec<Command>`.
///
/// Compound messages (`"*RST;*IDN?"`) are split on `;` and each sub-message
/// is returned as a separate [`Command`].
///
/// Infallible: malformed tokens are silently skipped.  `read` reads
/// floating-point numbers.
pub fn parse<F: Fn(&str) -> Option<Binary64>>(message: &str, read: &F) -> (r: Vec<Command>)
    requires
        reads_any(*read),
    ensures
        parses(*read, message@, command_views(r@)),
{
    let literal = parse_literal(message, read);
    let mut commands: Vec<Command> = Vec::new();
    let mut i: usize = 0;
    while i < literal.len()
        invariant
            0 <= i <= literal@.len(),
            commands@.len() == i,
            forall|j: int|
                0 <= j < i ==> (#[trigger] commands@[j])@ == with_shorthands(literal@[j]@),
        decreases literal@.len() - i,
    {
        commands.push(take_shorthands(&literal[i]));
        i = i + 1;
    }
    assert(command_views(commands@) =~= all_with_shorthands(command_views(literal@)));
    commands
}

/// Parse a raw SCPI message string as [`parse`] does, but keep every
/// parameter as it is written: 1 and 0 are integers, and only `ON` and `OFF`
/// are truth values.
pub fn parse_literal<F: Fn(&str) -> Option<Binary64>>(message: &str, read: &F) -> (r: Vec<
    Command,
>)
    requires
        reads_any(*read),
    ensures
        parses_literally(*read, message@, command_views(r@)),
{
    let mut commands: Vec<Command> = Vec::new();

    let mut segments: Vec<String> = Vec::new();
    let mut suffix: Option<u32> = None;
    let mut is_query: bool = false;
    let mut params: Vec<Param> = Vec::new();
    let mut in_params: bool = false;

    let mut lexer = tokenize(message);
    let mut done: bool = false;
    let ghost mut read_so_far: Seq<TokenView> = Seq::empty();
    let ghost mut floats: Seq<Option<Binary64>> = Seq::empty();
    proof {
        assert(read_so_far + tokens(lexer@) =~= message_tokens(message@));
        assert(command_views(commands@) =~= Seq::empty());
        assert(texts(segments@) =~= Seq::empty());
        assert(param_views(params@) =~= Seq::empty());
    }
    while !done
        invariant
            reads_any(*read),
            !done ==> read_so_far + tokens(lexer@) == message_tokens(message@),
            done ==> read_so_far == message_tokens(message@),
            floats.len() == read_so_far.len(),
            reads_tokens(*read, read_so_far, floats),
            parse_state(read_so_far, floats) == (ParseState {
                done: command_views(commands@),
                segments: texts(segments@),
                suffix,
                is_query,
                params: param_views(params@),
                in_params,
            }),
        decreases lexer@.rest.len(), (if done { 0int } else { 1int }),
    {
        let ghost before = lexer@;
        let ghost mut float: Option<Binary64> = None;
        proof {
            lemma_lex_consumes(before);
        }
        match lexer.next() {
            None => {
                proof {
                    assert(read_so_far + tokens(before) =~= read_so_far);
                }
                done = true;
            },
            Some(token) => {
                let ghost view = token@;
                match token {
                    Token::Mnemonic(m) => {
                        if in_params {
                            // A mnemonic appearing in param position is
                            // character data.
                            let ghost old_params = params@;
                            let (param, Ghost(reading)) = read_literal_param(m, read);
                            params.push(param);
                            proof {
                                float = reading;
                                assert(param_views(params@) =~= param_views(old_params).push(
                                    param@,
                                ));
                            }
                        } else {
                            let ghost old_segments = segments@;
                            segments.push(m.to_owned());
                            proof {
                                assert(texts(segments@) =~= texts(old_segments).push(m@));
                            }
                        }
                    },
                    Token::NumericSuffix(n) => {
                        // A suffix is kept until the command is finalised.
                        suffix = Some(n);
                    },
                    Token::Query => {
                        is_query = true;
                        in_params = true;
                    },
                    Token::CharParam(s) => {
                        let ghost old_params = params@;
                        let (param, Ghost(reading)) = read_literal_param(s, read);
                        params.push(param);
                        in_params = true;
                        proof {
                            float = reading;
                            assert(param_views(params@) =~= param_views(old_params).push(param@));
                        }
                    },
                    Token::StringParam(s) => {
                        let ghost old_params = params@;
                        params.push(Param::Str(s.to_owned()));
                        in_params = true;
                        proof {
                            assert(param_views(params@) =~= param_views(old_params).push(
                                ParamView::Str(s@),
                            ));
                        }
                    },
                    Token::ParameterSeparator => {
                        // Nothing to do; just continue collecting params.
                    },
                    Token::MessageTerminator => {
                        let mut taken: Vec<Param> = Vec::new();
                        std::mem::swap(&mut taken, &mut params);
                        if segments.len() > 0 {
                            let ghost old_commands = commands@;
                            let command = Command {
                                header: join(&segments, ':'),
                                is_query,
                                suffix,
                                params: taken,
                            };
                            commands.push(command);
                            proof {
                                assert(command_views(commands@) =~= command_views(
                                    old_commands,
                                ).push(command@));
                            }
                        }
                        // Without a header there is no command, and the
                        // parameters are dropped.
                        segments.clear();
                        suffix = None;
                        is_query = false;
                        in_params = false;
                        proof {
                            assert(texts(segments@) =~= Seq::empty());
                            assert(param_views(params@) =~= Seq::empty());
                        }
                    },
                }
                proof {
                    let ts = read_so_far.push(view);
                    let fs = floats.push(float);
                    assert(ts.drop_last() =~= read_so_far);
                    assert(fs.drop_last() =~= floats);
                    assert(ts + tokens(lexer@) =~= read_so_far + tokens(before));
                    read_so_far = ts;
                    floats = fs;
                }
            },
        }
    }

    // Flush the last command.
    let ghost st = parse_state(read_so_far, floats);
    if segments.len() > 0 {
        let ghost old_commands = commands@;
        let command = Command { header: join(&segments, ':'), is_query, suffix, params };
        commands.push(command);
        proof {
            assert(command_views(commands@) =~= command_views(old_commands).push(command@));
        }
    }
    proof {
        assert(texts(segments@).len() == segments@.len());
        assert(command_views(commands@) == flushed(st));
    }
    commands
}

// ---------------------------------------------------------------------------
// Compound messages
// ---------------------------------------------------------------------------

/// What is parsed behind a terminator is parsed as from the start.
proof fn lemma_parse_behind_terminator(
    ta: Seq<TokenView>,
    fa: Seq<Option<Binary64>>,
    f: Option<Binary64>,
    tb: Seq<TokenView>,
    fb: Seq<Option<Binary64>>,
)
    requires
        fa.len() == ta.len(),
        fb.len() == tb.len(),
    ensures
        ({
            let st = parse_state(tb, fb);
            parse_state(ta.push(TokenView::MessageTerminator) + tb, fa.push(f) + fb) == (
            ParseState { done: commands_of(ta, fa) + st.done, ..st })
        }),
    decreases tb.len(),
{
    let ts = ta.push(TokenView::MessageTerminator) + tb;
    let fs = fa.push(f) + fb;
    if tb.len() == 0 {
        assert(ts =~= ta.push(TokenView::MessageTerminator));
        assert(fs =~= fa.push(f));
        assert(ts.drop_last() =~= ta);
        assert(fs.drop_last() =~= fa);
        let st = parse_state(tb, fb);
        assert(commands_of(ta, fa) + st.done =~= commands_of(ta, fa));
        assert(parse_state(ts, fs) == parse_step(
            parse_state(ta, fa),
            TokenView::MessageTerminator,
            f,
        ));
        assert(parse_state(ts, fs).params =~= Seq::empty());
    } else {
        lemma_parse_behind_terminator(ta, fa, f, tb.drop_last(), fb.drop_last());
        assert(ts.drop_last() =~= ta.push(TokenView::MessageTerminator) + tb.drop_last());
        assert(fs.drop_last() =~= fa.push(f) + fb.drop_last());
        let before = parse_state(tb.drop_last(), fb.drop_last());
        let st = parse_state(tb, fb);
        let d = commands_of(ta, fa);
        let whole = parse_state(ts.drop_last(), fs.drop_last());
        assert(whole == (ParseState { done: d + before.done, ..before }));
        assert(flushed(whole) =~= d + flushed(before));
        assert(parse_state(ts, fs) == parse_step(whole, tb.last(), fb.last()));
        assert(parse_state(ts, fs) =~= (ParseState { done: d + st.done, ..st }));
    }
}

proof fn lemma_readings_behind_terminator<F: Fn(&str) -> Option<Binary64>>(
    read: F,
    ta: Seq<TokenView>,
    fa: Seq<Option<Binary64>>,
    f: Option<Binary64>,
    tb: Seq<TokenView>,
    fb: Seq<Option<Binary64>>,
)
    requires
        fa.len() == ta.len(),
        fb.len() == tb.len(),
    ensures
        reads_tokens(read, ta.push(TokenView::MessageTerminator) + tb, fa.push(f) + fb) == (
        reads_tokens(read, ta, fa) && reads_tokens(read, tb, fb)),
    decreases tb.len(),
{
    let ts = ta.push(TokenView::MessageTerminator) + tb;
    let fs = fa.push(f) + fb;
    if tb.len() == 0 {
        assert(ts.drop_last() =~= ta);
        assert(fs.drop_last() =~= fa);
    } else {
        lemma_readings_behind_terminator(read, ta, fa, f, tb.drop_last(), fb.drop_last());
        lemma_parse_behind_terminator(ta, fa, f, tb.drop_last(), fb.drop_last());
        assert(ts.drop_last() =~= ta.push(TokenView::MessageTerminator) + tb.drop_last());
        assert(fs.drop_last() =~= fa.push(f) + fb.drop_last());
    }
}

proof fn lemma_readings_len<F: Fn(&str) -> Option<Binary64>>(
    read: F,
    ts: Seq<TokenView>,
    floats: Seq<Option<Binary64>>,
)
    requires
        reads_tokens(read, ts, floats),
    ensures
        floats.len() == ts.len(),
    decreases ts.len(),
{
    if ts.len() > 0 {
        lemma_readings_len(read, ts.drop_last(), floats.drop_last());
    }
}

proof fn lemma_compound_commands(
    a: Seq<char>,
    b: Seq<char>,
    fa: Seq<Option<Binary64>>,
    f: Option<Binary64>,
    fb: Seq<Option<Binary64>>,
)
    requires
        can_be_ended(a),
        fa.len() == message_tokens(a).len(),
        fb.len() == message_tokens(b).len(),
    ensures
        commands_of(message_tokens(compound(a, b)), fa.push(f) + fb) == commands_of(
            message_tokens(a),
            fa,
        ) + commands_of(message_tokens(b), fb),
{
    let ta = message_tokens(a);
    let tb = message_tokens(b);
    law_compound_tokens(a, b);
    let ca = commands_of(ta, fa);
    let cb = commands_of(tb, fb);
    let c = commands_of(message_tokens(compound(a, b)), fa.push(f) + fb);
    lemma_parse_behind_terminator(ta, fa, f, tb, fb);
    assert(c =~= ca + cb);
}

/// The commands of a compound message, with every parameter as it is written,
/// are those of the part before the semicolon followed by those of the part
/// behind it.  The first part must be one that a semicolon ends.
pub proof fn law_compound_literally<F: Fn(&str) -> Option<Binary64>>(
    read: F,
    a: Seq<char>,
    b: Seq<char>,
    commands: Seq<CommandView>,
)
    requires
        can_be_ended(a),
    ensures
        parses_literally(read, compound(a, b), commands) <==> exists|ca: Seq<CommandView>, cb: Seq<CommandView>|
            #[trigger] parses_literally(read, a, ca) && #[trigger] parses_literally(read, b, cb) && commands == ca + cb,
{
    let ta = message_tokens(a);
    let tb = message_tokens(b);
    let end = TokenView::MessageTerminator;
    law_compound_tokens(a, b);
    if parses_literally(read, compound(a, b), commands) {
        let fs = choose|fs: Seq<Option<Binary64>>| #[trigger]
            reads_tokens(read, message_tokens(compound(a, b)), fs) && commands == commands_of(
                message_tokens(compound(a, b)),
                fs,
            );
        lemma_readings_len(read, ta.push(end) + tb, fs);
        let fa = fs.take(ta.len() as int);
        let f = fs[ta.len() as int];
        let fb = fs.skip(ta.len() as int + 1);
        assert(fs =~= fa.push(f) + fb);
        lemma_compound_commands(a, b, fa, f, fb);
        lemma_readings_behind_terminator(read, ta, fa, f, tb, fb);
        assert(parses_literally(read, a, commands_of(ta, fa)));
        assert(parses_literally(read, b, commands_of(tb, fb)));
    }
    if exists|ca: Seq<CommandView>, cb: Seq<CommandView>| #[trigger]
        parses_literally(read, a, ca) && #[trigger] parses_literally(read, b, cb) && commands == ca + cb {
        let (ca, cb) = choose|ca: Seq<CommandView>, cb: Seq<CommandView>| #[trigger]
            parses_literally(read, a, ca) && #[trigger] parses_literally(read, b, cb) && commands == ca + cb;
        let fa = choose|fs: Seq<Option<Binary64>>| #[trigger]
            reads_tokens(read, ta, fs) && ca == commands_of(ta, fs);
        let fb = choose|fs: Seq<Option<Binary64>>| #[trigger]
            reads_tokens(read, tb, fs) && cb == commands_of(tb, fs);
        lemma_readings_len(read, ta, fa);
        lemma_readings_len(read, tb, fb);
        lemma_compound_commands(a, b, fa, None, fb);
        lemma_readings_behind_terminator(read, ta, fa, None, tb, fb);
        assert(reads_tokens(read, message_tokens(compound(a, b)), fa.push(None) + fb));
    }
}

/// The commands of a compound message are those of the part before the
/// semicolon followed by those of the part behind it.  The first part must be
/// one that a semicolon ends.
pub proof fn law_compound_message<F: Fn(&str) -> Option<Binary64>>(
    read: F,
    a: Seq<char>,
    b: Seq<char>,
    commands: Seq<CommandView>,
)
    requires
        can_be_ended(a),
    ensures
        parses(read, compound(a, b), commands) <==> exists|ca: Seq<CommandView>, cb: Seq<CommandView>|
            #[trigger] parses(read, a, ca) && #[trigger] parses(read, b, cb) && commands == ca + cb,
{
    if parses(read, compound(a, b), commands) {
        let literal = choose|literal: Seq<CommandView>| #[trigger]
            parses_literally(read, compound(a, b), literal) && commands == all_with_shorthands(
                literal,
            );
        law_compound_literally(read, a, b, literal);
        let (la, lb) = choose|la: Seq<CommandView>, lb: Seq<CommandView>| #[trigger]
            parses_literally(read, a, la) && #[trigger] parses_literally(read, b, lb) && literal
                == la + lb;
        assert(parses(read, a, all_with_shorthands(la)));
        assert(parses(read, b, all_with_shorthands(lb)));
        assert(commands =~= all_with_shorthands(la) + all_with_shorthands(lb));
    }
    if exists|ca: Seq<CommandView>, cb: Seq<CommandView>| #[trigger]
        parses(read, a, ca) && #[trigger] parses(read, b, cb) && commands == ca + cb {
        let (ca, cb) = choose|ca: Seq<CommandView>, cb: Seq<CommandView>| #[trigger]
            parses(read, a, ca) && #[trigger] parses(read, b, cb) && commands == ca + cb;
        let la = choose|la: Seq<CommandView>| #[trigger]
            parses_literally(read, a, la) && ca == all_with_shorthands(la);
        let lb = choose|lb: Seq<CommandView>| #[trigger]
            parses_literally(read, b, lb) && cb == all_with_shorthands(lb);
        law_compound_literally(read, a, b, la + lb);
        assert(parses_literally(read, compound(a, b), la + lb));
        assert(commands =~= all_with_shorthands(la + lb));
    }
}

/// `read` makes the same of the same text every time.
pub open spec fn reads_one_way<F: Fn(&str) -> Option<Binary64>>(read: F) -> bool {
    forall|s: Seq<char>, r1: Option<Binary64>, r2: Option<Binary64>|
        #[trigger] reads(read, s, r1) && #[trigger] reads(read, s, r2) ==> r1 == r2
}

proof fn lemma_parsed_one_way<F: Fn(&str) -> Option<Binary64>>(
    read: F,
    ts: Seq<TokenView>,
    f1: Seq<Option<Binary64>>,
    f2: Seq<Option<Binary64>>,
)
    requires
        reads_one_way(read),
        reads_tokens(read, ts, f1),
        reads_tokens(read, ts, f2),
    ensures
        parse_state(ts, f1) == parse_state(ts, f2),
    decreases ts.len(),
{
    if ts.len() > 0 {
        lemma_parsed_one_way(read, ts.drop_last(), f1.drop_last(), f2.drop_last());
        let st = parse_state(ts.drop_last(), f1.drop_last());
        if let Some(s) = float_text(st, ts.last()) {
            assert(reads(read, s, f1.last()) && reads(read, s, f2.last()));
        }
    }
}

/// A message stands for one list of commands, where every text has one
/// floating-point reading.
pub proof fn law_parsing_is_determined<F: Fn(&str) -> Option<Binary64>>(
    read: F,
    message: Seq<char>,
    c1: Seq<CommandView>,
    c2: Seq<CommandView>,
)
    requires
        reads_one_way(read),
    ensures
        parses_literally(read, message, c1) && parses_literally(read, message, c2) ==> c1 == c2,
        parses(read, message, c1) && parses(read, message, c2) ==> c1 == c2,
{
    let ts = message_tokens(message);
    assert forall|l1: Seq<CommandView>, l2: Seq<CommandView>| #[trigger]
        parses_literally(read, message, l1) && #[trigger] parses_literally(
            read,
            message,
            l2,
        ) implies l1 == l2 by {
        let f1 = choose|fs: Seq<Option<Binary64>>| #[trigger]
            reads_tokens(read, ts, fs) && l1 == commands_of(ts, fs);
        let f2 = choose|fs: Seq<Option<Binary64>>| #[trigger]
            reads_tokens(read, ts, fs) && l2 == commands_of(ts, fs);
        lemma_parsed_one_way(read, ts, f1, f2);
    }
}

// ---------------------------------------------------------------------------
// Headers
// ---------------------------------------------------------------------------

/// The segments of a header are the pieces between its colons, and none is
/// empty.
pub open spec fn is_path(header: Seq<char>) -> bool {
    forall|i: int| 0 <= i < colon_pieces(header).len() ==> (#[trigger] colon_pieces(header)[i]).len()
        > 0
}

proof fn lemma_headers(ts: Seq<TokenView>, floats: Seq<Option<Binary64>>)
    requires
        forall|i: int| 0 <= i < ts.len() ==> is_segment_token(#[trigger] ts[i]),
    ensures
        ({
            let st = parse_state(ts, floats);
            &&& forall|i: int|
                0 <= i < st.segments.len() ==> (#[trigger] st.segments[i]).len() > 0
                    && !st.segments[i].contains(':')
            &&& forall|i: int| 0 <= i < flushed(st).len() ==> is_path((#[trigger] flushed(st)[i]).header)
            &&& forall|i: int| 0 <= i < st.done.len() ==> is_path((#[trigger] st.done[i]).header)
        }),
    decreases ts.len(),
{
    let st = parse_state(ts, floats);
    if ts.len() > 0 {
        let before = parse_state(ts.drop_last(), floats.drop_last());
        assert forall|i: int| 0 <= i < ts.drop_last().len() implies is_segment_token(
            #[trigger] ts.drop_last()[i],
        ) by {
            assert(is_segment_token(ts[i]));
        }
        lemma_headers(ts.drop_last(), floats.drop_last());
        assert(is_segment_token(ts[ts.len() - 1]));
        assert(st.done == before.done || st.done == flushed(before));
    }
    if st.segments.len() > 0 {
        lemma_pieces_of_joined(st.segments);
        assert(is_path(joined(st.segments, ':')));
    }
}

/// Every command of a message has a header, and no segment of it is empty.
pub proof fn law_headers_are_paths<F: Fn(&str) -> Option<Binary64>>(
    read: F,
    message: Seq<char>,
    commands: Seq<CommandView>,
)
    requires
        parses(read, message, commands),
    ensures
        forall|i: int| 0 <= i < commands.len() ==> is_path((#[trigger] commands[i]).header),
{
    let ts = message_tokens(message);
    let literal = choose|literal: Seq<CommandView>| #[trigger]
        parses_literally(read, message, literal) && commands == all_with_shorthands(literal);
    let fs = choose|fs: Seq<Option<Binary64>>| #[trigger]
        reads_tokens(read, ts, fs) && literal == commands_of(ts, fs);
    law_mnemonics_are_segments(message);
    lemma_headers(ts, fs);
}

// ---------------------------------------------------------------------------
// Common command messages
// ---------------------------------------------------------------------------

/// The decimal form of an integer is read as one parameter.
proof fn lemma_decimal_is_numeric_text(n: int)
    ensures
        is_numeric_text(signed_decimal(n)),
{
    let d = decimal((if n < 0 { -n } else { n }) as nat);
    law_decimal_reads_back((if n < 0 { -n } else { n }) as nat);
    let s = signed_decimal(n);
    assert(CharClass::Digit.has(d[0]));
    assert(CharClass::Digit.has(d[d.len() - 1]));
    assert(s.last() == d[d.len() - 1]);
    assert forall|i: int| 0 <= i < s.len() implies CharClass::Unseparated.has(#[trigger] s[i]) by {
        if n < 0 {
            if i > 0 {
                assert(s[i] == d[i - 1]);
                assert(CharClass::Digit.has(d[i - 1]));
            }
        } else {
            assert(CharClass::Digit.has(d[i]));
        }
    }
}

/// An integer that is written as a parameter is read back: as itself, or as
/// the truth value that 1 and 0 are shorthands for.
pub proof fn law_integers_are_read_back(n: i64, float: Option<Binary64>)
    ensures
        literal_param(signed_decimal(n as int), float) == ParamView::Integer(n),
        char_param(signed_decimal(n as int), float) == (if n == 1 {
            ParamView::Bool(true)
        } else if n == 0 {
            ParamView::Bool(false)
        } else {
            ParamView::Integer(n)
        }),
        !needs_float(signed_decimal(n as int)),
{
    let s = signed_decimal(n as int);
    law_signed_decimal_reads_back(n);
    lemma_decimal_is_numeric_text(n as int);
    reveal_strlit("ON");
    reveal_strlit("OFF");
    assert(upper(s)[0] == s[0]);
}

/// A common command with an integer stands for one command with that
/// integer, as it is written.
pub proof fn law_common_command_with_integer<F: Fn(&str) -> Option<Binary64>>(
    read: F,
    header: Seq<char>,
    n: i64,
    commands: Seq<CommandView>,
)
    requires
        is_star_word(header),
        parses_literally(read, header + (seq![' '] + signed_decimal(n as int)), commands),
    ensures
        commands == seq![
            CommandView {
                header,
                is_query: false,
                suffix: None,
                params: seq![ParamView::Integer(n)],
            },
        ],
{
    let p = signed_decimal(n as int);
    lemma_decimal_is_numeric_text(n as int);
    law_star_word_with_number(header, p);
    let ts = message_tokens(header + (seq![' '] + p));
    let fs = choose|fs: Seq<Option<Binary64>>| #[trigger]
        reads_tokens(read, ts, fs) && commands == commands_of(ts, fs);
    law_integers_are_read_back(n, fs.last());
    let t1 = ts.drop_last();
    assert(t1 =~= seq![TokenView::Mnemonic(header)]);
    assert(t1.drop_last() =~= Seq::empty());
    let s1 = parse_state(t1, fs.drop_last());
    assert(parse_state(t1.drop_last(), fs.drop_last().drop_last()) == parse_start());
    assert(s1.segments =~= seq![header]);
    let s2 = parse_state(ts, fs);
    assert(s2 == parse_step(s1, TokenView::CharParam(p), fs.last()));
    assert(s2.params =~= seq![ParamView::Integer(n)]);
    assert(joined(s2.segments, ':') == header);
}

/// A common query stands for one command without parameters, as it is
/// written.
pub proof fn law_common_query<F: Fn(&str) -> Option<Binary64>>(
    read: F,
    header: Seq<char>,
    commands: Seq<CommandView>,
)
    requires
        is_star_word(header),
        parses_literally(read, header + seq!['?'], commands),
    ensures
        commands == seq![
            CommandView { header, is_query: true, suffix: None, params: Seq::empty() },
        ],
{
    law_star_word_query(header);
    let ts = message_tokens(header + seq!['?']);
    let fs = choose|fs: Seq<Option<Binary64>>| #[trigger]
        reads_tokens(read, ts, fs) && commands == commands_of(ts, fs);
    let t1 = ts.drop_last();
    assert(t1 =~= seq![TokenView::Mnemonic(header)]);
    assert(t1.drop_last() =~= Seq::empty());
    let s1 = parse_state(t1, fs.drop_last());
    assert(parse_state(t1.drop_last(), fs.drop_last().drop_last()) == parse_start());
    assert(s1.segments =~= seq![header]);
    let s2 = parse_state(ts, fs);
    assert(s2 == parse_step(s1, TokenView::Query, fs.last()));
    assert(joined(s2.segments, ':') == header);
}

// ---------------------------------------------------------------------------
// Laws of parameters
// ---------------------------------------------------------------------------

/// What a written parameter is, whatever its text: `ON` and `OFF`, in whatever
/// case, are truth values; what reads as an integer is that integer, and of
/// those 1 and 0 are truth values once the shorthands are taken; of the rest,
/// what reads as a floating-point number is that number, whatever its sign;
/// and only what reads as none of these is character data, as it stands.
pub proof fn law_parameters_are_typed(s: Seq<char>, float: Option<Binary64>)
    ensures
        ({
            let on = s.len() == 2 && (s[0] == 'o' || s[0] == 'O') && (s[1] == 'n' || s[1] == 'N');
            let off = s.len() == 3 && (s[0] == 'o' || s[0] == 'O') && (s[1] == 'f' || s[1] == 'F')
                && (s[2] == 'f' || s[2] == 'F');
            let n = signed_value(s);
            let p = literal_param(s, float);
            let q = char_param(s, float);
            &&& on ==> p == ParamView::Bool(true) && q == p
            &&& off ==> p == ParamView::Bool(false) && q == p
            &&& !on && !off && n is Some ==> p == ParamView::Integer(n->0)
            &&& !on && !off && n == Some(1i64) ==> q == ParamView::Bool(true)
            &&& !on && !off && n == Some(0i64) ==> q == ParamView::Bool(false)
            &&& !on && !off && n is Some && n->0 != 0 && n->0 != 1 ==> q == p
            &&& !on && !off && n is None && float is Some ==> p == ParamView::Float(float->0) && q
                == p
            &&& !on && !off && n is None && float is None ==> p == ParamView::Character(s) && q == p
            &&& needs_float(s) <==> !on && !off && n is None
        }),
{
    lemma_keywords(s);
    if upper(s) == "ON"@ {
        reveal_strlit("ON");
        reveal_strlit("OFF");
    }
}

/// How one more token changes what has been parsed.  In a header, mnemonics
/// are segments and a number is the suffix.  A parameter or the query mark
/// ends the header, and mnemonics behind it are parameters.  A semicolon ends
/// the command; without a header there is none.
pub proof fn law_tokens_add_up(
    ts: Seq<TokenView>,
    fs: Seq<Option<Binary64>>,
    token: TokenView,
    float: Option<Binary64>,
)
    requires
        fs.len() == ts.len(),
    ensures
        parse_state(Seq::empty(), Seq::empty()) == (ParseState {
            done: Seq::empty(),
            segments: Seq::empty(),
            suffix: None,
            is_query: false,
            params: Seq::empty(),
            in_params: false,
        }),
        ({
            let a = parse_state(ts, fs);
            let b = parse_state(ts.push(token), fs.push(float));
            match token {
                TokenView::Mnemonic(m) => if a.in_params {
                    b == (ParseState { params: a.params.push(literal_param(m, float)), ..a })
                } else {
                    b == (ParseState { segments: a.segments.push(m), ..a })
                },
                TokenView::NumericSuffix(n) => b == (ParseState { suffix: Some(n), ..a }),
                TokenView::Query => b == (ParseState { is_query: true, in_params: true, ..a }),
                TokenView::CharParam(s) => b == (ParseState {
                    params: a.params.push(literal_param(s, float)),
                    in_params: true,
                    ..a
                }),
                TokenView::StringParam(s) => b == (ParseState {
                    params: a.params.push(ParamView::Str(s)),
                    in_params: true,
                    ..a
                }),
                TokenView::ParameterSeparator => b == a,
                TokenView::MessageTerminator => b == (ParseState {
                    done: commands_of(ts, fs),
                    segments: Seq::empty(),
                    suffix: None,
                    is_query: false,
                    params: Seq::empty(),
                    in_params: false,
                }),
            }
        }),
        ({
            let a = parse_state(ts, fs);
            commands_of(ts, fs) == (if a.segments.len() == 0 {
                a.done
            } else {
                a.done.push(
                    CommandView {
                        header: joined(a.segments, ':'),
                        is_query: a.is_query,
                        suffix: a.suffix,
                        params: a.params,
                    },
                )
            })
        }),
{
    assert(ts.push(token).drop_last() =~= ts);
    assert(fs.push(float).drop_last() =~= fs);
}

/// What a message stands for is what it stands for with every parameter as it
/// is written, command by command, with the boolean shorthands taken.
pub proof fn law_parsing_takes_shorthands<F: Fn(&str) -> Option<Binary64>>(
    read: F,
    message: Seq<char>,
    commands: Seq<CommandView>,
)
    ensures
        parses(read, message, commands) <==> exists|literal: Seq<CommandView>|
            {
                &&& #[trigger] parses_literally(read, message, literal)
                &&& literal.len() == commands.len()
                &&& forall|i: int|
                    0 <= i < commands.len() ==> #[trigger] commands[i] == with_shorthands(literal[i])
            },
{
    assert forall|literal: Seq<CommandView>| #[trigger]
        parses_literally(read, message, literal) && literal.len() == commands.len() && (forall|
        i: int,
    |
        0 <= i < commands.len() ==> #[trigger] commands[i] == with_shorthands(
            literal[i],
        )) implies commands == all_with_shorthands(literal) by {
        assert(commands =~= all_with_shorthands(literal));
    }
}

} // verus!

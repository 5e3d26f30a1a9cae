//! What the functions of the library return, stated of the calls themselves.
//!
//! Each law takes the arguments and the result of a call and says what the
//! result must be.  Where the arguments are text, they are written out from
//! the parts that they are made of.

use vstd::prelude::*;
use vstd::utf8::encode_utf8;

use crate::binary64::{law_integers_convert_back, nearest_bits, Binary64};
use crate::command::{
    command_views, header_matches, is_mnemonic, law_compound_responses,
    law_integer_responses_are_read_back, law_only_the_forms_match, law_parameters_as_integers,
    law_parameters_as_truth_values, law_paths_match_by_segment, law_plain_responses,
    lemma_response_views, mnemonic_matches, param_views, renders, response_views, with_shorthands, Command, CommandView, Param,
    Response, ResponseView,
};
use crate::device::{
    all_handled_by, device_after, device_after_all, dispatches, handled_by,
    law_one_response_per_command, response_to, responses_to, takes_line, takes_message, Device,
};
use crate::error::{law_fifo, ErrorQueue, ScpiError, ScpiErrorView};
use crate::ieee488::{
    answer, common_command, errors_after, handle_common_command, law_answers_to_queries,
    law_condition_bits, law_effects_of_commands, law_headers_of_common_commands, law_power_on,
    law_refused_commands_change_nothing, law_summary_bit, power_on, recognise, result_view,
    state_after, CommonCommand, Identification, Ieee488State,
};
use crate::message::{
    command_tokens, header_suffix, is_literally, is_read_as, law_written_commands_are_parsed,
    law_written_commands_are_parsed_literally, law_written_commands_are_tokens,
    law_written_commands_can_be_ended, segment_names, WrittenCommand,
};
use crate::number::{decimal, law_what_reads_as_an_integer, signed_decimal, signed_value};
use crate::parser::{
    char_param, law_compound_message, law_parameters_are_typed, parse, parse_char_param,
    parse_literal, parses, parses_literally,
};
use crate::text::{joined, law_trimming, slice_texts, texts, upper, CharClass};
use crate::token::{compound, lex, lex_start, token_views, tokenize, Token, TokenView, Tokenizer};
use crate::transport::block::{
    all_data, blocks_bytes, ends_blocks, law_blocks_are_read, law_indefinite_block_is_read,
    law_plain_line_is_read, law_what_follows_is_left, raw_response, read_response, Block,
    BlockError,
};
use crate::transport::hislip::{
    header_of, init_response, law_credits, law_handshake_hands_over, law_messages_are_read_back,
    law_next_session_id, law_opening_a_session, law_read_messages_were_written,
    law_requests_and_responses, law_type_codes, law_type_numbers, message_bytes, message_views,
    opened, request_message, takes_client_message, type_code, ClientSession, ClientView, Grant,
    Header, HislipError, Message, MessageType, Server, ServerSession, HEADER_LEN,
};

verus! {

// ---------------------------------------------------------------------------
// Messages
// ---------------------------------------------------------------------------

/// A written command is cut into its tokens, all at once and one at a time.
pub proof fn law_tokenizing<'a>(
    message: &'a str,
    c: WrittenCommand,
    lexer: Tokenizer<'a>,
    made: Tokenizer<'a>,
    all: Vec<Token<'a>>,
)
    requires
        c.well_formed(),
        message@ == c.text(),
        call_ensures(tokenize, (message,), lexer),
        call_ensures(Tokenizer::new, (message,), made),
        call_ensures(Tokenizer::collect, (lexer,), all),
    ensures
        token_views(all@) == command_tokens(c),
        lexer@ == lex_start(message@) && made@ == lexer@,
{
    law_written_commands_are_tokens(c);
}

/// The next token is handed out and the tokenizer stands behind it.
pub proof fn law_next_token<'a>(lexer: &mut Tokenizer<'a>, r: Option<Token<'a>>)
    requires
        call_ensures(Tokenizer::next, (lexer,), r),
    ensures
        match lex(old(lexer)@) {
            Some((token, next)) => r is Some && r->0@ == token && final(lexer)@ == next,
            None => r is None,
        },
{
}

/// A written command is parsed as the one command that it writes down.
pub proof fn law_parsing_a_command<F: Fn(&str) -> Option<Binary64>>(
    message: &str,
    read: &F,
    c: WrittenCommand,
    r: Vec<Command>,
)
    requires
        c.well_formed(),
        message@ == c.text(),
        call_ensures(parse::<F>, (message, read), r),
    ensures
        r@.len() == 1,
        r@[0].header@ == joined(segment_names(c.segments), ':'),
        r@[0].is_query == c.is_query,
        r@[0].suffix == header_suffix(c.segments),
        r@[0].params@.len() == c.params.len(),
        forall|i: int|
            0 <= i < c.params.len() ==> is_read_as(
                *read,
                c.params[i].item,
                (#[trigger] r@[0].params@[i])@,
            ),
{
    let views = command_views(r@);
    law_written_commands_are_parsed(*read, c, views);
    assert(views.len() == r@.len());
    assert(views[0] == r@[0]@);
    assert forall|i: int| 0 <= i < c.params.len() implies is_read_as(
        *read,
        c.params[i].item,
        (#[trigger] r@[0].params@[i])@,
    ) by {
        assert(views[0].params[i] == r@[0].params@[i]@);
    }
}

/// And so it is with every parameter as it is written.
pub proof fn law_parsing_a_command_literally<F: Fn(&str) -> Option<Binary64>>(
    message: &str,
    read: &F,
    c: WrittenCommand,
    r: Vec<Command>,
)
    requires
        c.well_formed(),
        message@ == c.text(),
        call_ensures(parse_literal::<F>, (message, read), r),
    ensures
        r@.len() == 1,
        r@[0].header@ == joined(segment_names(c.segments), ':'),
        r@[0].is_query == c.is_query,
        r@[0].suffix == header_suffix(c.segments),
        r@[0].params@.len() == c.params.len(),
        forall|i: int|
            0 <= i < c.params.len() ==> is_literally(
                *read,
                c.params[i].item,
                (#[trigger] r@[0].params@[i])@,
            ),
{
    let views = command_views(r@);
    law_written_commands_are_parsed_literally(*read, c, views);
    assert(views.len() == r@.len());
    assert(views[0] == r@[0]@);
    assert forall|i: int| 0 <= i < c.params.len() implies is_literally(
        *read,
        c.params[i].item,
        (#[trigger] r@[0].params@[i])@,
    ) by {
        assert(views[0].params[i] == r@[0].params@[i]@);
    }
}

/// A command, a semicolon and any other message are parsed as that command
/// and then the commands of the other message.
pub proof fn law_parsing_a_compound<F: Fn(&str) -> Option<Binary64>>(
    message: &str,
    read: &F,
    c: WrittenCommand,
    rest: Seq<char>,
    r: Vec<Command>,
)
    requires
        c.well_formed(),
        message@ == c.text() + seq![';'] + rest,
        call_ensures(parse::<F>, (message, read), r),
    ensures
        r@.len() > 0,
        parses(*read, c.text(), seq![r@[0]@]),
        parses(*read, rest, command_views(r@.drop_first())),
{
    law_written_commands_can_be_ended(c);
    let views = command_views(r@);
    assert(message@ =~= compound(c.text(), rest));
    law_compound_message(*read, c.text(), rest, views);
    let (ca, cb) = choose|ca: Seq<CommandView>, cb: Seq<CommandView>| #[trigger]
        parses(*read, c.text(), ca) && #[trigger] parses(*read, rest, cb) && views == ca + cb;
    law_written_commands_are_parsed(*read, c, ca);
    assert(views.len() == r@.len());
    assert(views[0] == ca[0]);
    assert(ca =~= seq![r@[0]@]);
    assert(cb =~= command_views(r@.drop_first())) by {
        assert forall|i: int| 0 <= i < cb.len() implies cb[i] == command_views(
            r@.drop_first(),
        )[i] by {
            assert(views[i + 1] == cb[i]);
        }
    }
}

/// Parsed messages are what the laws of parsing speak of, whatever they hold.
pub proof fn law_parsing_any_message<F: Fn(&str) -> Option<Binary64>>(
    message: &str,
    read: &F,
    r: Vec<Command>,
    literal: Vec<Command>,
)
    requires
        call_ensures(parse::<F>, (message, read), r),
        call_ensures(parse_literal::<F>, (message, read), literal),
    ensures
        parses(*read, message@, command_views(r@)),
        parses_literally(*read, message@, command_views(literal@)),
{
}

/// What character data is read as.
pub proof fn law_parsing_a_parameter(s: &str, float: Option<Binary64>, r: Param)
    requires
        call_ensures(parse_char_param, (s, float), r),
    ensures
        signed_value(s@) matches Some(n) ==> n != 0 && n != 1 ==> r == Param::Integer(n),
        signed_value(s@) == Some(1i64) ==> r == Param::Bool(true),
        signed_value(s@) == Some(0i64) ==> r == Param::Bool(false),
        r matches Param::Float(f) ==> float == Some(f) && signed_value(s@) is None,
        r matches Param::Character(t) ==> float is None && signed_value(s@) is None && t@ == s@,
        !(r is Str),
        r@ == char_param(s@, float),
{
    law_parameters_are_typed(s@, float);
    law_what_reads_as_an_integer(s@);
}

// ---------------------------------------------------------------------------
// Matching
// ---------------------------------------------------------------------------

/// A mnemonic matches a pattern exactly if, but for case, it is the uppercase
/// prefix of the pattern or the whole pattern.
pub proof fn law_matching_a_mnemonic(
    received: &str,
    pattern: &str,
    prefix: Seq<char>,
    tail: Seq<char>,
    r: bool,
)
    requires
        pattern@ == prefix + tail,
        forall|i: int| 0 <= i < prefix.len() ==> 'A' <= #[trigger] prefix[i] <= 'Z',
        tail.len() > 0 ==> !('A' <= tail[0] <= 'Z'),
        call_ensures(mnemonic_matches, (received, pattern), r),
    ensures
        r <==> upper(received@) == upper(prefix) || upper(received@) == upper(prefix + tail),
        r ==> received@.len() == prefix.len() || received@.len() == prefix.len() + tail.len(),
{
    law_only_the_forms_match(received@, prefix, tail);
}

/// A header matches a pattern exactly if both have as many segments and each
/// segment matches its own.
pub proof fn law_matching_a_header(
    received: &str,
    pattern: &str,
    rs: Seq<Seq<char>>,
    ps: Seq<Seq<char>>,
    r: bool,
    cmd: &Command,
    m: bool,
)
    requires
        rs.len() > 0 && ps.len() > 0,
        forall|i: int| 0 <= i < rs.len() ==> !(#[trigger] rs[i]).contains(':'),
        forall|i: int| 0 <= i < ps.len() ==> !(#[trigger] ps[i]).contains(':'),
        received@ == joined(rs, ':'),
        pattern@ == joined(ps, ':'),
        cmd.header@ == received@,
        call_ensures(header_matches, (received, pattern), r),
        call_ensures(Command::matches_header, (cmd, pattern), m),
    ensures
        r <==> rs.len() == ps.len() && forall|i: int|
            0 <= i < rs.len() ==> #[trigger] is_mnemonic(rs[i], ps[i]),
        m == r,
{
    law_paths_match_by_segment(rs, ps);
}

// ---------------------------------------------------------------------------
// Parameters and responses
// ---------------------------------------------------------------------------

/// What a parameter is as an integer and as a truth value.
pub proof fn law_reading_a_parameter(p: &Param, n: Option<i64>, b: Option<bool>)
    requires
        call_ensures(Param::as_integer, (p,), n),
        call_ensures(Param::as_bool, (p,), b),
    ensures
        p matches Param::Integer(v) ==> n == Some(*v) && b == Some(*v != 0),
        p matches Param::Float(f) ==> n == Some(f.to_i64_spec()) && b is None,
        p matches Param::Character(s) ==> n == signed_value(s@),
        p matches Param::Character(s) ==> {
            &&& b == Some(true) <==> s@ == seq!['1'] || (s@.len() == 2 && (s@[0] == 'o' || s@[0]
                == 'O') && (s@[1] == 'n' || s@[1] == 'N'))
            &&& b == Some(false) <==> s@ == seq!['0'] || (s@.len() == 3 && (s@[0] == 'o' || s@[0]
                == 'O') && (s@[1] == 'f' || s@[1] == 'F') && (s@[2] == 'f' || s@[2] == 'F'))
        },
        p matches Param::Str(_) ==> n is None && b is None,
        p matches Param::Bool(v) ==> n is None && b == Some(*v),
{
    law_parameters_as_integers(p@, 0);
    law_parameters_as_truth_values(p@);
}

/// What a response is sent as.
pub proof fn law_sending_a_response<G: Fn(Binary64) -> String>(
    response: &Response,
    write: &G,
    text: String,
    empty: bool,
)
    requires
        call_ensures(Response::to_string::<G>, (response, write), text),
        call_ensures(Response::is_empty, (response,), empty),
    ensures
        empty <==> response is Empty,
        response is Empty ==> text@.len() == 0,
        response matches Response::Integer(n) ==> signed_value(text@) == Some(*n) && text@
            == signed_decimal(*n as int),
        response matches Response::Str(s) ==> text@.len() == s@.len() + 2 && text@[0] == '"'
            && text@.last() == '"' && text@.drop_first().drop_last() == s@,
        response matches Response::Character(s) ==> text@ == upper(s@),
        response matches Response::Bool(b) ==> text@.len() == 1 && text@[0] == (if *b {
            '1'
        } else {
            '0'
        }),
        response matches Response::Compound(items) ==> exists|parts: Seq<Seq<char>>|
            {
                &&& parts.len() == items@.len()
                &&& forall|i: int|
                    0 <= i < parts.len() ==> #[trigger] renders(*write, items@[i]@, parts[i])
                &&& text@ == #[trigger] joined(parts, ',')
            },
{
    law_plain_responses(*write, response@, text@);
    match response {
        Response::Integer(n) => {
            law_integer_responses_are_read_back(*write, *n, text@);
        },
        Response::Compound(items) => {
            let views = response_views(items@);
            lemma_response_views(items@);
            law_compound_responses(*write, views, text@);
            let parts = choose|parts: Seq<Seq<char>>|
                {
                    &&& parts.len() == views.len()
                    &&& forall|i: int|
                        0 <= i < views.len() ==> #[trigger] renders(*write, views[i], parts[i])
                    &&& text@ == #[trigger] joined(parts, ',')
                };
            assert forall|i: int| 0 <= i < parts.len() implies #[trigger] renders(
                *write,
                items@[i]@,
                parts[i],
            ) by {
                assert(renders(*write, views[i], parts[i]));
            }
            assert(text@ == joined(parts, ','));
        },
        _ => {},
    }
}

// ---------------------------------------------------------------------------
// Registers and errors
// ---------------------------------------------------------------------------

/// What the live status byte tells.
pub proof fn law_computing_the_status_byte(state: &Ieee488State, queue: &ErrorQueue, r: u8)
    requires
        call_ensures(Ieee488State::compute_stb, (state, queue), r),
    ensures
        r & 0x04 != 0 <==> queue@.len() > 0 || state.stb & 0x04 != 0,
        r & 0x20 != 0 <==> state.esr & state.ese != 0 || state.stb & 0x20 != 0,
        r & 0x9b == state.stb & 0x9b,
        r & 0x40 != 0 <==> (r & 0xbf) & state.sre != 0 || (state.stb & state.sre) & 0x40 != 0,
{
    law_condition_bits(state@, queue@.len() > 0);
    law_summary_bit(state@, queue@.len() > 0);
}

/// What a new instrument starts with, and how it identifies itself.
pub proof fn law_starting_up(id: Identification, state: Ieee488State, text: String)
    requires
        call_ensures(Ieee488State::new, (id,), state),
        call_ensures(Identification::to_string, (&id,), text),
    ensures
        state.esr == 0x80,
        state.ese == 0 && state.sre == 0 && state.stb == 0 && state.self_test_result == 0,
        state.identification@ == id@,
        text@ == joined(
            seq![id.manufacturer@, id.model@, id.serial@, id.version@],
            ',',
        ),
{
    law_power_on(id@);
    reveal_strlit("*IDN");
    let header = "*IDN"@;
    assert(upper(header) =~= header);
    law_headers_of_common_commands(header);
    let cmd = CommandView { header, is_query: true, suffix: None, params: Seq::empty() };
    law_answers_to_queries(cmd, power_on(id@), Seq::empty());
}

/// Which common command a header is.
pub proof fn law_recognising(header: &str, is_query: bool, r: Option<CommonCommand>)
    requires
        call_ensures(recognise, (header, is_query), r),
    ensures
        r == common_command(header@, is_query),
        upper(header@) == "*IDN"@ && is_query ==> r == Some(CommonCommand::Identify),
        upper(header@) == "*STB"@ && is_query ==> r == Some(CommonCommand::StatusByte),
        upper(header@) == "*RST"@ && !is_query ==> r == Some(CommonCommand::Reset),
        upper(header@) == "*CLS"@ && !is_query ==> r == Some(CommonCommand::ClearStatus),
{
    law_headers_of_common_commands(header@);
}

/// What the handling of a common command answers and changes is what the laws
/// of the common commands speak of.
pub proof fn law_handling_a_common_command(
    cmd: &Command,
    state: &mut Ieee488State,
    queue: &mut ErrorQueue,
    r: Result<Response, ScpiError>,
)
    requires
        call_ensures(handle_common_command, (cmd, state, queue), r),
    ensures
        result_view(r) == answer(cmd@, old(state)@, old(queue)@),
        final(state)@ == state_after(cmd@, old(state)@),
        final(queue)@ == errors_after(cmd@, old(queue)@),
        r is Err ==> final(state)@ == old(state)@ && final(queue)@ == old(queue)@,
        final(state).identification@ == old(state).identification@,
        final(state).self_test_result == old(state).self_test_result,
{
    law_effects_of_commands(cmd@, old(state)@, old(queue)@);
    if r is Err {
        law_refused_commands_change_nothing(cmd@, old(state)@, old(queue)@);
    }
    assert(final(state)@.identification == old(state)@.identification);
    assert(final(state)@.self_test_result == old(state)@.self_test_result);
}

/// Errors are put in at the back, and counted.
pub proof fn law_queueing(
    queue: &mut ErrorQueue,
    error: ScpiError,
    fresh: ErrorQueue,
    q: &ErrorQueue,
    n: usize,
    empty: bool,
)
    requires
        call_ensures(ErrorQueue::push, (queue, error), ()),
        call_ensures(ErrorQueue::new, (), fresh),
        call_ensures(ErrorQueue::len, (q,), n),
        call_ensures(ErrorQueue::is_empty, (q,), empty),
    ensures
        final(queue)@ == old(queue)@.push(error@),
        fresh@.len() == 0,
        n == q@.len(),
        empty <==> q@.len() == 0,
{
}

/// The oldest error is taken out of the front, and a cleared queue is empty.
/// An empty queue gives "No error".
pub proof fn law_unqueueing(queue: &mut ErrorQueue, r: ScpiError, cleared: &mut ErrorQueue)
    requires
        call_ensures(ErrorQueue::pop, (queue,), r),
        call_ensures(ErrorQueue::clear, (cleared,), ()),
    ensures
        old(queue)@.len() > 0 ==> r@ == old(queue)@[0] && final(queue)@ == old(queue)@.skip(1),
        old(queue)@.len() == 0 ==> r@ == (ScpiErrorView { code: 0, message: "No error"@ })
            && final(queue)@.len() == 0,
        final(cleared)@.len() == 0,
{
    law_fifo(old(queue)@, 0);
    law_fifo(old(queue)@, 1);
    assert(old(queue)@.len() > 0 ==> final(queue)@ =~= old(queue)@.skip(1));
}

// ---------------------------------------------------------------------------
// The device
// ---------------------------------------------------------------------------

/// A new device has no handlers and no errors, and its registers are those of
/// an instrument that has just been switched on.
pub proof fn law_a_new_device<H: Fn(&Command) -> Option<Response>>(
    id: Identification,
    d: Device<H>,
    n: usize,
    state: &Ieee488State,
    queue: &ErrorQueue,
)
    requires
        call_ensures(Device::<H>::new, (id,), d),
        call_ensures(Device::<H>::handler_count, (&d,), n),
        call_ensures(Device::<H>::registers, (&d,), state),
        call_ensures(Device::<H>::errors, (&d,), queue),
    ensures
        n == 0,
        d.handlers().len() == 0,
        d.well_formed(),
        state.identification@ == id@,
        state.esr == 0x80 && state.ese == 0 && state.sre == 0 && state.stb == 0,
        queue@.len() == 0,
{
    law_power_on(id@);
    assert(state@ == power_on(id@));
    assert(state@.esr == state.esr);
}

/// A handler is registered behind the others, and nothing else changes.  The
/// oldest error is handed out and leaves the queue.
pub proof fn law_registering_and_asking_for_errors<H: Fn(&Command) -> Option<Response>>(
    d: &mut Device<H>,
    handler: H,
    asked: &mut Device<H>,
    error: ScpiError,
)
    requires
        call_ensures(Device::<H>::register, (d, handler), ()),
        call_ensures(Device::<H>::next_error, (asked,), error),
    ensures
        final(d).handlers() == old(d).handlers().push(handler),
        final(d)@ == old(d)@,
        final(asked).handlers() == old(asked).handlers(),
        final(asked)@.state == old(asked)@.state,
        old(asked)@.errors.len() > 0 ==> error@ == old(asked)@.errors[0] && final(asked)@.errors
            == old(asked)@.errors.skip(1),
        old(asked)@.errors.len() == 0 ==> error@.code == 0 && final(asked)@.errors.len() == 0,
{
    law_fifo(old(asked)@.errors, 0);
    law_fifo(old(asked)@.errors, 1);
    assert(old(asked)@.errors.len() > 0 ==> final(asked)@.errors =~= old(asked)@.errors.skip(1));
}

/// A message is taken as the laws of the device say, and every command that
/// it stands for gets one response.
pub proof fn law_processing<H: Fn(&Command) -> Option<Response>, F: Fn(&str) -> Option<Binary64>>(
    d: &mut Device<H>,
    message: &str,
    read: &F,
    r: Vec<Response>,
)
    requires
        call_ensures(Device::<H>::process::<F>, (d, message, read), r),
    ensures
        takes_message(old(d).handlers(), *read, message@, old(d)@, response_views(r@), final(d)@),
        final(d).handlers() == old(d).handlers(),
        exists|cmds: Seq<CommandView>| #[trigger]
            parses_literally(*read, message@, cmds) && cmds.len() == r@.len(),
{
    let (cmds, handled) = choose|cmds: Seq<CommandView>, handled: Seq<Option<ResponseView>>|
        {
            &&& parses_literally(*read, message@, cmds)
            &&& #[trigger] all_handled_by(old(d).handlers(), cmds, handled)
            &&& response_views(r@) == responses_to(old(d)@, cmds, handled)
            &&& final(d)@ == device_after_all(old(d)@, cmds, handled)
        };
    law_one_response_per_command(old(d)@, cmds, handled);
    lemma_response_views(r@);
}

/// A message from a link is taken as the laws of lines say.
pub proof fn law_replying<
    H: Fn(&Command) -> Option<Response>,
    F: Fn(&str) -> Option<Binary64>,
    G: Fn(Binary64) -> String,
>(d: &mut Device<H>, message: &str, read: &F, write: &G, r: Vec<String>)
    requires
        call_ensures(Device::<H>::reply_lines::<F, G>, (d, message, read, write), r),
    ensures
        takes_line(
            old(d).handlers(),
            *read,
            *write,
            message@,
            old(d)@,
            texts(r@),
            final(d)@,
        ),
        final(d).handlers() == old(d).handlers(),
{
}

/// A single command is dispatched as the laws of dispatch say.
pub proof fn law_dispatching<H: Fn(&Command) -> Option<Response>>(
    d: &mut Device<H>,
    cmd: &Command,
    r: Response,
)
    requires
        call_ensures(Device::<H>::dispatch, (d, cmd), r),
    ensures
        final(d).handlers() == old(d).handlers(),
        exists|handled: Option<ResponseView>|
            {
                &&& r@ == #[trigger] response_to(old(d)@, cmd@, handled)
                &&& final(d)@ == device_after(old(d)@, cmd@, handled)
                &&& common_command(cmd@.header, cmd@.is_query) is None ==> exists|given: Command|
                    given@ == with_shorthands(cmd@) && #[trigger] handled_by(
                        old(d).handlers(),
                        given,
                        handled,
                    )
            },
{
    let h = choose|h: Option<ResponseView>| #[trigger]
        dispatches(old(d).handlers(), old(d)@, cmd@, h, r@, final(d)@);
    assert(r@ == response_to(old(d)@, cmd@, h));
}

// ---------------------------------------------------------------------------
// Numbers
// ---------------------------------------------------------------------------

/// Integers of at most 53 bits become numbers that become these integers
/// again, and a number is cut off towards zero.
pub proof fn law_converting_numbers(n: i64, x: Binary64, y: &Binary64, m: i64)
    requires
        call_ensures(Binary64::from_i64, (n,), x),
        call_ensures(Binary64::to_i64, (y,), m),
    ensures
        x.bits == nearest_bits(n as int),
        m == y.to_i64_spec(),
        -0x20_0000_0000_0000 <= n <= 0x20_0000_0000_0000 && *y == x ==> m == n,
{
    if -0x20_0000_0000_0000 <= n <= 0x20_0000_0000_0000 && *y == x {
        law_integers_convert_back(n, x);
    }
}

// ---------------------------------------------------------------------------
// Raw responses
// ---------------------------------------------------------------------------

/// Blocks are read as their payloads put together, and the reading stops
/// behind their ending.
pub proof fn law_reading_blocks(
    input: &[u8],
    blocks: Seq<Block>,
    ending: Seq<u8>,
    rest: Seq<u8>,
    r: Result<(Vec<u8>, usize), BlockError>,
)
    requires
        blocks.len() > 0,
        forall|i: int| 0 <= i < blocks.len() ==> (#[trigger] blocks[i]).well_formed(),
        ends_blocks(ending, rest),
        input@ == blocks_bytes(blocks) + ending + rest,
        call_ensures(read_response, (input,), r),
    ensures
        r matches Ok((data, used)) && data@ == all_data(blocks) && used == blocks_bytes(
            blocks,
        ).len() + ending.len(),
{
    law_blocks_are_read(blocks, ending, rest);
    if let Ok((data, used)) = r {
        assert(input@.skip(used as int).len() == rest.len());
    }
}

/// Lines are read with their line feed, and the reading stops behind it; a
/// block of indefinite length is such a line behind `#0`.
pub proof fn law_reading_a_line(
    input: &[u8],
    line: Seq<u8>,
    rest: Seq<u8>,
    indefinite: bool,
    r: Result<(Vec<u8>, usize), BlockError>,
)
    requires
        !line.contains(0x0au8),
        !indefinite ==> line.len() > 0 && line[0] != 0x23,
        input@ == (if indefinite {
            seq![0x23u8, 0x30u8]
        } else {
            Seq::empty()
        }) + line + seq![0x0au8] + rest,
        call_ensures(read_response, (input,), r),
    ensures
        r matches Ok((data, used)) && data@ == line.push(0x0a) && used == input@.len() - rest.len(),
{
    if indefinite {
        law_indefinite_block_is_read(line, rest);
    } else {
        assert(input@ =~= line + seq![0x0au8] + rest);
        law_plain_line_is_read(line, rest);
    }
    if let Ok((data, used)) = r {
        assert(input@.skip(used as int).len() == rest.len());
    }
}

/// Reading fails, or gives what the laws of raw responses say, whatever the
/// bytes.
pub proof fn law_reading_any_response(input: &[u8], r: Result<(Vec<u8>, usize), BlockError>)
    requires
        call_ensures(read_response, (input,), r),
    ensures
        match r {
            Ok((data, used)) => 0 < used <= input@.len() && raw_response(input@) == Ok::<
                (Seq<u8>, Seq<u8>),
                BlockError,
            >((data@, input@.skip(used as int))),
            Err(e) => raw_response(input@) == Err::<(Seq<u8>, Seq<u8>), BlockError>(e),
        },
{
    law_what_follows_is_left(input@);
}

// ---------------------------------------------------------------------------
// HiSLIP
// ---------------------------------------------------------------------------

/// A message that is written to the wire and followed by other bytes is read
/// back from there, and the other bytes are left.
pub proof fn law_messages_over_the_wire(
    m: &Message,
    bytes: Vec<u8>,
    reader: &mut &[u8],
    rest: Seq<u8>,
    r: Result<Message, HislipError>,
)
    requires
        m.payload@.len() <= u64::MAX,
        call_ensures(Message::to_bytes, (m,), bytes),
        (*old(reader))@ == bytes@ + rest,
        call_ensures(Message::read_from, (reader,), r),
    ensures
        bytes@ == message_bytes(m@),
        r matches Ok(read) && read@ == m@,
        (*final(reader))@ == rest,
{
    law_messages_are_read_back(m@, rest);
}

/// What is read from the wire is what was written there, or nothing is: a
/// message that is cut short takes up all bytes, a bad header its own.
pub proof fn law_reading_messages(reader: &mut &[u8], r: Result<Message, HislipError>)
    requires
        call_ensures(Message::read_from, (reader,), r),
    ensures
        r matches Ok(m) ==> (*old(reader))@ == message_bytes(m@) + (*final(reader))@,
        r matches Err(e) ==> (*final(reader))@ == (if e == HislipError::UnexpectedEnd {
            Seq::empty()
        } else {
            (*old(reader))@.skip(16)
        }),
{
    if let Ok(m) = r {
        law_read_messages_were_written((*old(reader))@, m@, (*final(reader))@);
    }
    if let Err(e) = r {
        if e == HislipError::UnexpectedEnd {
            assert((*final(reader))@ =~= Seq::empty());
        }
    }
}

/// A header says what the message that it stands before is.
pub proof fn law_decoding_a_header(
    m: &Message,
    bytes: Vec<u8>,
    head: &[u8],
    r: Result<Header, HislipError>,
)
    requires
        m.payload@.len() <= u64::MAX,
        call_ensures(Message::to_bytes, (m,), bytes),
        head@ == bytes@.take(16),
        call_ensures(Header::decode, (head,), r),
    ensures
        r == Ok::<Header, HislipError>(
            Header {
                message_type: m.message_type,
                control_code: m.control_code,
                message_parameter: m.message_parameter,
                payload_length: m.payload@.len() as u64,
            },
        ),
{
    law_messages_are_read_back(m@, Seq::empty());
    assert(bytes@ + Seq::<u8>::empty() =~= bytes@);
    let h = header_of(head@);
    let end = HEADER_LEN + h->Ok_0.payload_length;
    assert(bytes@.subrange(HEADER_LEN as int, end).len() == h->Ok_0.payload_length);
}

/// Messages are built with the fields that they are given, and types have
/// their codes.
pub proof fn law_building_messages(
    t: MessageType,
    control_code: u8,
    parameter: u32,
    payload: Vec<u8>,
    plain: Message,
    full: Message,
    code: u8,
    val: u8,
    from: Result<MessageType, HislipError>,
)
    requires
        call_ensures(Message::new, (t, control_code, parameter), plain),
        call_ensures(Message::with_payload, (t, control_code, parameter, payload), full),
        call_ensures(MessageType::code, (t,), code),
        call_ensures(MessageType::from_u8, (val,), from),
    ensures
        plain.message_type == t && plain.control_code == control_code && plain.message_parameter
            == parameter && plain.payload@.len() == 0,
        full.message_type == t && full.control_code == control_code && full.message_parameter
            == parameter && full.payload@ == payload@,
        code == type_code(t),
        from == Ok::<MessageType, HislipError>(t) <==> val == code,
        from is Err <==> val == 4 || val == 5 || val > 9,
        from matches Err(e) ==> e == HislipError::UnknownMessageType(val),
{
    law_type_codes(t, val);
    law_type_numbers(t, val);
    assert(plain@.payload.len() == 0);
}

/// What a server grants: each connection its own session ID, counted up, and
/// the initial credits.  An `Initialize` is answered with both, and anything
/// else is refused.
pub proof fn law_accepting(
    server: &mut Server,
    init: &Message,
    r: Result<Message, HislipError>,
    fresh: Server,
    n: u8,
    response: Message,
    id: u16,
    credits: u8,
)
    requires
        call_ensures(Server::accept, (server, init), r),
        call_ensures(Server::new, (), fresh),
        call_ensures(Server::initial_credits, (&fresh,), n),
        call_ensures(init_response, (id, credits), response),
    ensures
        r is Ok <==> init.message_type == MessageType::Initialize,
        r matches Err(e) ==> e == HislipError::ExpectedInitialize,
        r matches Ok(m) ==> m.message_type == MessageType::InitializeResponse && m.control_code
            == old(server).initial_credits_spec() && m.message_parameter as int / 0x1_0000
            == old(server).next_id(),
        final(server).next_id() == (if old(server).next_id() == 0xffff {
            1
        } else {
            old(server).next_id() + 1
        }),
        final(server).initial_credits_spec() == old(server).initial_credits_spec(),
        n == 1 && fresh.next_id() == 1,
        response.control_code == credits && response.message_parameter == id * 0x1_0000 + 0x100,
{
    law_next_session_id(old(server).next_id());
    if let Ok(m) = r {
        assert(m@.control_code == m.control_code);
    }
    assert(response@.message_parameter == response.message_parameter);
}

/// What granting and the setting of credits change.
pub proof fn law_granting(
    server: &mut Server,
    grant: Grant,
    other: &mut Server,
    credits: u8,
    init: &Message,
    r: Result<Message, HislipError>,
)
    requires
        call_ensures(Server::grant, (server,), grant),
        call_ensures(Server::set_initial_credits, (other, credits), ()),
        call_ensures(Grant::accept, (&grant, init), r),
    ensures
        grant.session_id() == old(server).next_id(),
        grant.initial_credits() == old(server).initial_credits_spec(),
        final(server).next_id() != old(server).next_id() && final(server).next_id() != 0,
        final(server).initial_credits_spec() == old(server).initial_credits_spec(),
        final(other).initial_credits_spec() == credits,
        final(other).next_id() == old(other).next_id(),
        r is Ok <==> init.message_type == MessageType::Initialize,
        r matches Ok(m) ==> opened(m@) == Ok::<ClientView, HislipError>(
            ClientView {
                session_id: grant.session_id(),
                credits: grant.initial_credits() as u32,
            },
        ),
{
    law_next_session_id(old(server).next_id());
    law_handshake_hands_over(grant.session_id(), grant.initial_credits());
}

/// What a client does: it opens the session that it is granted, sends only
/// while it has credits, pays one for each message, and gets those that a
/// response grants.
pub proof fn law_a_client(
    resp: &Message,
    session: Result<ClientSession, HislipError>,
    c: &ClientSession,
    id: u16,
    credits: u32,
    allowed: Result<(), HislipError>,
    command: &str,
    request: Result<Message, HislipError>,
)
    requires
        call_ensures(ClientSession::open, (resp,), session),
        call_ensures(ClientSession::session_id, (c,), id),
        call_ensures(ClientSession::credits, (c,), credits),
        call_ensures(ClientSession::require_credit, (c,), allowed),
        call_ensures(ClientSession::request, (c, command), request),
    ensures
        session is Ok <==> resp.message_type == MessageType::InitializeResponse && resp.control_code
            > 0,
        session matches Ok(s) ==> s@.credits == resp.control_code && s@.session_id
            == resp.message_parameter as int / 0x1_0000,
        id == c@.session_id && credits == c@.credits,
        allowed is Ok <==> c@.credits > 0,
        request is Ok <==> c@.credits > 0,
        request matches Ok(m) ==> m@ == request_message(command@),
        request matches Err(e) ==> e == HislipError::NoCredits,
        allowed matches Err(e) ==> e == HislipError::NoCredits,
{
    law_opening_a_session(resp@);
}

/// How the credits of a client change, and what text it gets.
pub proof fn law_a_client_sends_and_receives(
    sender: &mut ClientSession,
    receiver: &mut ClientSession,
    resp: &Message,
    text: String,
    before: Seq<char>,
    line: Seq<char>,
    behind: Seq<char>,
)
    requires
        old(sender)@.credits > 0,
        call_ensures(ClientSession::note_sent, (sender,), ()),
        old(receiver)@.credits + resp.control_code <= u32::MAX,
        call_ensures(ClientSession::take_response, (receiver, resp), text),
        forall|i: int|
            0 <= i < before.len() ==> CharClass::WhiteSpace.has(#[trigger] before[i]),
        forall|i: int|
            0 <= i < behind.len() ==> CharClass::WhiteSpace.has(#[trigger] behind[i]),
        line.len() > 0 ==> !CharClass::WhiteSpace.has(line[0]) && !CharClass::WhiteSpace.has(
            line.last(),
        ),
        resp.payload@ == encode_utf8(before + line + behind),
    ensures
        final(sender)@.credits == old(sender)@.credits - 1,
        final(sender)@.session_id == old(sender)@.session_id,
        final(receiver)@.credits == old(receiver)@.credits + resp.control_code,
        final(receiver)@.session_id == old(receiver)@.session_id,
        text@ == line,
{
    law_credits(old(sender)@, resp@);
    law_credits(old(receiver)@, resp@);
    law_trimming(before, line, behind);
    law_requests_and_responses(before + line + behind);
}

/// A server takes the messages of a client as the laws of a connection say.
pub proof fn law_receiving<
    H: Fn(&Command) -> Option<Response>,
    F: Fn(&str) -> Option<Binary64>,
    G: Fn(Binary64) -> String,
>(
    session: &mut ServerSession,
    msg: &Message,
    device: &mut Device<H>,
    read: &F,
    write: &G,
    r: Vec<Message>,
    fresh: ServerSession,
)
    requires
        call_ensures(ServerSession::receive::<H, F, G>, (session, msg, device, read, write), r),
        call_ensures(ServerSession::new, (), fresh),
    ensures
        takes_client_message(
            old(device).handlers(),
            *read,
            *write,
            msg@,
            old(session)@,
            old(device)@,
            message_views(r@),
            final(session)@,
            final(device)@,
        ),
        final(device).handlers() == old(device).handlers(),
        fresh@.len() == 0,
{
}

// ---------------------------------------------------------------------------
// Copies, comparisons and descriptions
// ---------------------------------------------------------------------------

/// A copy of a response stands for the same.
pub proof fn law_copying(response: &Response, copy: Response)
    requires
        call_ensures(<Response as Clone>::clone, (response,), copy),
    ensures
        copy@ == response@,
{
}

/// Numbers compare as numbers.
pub proof fn law_comparing(x: &Binary64, y: &Binary64)
    ensures
        vstd::std_specs::cmp::PartialEqSpec::eq_spec(x, y) <==> x.same_number(*y),
{
}

/// How message types and errors are named.
pub proof fn law_describing(
    t: MessageType,
    name: &'static str,
    b: BlockError,
    block_text: &'static str,
    e: &HislipError,
    text: String,
)
    requires
        call_ensures(MessageType::name, (t,), name),
        call_ensures(BlockError::to_str, (b,), block_text),
        call_ensures(HislipError::to_string, (e,), text),
    ensures
        t == MessageType::Initialize ==> name@ == "Initialize"@,
        t == MessageType::InitializeResponse ==> name@ == "InitializeResponse"@,
        t == MessageType::Data ==> name@ == "Data"@,
        t == MessageType::DataEnd ==> name@ == "DataEnd"@,
        t == MessageType::AsyncInitialize ==> name@ == "AsyncInitialize"@,
        t == MessageType::AsyncInitializeResponse ==> name@ == "AsyncInitializeResponse"@,
        t == MessageType::AsyncMaximumMessageSize ==> name@ == "AsyncMaximumMessageSize"@,
        t == MessageType::AsyncMaximumMessageSizeResponse ==> name@
            == "AsyncMaximumMessageSizeResponse"@,
        b == BlockError::UnexpectedEnd ==> block_text@ == "Unexpected end of response"@,
        b == BlockError::InvalidDigit ==> block_text@ == "Invalid block header digit"@,
        b == BlockError::LengthNotText ==> block_text@ == "Non-numeric length field"@,
        b == BlockError::LengthNotNumber ==> block_text@ == "Failed to parse data length"@,
        *e == HislipError::ExpectedInitializeResponse(t) ==> text@
            == "expected InitializeResponse, got "@ + name@,
        e matches HislipError::UnknownMessageType(code) ==> text@
            == "unknown HiSLIP message type: "@ + decimal(*code as nat),
        e matches HislipError::InvalidPrologue(x, y) ==> text@
            == "invalid HiSLIP prologue: expected 'HS', got '"@ + seq![
            *x as char,
            *y as char,
            '\'',
        ],
{
}

// ---------------------------------------------------------------------------
// What values stand for
// ---------------------------------------------------------------------------

/// What can be read of a device is its state and its errors, as the laws speak
/// of them, and the number of its handlers.
pub proof fn law_reading_a_device<H: Fn(&Command) -> Option<Response>>(
    d: &Device<H>,
    n: usize,
    state: &Ieee488State,
    queue: &ErrorQueue,
)
    requires
        call_ensures(Device::<H>::handler_count, (d,), n),
        call_ensures(Device::<H>::registers, (d,), state),
        call_ensures(Device::<H>::errors, (d,), queue),
    ensures
        n == d.handlers().len(),
        state@ == d@.state,
        queue@ == d@.errors,
{
}

/// Registers, errors, identifications, tokens and messages stand for what
/// they hold, field by field.
pub proof fn law_fields_stand_for_themselves(
    state: Ieee488State,
    error: ScpiError,
    id: Identification,
    m: Message,
    token: Token<'_>,
)
    ensures
        state@.ese == state.ese && state@.esr == state.esr && state@.sre == state.sre && state@.stb
            == state.stb,
        state@.self_test_result == state.self_test_result,
        state@.identification == state.identification@,
        error@.code == error.code && error@.message == error.message@,
        id@.manufacturer == id.manufacturer@ && id@.model == id.model@,
        id@.serial == id.serial@ && id@.version == id.version@,
        m@.message_type == m.message_type && m@.control_code == m.control_code,
        m@.message_parameter == m.message_parameter && m@.payload == m.payload@,
        token matches Token::Mnemonic(s) ==> token@ == TokenView::Mnemonic(s@),
        token matches Token::CharParam(s) ==> token@ == TokenView::CharParam(s@),
        token matches Token::StringParam(s) ==> token@ == TokenView::StringParam(s@),
        token matches Token::NumericSuffix(n) ==> token@ == TokenView::NumericSuffix(n),
        token is Query ==> token@ is Query,
        token is MessageTerminator ==> token@ is MessageTerminator,
        token is ParameterSeparator ==> token@ is ParameterSeparator,
{
}

/// Sequences stand for what their items stand for, one for one and in order.
pub proof fn law_sequences_stand_for_their_items(
    commands: Seq<Command>,
    params: Seq<Param>,
    responses: Seq<Response>,
    lines: Seq<String>,
    parts: Seq<&str>,
    all: Seq<Token<'_>>,
    messages: Seq<Message>,
    i: int,
)
    ensures
        command_views(commands).len() == commands.len(),
        param_views(params).len() == params.len(),
        response_views(responses).len() == responses.len(),
        texts(lines).len() == lines.len(),
        slice_texts(parts).len() == parts.len(),
        token_views(all).len() == all.len(),
        message_views(messages).len() == messages.len(),
        0 <= i < commands.len() ==> command_views(commands)[i] == commands[i]@,
        0 <= i < params.len() ==> param_views(params)[i] == params[i]@,
        0 <= i < responses.len() ==> response_views(responses)[i] == responses[i]@,
        0 <= i < lines.len() ==> texts(lines)[i] == lines[i]@,
        0 <= i < parts.len() ==> slice_texts(parts)[i] == parts[i]@,
        0 <= i < all.len() ==> token_views(all)[i] == all[i]@,
        0 <= i < messages.len() ==> message_views(messages)[i] == messages[i]@,
{
    lemma_response_views(responses);
}

/// What can be read of a server is what it grants.
pub proof fn law_reading_a_server(server: &Server, n: u8)
    requires
        call_ensures(Server::initial_credits, (server,), n),
    ensures
        n == server.initial_credits_spec(),
{
}

} // verus!

//! Commands as they are written in a message.
//!
//! A [`WrittenCommand`] says how a command may be written down: with or
//! without a leading colon, with white space where that is allowed, and with
//! parameters in quotes or without.  The laws say that each is read as the
//! command that it writes down.

use vstd::prelude::*;

use crate::binary64::Binary64;
use crate::command::{all_with_shorthands, reads, CommandView, ParamView};
use crate::number::digits_value;
use crate::parser::{
    char_param, commands_of, law_tokens_add_up, literal_param, needs_float, parse_state, parses,
    parses_literally, reads_tokens, ParseState,
};
use crate::text::{joined, lemma_prefix_len_props, prefix_len, CharClass};
use crate::token::{
    can_be_ended, is_parameter_text, is_segment_name, law_mnemonics_are_read, law_nothing_is_left,
    law_parameters_are_read, law_separators, law_strings_are_read, law_suffixes_are_read,
    law_white_space_is_skipped, lex, lex_start, message_tokens, tokens, LexState, TokenView,
};

verus! {

// ---------------------------------------------------------------------------
// How commands are written
// ---------------------------------------------------------------------------

/// Every character is white space that may stand between tokens.
pub open spec fn is_space(s: Seq<char>) -> bool {
    forall|i: int| 0 <= i < s.len() ==> CharClass::Space.has(#[trigger] s[i])
}

/// One segment of a header: a name, and the digits of its suffix.
pub struct WrittenSegment {
    pub name: Seq<char>,
    pub digits: Seq<char>,
}

impl WrittenSegment {
    /// The name is one that a segment can have, and a suffix is made of
    /// digits.  Behind a star digits are part of the name.
    pub open spec fn well_formed(self) -> bool {
        &&& is_segment_name(self.name)
        &&& forall|i: int|
            0 <= i < self.digits.len() ==> CharClass::Digit.has(#[trigger] self.digits[i])
        &&& self.name[0] == '*' ==> self.digits.len() == 0
    }

    pub open spec fn text(self) -> Seq<char> {
        self.name + self.digits
    }
}

/// One parameter, without what stands around it.
pub enum WrittenItem {
    /// Text without quotes.
    Text(Seq<char>),
    /// The content of a quoted string.
    Quoted(Seq<char>),
}

impl WrittenItem {
    pub open spec fn well_formed(self) -> bool {
        match self {
            WrittenItem::Text(p) => is_parameter_text(p),
            WrittenItem::Quoted(s) => !s.contains('"'),
        }
    }

    pub open spec fn text(self) -> Seq<char> {
        match self {
            WrittenItem::Text(p) => p,
            WrittenItem::Quoted(s) => seq!['"'] + s + seq!['"'],
        }
    }
}

/// One parameter with the white space around it.
pub struct WrittenParam {
    pub before: Seq<char>,
    pub item: WrittenItem,
    pub behind: Seq<char>,
}

impl WrittenParam {
    pub open spec fn well_formed(self) -> bool {
        is_space(self.before) && self.item.well_formed() && is_space(self.behind)
    }

    pub open spec fn text(self) -> Seq<char> {
        self.before + (self.item.text() + self.behind)
    }
}

/// A command as it is written.
pub struct WrittenCommand {
    /// White space before it.
    pub before: Seq<char>,
    /// It starts with a colon.
    pub colon: bool,
    pub segments: Seq<WrittenSegment>,
    /// It ends its header with a question mark.
    pub is_query: bool,
    pub params: Seq<WrittenParam>,
    /// White space behind it, where it has no parameters.
    pub behind: Seq<char>,
}

/// A header: segments with colons between them.
pub open spec fn header_text(segments: Seq<WrittenSegment>) -> Seq<char>
    decreases segments.len(),
{
    if segments.len() == 0 {
        Seq::empty()
    } else if segments.len() == 1 {
        segments[0].text()
    } else {
        header_text(segments.drop_last()) + (seq![':'] + segments.last().text())
    }
}

/// Parameters with commas between them.
pub open spec fn params_text(params: Seq<WrittenParam>) -> Seq<char>
    decreases params.len(),
{
    if params.len() == 0 {
        Seq::empty()
    } else if params.len() == 1 {
        params[0].text()
    } else {
        params_text(params.drop_last()) + (seq![','] + params.last().text())
    }
}

impl WrittenCommand {
    /// There is a header, and white space parts it from the parameters unless
    /// the question mark does.
    pub open spec fn well_formed(self) -> bool {
        &&& is_space(self.before) && is_space(self.behind)
        &&& self.segments.len() > 0
        &&& forall|i: int|
            0 <= i < self.segments.len() ==> (#[trigger] self.segments[i]).well_formed()
        &&& forall|i: int| 0 <= i < self.params.len() ==> (#[trigger] self.params[i]).well_formed()
        &&& self.params.len() > 0 && !self.is_query ==> self.params[0].before.len() > 0
    }

    /// What follows the header.
    pub open spec fn tail(self) -> Seq<char> {
        (if self.is_query {
            seq!['?']
        } else {
            Seq::empty()
        }) + (if self.params.len() == 0 {
            self.behind
        } else {
            params_text(self.params)
        })
    }

    /// The message that the command is written as.
    pub open spec fn text(self) -> Seq<char> {
        self.before + ((if self.colon {
            seq![':']
        } else {
            Seq::empty()
        }) + (header_text(self.segments) + self.tail()))
    }
}

// ---------------------------------------------------------------------------
// The tokens of a written command
// ---------------------------------------------------------------------------

/// The number of a suffix: what its digits stand for, or zero where that does
/// not fit.
pub open spec fn suffix_number(digits: Seq<char>) -> u32 {
    if digits_value(digits) <= 0xffff_ffff {
        digits_value(digits) as u32
    } else {
        0
    }
}

/// The tokens of one segment.
pub open spec fn segment_tokens(segment: WrittenSegment) -> Seq<TokenView> {
    if segment.digits.len() == 0 {
        seq![TokenView::Mnemonic(segment.name)]
    } else {
        seq![
            TokenView::Mnemonic(segment.name),
            TokenView::NumericSuffix(suffix_number(segment.digits)),
        ]
    }
}

/// The tokens of a header.
pub open spec fn header_tokens(segments: Seq<WrittenSegment>) -> Seq<TokenView>
    decreases segments.len(),
{
    if segments.len() == 0 {
        Seq::empty()
    } else {
        header_tokens(segments.drop_last()) + segment_tokens(segments.last())
    }
}

/// The token of a parameter.
pub open spec fn item_token(item: WrittenItem) -> TokenView {
    match item {
        WrittenItem::Text(p) => TokenView::CharParam(p),
        WrittenItem::Quoted(s) => TokenView::StringParam(s),
    }
}

/// The tokens of parameters.
pub open spec fn param_tokens(params: Seq<WrittenParam>) -> Seq<TokenView>
    decreases params.len(),
{
    if params.len() == 0 {
        Seq::empty()
    } else if params.len() == 1 {
        seq![item_token(params[0].item)]
    } else {
        param_tokens(params.drop_last()).push(TokenView::ParameterSeparator).push(
            item_token(params.last().item),
        )
    }
}

/// The tokens of a command.
pub open spec fn command_tokens(c: WrittenCommand) -> Seq<TokenView> {
    header_tokens(c.segments) + (if c.is_query {
        seq![TokenView::Query]
    } else {
        Seq::empty()
    }) + param_tokens(c.params)
}

/// The state behind a header segment, where the header may go on.
spec fn in_header(rest: Seq<char>) -> LexState {
    LexState { rest, in_params: false, last_was_colon: false }
}

/// The state in parameter territory.
spec fn in_parameters(rest: Seq<char>) -> LexState {
    LexState { rest, in_params: true, last_was_colon: false }
}

/// What can follow a header segment.
spec fn ends_segment(tail: Seq<char>) -> bool {
    tail.len() == 0 || tail[0] == ':' || tail[0] == '?' || tail[0] == ';' || CharClass::Space.has(
        tail[0],
    )
}

/// White space makes no difference to the tokens that follow it.
proof fn lemma_tokens_behind_space(
    space: Seq<char>,
    rest: Seq<char>,
    in_params: bool,
    last_was_colon: bool,
)
    requires
        is_space(space),
        rest.len() > 0 ==> !CharClass::Space.has(rest[0]),
    ensures
        tokens(LexState { rest: space + rest, in_params, last_was_colon }) == tokens(
            LexState {
                rest,
                in_params: in_params || (space.len() > 0 && !last_was_colon),
                last_was_colon,
            },
        ),
{
    law_white_space_is_skipped(space, rest, in_params, last_was_colon);
}

/// Behind a segment it makes no difference whether white space has already
/// been taken for the way into parameter territory.
proof fn lemma_tokens_behind_segment(tail: Seq<char>, in_params: bool)
    requires
        tail.len() > 0 && CharClass::Space.has(tail[0]) || !in_params,
    ensures
        tokens(LexState { rest: tail, in_params, last_was_colon: false }) == tokens(
            in_header(tail),
        ),
{
    if in_params {
        let n = prefix_len(tail, CharClass::Space);
        lemma_prefix_len_props(tail, CharClass::Space);
        let space = tail.take(n);
        let rest = tail.skip(n);
        assert(space + rest =~= tail);
        assert(n > 0) by {
            if n == 0 {
                assert(!CharClass::Space.has(tail[0]));
            }
        }
        assert forall|i: int| 0 <= i < space.len() implies CharClass::Space.has(
            #[trigger] space[i],
        ) by {
            assert(CharClass::Space.has(tail[i]));
        }
        lemma_tokens_behind_space(space, rest, true, false);
        lemma_tokens_behind_space(space, rest, false, false);
    }
}

proof fn lemma_segment_tokens(segment: WrittenSegment, tail: Seq<char>, last_was_colon: bool)
    requires
        segment.well_formed(),
        ends_segment(tail),
    ensures
        tokens(LexState { rest: segment.text() + tail, in_params: false, last_was_colon })
            == segment_tokens(segment) + tokens(in_header(tail)),
{
    let name = segment.name;
    let digits = segment.digits;
    let n = prefix_len(tail, CharClass::Space);
    lemma_prefix_len_props(tail, CharClass::Space);
    let space = tail.take(n);
    let rest = tail.skip(n);
    assert(space + rest =~= tail);
    assert forall|i: int| 0 <= i < space.len() implies CharClass::Space.has(
        #[trigger] space[i],
    ) by {
        assert(CharClass::Space.has(tail[i]));
    }
    law_mnemonics_are_read(name, digits, space, rest, last_was_colon);
    assert(segment.text() + tail =~= name + (digits + (space + rest)));
    let st = LexState { rest: segment.text() + tail, in_params: false, last_was_colon };
    let ip = digits.len() == 0 && rest.len() > 0 && rest[0] != ':' && rest[0] != '?' && rest[0]
        != ';';
    let s1 = LexState { rest: digits + (space + rest), in_params: ip, last_was_colon: false };
    assert(lex(st) == Some((TokenView::Mnemonic(name), s1)));
    lemma_unfold(st);
    if digits.len() > 0 {
        law_suffixes_are_read(digits, tail, false);
        assert(s1 == (LexState { rest: digits + tail, in_params: false, last_was_colon: false }));
        lemma_unfold(s1);
        assert(seq![TokenView::Mnemonic(name)] + (seq![
            TokenView::NumericSuffix(suffix_number(digits)),
        ] + tokens(in_header(tail))) =~= segment_tokens(segment) + tokens(in_header(tail)));
    } else {
        assert(digits + tail =~= tail);
        if n == 0 {
            assert(rest =~= tail);
        } else {
            assert(CharClass::Space.has(tail[0]));
        }
        lemma_tokens_behind_segment(tail, ip);
    }
}

/// The tokens from a state on are the next one and those behind it.
proof fn lemma_unfold(st: LexState)
    ensures
        match lex(st) {
            Some((token, next)) => tokens(st) == seq![token] + tokens(next),
            None => tokens(st) == Seq::<TokenView>::empty(),
        },
{
    crate::token::lemma_lex_consumes(st);
}

proof fn lemma_header_tokens(
    segments: Seq<WrittenSegment>,
    tail: Seq<char>,
    last_was_colon: bool,
)
    requires
        segments.len() > 0,
        forall|i: int| 0 <= i < segments.len() ==> (#[trigger] segments[i]).well_formed(),
        ends_segment(tail),
    ensures
        tokens(LexState { rest: header_text(segments) + tail, in_params: false, last_was_colon })
            == header_tokens(segments) + tokens(in_header(tail)),
    decreases segments.len(),
{
    if segments.len() == 1 {
        lemma_segment_tokens(segments[0], tail, last_was_colon);
        assert(header_tokens(segments.drop_last()) =~= Seq::empty());
        assert(header_tokens(segments) =~= segment_tokens(segments[0]));
    } else {
        let init = segments.drop_last();
        let last = segments.last();
        assert forall|i: int| 0 <= i < init.len() implies (#[trigger] init[i]).well_formed() by {
            assert(segments[i].well_formed());
        }
        assert(segments[segments.len() - 1].well_formed());
        let more = last.text() + tail;
        let mid = seq![':'] + more;
        assert(header_text(segments) + tail =~= header_text(init) + mid);
        lemma_header_tokens(init, mid, last_was_colon);
        law_separators(more, false, false);
        lemma_unfold(in_header(mid));
        let behind = LexState { rest: more, in_params: false, last_was_colon: true };
        lemma_unfold(behind);
        assert(tokens(in_header(mid)) == tokens(behind));
        lemma_segment_tokens(last, tail, true);
        assert(header_tokens(init) + (segment_tokens(last) + tokens(in_header(tail)))
            =~= header_tokens(segments) + tokens(in_header(tail)));
    }
}

proof fn lemma_param_token(
    p: WrittenParam,
    rest: Seq<char>,
    in_params: bool,
    last_was_colon: bool,
)
    requires
        p.well_formed(),
        rest.len() == 0 || rest[0] == ',' || rest[0] == ';',
        in_params || (p.before.len() > 0 && !last_was_colon),
    ensures
        tokens(LexState { rest: p.text() + rest, in_params, last_was_colon }) == seq![
            item_token(p.item),
        ] + tokens(in_parameters(rest)),
{
    let inner = p.item.text() + (p.behind + rest);
    assert(p.text() + rest =~= p.before + inner);
    assert(inner[0] == p.item.text()[0]);
    lemma_tokens_behind_space(p.before, inner, in_params, last_was_colon);
    let st = LexState { rest: inner, in_params: true, last_was_colon };
    match p.item {
        WrittenItem::Text(t) => {
            assert forall|i: int| 0 <= i < p.behind.len() implies CharClass::WhiteSpace.has(
                #[trigger] p.behind[i],
            ) by {
                assert(CharClass::Space.has(p.behind[i]));
            }
            law_parameters_are_read(t, p.behind, rest, last_was_colon);
            lemma_unfold(st);
        },
        WrittenItem::Quoted(s) => {
            let after = p.behind + rest;
            law_strings_are_read(s, after, true, last_was_colon);
            assert(inner =~= seq!['"'] + s + seq!['"'] + after);
            lemma_unfold(st);
            lemma_tokens_behind_space(p.behind, rest, true, false);
        },
    }
}

proof fn lemma_param_tokens(
    params: Seq<WrittenParam>,
    rest: Seq<char>,
    in_params: bool,
    last_was_colon: bool,
)
    requires
        params.len() > 0,
        forall|i: int| 0 <= i < params.len() ==> (#[trigger] params[i]).well_formed(),
        rest.len() == 0 || rest[0] == ',' || rest[0] == ';',
        in_params || (params[0].before.len() > 0 && !last_was_colon),
    ensures
        tokens(LexState { rest: params_text(params) + rest, in_params, last_was_colon })
            == param_tokens(params) + tokens(in_parameters(rest)),
    decreases params.len(),
{
    if params.len() == 1 {
        lemma_param_token(params[0], rest, in_params, last_was_colon);
    } else {
        let init = params.drop_last();
        let last = params.last();
        assert forall|i: int| 0 <= i < init.len() implies (#[trigger] init[i]).well_formed() by {
            assert(params[i].well_formed());
        }
        assert(params[params.len() - 1].well_formed());
        let more = last.text() + rest;
        let mid = seq![','] + more;
        assert(params_text(params) + rest =~= params_text(init) + mid);
        lemma_param_tokens(init, mid, in_params, last_was_colon);
        law_separators(more, true, false);
        lemma_unfold(in_parameters(mid));
        lemma_param_token(last, rest, true, false);
        assert(param_tokens(init) + (seq![TokenView::ParameterSeparator] + (seq![
            item_token(last.item),
        ] + tokens(in_parameters(rest)))) =~= param_tokens(params) + tokens(in_parameters(rest)));
    }
}

/// The tokens of what follows a command: none, or a terminator and those of
/// the next message.
spec fn ending_tokens(rest: Seq<char>) -> Seq<TokenView> {
    if rest.len() == 0 {
        Seq::empty()
    } else {
        seq![TokenView::MessageTerminator] + message_tokens(rest.drop_first())
    }
}

proof fn lemma_ending_tokens(rest: Seq<char>, in_params: bool)
    requires
        rest.len() == 0 || rest[0] == ';',
    ensures
        tokens(LexState { rest, in_params, last_was_colon: false }) == ending_tokens(rest),
{
    let end = LexState { rest, in_params, last_was_colon: false };
    lemma_unfold(end);
    if rest.len() == 0 {
        assert(rest =~= Seq::empty());
        law_nothing_is_left(in_params, false);
    } else {
        assert(rest =~= seq![';'] + rest.drop_first());
        law_separators(rest.drop_first(), in_params, false);
    }
}

/// What stands behind the header and the query mark.
spec fn body_text(c: WrittenCommand) -> Seq<char> {
    if c.params.len() == 0 {
        c.behind
    } else {
        params_text(c.params)
    }
}

proof fn lemma_body_tokens(c: WrittenCommand, rest: Seq<char>)
    requires
        c.well_formed(),
        rest.len() == 0 || rest[0] == ';',
    ensures
        tokens(
            LexState { rest: body_text(c) + rest, in_params: c.is_query, last_was_colon: false },
        ) == param_tokens(c.params) + ending_tokens(rest),
{
    if c.params.len() > 0 {
        lemma_param_tokens(c.params, rest, c.is_query, false);
        lemma_ending_tokens(rest, true);
    } else {
        lemma_tokens_behind_space(c.behind, rest, c.is_query, false);
        lemma_ending_tokens(rest, c.is_query || c.behind.len() > 0);
        assert(param_tokens(c.params) + ending_tokens(rest) =~= ending_tokens(rest));
    }
}

/// The query mark, where there is one.
spec fn query_tokens(c: WrittenCommand) -> Seq<TokenView> {
    if c.is_query {
        seq![TokenView::Query]
    } else {
        Seq::empty()
    }
}

proof fn lemma_tail_tokens(c: WrittenCommand, rest: Seq<char>)
    requires
        c.well_formed(),
        rest.len() == 0 || rest[0] == ';',
    ensures
        ends_segment(c.tail() + rest),
        tokens(in_header(c.tail() + rest)) == query_tokens(c) + (param_tokens(c.params)
            + ending_tokens(rest)),
{
    let tail = c.tail() + rest;
    let body = body_text(c) + rest;
    lemma_body_tokens(c, rest);
    if c.is_query {
        assert(tail =~= seq!['?'] + body);
        law_separators(body, false, false);
        lemma_unfold(in_header(tail));
    } else {
        assert(tail =~= body);
        if c.params.len() > 0 {
            assert(c.params[0].well_formed());
            lemma_params_start(c.params);
            assert(CharClass::Space.has(c.params[0].before[0]));
            assert(tail[0] == c.params[0].before[0]);
        } else if c.behind.len() > 0 {
            assert(CharClass::Space.has(c.behind[0]));
            assert(tail[0] == c.behind[0]);
        } else {
            assert(tail =~= rest);
        }
        assert(query_tokens(c) + (param_tokens(c.params) + ending_tokens(rest))
            =~= param_tokens(c.params) + ending_tokens(rest));
    }
}

/// White space and a colon before a header make no difference to its tokens.
proof fn lemma_start_of_command(before: Seq<char>, colon: bool, header: Seq<char>)
    requires
        is_space(before),
        header.len() > 0,
        !CharClass::Space.has(header[0]),
    ensures
        message_tokens(before + ((if colon {
            seq![':']
        } else {
            Seq::empty()
        }) + header)) == message_tokens(header),
{
    let inner = (if colon { seq![':'] } else { Seq::empty() }) + header;
    assert(inner[0] == (if colon { ':' } else { header[0] }));
    lemma_tokens_behind_space(before, inner, false, true);
    if colon {
        law_separators(header, false, true);
        lemma_unfold(lex_start(inner));
        lemma_unfold(lex_start(header));
    } else {
        assert(inner =~= header);
    }
}

/// The tokens of a written command, where nothing or another command follows.
proof fn lemma_command_tokens(c: WrittenCommand, rest: Seq<char>)
    requires
        c.well_formed(),
        rest.len() == 0 || rest[0] == ';',
    ensures
        message_tokens(c.text() + rest) == command_tokens(c) + ending_tokens(rest),
{
    let tail = c.tail() + rest;
    let header = header_text(c.segments) + tail;
    let colon = if c.colon { seq![':'] } else { Seq::empty() };
    assert(c.text() + rest =~= c.before + (colon + header));
    assert(c.segments[0].well_formed());
    lemma_header_start(c.segments);
    assert(header[0] == c.segments[0].name[0]);
    lemma_start_of_command(c.before, c.colon, header);
    lemma_tail_tokens(c, rest);
    lemma_header_tokens(c.segments, tail, true);
    assert(header_tokens(c.segments) + (query_tokens(c) + (param_tokens(c.params) + ending_tokens(
        rest,
    ))) =~= command_tokens(c) + ending_tokens(rest));
}

proof fn lemma_header_start(segments: Seq<WrittenSegment>)
    requires
        segments.len() > 0,
        segments[0].well_formed(),
    ensures
        header_text(segments).len() > 0,
        header_text(segments)[0] == segments[0].name[0],
    decreases segments.len(),
{
    if segments.len() > 1 {
        lemma_header_start(segments.drop_last());
    }
}

proof fn lemma_params_start(params: Seq<WrittenParam>)
    requires
        params.len() > 0,
        params[0].before.len() > 0,
    ensures
        params_text(params).len() > 0,
        params_text(params)[0] == params[0].before[0],
    decreases params.len(),
{
    if params.len() > 1 {
        lemma_params_start(params.drop_last());
    }
}

/// A written command is cut into the tokens that it is made of: the name and
/// the suffix of each segment, the query mark, and each parameter exactly as
/// it is written, with the separators between them.
pub proof fn law_written_commands_are_tokens(c: WrittenCommand)
    requires
        c.well_formed(),
    ensures
        message_tokens(c.text()) == command_tokens(c),
{
    lemma_command_tokens(c, Seq::empty());
    assert(c.text() + Seq::<char>::empty() =~= c.text());
    assert(command_tokens(c) + Seq::<TokenView>::empty() =~= command_tokens(c));
}

/// A semicolon ends a written command, also where strings in it hold
/// semicolons.
pub proof fn law_written_commands_can_be_ended(c: WrittenCommand)
    requires
        c.well_formed(),
    ensures
        can_be_ended(c.text()),
{
    law_written_commands_are_tokens(c);
    lemma_command_tokens(c, seq![';']);
    assert(c.text() + seq![';'] =~= c.text().push(';'));
    assert(seq![';'].drop_first() =~= Seq::<char>::empty());
    law_nothing_is_left(false, true);
    lemma_unfold(lex_start(Seq::empty()));
    assert(command_tokens(c) + (seq![TokenView::MessageTerminator] + Seq::<TokenView>::empty())
        =~= command_tokens(c).push(TokenView::MessageTerminator));
}

// ---------------------------------------------------------------------------
// The commands of a written command
// ---------------------------------------------------------------------------

/// The names of header segments.
pub open spec fn segment_names(segments: Seq<WrittenSegment>) -> Seq<Seq<char>> {
    Seq::new(segments.len(), |i: int| segments[i].name)
}

/// The suffix of a header: that of the last segment that has one.
pub open spec fn header_suffix(segments: Seq<WrittenSegment>) -> Option<u32>
    decreases segments.len(),
{
    if segments.len() == 0 {
        None
    } else if segments.last().digits.len() > 0 {
        Some(suffix_number(segments.last().digits))
    } else {
        header_suffix(segments.drop_last())
    }
}

proof fn lemma_header_is_parsed(segments: Seq<WrittenSegment>, fs: Seq<Option<Binary64>>)
    requires
        fs.len() == header_tokens(segments).len(),
    ensures
        parse_state(header_tokens(segments), fs) == (ParseState {
            done: Seq::empty(),
            segments: segment_names(segments),
            suffix: header_suffix(segments),
            is_query: false,
            params: Seq::empty(),
            in_params: false,
        }),
    decreases segments.len(),
{
    if segments.len() == 0 {
        assert(header_tokens(segments) =~= Seq::empty());
        assert(fs =~= Seq::empty());
        law_tokens_add_up(Seq::empty(), Seq::empty(), TokenView::Query, None);
        assert(segment_names(segments) =~= Seq::empty());
    } else {
        let init = segments.drop_last();
        let last = segments.last();
        let ht = header_tokens(init);
        let n = ht.len() as int;
        let f0 = fs.take(n);
        lemma_header_is_parsed(init, f0);
        let name = TokenView::Mnemonic(last.name);
        law_tokens_add_up(ht, f0, name, fs[n]);
        assert(segment_names(segments) =~= segment_names(init).push(last.name));
        if last.digits.len() == 0 {
            assert(header_tokens(segments) =~= ht.push(name));
            assert(fs =~= f0.push(fs[n]));
        } else {
            let suffix = TokenView::NumericSuffix(suffix_number(last.digits));
            law_tokens_add_up(ht.push(name), f0.push(fs[n]), suffix, fs[n + 1]);
            assert(header_tokens(segments) =~= ht.push(name).push(suffix));
            assert(fs =~= f0.push(fs[n]).push(fs[n + 1]));
        }
    }
}

/// The place of a parameter among the tokens of parameters.
proof fn lemma_param_places(params: Seq<WrittenParam>)
    ensures
        params.len() > 0 ==> param_tokens(params).len() == 2 * params.len() - 1,
        params.len() == 0 ==> param_tokens(params).len() == 0,
        forall|i: int|
            0 <= i < params.len() ==> param_tokens(params)[2 * i] == item_token(
                (#[trigger] params[i]).item,
            ),
    decreases params.len(),
{
    if params.len() > 1 {
        let init = params.drop_last();
        lemma_param_places(init);
        assert forall|i: int| 0 <= i < params.len() implies param_tokens(params)[2 * i]
            == item_token((#[trigger] params[i]).item) by {
            if i < init.len() {
                assert(init[i] == params[i]);
                assert(param_tokens(init)[2 * i] == item_token(init[i].item));
            }
        }
    }
}

/// What a parameter becomes where `float` is its floating-point reading.
spec fn literal_item(item: WrittenItem, float: Option<Binary64>) -> ParamView {
    match item {
        WrittenItem::Text(p) => literal_param(p, float),
        WrittenItem::Quoted(s) => ParamView::Str(s),
    }
}

/// What parameters become, with the readings of their tokens.
spec fn literal_items(params: Seq<WrittenParam>, fs: Seq<Option<Binary64>>) -> Seq<ParamView> {
    Seq::new(params.len(), |i: int| literal_item(params[i].item, fs[2 * i]))
}

proof fn lemma_params_are_parsed(
    ts: Seq<TokenView>,
    fs: Seq<Option<Binary64>>,
    params: Seq<WrittenParam>,
    gs: Seq<Option<Binary64>>,
)
    requires
        fs.len() == ts.len(),
        gs.len() == param_tokens(params).len(),
    ensures
        ({
            let a = parse_state(ts, fs);
            parse_state(ts + param_tokens(params), fs + gs) == (ParseState {
                params: a.params + literal_items(params, gs),
                in_params: a.in_params || params.len() > 0,
                ..a
            })
        }),
    decreases params.len(),
{
    let a = parse_state(ts, fs);
    lemma_param_places(params);
    if params.len() == 0 {
        assert(ts + param_tokens(params) =~= ts);
        assert(fs + gs =~= fs);
        assert(a.params + literal_items(params, gs) =~= a.params);
    } else if params.len() == 1 {
        let t = item_token(params[0].item);
        law_tokens_add_up(ts, fs, t, gs[0]);
        assert(ts + param_tokens(params) =~= ts.push(t));
        assert(fs + gs =~= fs.push(gs[0]));
        assert(literal_items(params, gs) =~= seq![literal_item(params[0].item, gs[0])]);
        assert(a.params + literal_items(params, gs) =~= a.params.push(
            literal_item(params[0].item, gs[0]),
        ));
    } else {
        let init = params.drop_last();
        let last = params.last();
        let k = param_tokens(init).len() as int;
        let g0 = gs.take(k);
        lemma_param_places(init);
        lemma_params_are_parsed(ts, fs, init, g0);
        let ts1 = ts + param_tokens(init);
        let fs1 = fs + g0;
        let sep = TokenView::ParameterSeparator;
        let t = item_token(last.item);
        law_tokens_add_up(ts1, fs1, sep, gs[k]);
        law_tokens_add_up(ts1.push(sep), fs1.push(gs[k]), t, gs[k + 1]);
        assert(ts + param_tokens(params) =~= ts1.push(sep).push(t));
        assert(fs + gs =~= fs1.push(gs[k]).push(gs[k + 1]));
        let all = literal_items(params, gs);
        assert(all =~= literal_items(init, g0).push(literal_item(last.item, gs[k + 1]))) by {
            assert forall|i: int| 0 <= i < all.len() implies all[i] == literal_items(
                init,
                g0,
            ).push(literal_item(last.item, gs[k + 1]))[i] by {
                if i < init.len() {
                    assert(g0[2 * i] == gs[2 * i]);
                }
            }
        }
        assert(a.params + all =~= (a.params + literal_items(init, g0)).push(
            literal_item(last.item, gs[k + 1]),
        ));
    }
}

proof fn lemma_command_is_parsed(c: WrittenCommand, fs: Seq<Option<Binary64>>)
    requires
        c.segments.len() > 0,
        fs.len() == command_tokens(c).len(),
    ensures
        ({
            let n = command_tokens(c).len() - param_tokens(c.params).len();
            commands_of(command_tokens(c), fs) == seq![
                CommandView {
                    header: joined(segment_names(c.segments), ':'),
                    is_query: c.is_query,
                    suffix: header_suffix(c.segments),
                    params: literal_items(c.params, fs.skip(n)),
                },
            ]
        }),
{
    let ht = header_tokens(c.segments);
    let h = ht.len() as int;
    let n = command_tokens(c).len() - param_tokens(c.params).len();
    let f0 = fs.take(h);
    lemma_header_is_parsed(c.segments, f0);
    let ts1 = ht + query_tokens(c);
    let fs1 = fs.take(n);
    assert(command_tokens(c) =~= ts1 + param_tokens(c.params));
    if c.is_query {
        law_tokens_add_up(ht, f0, TokenView::Query, fs[h]);
        assert(ts1 =~= ht.push(TokenView::Query));
        assert(fs1 =~= f0.push(fs[h]));
    } else {
        assert(ts1 =~= ht);
        assert(fs1 =~= f0);
    }
    let gs = fs.skip(n);
    lemma_params_are_parsed(ts1, fs1, c.params, gs);
    assert(fs1 + gs =~= fs);
    assert(Seq::<ParamView>::empty() + literal_items(c.params, gs) =~= literal_items(c.params, gs));
    law_tokens_add_up(command_tokens(c), fs, TokenView::Query, None);
    assert(segment_names(c.segments).len() > 0);
    assert(commands_of(command_tokens(c), fs) =~= seq![
        CommandView {
            header: joined(segment_names(c.segments), ':'),
            is_query: c.is_query,
            suffix: header_suffix(c.segments),
            params: literal_items(c.params, gs),
        },
    ]);
}

/// The reading of an unquoted parameter is one that `read` gives.
proof fn lemma_readings<F: Fn(&str) -> Option<Binary64>>(
    read: F,
    ts: Seq<TokenView>,
    fs: Seq<Option<Binary64>>,
    i: int,
)
    requires
        reads_tokens(read, ts, fs),
        0 <= i < ts.len(),
    ensures
        fs.len() == ts.len(),
        ts[i] matches TokenView::CharParam(p) ==> needs_float(p) ==> reads(read, p, fs[i]),
    decreases ts.len(),
{
    if ts.len() == 1 {
        assert(reads_tokens(read, ts.drop_last(), fs.drop_last()));
    } else {
        lemma_readings(
            read,
            ts.drop_last(),
            fs.drop_last(),
            if i < ts.len() - 1 { i } else { 0 },
        );
    }
}

/// What a written parameter is read as, once the boolean shorthands are
/// taken: the content of a quoted string is a string, and other text is typed
/// by what it says, with a floating-point reading that `read` may give.
pub open spec fn is_read_as<F: Fn(&str) -> Option<Binary64>>(
    read: F,
    item: WrittenItem,
    param: ParamView,
) -> bool {
    match item {
        WrittenItem::Quoted(s) => param == ParamView::Str(s),
        WrittenItem::Text(p) => exists|float: Option<Binary64>|
            (needs_float(p) ==> reads(read, p, float)) && param == #[trigger] char_param(p, float),
    }
}

/// The same before the shorthands are taken.
pub open spec fn is_literally<F: Fn(&str) -> Option<Binary64>>(
    read: F,
    item: WrittenItem,
    param: ParamView,
) -> bool {
    match item {
        WrittenItem::Quoted(s) => param == ParamView::Str(s),
        WrittenItem::Text(p) => exists|float: Option<Binary64>|
            (needs_float(p) ==> reads(read, p, float)) && param == #[trigger] literal_param(
                p,
                float,
            ),
    }
}

/// A written command is parsed as the one command that it writes down, with
/// every parameter as it is written.
pub proof fn law_written_commands_are_parsed_literally<F: Fn(&str) -> Option<Binary64>>(
    read: F,
    c: WrittenCommand,
    commands: Seq<CommandView>,
)
    requires
        c.well_formed(),
        parses_literally(read, c.text(), commands),
    ensures
        commands.len() == 1,
        commands[0].header == joined(segment_names(c.segments), ':'),
        commands[0].is_query == c.is_query,
        commands[0].suffix == header_suffix(c.segments),
        commands[0].params.len() == c.params.len(),
        forall|i: int|
            0 <= i < c.params.len() ==> is_literally(
                read,
                c.params[i].item,
                #[trigger] commands[0].params[i],
            ),
{
    law_written_commands_are_tokens(c);
    let ts = command_tokens(c);
    let fs = choose|fs: Seq<Option<Binary64>>| #[trigger]
        reads_tokens(read, ts, fs) && commands == commands_of(ts, fs);
    lemma_header_tokens_nonempty(c.segments);
    lemma_readings(read, ts, fs, 0);
    lemma_command_is_parsed(c, fs);
    let n = ts.len() - param_tokens(c.params).len();
    let gs = fs.skip(n);
    lemma_param_places(c.params);
    assert forall|i: int| 0 <= i < c.params.len() implies is_literally(
        read,
        c.params[i].item,
        #[trigger] commands[0].params[i],
    ) by {
        assert(param_tokens(c.params)[2 * i] == item_token(c.params[i].item));
        assert(ts[n + 2 * i] == item_token(c.params[i].item));
        lemma_readings(read, ts, fs, n + 2 * i);
        assert(gs[2 * i] == fs[n + 2 * i]);
        assert(commands[0].params[i] == literal_item(c.params[i].item, gs[2 * i]));
    }
}

proof fn lemma_header_tokens_nonempty(segments: Seq<WrittenSegment>)
    requires
        segments.len() > 0,
    ensures
        header_tokens(segments).len() > 0,
{
}

/// A written command is parsed as the one command that it writes down: its
/// header is the names of its segments with colons between them, its suffix
/// the last one in the header, and its parameters those that are written, in
/// order, each read for what it says.  A leading colon and white space make
/// no difference.
pub proof fn law_written_commands_are_parsed<F: Fn(&str) -> Option<Binary64>>(
    read: F,
    c: WrittenCommand,
    commands: Seq<CommandView>,
)
    requires
        c.well_formed(),
        parses(read, c.text(), commands),
    ensures
        commands.len() == 1,
        commands[0].header == joined(segment_names(c.segments), ':'),
        commands[0].is_query == c.is_query,
        commands[0].suffix == header_suffix(c.segments),
        commands[0].params.len() == c.params.len(),
        forall|i: int|
            0 <= i < c.params.len() ==> is_read_as(
                read,
                c.params[i].item,
                #[trigger] commands[0].params[i],
            ),
{
    let literal = choose|literal: Seq<CommandView>| #[trigger]
        parses_literally(read, c.text(), literal) && commands == all_with_shorthands(literal);
    law_written_commands_are_parsed_literally(read, c, literal);
    assert forall|i: int| 0 <= i < c.params.len() implies is_read_as(
        read,
        c.params[i].item,
        #[trigger] commands[0].params[i],
    ) by {
        let q = literal[0].params[i];
        assert(is_literally(read, c.params[i].item, q));
        if let WrittenItem::Text(p) = c.params[i].item {
            let float = choose|float: Option<Binary64>|
                (needs_float(p) ==> reads(read, p, float)) && q == #[trigger] literal_param(
                    p,
                    float,
                );
            assert(commands[0].params[i] == char_param(p, float));
        }
    }
}

} // verus!
